//! Limits on how many bytes may be sent.

use vstd::prelude::*;

verus! {

/// More tokens were asked for than there are.
#[derive(Debug, Clone, Copy, PartialEq, Eq, Structural)]
pub struct NotEnoughTokens;

/// Holds tokens up to a cap, which are used up and filled in again.
#[derive(Debug, Clone, Copy)]
pub struct TokenBucket {
    cap: usize,
    rem: usize,
}

/// What a [`TokenBucket`] holds.
pub struct BucketModel {
    /// Most tokens that the bucket can hold.
    pub cap: nat,
    /// Tokens that the bucket holds.
    pub rem: nat,
}

impl BucketModel {
    /// Whether the bucket holds no more than it can.
    pub open spec fn wf(self) -> bool {
        self.rem <= self.cap <= usize::MAX
    }

    /// The bucket with another cap. Tokens over it are lost.
    pub open spec fn capped(self, cap: nat) -> BucketModel {
        BucketModel { cap, rem: min_nat(self.rem, cap) }
    }

    /// The bucket with this many more tokens. Those over the cap are lost.
    pub open spec fn refilled(self, tokens: nat) -> BucketModel {
        BucketModel { cap: self.cap, rem: min_nat(self.rem + tokens, self.cap) }
    }
}

/// The smaller of two numbers.
pub open spec fn min_nat(a: nat, b: nat) -> nat {
    if a <= b {
        a
    } else {
        b
    }
}

impl View for TokenBucket {
    type V = BucketModel;

    closed spec fn view(&self) -> BucketModel {
        BucketModel { cap: self.cap as nat, rem: self.rem as nat }
    }
}

impl TokenBucket {
    /// Makes a full bucket.
    pub fn new(cap: usize) -> (r: Self)
        ensures
            r@ == (BucketModel { cap: cap as nat, rem: cap as nat }),
    {
        TokenBucket { cap, rem: cap }
    }

    /// Gets how many tokens the bucket can hold.
    pub fn cap(&self) -> (r: usize)
        ensures
            r == self@.cap,
    {
        self.cap
    }

    /// Gets how many tokens the bucket holds.
    pub fn rem(&self) -> (r: usize)
        ensures
            r == self@.rem,
    {
        self.rem
    }

    /// Sets how many tokens the bucket can hold. Those over the cap are lost.
    pub fn set_cap(&mut self, cap: usize)
        ensures
            final(self)@ == old(self)@.capped(cap as nat),
    {
        self.cap = cap;
        if self.rem > cap {
            self.rem = cap;
        }
    }

    /// Fills in this many tokens. Those over the cap are lost.
    pub fn refill_exact(&mut self, tokens: usize)
        requires
            old(self)@.wf(),
        ensures
            final(self)@ == old(self)@.refilled(tokens as nat),
    {
        let space = self.cap - self.rem;
        if tokens < space {
            self.rem = self.rem + tokens;
        } else {
            self.rem = self.cap;
        }
    }

    /// Limits what is taken from this bucket to `cap` tokens in all.
    pub fn min_of(self, cap: usize) -> (r: MinOf)
        ensures
            r.bucket() == self@,
            r.left() == cap,
    {
        MinOf { bucket: self, left: cap }
    }
}

/// Takes tokens from a bucket, up to some number of them in all.
#[derive(Debug, Clone, Copy)]
pub struct MinOf {
    bucket: TokenBucket,
    left: usize,
}

impl MinOf {
    /// The bucket that tokens are taken from.
    pub closed spec fn bucket(self) -> BucketModel {
        self.bucket@
    }

    /// How many tokens may still be taken, as far as the bucket has them.
    pub closed spec fn left(self) -> nat {
        self.left as nat
    }

    /// How many tokens there are to take.
    pub open spec fn room(self) -> nat {
        min_nat(self.bucket().rem, self.left())
    }

    /// Takes `n` tokens, or none where there are fewer.
    pub fn consume(&mut self, n: usize) -> (r: Result<(), NotEnoughTokens>)
        ensures
            r is Ok <==> n <= old(self).room(),
            r is Ok ==> final(self).bucket() == (BucketModel {
                cap: old(self).bucket().cap,
                rem: (old(self).bucket().rem - n) as nat,
            }) && final(self).left() == old(self).left() - n,
            r is Err ==> *final(self) == *old(self),
    {
        if n <= self.bucket.rem && n <= self.left {
            self.bucket.rem = self.bucket.rem - n;
            self.left = self.left - n;
            Ok(())
        } else {
            Err(NotEnoughTokens)
        }
    }

    /// Gives back the bucket.
    pub fn into_bucket(self) -> (r: TokenBucket)
        ensures
            r@ == self.bucket(),
    {
        self.bucket
    }
}

}
