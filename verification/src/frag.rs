//! Splitting of messages into fragments.

use crate::octets::{bytes_contents, bytes_len, bytes_slice};
use crate::packet::{FragmentPayload, FragmentPosition};
use crate::size::MinSize;
use octs::Bytes;
use vstd::arithmetic::div_mod::{lemma_fundamental_div_mod, lemma_mod_bound};
use vstd::prelude::*;

verus! {

/// Message has too many bytes for its fragments to be counted.
#[derive(Debug, Clone, Copy, PartialEq, Eq, Structural)]
pub struct MessageTooBig {
    /// How many bytes the message has.
    pub len: usize,
    /// How many bytes it could have.
    pub max: u64,
}

/// Most fragments that a message can be split into.
pub const MAX_FRAGS: u64 = 0x8000_0000;

/// How many fragments of up to `max` bytes it takes for `len` bytes.
pub open spec fn num_frags(len: nat, max: nat) -> nat {
    if len == 0 {
        0
    } else {
        (len - 1) as nat / max + 1
    }
}

/// Whether a message of `len` bytes can be split into fragments of up to `max`
/// bytes.
pub open spec fn splittable(len: nat, max: nat) -> bool {
    len <= max * MAX_FRAGS
}

/// Bytes of a message that its fragment at `index` carries, where fragments
/// carry up to `max` bytes.
pub open spec fn chunk(msg: Seq<u8>, max: nat, index: int) -> Seq<u8> {
    msg.subrange(
        index * max,
        if (index + 1) * max <= msg.len() {
            (index + 1) * max
        } else {
            msg.len() as int
        },
    )
}

/// The fragments cover the message, and none of them is empty.
pub proof fn lemma_num_frags(len: nat, max: nat)
    requires
        max > 0,
    ensures
        len <= num_frags(len, max) * max,
        len > 0 ==> (num_frags(len, max) - 1) * max < len,
        forall|i: int| #![trigger i * max] 0 <= i < num_frags(len, max) ==> 0 <= i * max < len,
        splittable(len, max) <==> num_frags(len, max) <= MAX_FRAGS,
{
    if len > 0 {
        let n = num_frags(len, max);
        let q = (len - 1) as int / max as int;
        lemma_fundamental_div_mod((len - 1) as int, max as int);
        lemma_mod_bound((len - 1) as int, max as int);
        assert(max * q == q * max) by (nonlinear_arith);
        assert(q >= 0) by (nonlinear_arith)
            requires
                q == (len - 1) as int / max as int,
                len > 0,
                max > 0,
        ;
        assert(n * max == q * max + max) by (nonlinear_arith)
            requires
                n == q + 1,
        ;
        assert forall|i: int| #![trigger i * max] 0 <= i < n implies 0 <= i * max < len by {
            assert(0 <= i * max <= q * max) by (nonlinear_arith)
                requires
                    0 <= i <= q,
                    max >= 0,
            ;
        }
        if n <= MAX_FRAGS {
            assert(n * max <= max * MAX_FRAGS) by (nonlinear_arith)
                requires
                    n <= MAX_FRAGS,
            ;
        } else {
            assert((n - 1) * max >= max * MAX_FRAGS) by (nonlinear_arith)
                requires
                    n - 1 >= MAX_FRAGS,
                    max > 0,
            ;
        }
    }
}

/// Splits a message into fragments of up to `max_frag_len` bytes. A message
/// without any bytes gives no fragments.
pub fn split(max_frag_len: MinSize, msg: &Bytes) -> (r: Result<
    Vec<(FragmentPosition, FragmentPayload)>,
    MessageTooBig,
>)
    requires
        max_frag_len.0 > 0,
    ensures
        ({
            let bytes = bytes_contents(*msg);
            let max = max_frag_len.0 as nat;
            match r {
                Ok(frags) => {
                    &&& splittable(bytes.len(), max)
                    &&& frags@.len() == num_frags(bytes.len(), max)
                    &&& forall|i: int|
                        0 <= i < frags@.len() ==> (#[trigger] frags@[i]).0 == FragmentPosition::at(
                            i,
                            i == frags@.len() - 1,
                        ) && frags@[i].1@ == chunk(bytes, max, i)
                },
                Err(e) => {
                    &&& !splittable(bytes.len(), max)
                    &&& e.len == bytes.len()
                    &&& e.max == max * MAX_FRAGS
                },
            }
        }),
{
    let len = bytes_len(msg);
    let step = max_frag_len.to_usize();
    let ghost bytes = bytes_contents(*msg);
    let ghost max = max_frag_len.0 as nat;
    let max_len: u64 = max_frag_len.0 as u64 * MAX_FRAGS;
    if len as u64 > max_len {
        return Err(MessageTooBig { len, max: max_len });
    }
    let mut frags: Vec<(FragmentPosition, FragmentPayload)> = Vec::new();
    let ghost n = num_frags(bytes.len(), max);
    proof {
        lemma_num_frags(bytes.len(), max);
        assert(0 * max == 0);
    }
    let mut start: usize = 0;
    let mut index: u32 = 0;
    while start < len
        invariant
            bytes == bytes_contents(*msg),
            len == bytes.len(),
            max == max_frag_len.0,
            step == max,
            max > 0,
            n == num_frags(bytes.len(), max),
            n <= MAX_FRAGS,
            index == frags@.len(),
            index <= n,
            index < n ==> start == index * max,
            index == n ==> start == len,
            start <= len,
            forall|i: int|
                0 <= i < frags@.len() ==> (#[trigger] frags@[i]).0 == FragmentPosition::at(
                    i,
                    i == n - 1,
                ) && frags@[i].1@ == chunk(bytes, max, i),
        decreases len - start,
    {
        proof {
            lemma_num_frags(bytes.len(), max);
            assert((index + 1) * max == index * max + max) by (nonlinear_arith);
            assert(index + 1 < n ==> (index + 1) * max < len);
        }
        let rest = len - start;
        let (end, position) = if rest > step {
            (start + step, FragmentPosition::non_last(MinSize(index)))
        } else {
            (len, FragmentPosition::last(MinSize(index)))
        };
        let payload = FragmentPayload::new(bytes_slice(msg, start, end));
        assert(rest <= step <==> index == n - 1);
        assert(position is Some && payload is Some);
        if let (Some(position), Some(payload)) = (position, payload) {
            frags.push((position, payload));
        }
        start = end;
        index += 1;
    }
    Ok(frags)
}

}
