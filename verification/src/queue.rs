//! Messages that wait on a lane, and the map which holds them.

use crate::packet::{FragmentPayload, FragmentPosition};
use crate::time::Instant;
use bevy_platform::collections::HashMap;
use vstd::prelude::*;

verus! {

/// Fragment of a message which waits on a lane.
#[derive(Debug)]
pub struct SentFragment {
    /// Where the fragment stands in its message.
    pub position: FragmentPosition,
    /// Bytes that the fragment carries.
    pub payload: FragmentPayload,
    /// When the message was pushed.
    pub sent_at: Instant,
    /// When the fragment may next be put into a packet.
    pub next_flush_at: Instant,
    /// Whether the fragment was ever put into a packet.
    pub flushed: bool,
}

/// What a [`SentFragment`] stands for.
pub struct FragModel {
    /// Where the fragment stands in its message.
    pub position: FragmentPosition,
    /// Bytes that the fragment carries.
    pub payload: Seq<u8>,
    /// When the message was pushed.
    pub sent_at: Instant,
    /// When the fragment may next be put into a packet.
    pub next_flush_at: Instant,
    /// Whether the fragment was ever put into a packet.
    pub flushed: bool,
}

impl View for SentFragment {
    type V = FragModel;

    open spec fn view(&self) -> FragModel {
        FragModel {
            position: self.position,
            payload: self.payload@,
            sent_at: self.sent_at,
            next_flush_at: self.next_flush_at,
            flushed: self.flushed,
        }
    }
}

impl Clone for SentFragment {
    fn clone(&self) -> (r: Self)
        ensures
            r@ == self@,
    {
        SentFragment {
            position: self.position,
            payload: self.payload.clone(),
            sent_at: self.sent_at,
            next_flush_at: self.next_flush_at,
            flushed: self.flushed,
        }
    }
}

/// Message which waits on a lane, as the fragments it was split into. A
/// fragment that need not be sent any more leaves its slot empty.
#[derive(Debug)]
pub struct SentMessage {
    /// One slot for each fragment of the message.
    pub frags: Vec<Option<SentFragment>>,
}

/// What a fragment slot stands for.
pub open spec fn slot_view(slot: Option<SentFragment>) -> Option<FragModel> {
    match slot {
        Some(frag) => Some(frag@),
        None => None,
    }
}

impl View for SentMessage {
    type V = Seq<Option<FragModel>>;

    open spec fn view(&self) -> Seq<Option<FragModel>> {
        Seq::new(self.frags@.len(), |i: int| slot_view(self.frags@[i]))
    }
}

impl Clone for SentMessage {
    fn clone(&self) -> (r: Self)
        ensures
            r@ == self@,
    {
        let mut frags: Vec<Option<SentFragment>> = Vec::new();
        let mut i: usize = 0;
        while i < self.frags.len()
            invariant
                i == frags@.len(),
                i <= self.frags@.len(),
                forall|j: int|
                    0 <= j < i ==> slot_view(#[trigger] frags@[j]) == slot_view(self.frags@[j]),
            decreases self.frags@.len() - i,
        {
            let slot = match &self.frags[i] {
                Some(frag) => Some(frag.clone()),
                None => None,
            };
            frags.push(slot);
            i += 1;
        }
        let msg = SentMessage { frags };
        assert(msg@ =~= self@);
        msg
    }
}

/// Whether a message has a fragment that is still to be sent.
pub open spec fn has_frag(msg: Seq<Option<FragModel>>) -> bool {
    exists|i: int| 0 <= i < msg.len() && #[trigger] msg[i] is Some
}

/// Whether a message has a fragment that was never put into a packet.
pub open spec fn unflushed(msg: Seq<Option<FragModel>>) -> bool {
    exists|i: int| 0 <= i < msg.len() && (#[trigger] msg[i]) is Some && !msg[i]->0.flushed
}

impl SentMessage {
    /// Gets whether the message has a fragment that was never put into a packet.
    pub fn is_unflushed(&self) -> (r: bool)
        ensures
            r == unflushed(self@),
    {
        let mut i: usize = 0;
        while i < self.frags.len()
            invariant
                i <= self.frags@.len(),
                forall|j: int|
                    0 <= j < i ==> (#[trigger] self@[j]) is None || self@[j]->0.flushed,
            decreases self.frags@.len() - i,
        {
            assert(slot_view(self.frags@[i as int]) == self@[i as int]);
            if let Some(frag) = &self.frags[i] {
                if !frag.flushed {
                    return true;
                }
            }
            i += 1;
        }
        false
    }

    /// Gets whether the message has a fragment that is still to be sent.
    pub fn has_frags(&self) -> (r: bool)
        ensures
            r == has_frag(self@),
    {
        let mut i: usize = 0;
        while i < self.frags.len()
            invariant
                i <= self.frags@.len(),
                forall|j: int| 0 <= j < i ==> #[trigger] self@[j] is None,
            decreases self.frags@.len() - i,
        {
            if self.frags[i].is_some() {
                assert(self@[i as int] is Some);
                return true;
            }
            i += 1;
        }
        false
    }
}

/// Hasher which gives the same hashes in every run.
#[verifier::external_type_specification]
#[verifier::external_body]
pub struct ExFixedHasher(bevy_platform::hash::FixedHasher);

/// The hash map of the `bevy_platform` crate.
#[verifier::external_type_specification]
#[verifier::external_body]
#[verifier::reject_recursive_types(K)]
#[verifier::reject_recursive_types(V)]
#[verifier::reject_recursive_types(S)]
pub struct ExHashMap<K, V, S>(bevy_platform::collections::HashMap<K, V, S>);

/// The messages that a map holds, by their sequence number on the lane.
pub uninterp spec fn map_contents(m: HashMap<u16, SentMessage>) -> Map<u16, SentMessage>;

/// `HashMap::default`: a map that holds nothing.
#[verifier::external_body]
pub(crate) fn map_empty() -> (r: HashMap<u16, SentMessage>)
    ensures
        map_contents(r).dom() == Set::<u16>::empty(),
{
    HashMap::default()
}

/// `HashMap::contains_key`: whether there is a message with this number.
#[verifier::external_body]
pub(crate) fn map_contains_key(m: &HashMap<u16, SentMessage>, key: u16) -> (r: bool)
    ensures
        r == map_contents(*m).contains_key(key),
{
    m.contains_key(&key)
}

/// `HashMap::insert`: puts a message in place of the one with this number.
#[verifier::external_body]
pub(crate) fn map_insert(m: &mut HashMap<u16, SentMessage>, key: u16, msg: SentMessage)
    ensures
        map_contents(*final(m)) == map_contents(*old(m)).insert(key, msg),
{
    m.insert(key, msg);
}

/// `HashMap::get_mut`: lends out the message with this number, and keeps what
/// the borrower makes of it.
#[verifier::external_body]
pub(crate) fn map_get_mut(m: &mut HashMap<u16, SentMessage>, key: u16) -> (r: Option<
    &mut SentMessage,
>)
    ensures
        match r {
            Some(msg) => {
                &&& map_contents(*old(m)).contains_key(key)
                &&& *msg == map_contents(*old(m))[key]
                &&& map_contents(*final(m)) == map_contents(*old(m)).insert(key, *final(msg))
            },
            None => {
                &&& !map_contents(*old(m)).contains_key(key)
                &&& map_contents(*final(m)) == map_contents(*old(m))
            },
        },
{
    m.get_mut(&key)
}

/// `HashMap::retain` on whether messages have fragments: drops the messages
/// that have none, and keeps the others as they are.
#[verifier::external_body]
pub(crate) fn map_retain_with_frags(m: &mut HashMap<u16, SentMessage>)
    ensures
        map_contents(*final(m)) == map_contents(*old(m)).restrict(
            Set::new(
                |key: u16|
                    map_contents(*old(m)).contains_key(key) && has_frag(
                        map_contents(*old(m))[key]@,
                    ),
            ),
        ),
{
    m.retain(|_, msg| msg.has_frags());
}

/// `HashMap::iter`: the numbers and the messages, each of them once, in an
/// order of which nothing is said.
#[verifier::external_body]
pub(crate) fn map_iter(m: &HashMap<u16, SentMessage>) -> (r: Vec<(u16, &SentMessage)>)
    ensures
        forall|i: int|
            0 <= i < r@.len() ==> map_contents(*m).contains_key(#[trigger] r@[i].0) && *r@[i].1
                == map_contents(*m)[r@[i].0],
        forall|i: int, j: int|
            0 <= i < j < r@.len() ==> (#[trigger] r@[i]).0 != (#[trigger] r@[j]).0,
        forall|key: u16| #[trigger]
            map_contents(*m).contains_key(key) ==> exists|i: int|
                0 <= i < r@.len() && (#[trigger] r@[i]).0 == key,
{
    m.iter().map(|(key, msg)| (*key, msg)).collect()
}

}
