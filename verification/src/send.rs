//! Sending logic of a transport.

use crate::frag::{split, MessageTooBig};
use crate::lane::{LaneIndex, LaneKind, LaneReliability};
use crate::limit::{MinOf, TokenBucket};
use crate::model::{
    after_send, begin, due, fill, flush_in, flush_order, flush_rest, flush_work, frag_at,
    has_frag_at, has_slot, lemma_pushed_wf, lemma_with_same_slot, msg_slots, msg_wf, new_lane,
    new_send, next_header, packet_room, pruned, push_result, pushed, slot_after_send, slot_at, step,
    wire_at, with_slot, FlushModel, Flushed, FlushedModel, LaneModel, SendModel, Slots,
    TransportModel,
};
use crate::octets::{bytes_contents, bytes_from_vec};
use crate::order::{
    all_due, by_time, lane_due, lemma_all_due_next, lemma_all_due_same, lemma_flush_order_sendable,
    lemma_lane_lists_due, lemma_resendable_order, lemma_sorted_is_flush_order, lists_all, msg_due,
    resendable_when_due, untimed, TimedPath,
};
use crate::packet::{
    Fragment, FragmentHeader, FragmentPayload, FragmentPosition, MessageSeq, PacketHeader,
    PacketSeq, MAX_FRAG_OVERHEAD, PACKET_HEADER_LEN,
};
use crate::packing::{
    flush_ready, lemma_fill, lemma_fill_next, lemma_fill_none, lemma_pruned_wf, lemma_sendable_take,
    lemma_step_decreases, lemma_step_ready, resendable, sendable,
};
use crate::queue::{
    map_contains_key, map_contents, map_empty, map_get_mut, map_insert, map_iter,
    map_retain_with_frags, slot_view, unflushed, FragModel, SentFragment, SentMessage,
};
use crate::rtt::RttEstimator;
use crate::size::MinSize;
use crate::time::{Duration, Instant};
use crate::transport::{FlushedPacket, FragmentPath, MessageKey, Transport};
use bevy_platform::collections::HashMap;
use octs::Bytes;
use vstd::prelude::*;

verus! {

/// Lets messages be queued for sending.
#[derive(Debug)]
pub struct TransportSend {
    max_frag_len: MinSize,
    lanes: Vec<SendLane>,
    bytes_bucket: TokenBucket,
    next_packet_seq: PacketSeq,
    error: Option<TransportSendError>,
}

/// State of a lane which messages are sent along.
#[derive(Debug)]
pub struct SendLane {
    kind: LaneKind,
    sent_msgs: HashMap<u16, SentMessage>,
    next_msg_seq: MessageSeq,
}

/// Why a message could not be queued.
#[derive(Debug, Clone, Copy, PartialEq, Eq, Structural)]
pub enum TransportSendError {
    /// So many messages are queued that the sequence number of one of them
    /// would be used again.
    TooManyMessages,
    /// The message was too big.
    MessageTooBig(MessageTooBig),
}

impl From<MessageTooBig> for TransportSendError {
    fn from(err: MessageTooBig) -> (r: Self) {
        TransportSendError::MessageTooBig(err)
    }
}

impl vstd::std_specs::convert::FromSpecImpl<MessageTooBig> for TransportSendError {
    open spec fn obeys_from_spec() -> bool {
        true
    }

    open spec fn from_spec(err: MessageTooBig) -> Self {
        TransportSendError::MessageTooBig(err)
    }
}

impl View for SendLane {
    type V = LaneModel;

    closed spec fn view(&self) -> LaneModel {
        LaneModel {
            kind: self.kind,
            msgs: map_contents(self.sent_msgs).map_values(|msg: SentMessage| msg@),
            next_msg_seq: self.next_msg_seq,
        }
    }
}

/// State of each of these lanes.
pub open spec fn lanes_view(lanes: Seq<SendLane>) -> Seq<LaneModel> {
    Seq::new(lanes.len(), |i: int| lanes[i]@)
}

impl View for TransportSend {
    type V = SendModel;

    closed spec fn view(&self) -> SendModel {
        SendModel {
            max_frag_len: self.max_frag_len,
            lanes: lanes_view(self.lanes@),
            bucket: self.bytes_bucket@,
            next_packet_seq: self.next_packet_seq,
            error: self.error,
        }
    }
}

impl TransportSend {
    /// Makes state with these lanes, on which no message is queued.
    pub fn new(max_frag_len: MinSize, lanes: Vec<LaneKind>) -> (r: Self)
        requires
            max_frag_len.0 > 0,
            max_frag_len.0 + PACKET_HEADER_LEN + MAX_FRAG_OVERHEAD <= usize::MAX,
        ensures
            r@ == new_send(max_frag_len, lanes@),
            r@.wf(),
    {
        let mut send_lanes: Vec<SendLane> = Vec::new();
        let mut i: usize = 0;
        while i < lanes.len()
            invariant
                i == send_lanes@.len(),
                i <= lanes@.len(),
                forall|j: int| 0 <= j < i ==> (#[trigger] send_lanes@[j])@ == new_lane(lanes@[j]),
            decreases lanes@.len() - i,
        {
            let lane = SendLane {
                kind: lanes[i],
                sent_msgs: map_empty(),
                next_msg_seq: MessageSeq::new(0),
            };
            assert(lane@.msgs =~= Map::empty());
            send_lanes.push(lane);
            i += 1;
        }
        assert(lanes_view(send_lanes@) =~= new_send(max_frag_len, lanes@).lanes);
        TransportSend {
            max_frag_len,
            lanes: send_lanes,
            bytes_bucket: TokenBucket::new(usize::MAX),
            next_packet_seq: PacketSeq::new(0),
            error: None,
        }
    }

    /// Gets access to the state of the sender-side lanes.
    #[must_use]
    pub fn lanes(&self) -> (r: &[SendLane])
        ensures
            r@.len() == self@.lanes.len(),
            forall|i: int| 0 <= i < r@.len() ==> (#[trigger] r@[i])@ == self@.lanes[i],
    {
        self.lanes.as_slice()
    }

    /// Gets access to the bucket which tracks how many bytes are left for
    /// outgoing packets.
    #[must_use]
    pub fn bytes_bucket(&self) -> (r: &TokenBucket)
        ensures
            r@ == self@.bucket,
    {
        &self.bytes_bucket
    }

    /// Sets how many bytes of packets can be saved up to be sent.
    pub fn set_bytes_cap(&mut self, cap: usize)
        ensures
            final(self)@ == (SendModel {
                bucket: old(self)@.bucket.capped(cap as nat),
                ..old(self)@
            }),
            old(self)@.wf() ==> final(self)@.wf(),
    {
        self.bytes_bucket.set_cap(cap);
    }

    /// Lets this many more bytes of packets be sent.
    pub fn refill_bytes(&mut self, bytes: usize)
        requires
            old(self)@.bucket.wf(),
        ensures
            final(self)@ == (SendModel {
                bucket: old(self)@.bucket.refilled(bytes as nat),
                ..old(self)@
            }),
            old(self)@.wf() ==> final(self)@.wf(),
    {
        self.bytes_bucket.refill_exact(bytes);
    }

    /// Gives why a message could not be queued, if that happened since this was
    /// last asked. The transport has to be disconnected then.
    pub fn take_error(&mut self) -> (r: Option<TransportSendError>)
        ensures
            r == old(self)@.error,
            final(self)@ == (SendModel { error: None, ..old(self)@ }),
            old(self)@.wf() ==> final(self)@.wf(),
    {
        let error = self.error;
        self.error = None;
        error
    }

    /// Attempts to enqueue a message on this transport for sending. It is sent
    /// out by a later flush.
    ///
    /// If the message was enqueued, returns a key of this message, which no
    /// other message has that is queued.
    ///
    /// If the message could not be enqueued, the error is kept as well, and the
    /// transport has to be disconnected: the message may have been for a
    /// reliable lane, which guarantees that its messages arrive.
    pub fn push(&mut self, lane_index: LaneIndex, msg: Bytes, now: Instant) -> (r: Result<
        MessageKey,
        TransportSendError,
    >)
        requires
            old(self)@.wf(),
            lane_index.0.0 < old(self)@.lanes.len(),
        ensures
            r == push_result(old(self)@, lane_index, bytes_contents(msg)),
            final(self)@ == pushed(old(self)@, lane_index, bytes_contents(msg), now),
            final(self)@.wf(),
    {
        let ghost before = self@;
        let result = self.try_push(lane_index, msg, now);
        if let Err(err) = result {
            self.error = Some(err);
        }
        proof {
            lemma_pushed_wf(before, lane_index, bytes_contents(msg), now);
        }
        result
    }

    /// Enqueues a message, without keeping the error where it can't be.
    fn try_push(&mut self, lane_index: LaneIndex, msg: Bytes, now: Instant) -> (r: Result<
        MessageKey,
        TransportSendError,
    >)
        requires
            old(self)@.wf(),
            lane_index.0.0 < old(self)@.lanes.len(),
        ensures
            r == push_result(old(self)@, lane_index, bytes_contents(msg)),
            r is Ok ==> final(self)@ == pushed(old(self)@, lane_index, bytes_contents(msg), now),
            r is Err ==> *final(self) == *old(self),
    {
        let ghost before = self@;
        let ghost bytes = bytes_contents(msg);
        let ghost max = self.max_frag_len.0 as nat;
        let index = lane_index.0.to_usize();
        let msg_seq = self.lanes[index].next_msg_seq;
        if map_contains_key(&self.lanes[index].sent_msgs, msg_seq.0) {
            return Err(TransportSendError::TooManyMessages);
        }
        let mut parts = match split(self.max_frag_len, &msg) {
            Ok(parts) => parts,
            Err(err) => {
                return Err(TransportSendError::from(err));
            },
        };
        if parts.len() == 0 {
            // if the message is empty, splitting it gives no fragments.
            // this is unacceptable: nothing of the message would ever be put
            // into a packet, and so the peer could never acknowledge it.
            // even if a message is empty, its existence is important to track.
            parts.push((FragmentPosition::zero_last(), FragmentPayload::empty()));
        }
        let ghost slots = msg_slots(bytes, max, now);
        let mut frags: Vec<Option<SentFragment>> = Vec::new();
        let mut i: usize = 0;
        while i < parts.len()
            invariant
                i == frags@.len(),
                i <= parts@.len() == slots.len(),
                forall|j: int|
                    0 <= j < parts@.len() ==> #[trigger] slots[j] == Some(
                        FragModel {
                            position: parts@[j].0,
                            payload: parts@[j].1@,
                            sent_at: now,
                            next_flush_at: now,
                            flushed: false,
                        },
                    ),
                forall|j: int| 0 <= j < i ==> slot_view(#[trigger] frags@[j]) == slots[j],
            decreases parts@.len() - i,
        {
            frags.push(
                Some(
                    SentFragment {
                        position: parts[i].0,
                        payload: parts[i].1.clone(),
                        sent_at: now,
                        next_flush_at: now,
                        flushed: false,
                    },
                ),
            );
            i += 1;
        }
        let sent = SentMessage { frags };
        assert(sent@ =~= slots);
        let lane = &mut self.lanes[index];
        map_insert(&mut lane.sent_msgs, msg_seq.0, sent);
        lane.next_msg_seq = msg_seq.next();
        proof {
            let li = lane_index.0.0 as int;
            let goal = pushed(before, lane_index, bytes, now);
            assert(self@.lanes[li].msgs =~= goal.lanes[li].msgs);
            assert(self@.lanes =~= goal.lanes);
        }
        Ok(MessageKey { lane: lane_index, seq: msg_seq })
    }
}

impl Clone for SendLane {
    fn clone(&self) -> (r: Self)
        ensures
            r@ == self@,
    {
        let items = map_iter(&self.sent_msgs);
        let ghost all = map_contents(self.sent_msgs);
        let mut sent_msgs = map_empty();
        let mut i: usize = 0;
        while i < items.len()
            invariant
                i <= items@.len(),
                forall|j: int|
                    0 <= j < items@.len() ==> all.contains_key(#[trigger] items@[j].0)
                        && *items@[j].1 == all[items@[j].0],
                forall|key: u16| #[trigger]
                    map_contents(sent_msgs).contains_key(key) ==> all.contains_key(key)
                        && map_contents(sent_msgs)[key]@ == all[key]@,
                forall|j: int|
                    0 <= j < i ==> map_contents(sent_msgs).contains_key(#[trigger] items@[j].0),
            decreases items@.len() - i,
        {
            let (key, msg) = items[i];
            assert(all.contains_key(items@[i as int].0));
            map_insert(&mut sent_msgs, key, msg.clone());
            i += 1;
        }
        let lane = SendLane { kind: self.kind, sent_msgs, next_msg_seq: self.next_msg_seq };
        proof {
            assert forall|key: u16| #[trigger] all.contains_key(key) implies map_contents(
                sent_msgs,
            ).contains_key(key) by {
                let j = choose|j: int| 0 <= j < items@.len() && (#[trigger] items@[j]).0 == key;
                assert(map_contents(sent_msgs).contains_key(items@[j].0));
            }
            assert(lane@.msgs =~= self@.msgs);
        }
        lane
    }
}

impl SendLane {
    /// Gets what kind of lane this state represents.
    #[must_use]
    pub fn kind(&self) -> (r: LaneKind)
        ensures
            r == self@.kind,
    {
        self.kind
    }

    /// Gets the number of messages queued for sending, but which have not been
    /// flushed yet.
    #[must_use]
    pub fn num_queued_msgs(&self) -> (r: usize)
        ensures
            r == self@.queued().len(),
    {
        let msgs = map_iter(&self.sent_msgs);
        let ghost all = map_contents(self.sent_msgs);
        let ghost mut counted: Set<u16> = Set::empty();
        let mut count: usize = 0;
        let mut i: usize = 0;
        while i < msgs.len()
            invariant
                all == map_contents(self.sent_msgs),
                count <= i <= msgs@.len(),
                forall|j: int|
                    0 <= j < msgs@.len() ==> all.contains_key(#[trigger] msgs@[j].0) && *msgs@[j].1
                        == all[msgs@[j].0],
                forall|j: int, k: int|
                    0 <= j < k < msgs@.len() ==> (#[trigger] msgs@[j]).0 != (#[trigger] msgs@[k]).0,
                counted.finite(),
                counted.len() == count,
                forall|seq: u16| #[trigger]
                    counted.contains(seq) ==> all.contains_key(seq) && unflushed(all[seq]@),
                forall|seq: u16| #[trigger]
                    counted.contains(seq) ==> exists|j: int|
                        0 <= j < i && (#[trigger] msgs@[j]).0 == seq,
                forall|j: int|
                    0 <= j < i && unflushed((#[trigger] msgs@[j]).1@) ==> counted.contains(
                        msgs@[j].0,
                    ),
            decreases msgs@.len() - i,
        {
            let (seq, msg) = msgs[i];
            assert(all.contains_key(msgs@[i as int].0));
            assert(!counted.contains(seq));
            if msg.is_unflushed() {
                count += 1;
                proof {
                    counted = counted.insert(seq);
                }
            }
            i += 1;
        }
        proof {
            assert forall|seq: u16| self@.queued().contains(seq) implies counted.contains(seq) by {
                assert(all.contains_key(seq));
                let j = choose|j: int| 0 <= j < msgs@.len() && (#[trigger] msgs@[j]).0 == seq;
                assert(all.contains_key(msgs@[j].0));
            }
            assert(counted =~= self@.queued());
        }
        count
    }
}

/// Slot at this path.
spec fn slot_in(lanes: Seq<SendLane>, path: FragmentPath) -> Option<SentFragment> {
    map_contents(
        lanes[path.lane_index.0.0 as int].sent_msgs,
    )[path.msg_seq.0].frags@[path.frag_index.0 as int]
}

/// Whether lanes differ at most in the slot at this path.
spec fn slot_replaced(before: Seq<SendLane>, after: Seq<SendLane>, path: FragmentPath) -> bool {
    let li = path.lane_index.0.0 as int;
    let msgs_before = map_contents(before[li].sent_msgs);
    let msgs_after = map_contents(after[li].sent_msgs);
    let seq = path.msg_seq.0;
    &&& after == before.update(li, after[li])
    &&& after[li].kind == before[li].kind
    &&& after[li].next_msg_seq == before[li].next_msg_seq
    &&& msgs_after == msgs_before.insert(seq, msgs_after[seq])
    &&& msgs_after[seq].frags@ == msgs_before[seq].frags@.update(
        path.frag_index.0 as int,
        slot_in(after, path),
    )
}

/// Lanes that differ in one slot alone stand for lanes that do so too.
proof fn lemma_new_slot(
    before: Seq<SendLane>,
    after: Seq<SendLane>,
    path: FragmentPath,
    slot: Option<FragModel>,
)
    requires
        has_slot(lanes_view(before), path),
        slot_replaced(before, after, path),
        slot_view(slot_in(after, path)) == slot,
    ensures
        lanes_view(after) == with_slot(lanes_view(before), path, slot),
{
    let li = path.lane_index.0.0 as int;
    let seq = path.msg_seq.0;
    let fi = path.frag_index.0 as int;
    let msg_before = map_contents(before[li].sent_msgs)[seq];
    let msg_after = map_contents(after[li].sent_msgs)[seq];
    assert(msg_after@ =~= msg_before@.update(fi, slot));
    assert(after[li]@.msgs =~= before[li]@.msgs.insert(seq, msg_after@));
    assert(lanes_view(after) =~= with_slot(lanes_view(before), path, slot));
}

/// Puts the fragment at this path into a packet, if there is room for it. It is
/// then forgotten or kept to be sent again later, as its lane has it.
fn write_frag_at_path(
    now: Instant,
    rtt: &RttEstimator,
    lanes: &mut Vec<SendLane>,
    bytes_left: &mut MinOf,
    packet: &mut Vec<u8>,
    path: FragmentPath,
) -> (r: Result<(), ()>)
    requires
        has_frag_at(lanes_view(old(lanes)@), path),
        frag_at(lanes_view(old(lanes)@), path).payload.len() <= u32::MAX,
        frag_at(lanes_view(old(lanes)@), path).payload.len() + MAX_FRAG_OVERHEAD <= usize::MAX,
        lanes_view(old(lanes)@)[path.lane_index.0.0 as int].kind.is_reliable() ==> now.reaches(
            rtt@,
        ),
        old(packet)@.len() + old(bytes_left).room() <= isize::MAX,
    ensures
        r is Ok <==> wire_at(lanes_view(old(lanes)@), path).len() <= old(bytes_left).room(),
        r is Ok ==> {
            let wire = wire_at(lanes_view(old(lanes)@), path);
            &&& final(packet)@ == old(packet)@ + wire
            &&& lanes_view(final(lanes)@) == after_send(lanes_view(old(lanes)@), path, now, rtt@)
            &&& final(bytes_left).bucket().cap == old(bytes_left).bucket().cap
            &&& final(bytes_left).bucket().rem == old(bytes_left).bucket().rem - wire.len()
            &&& final(bytes_left).left() == old(bytes_left).left() - wire.len()
        },
        r is Err ==> {
            &&& final(packet)@ == old(packet)@
            &&& lanes_view(final(lanes)@) == lanes_view(old(lanes)@)
            &&& *final(bytes_left) == *old(bytes_left)
        },
{
    let ghost before = lanes_view(lanes@);
    let lane = &mut lanes[path.lane_index.0.to_usize()];
    let kind = lane.kind;
    let Some(msg) = map_get_mut(&mut lane.sent_msgs, path.msg_seq.0) else {
        return Err(());
    };
    let slot = &mut msg.frags[path.frag_index.to_usize()];
    let frag = match slot {
        Some(sent_frag) => Fragment {
            header: FragmentHeader {
                seq: path.msg_seq,
                lane: path.lane_index,
                position: sent_frag.position,
            },
            payload: sent_frag.payload.clone(),
        },
        None => {
            return Err(());
        },
    };
    if bytes_left.consume(frag.encode_len()).is_err() {
        proof {
            lemma_new_slot(old(lanes)@, lanes@, path, slot_at(before, path));
            lemma_with_same_slot(before, path);
        }
        return Err(());
    }
    frag.encode(packet);
    match kind.reliability() {
        LaneReliability::Unreliable => {
            *slot = None;
        },
        LaneReliability::Reliable => {
            if let Some(sent_frag) = slot {
                sent_frag.next_flush_at = now.later_by(rtt.pto());
                sent_frag.flushed = true;
            }
        },
    }
    proof {
        lemma_new_slot(
            old(lanes)@,
            lanes@,
            path,
            slot_after_send(kind, frag_at(before, path), now, rtt@),
        );
    }
    Ok(())
}

/// What these messages stand for.
pub open spec fn items_view(msgs: Seq<(u16, &SentMessage)>) -> Seq<(u16, Slots)> {
    Seq::new(msgs.len(), |i: int| (msgs[i].0, msgs[i].1@))
}

/// Going through the map of a lane lists the messages of the lane.
proof fn lemma_iter_lists_all(lane: SendLane, msgs: Seq<(u16, &SentMessage)>)
    requires
        forall|i: int|
            0 <= i < msgs.len() ==> map_contents(lane.sent_msgs).contains_key(#[trigger] msgs[i].0)
                && *msgs[i].1 == map_contents(lane.sent_msgs)[msgs[i].0],
        forall|i: int, j: int|
            0 <= i < j < msgs.len() ==> (#[trigger] msgs[i]).0 != (#[trigger] msgs[j]).0,
        forall|key: u16| #[trigger]
            map_contents(lane.sent_msgs).contains_key(key) ==> exists|i: int|
                0 <= i < msgs.len() && (#[trigger] msgs[i]).0 == key,
    ensures
        lists_all(items_view(msgs), lane@.msgs),
        forall|i: int|
            0 <= i < msgs.len() ==> lane@.msgs.contains_key((#[trigger] msgs[i]).0)
                && msgs[i].1.frags@.len() == lane@.msgs[msgs[i].0].len(),
{
    let items = items_view(msgs);
    assert forall|seq: u16| #[trigger] lane@.msgs.contains_key(seq) implies exists|i: int|
        0 <= i < items.len() && (#[trigger] items[i]).0 == seq by {
        assert(map_contents(lane.sent_msgs).contains_key(seq));
        let i = choose|i: int| 0 <= i < msgs.len() && (#[trigger] msgs[i]).0 == seq;
        assert(items[i].0 == seq);
    }
    assert forall|i: int| 0 <= i < msgs.len() implies lane@.msgs.contains_key(
        (#[trigger] msgs[i]).0,
    ) && msgs[i].1@ == lane@.msgs[msgs[i].0] by {
        assert(map_contents(lane.sent_msgs).contains_key(msgs[i].0));
    }
    assert forall|i: int| 0 <= i < items.len() implies lane@.msgs.contains_key(
        (#[trigger] items[i]).0,
    ) && items[i].1 == lane@.msgs[items[i].0] by {
        assert(lane@.msgs.contains_key(msgs[i].0));
    }
    assert forall|i: int, j: int| 0 <= i < j < items.len() implies (#[trigger] items[i]).0 != (
    #[trigger] items[j]).0 by {
        assert(msgs[i].0 != msgs[j].0);
    }
}

/// Gives the paths of the fragments of these messages that are due, message by
/// message, each with the time at which its message was pushed.
pub fn due_paths(now: Instant, lane_index: LaneIndex, msgs: &Vec<(u16, &SentMessage)>) -> (r: Vec<
    TimedPath,
>)
    requires
        forall|i: int|
            0 <= i < msgs@.len() ==> (#[trigger] msgs@[i]).1.frags@.len() <= 0x1_0000_0000,
    ensures
        r@ == lane_due(lane_index, items_view(msgs@), now),
{
    let mut paths: Vec<TimedPath> = Vec::new();
    let ghost items = items_view(msgs@);
    let mut k: usize = 0;
    assert(items.take(0) =~= Seq::empty());
    while k < msgs.len()
        invariant
            k <= msgs@.len(),
            items == items_view(msgs@),
            forall|i: int|
                0 <= i < msgs@.len() ==> (#[trigger] msgs@[i]).1.frags@.len() <= 0x1_0000_0000,
            paths@ == lane_due(lane_index, items.take(k as int), now),
        decreases msgs@.len() - k,
    {
        let (seq, msg) = msgs[k];
        let msg_seq = MessageSeq(seq);
        let ghost before = paths@;
        let mut i: usize = 0;
        assert(before + msg_due(lane_index, msg_seq, msg@, now, 0) =~= before);
        while i < msg.frags.len()
            invariant
                i <= msg.frags@.len() <= 0x1_0000_0000,
                paths@ == before + msg_due(lane_index, msg_seq, msg@, now, i as nat),
            decreases msg.frags@.len() - i,
        {
            assert(slot_view(msg.frags@[i as int]) == msg@[i as int]);
            if let Some(frag) = &msg.frags[i] {
                if now.nanos >= frag.next_flush_at.nanos {
                    let path = FragmentPath { lane_index, msg_seq, frag_index: MinSize(i as u32) };
                    paths.push((path, frag.sent_at));
                }
            }
            i += 1;
            assert(paths@ =~= before + msg_due(lane_index, msg_seq, msg@, now, i as nat));
        }
        proof {
            assert(items.take(k + 1).drop_last() =~= items.take(k as int));
            assert(items.take(k + 1).last() == (seq, msg@));
        }
        k += 1;
    }
    assert(items.take(k as int) =~= items);
    paths
}

/// Drops the messages of a lane that have no fragment to be sent, and gives the
/// paths of the fragments that are due.
fn frag_paths_in_lane(now: Instant, lane_index: usize, lane: &mut SendLane) -> (r: Vec<TimedPath>)
    requires
        lane_index <= u32::MAX,
        forall|seq: u16| #[trigger]
            old(lane)@.msgs.contains_key(seq) ==> old(lane)@.msgs[seq].len() <= 0x1_0000_0000,
    ensures
        final(lane)@ == old(lane)@.pruned(),
        exists|items: Seq<(u16, Slots)>| #[trigger]
            lists_all(items, final(lane)@.msgs) && r@ == lane_due(
                LaneIndex(MinSize(lane_index as u32)),
                items,
                now,
            ),
{
    let lane_index = LaneIndex(MinSize(lane_index as u32));

    // drop any messages which have no frags to send
    map_retain_with_frags(&mut lane.sent_msgs);
    assert(lane@.msgs =~= old(lane)@.pruned().msgs);

    // grab the frag paths from this lane's messages
    let msgs = map_iter(&lane.sent_msgs);
    proof {
        lemma_iter_lists_all(*lane, msgs@);
        assert forall|i: int| 0 <= i < msgs@.len() implies (#[trigger] msgs@[i]).1.frags@.len()
            <= 0x1_0000_0000 by {
            assert(lane@.msgs.contains_key(msgs@[i].0));
            assert(old(lane)@.msgs.contains_key(msgs@[i].0));
        }
        assert(lists_all(items_view(msgs@), lane@.msgs));
    }
    due_paths(now, lane_index, &msgs)
}

/// `slice::sort_unstable_by_key` on paths by their times: puts the same paths
/// from the earliest time to the latest. Nothing is said of the order of paths
/// with the same time.
#[verifier::external_body]
fn sort_by_time(paths: &mut Vec<TimedPath>)
    ensures
        final(paths)@.to_multiset() == old(paths)@.to_multiset(),
        by_time(final(paths)@),
{
    paths.sort_unstable_by_key(|(_, sent_at)| sent_at.nanos);
}

/// Drops the messages that have no fragment to be sent, and gives the paths of
/// the fragments that are due, from the one pushed first to the one pushed last.
/// Nothing is said of the order of fragments that were pushed at the same time.
pub fn due_frags(transport: &mut Transport, now: Instant) -> (r: Vec<FragmentPath>)
    requires
        old(transport)@.send.wf(),
        old(transport)@.send.lanes.len() <= 0x1_0000_0000,
    ensures
        final(transport)@ == pruned(old(transport)@),
        final(transport)@.send.wf(),
        flush_order(final(transport)@.send.lanes, now, r@),
{
    let ghost t0 = transport@;
    let ghost goal = pruned(t0).send.lanes;

    // collect the paths of the frags to send, along with how old they are
    let mut timed: Vec<TimedPath> = Vec::new();
    let mut i: usize = 0;
    while i < transport.send.lanes.len()
        invariant
            t0.send.wf(),
            t0.send.lanes.len() <= 0x1_0000_0000,
            goal == pruned(t0).send.lanes,
            i <= transport@.send.lanes.len() == t0.send.lanes.len(),
            transport@ == (TransportModel {
                send: SendModel { lanes: transport@.send.lanes, ..t0.send },
                ..t0
            }),
            forall|j: int| 0 <= j < i ==> #[trigger] transport@.send.lanes[j] == goal[j],
            forall|j: int|
                i <= j < t0.send.lanes.len() ==> #[trigger] transport@.send.lanes[j]
                    == t0.send.lanes[j],
            all_due(transport@.send.lanes, now, i as nat, timed@),
        decreases transport@.send.lanes.len() - i,
    {
        let ghost before = transport@.send.lanes;
        proof {
            assert(before[i as int] == t0.send.lanes[i as int]);
            assert(t0.send.lanes[i as int].wf(t0.send.max_frag_len.0 as nat));
        }
        let mut found = frag_paths_in_lane(now, i, &mut transport.send.lanes[i]);
        proof {
            let after = transport@.send.lanes;
            assert(after[i as int] == t0.send.lanes[i as int].pruned());
            assert(after =~= before.update(i as int, goal[i as int]));
            let items = choose|items: Seq<(u16, Slots)>| #[trigger]
                lists_all(items, after[i as int].msgs) && found@ == lane_due(
                    LaneIndex(MinSize(i as u32)),
                    items,
                    now,
                );
            lemma_all_due_same(before, after, now, i as nat, timed@);
            lemma_all_due_next(after, now, i as u32, timed@, items);
        }
        timed.append(&mut found);
        i += 1;
    }
    proof {
        assert(transport@.send.lanes =~= goal);
        lemma_pruned_wf(t0);
    }
    let ghost unsorted = timed@;

    // sort by time sent, oldest to newest
    sort_by_time(&mut timed);
    proof {
        lemma_sorted_is_flush_order(goal, now, i as nat, unsorted, timed@);
    }
    let mut frag_paths: Vec<FragmentPath> = Vec::new();
    let mut k: usize = 0;
    while k < timed.len()
        invariant
            k <= timed@.len(),
            frag_paths@ == untimed(timed@).take(k as int),
        decreases timed@.len() - k,
    {
        frag_paths.push(timed[k].0);
        k += 1;
        assert(frag_paths@ =~= untimed(timed@).take(k as int));
    }
    assert(frag_paths@ =~= untimed(timed@));
    frag_paths
}

/// Flush of a transport that is under way.
#[derive(Debug)]
pub struct Flush {
    now: Instant,
    mtu: usize,
    must_emit: bool,
    sent_packet_yet: bool,
    frag_paths: Vec<FragmentPath>,
}

impl View for Flush {
    type V = FlushModel;

    closed spec fn view(&self) -> FlushModel {
        FlushModel {
            now: self.now,
            mtu: self.mtu as nat,
            must_emit: self.must_emit,
            sent_packet_yet: self.sent_packet_yet,
            paths: self.frag_paths@,
        }
    }
}

impl Flush {
    /// Begins a flush which goes through the fragments in this order.
    pub fn new(
        transport: &Transport,
        now: Instant,
        mtu: usize,
        heartbeat_interval: Option<Duration>,
        order: Vec<FragmentPath>,
    ) -> (r: Flush)
        ensures
            r@ == begin(transport@, now, mtu as nat, heartbeat_interval, order@),
    {
        // we only have to emit if there is a real reason to: pending frags, an
        // acknowledgement we owe the peer, or the heartbeat interval has elapsed
        let heartbeat_due = match heartbeat_interval {
            None => true,
            Some(interval) => now.saturating_duration_since(transport.last_flush_at).nanos
                >= interval.nanos,
        };
        let must_emit = order.len() > 0 || transport.owe_ack || heartbeat_due;
        Flush { now, mtu, must_emit, sent_packet_yet: false, frag_paths: order }
    }

    /// Builds the next packet of this flush, if there is one to send.
    pub fn next_packet(&mut self, transport: &mut Transport) -> (r: Option<Bytes>)
        requires
            flush_ready(old(transport)@, old(self)@),
        ensures
            final(transport)@ == step(old(transport)@, old(self)@).transport,
            final(self)@ == step(old(transport)@, old(self)@).flush,
            match r {
                Some(packet) => step(old(transport)@, old(self)@).packet == Some(
                    bytes_contents(packet),
                ),
                None => step(old(transport)@, old(self)@).packet is None,
            },
            flush_ready(final(transport)@, final(self)@),
    {
        broadcast use vstd::std_specs::hash::group_hash_axioms;

        let ghost t0 = transport@;
        let ghost f0 = self@;
        let ghost flushed0 = transport.flushed_packets@;
        let ghost max = t0.send.max_frag_len.0 as nat;
        proof {
            lemma_step_ready(t0, f0);
        }

        // we can't put more than either `mtu` or the bytes left in the bucket
        // into this packet, nor more than a buffer can hold
        let packet_cap: usize = if self.mtu <= isize::MAX as usize {
            self.mtu
        } else {
            isize::MAX as usize
        };
        let mut bytes_left = transport.send.bytes_bucket.min_of(packet_cap);
        let packet_seq = transport.send.next_packet_seq;
        let header = PacketHeader { seq: packet_seq, acks: transport.peer_acks };
        if bytes_left.consume(header.encode_len()).is_err() {
            return None;
        }
        let mut packet: Vec<u8> = Vec::new();
        header.encode(&mut packet);

        // collect the paths of the frags we want to put into this packet
        // so that we can track which ones have been acked later
        let mut packet_frags: Vec<FragmentPath> = Vec::new();
        let mut kept: Vec<FragmentPath> = Vec::new();
        let ghost room = (packet_room(t0.send.bucket.rem, f0.mtu) - PACKET_HEADER_LEN) as nat;
        let now = self.now;
        let mut i: usize = 0;
        while i < self.frag_paths.len()
            invariant
                i <= self.frag_paths@.len(),
                self@ == f0,
                now == f0.now,
                flush_ready(t0, f0),
                max == t0.send.max_frag_len.0,
                packet_room(t0.send.bucket.rem, f0.mtu) >= PACKET_HEADER_LEN,
                room == packet_room(t0.send.bucket.rem, f0.mtu) - PACKET_HEADER_LEN,
                transport.flushed_packets@ == flushed0,
                transport@ == (TransportModel {
                    send: SendModel { lanes: transport@.send.lanes, ..t0.send },
                    ..t0
                }),
                ({
                    let f = fill(
                        t0.send.lanes,
                        f0.paths.take(i as int),
                        room,
                        now,
                        t0.pto,
                    );
                    &&& f.lanes == transport@.send.lanes
                    &&& f.taken == packet_frags@
                    &&& f.kept == kept@
                    &&& packet@ == next_header(t0).wire() + f.bytes
                    &&& f.bytes.len() <= room
                    &&& bytes_left.bucket().cap == t0.send.bucket.cap
                    &&& bytes_left.bucket().rem == t0.send.bucket.rem - PACKET_HEADER_LEN
                        - f.bytes.len()
                    &&& bytes_left.room() == room - f.bytes.len()
                }),
            decreases self.frag_paths@.len() - i,
        {
            let path = self.frag_paths[i];
            let ghost upto = f0.paths.take(i + 1);
            let ghost lanes_before = transport@.send.lanes;
            proof {
                assert(upto.drop_last() =~= f0.paths.take(i as int));
                assert(upto.last() == path);
                lemma_sendable_take(t0.send.lanes, f0.paths, i + 1);
                lemma_fill_next(t0.send.lanes, upto, room, now, t0.pto);
                let li = path.lane_index.0.0 as int;
                assert(t0.send.lanes[li].wf(max));
                assert(f0.paths[i as int] == path);
                lemma_sendable_take(t0.send.lanes, f0.paths, i as int);
                lemma_fill(t0.send.lanes, f0.paths.take(i as int), room, now, t0.pto);
                assert(t0.send.lanes[li].kind == transport@.send.lanes[li].kind);
                assert(msg_wf(t0.send.lanes[li].msgs[path.msg_seq.0], max));
            }
            if write_frag_at_path(
                now,
                &transport.rtt,
                &mut transport.send.lanes,
                &mut bytes_left,
                &mut packet,
                path,
            ).is_ok() {
                // if we successfully wrote this frag out, track that it has
                // been sent out in this packet
                packet_frags.push(path);
            } else {
                kept.push(path);
            }
            i += 1;
        }
        proof {
            assert(f0.paths.take(i as int) =~= f0.paths);
            lemma_fill_none(t0.send.lanes, f0.paths, room, now, t0.pto);
        }
        transport.send.bytes_bucket = bytes_left.into_bucket();

        let should_send = packet_frags.len() > 0 || (!self.sent_packet_yet && self.must_emit);
        if !should_send {
            return None;
        }
        let ghost frags = packet_frags@;
        transport.flushed_packets.insert(
            packet_seq.0,
            FlushedPacket { flushed_at: now, frags: packet_frags },
        );
        transport.send.next_packet_seq = packet_seq.next();
        self.sent_packet_yet = true;
        self.frag_paths = kept;
        // this packet's header carries our current acks, so we no longer owe
        // the peer one, and it resets the idle heartbeat timer
        transport.owe_ack = false;
        transport.last_flush_at = now;
        proof {
            assert(transport@.flushed =~= t0.flushed.insert(
                packet_seq.0,
                FlushedModel { flushed_at: now, frags },
            ));
        }
        Some(bytes_from_vec(packet))
    }
}

/// Bytes of each of these packets.
pub open spec fn packets_view(packets: Seq<Bytes>) -> Seq<Seq<u8>> {
    Seq::new(packets.len(), |i: int| bytes_contents(packets[i]))
}

/// Flushes out the fragments at these paths, going through them in this order.
pub fn flush_in_order(
    transport: &mut Transport,
    now: Instant,
    mtu: usize,
    heartbeat_interval: Option<Duration>,
    order: Vec<FragmentPath>,
) -> (r: Vec<Bytes>)
    requires
        old(transport)@.send.wf(),
        sendable(old(transport)@.send.lanes, order@),
        resendable(old(transport)@.send.lanes, order@, now, old(transport)@.pto),
    ensures
        final(transport)@.send.wf(),
        flush_rest(
            old(transport)@,
            begin(old(transport)@, now, mtu as nat, heartbeat_interval, order@),
        ) == (Flushed { transport: final(transport)@, packets: packets_view(r@) }),
{
    let mut flush = Flush::new(transport, now, mtu, heartbeat_interval, order);
    let ghost goal = flush_rest(transport@, flush@);
    let mut packets: Vec<Bytes> = Vec::new();
    assert(packets_view(packets@) + goal.packets =~= goal.packets);
    loop
        invariant_except_break
            flush_ready(transport@, flush@),
            flush_rest(transport@, flush@).transport == goal.transport,
            packets_view(packets@) + flush_rest(transport@, flush@).packets == goal.packets,
        ensures
            transport@ == goal.transport,
            packets_view(packets@) == goal.packets,
            transport@.send.wf(),
        decreases flush_work(flush@),
    {
        let ghost before = packets@;
        let ghost rest = flush_rest(transport@, flush@);
        proof {
            lemma_step_decreases(transport@, flush@);
        }
        match flush.next_packet(transport) {
            Some(packet) => {
                packets.push(packet);
                assert(packets_view(packets@) + flush_rest(transport@, flush@).packets
                    =~= packets_view(before) + rest.packets);
            },
            None => {
                assert(packets_view(packets@) =~= packets_view(packets@) + rest.packets);
                break;
            },
        }
    }
    packets
}

/// Gets whether a transport can be flushed at this time: its lanes have indices,
/// and it can be told when fragments that are due are to be sent again.
pub fn can_flush_at(transport: &Transport, now: Instant) -> (r: bool)
    requires
        transport@.send.wf(),
    ensures
        r == (transport@.send.lanes.len() <= 0x1_0000_0000 && resendable_when_due(
            transport@,
            now,
        )),
{
    let lanes = &transport.send.lanes;
    if lanes.len() as u64 > 0x1_0000_0000 {
        return false;
    }
    if transport.rtt.pto().nanos <= u128::MAX - now.nanos {
        return true;
    }
    let ghost t = transport@;
    let mut i: usize = 0;
    while i < lanes.len()
        invariant
            t == transport@,
            lanes == transport.send.lanes,
            t.send.wf(),
            t.send.lanes == lanes_view(lanes@),
            !now.reaches(t.pto),
            i <= lanes@.len() <= 0x1_0000_0000,
            forall|path: FragmentPath| #[trigger]
                due(t.send.lanes, now, path) && path.lane_index.0.0 < i
                    ==> !t.send.lanes[path.lane_index.0.0 as int].kind.is_reliable(),
        decreases lanes@.len() - i,
    {
        let lane = &lanes[i];
        let lane_index = LaneIndex(MinSize(i as u32));
        if let LaneReliability::Reliable = lane.kind.reliability() {
            let msgs = map_iter(&lane.sent_msgs);
            let ghost items = items_view(msgs@);
            proof {
                assert(t.send.lanes[i as int] == lane@);
                assert(lane@.wf(t.send.max_frag_len.0 as nat));
                lemma_iter_lists_all(*lane, msgs@);
                assert forall|j: int| 0 <= j < msgs@.len() implies (
                #[trigger] msgs@[j]).1.frags@.len() <= 0x1_0000_0000 by {
                    assert(lane@.msgs.contains_key(msgs@[j].0));
                }
                lemma_lane_lists_due(lane_index, items, lane@.msgs, now);
            }
            let paths = due_paths(now, lane_index, &msgs);
            if paths.len() > 0 {
                proof {
                    assert(paths@.contains(paths@[0]));
                    assert(due(t.send.lanes, now, paths@[0].0));
                }
                return false;
            }
            assert forall|path: FragmentPath| #[trigger]
                due(t.send.lanes, now, path) implies path.lane_index.0.0 != i by {
                if path.lane_index.0.0 == i {
                    let x = (path, frag_at(t.send.lanes, path).sent_at);
                    assert(lane_due(lane_index, items, now).contains(x));
                }
            }
        }
        i += 1;
    }
    true
}

/// Forces a transport to flush out its pending messages, by building up packets
/// from the fragments that are due.
///
/// Where `heartbeat_interval` is [`None`], at least one packet is always
/// emitted, as far as there is room for one. Where it is [`Some`], a packet is
/// only emitted if there are fragments to send, we owe the peer an
/// acknowledgement, or the interval has elapsed since the last flush, so that a
/// fully idle transport emits nothing.
pub fn flush_on(
    transport: &mut Transport,
    now: Instant,
    mtu: usize,
    heartbeat_interval: Option<Duration>,
) -> (r: Vec<Bytes>)
    requires
        old(transport)@.send.wf(),
        old(transport)@.send.lanes.len() <= 0x1_0000_0000,
        resendable_when_due(old(transport)@, now),
    ensures
        final(transport)@.send.wf(),
        exists|order: Seq<FragmentPath>| #[trigger]
            flush_order(pruned(old(transport)@).send.lanes, now, order) && flush_in(
                old(transport)@,
                now,
                mtu as nat,
                heartbeat_interval,
                order,
            ) == (Flushed { transport: final(transport)@, packets: packets_view(r@) }),
{
    let ghost before = transport@;
    let order = due_frags(transport, now);
    proof {
        lemma_flush_order_sendable(transport@.send.lanes, now, order@);
        lemma_resendable_order(before, now, order@);
    }
    flush_in_order(transport, now, mtu, heartbeat_interval, order)
}

}
