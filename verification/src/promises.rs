//! What pushing, flushing and receiving promise of the state before and after,
//! told by the fields of that state and by the bytes of packets.

use crate::frag::{chunk, lemma_num_frags, num_frags, splittable};
use crate::lane::{LaneIndex, LaneKind};
use crate::laws::{
    can_flush, law_flush_discharges_ack, law_flush_emits_iff_there_is_reason,
    law_flush_sends_due_fragments_once, law_packets_keep_to_limits, law_packets_read_back,
    law_pruning_keeps_fragments, law_reliable_fragment_is_kept,
    law_unreliable_fragment_is_forgotten, lemma_can_flush_ready, path_in, sent_in,
};
use crate::limit::{min_nat, BucketModel};
use crate::model::{
    begin, due, fill, flush_in, flush_order, flush_rest, flush_work, frag_at, has_frag_at, has_slot,
    lemma_fill_len, lemma_pushed_wf, msg_slots, new_send, next_fill, next_header, packet_room,
    pruned, push_result, pushed, slot_at, step, wire_at, FlushModel, LaneModel, SendModel, Slots,
    TransportModel,
};
use crate::octets::{
    be16, bytes_contents, lemma_varint_len, parse_varint, varint, varint_span, ReadError,
};
use crate::order::{
    lane_due, lemma_lane_lists_due, lists_all, msg_due, resendable_when_due, TimedPath,
};
use crate::packet::{
    frag_wire, frags_view, next_seq, parse_fragment, parse_fragments, parse_packet, Fragment,
    FragmentHeader, FragmentPosition, MessageSeq, PacketHeader, PACKET_HEADER_LEN,
};
use crate::packing::{
    flush_ready, lemma_fill, lemma_fill_is_full, lemma_fill_next, lemma_fill_none,
    lemma_sendable_init, lemma_step_decreases, lemma_step_ready, sendable, sent_slot,
};
use crate::queue::{FragModel, SentMessage};
use crate::recv::received;
use crate::send::{items_view, lanes_view, packets_view, SendLane, TransportSendError};
use crate::size::MinSize;
use crate::time::{Duration, Instant};
use crate::trace::{
    flush_taken, lemma_fill_order, lemma_flush_budget, lemma_flush_packets, lemma_kept_items,
    lemma_order_same, lemma_step_packet, lemma_taken_in_paths, lemma_was_taken_first, oldest_first,
    reads_as, total_len, was_taken,
};
use crate::transport::{frag_len_for, FragmentPath, MessageKey, Transport};
use crate::wire::{
    frags_wire, items_at, lemma_fragments_round_trip, lemma_header_round_trip,
    lemma_varint_round_trip, FragItem,
};
use octs::Bytes;
use vstd::prelude::*;

verus! {

// ---------------------------------------------------------------------------
// Pushing
// ---------------------------------------------------------------------------

/// Most fragments that a message can have.
pub open spec fn most_frags() -> nat {
    0x8000_0000
}

/// A message is taken on if, and only if, the next number of its lane is free and
/// it has no more bytes than the most fragments can carry. The error tells which
/// of the two it was, and the sizes. The key is the lane with that next number.
pub proof fn law_push_refuses_for_two_reasons_alone(
    s: SendModel,
    lane_index: LaneIndex,
    msg: Seq<u8>,
)
    requires
        lane_index.0.0 < s.lanes.len(),
        msg.len() <= usize::MAX,
    ensures
        ({
            let lane = s.lanes[lane_index.0.0 as int];
            let taken = lane.msgs.contains_key(lane.next_msg_seq.0);
            let most = s.max_frag_len.0 * most_frags();
            &&& push_result(s, lane_index, msg) is Ok <==> !taken && msg.len() <= most
            &&& push_result(s, lane_index, msg) matches Ok(key) ==> key.lane == lane_index
                && key.seq == lane.next_msg_seq
            &&& push_result(s, lane_index, msg) matches Err(err) ==> match err {
                TransportSendError::TooManyMessages => taken,
                TransportSendError::MessageTooBig(e) => {
                    &&& !taken
                    &&& msg.len() > most
                    &&& e.len == msg.len()
                    &&& e.max == most
                },
            }
        }),
{
    assert(s.max_frag_len.0 * 0x8000_0000 <= u64::MAX);
}

/// A refused message leaves all but the error as it was.
pub proof fn law_refused_push_queues_nothing(
    s: SendModel,
    lane_index: LaneIndex,
    msg: Seq<u8>,
    now: Instant,
)
    requires
        push_result(s, lane_index, msg) is Err,
    ensures
        ({
            let after = pushed(s, lane_index, msg, now);
            &&& after.lanes == s.lanes
            &&& after.bucket == s.bucket
            &&& after.max_frag_len == s.max_frag_len
            &&& after.next_packet_seq == s.next_packet_seq
            &&& after.error == Some(push_result(s, lane_index, msg)->Err_0)
        }),
{
}

/// A message that is taken on is queued in as few fragments as can carry it, but
/// at least one. Each carries the bytes that follow those of the one before, says
/// where it stands and whether it is the last, and was pushed and is due at the
/// time of the push, whatever the length of the message. None of them was sent.
/// All else stays as it was, but that the number of the lane goes up.
pub proof fn law_push_queues_the_whole_message(
    s: SendModel,
    lane_index: LaneIndex,
    msg: Seq<u8>,
    now: Instant,
)
    requires
        s.wf(),
        lane_index.0.0 < s.lanes.len(),
        push_result(s, lane_index, msg) is Ok,
    ensures
        ({
            let li = lane_index.0.0 as int;
            let max = s.max_frag_len.0 as int;
            let after = pushed(s, lane_index, msg, now);
            let seq = s.lanes[li].next_msg_seq.0;
            let slots = after.lanes[li].msgs[seq];
            &&& after.lanes.len() == s.lanes.len()
            &&& forall|i: int|
                0 <= i < s.lanes.len() && i != li ==> #[trigger] after.lanes[i] == s.lanes[i]
            &&& after.lanes[li].kind == s.lanes[li].kind
            &&& after.lanes[li].next_msg_seq.0 == (seq + 1) % 0x1_0000
            &&& after.lanes[li].msgs.dom() == s.lanes[li].msgs.dom().insert(seq)
            &&& forall|other: u16| #[trigger]
                s.lanes[li].msgs.contains_key(other) ==> after.lanes[li].msgs[other]
                    == s.lanes[li].msgs[other]
            &&& after.bucket == s.bucket
            &&& after.max_frag_len == s.max_frag_len
            &&& after.next_packet_seq == s.next_packet_seq
            &&& after.error == s.error
            &&& slots.len() >= 1
            &&& msg.len() <= slots.len() * max
            &&& slots.len() > 1 ==> (slots.len() - 1) * max < msg.len()
            &&& forall|i: int|
                0 <= i < slots.len() ==> {
                    &&& (#[trigger] slots[i]) is Some
                    &&& slots[i]->0.position.0.0 == 2 * i + (if i == slots.len() - 1 {
                        1int
                    } else {
                        0int
                    })
                    &&& slots[i]->0.payload == msg.subrange(
                        i * max,
                        if i == slots.len() - 1 {
                            msg.len() as int
                        } else {
                            i * max + max
                        },
                    )
                    &&& slots[i]->0.sent_at == now
                    &&& slots[i]->0.next_flush_at == now
                    &&& !slots[i]->0.flushed
                }
        }),
{
    let li = lane_index.0.0 as int;
    let max = s.max_frag_len.0 as nat;
    let after = pushed(s, lane_index, msg, now);
    let seq = s.lanes[li].next_msg_seq.0;
    let slots = msg_slots(msg, max, now);
    let n = slots.len() as int;
    lemma_num_frags(msg.len(), max);
    assert(after.lanes[li].msgs[seq] == slots);
    assert(after.lanes[li].msgs.dom() =~= s.lanes[li].msgs.dom().insert(seq));
    assert(0 * max == 0) by (nonlinear_arith);
    assert(1 * max == max) by (nonlinear_arith);
    assert forall|i: int| 0 <= i < n implies {
        &&& (#[trigger] slots[i]) is Some
        &&& slots[i]->0.position.0.0 == 2 * i + (if i == n - 1 {
            1int
        } else {
            0int
        })
        &&& slots[i]->0.payload == msg.subrange(
            i * max,
            if i == n - 1 {
                msg.len() as int
            } else {
                i * max + max
            },
        )
        &&& slots[i]->0.sent_at == now
        &&& slots[i]->0.next_flush_at == now
        &&& !slots[i]->0.flushed
    } by {
        if msg.len() == 0 {
            assert(slots[i]->0.payload =~= msg.subrange(0, 0));
        } else {
            assert((i + 1) * max == i * max + max) by (nonlinear_arith);
            assert(0 <= i * max < msg.len());
            if i < n - 1 {
                assert(0 <= (i + 1) * max < msg.len());
            } else {
                assert((i + 1) * max >= msg.len());
                assert(chunk(msg, max, i) =~= msg.subrange(i * max, msg.len() as int));
            }
        }
    }
}

// ---------------------------------------------------------------------------
// What is on the lanes
// ---------------------------------------------------------------------------

/// Whether a message is there with a slot for this fragment.
pub open spec fn has_place(lanes: Seq<LaneModel>, p: FragmentPath) -> bool {
    &&& p.lane_index.0.0 < lanes.len()
    &&& lanes[p.lane_index.0.0 as int].msgs.contains_key(p.msg_seq.0)
    &&& p.frag_index.0 < lanes[p.lane_index.0.0 as int].msgs[p.msg_seq.0].len()
}

/// What is in the slot for this fragment.
pub open spec fn slot(lanes: Seq<LaneModel>, p: FragmentPath) -> Option<FragModel> {
    lanes[p.lane_index.0.0 as int].msgs[p.msg_seq.0][p.frag_index.0 as int]
}

/// Whether the fragment waits to be sent, be it for the first time or again.
pub open spec fn waits(lanes: Seq<LaneModel>, p: FragmentPath) -> bool {
    has_place(lanes, p) && slot(lanes, p) is Some
}

/// Whether the fragment waits to be sent, and has waited long enough.
pub open spec fn is_ready(lanes: Seq<LaneModel>, now: Instant, p: FragmentPath) -> bool {
    waits(lanes, p) && slot(lanes, p)->0.next_flush_at.nanos <= now.nanos
}

/// Whether a lane of this kind sends its fragments until they are acknowledged.
pub open spec fn resends(kind: LaneKind) -> bool {
    match kind {
        LaneKind::UnreliableUnordered => false,
        LaneKind::UnreliableSequenced => false,
        LaneKind::ReliableUnordered => true,
        LaneKind::ReliableOrdered => true,
    }
}

/// A flush goes through the fragments that are ready, each of them once, and
/// through no others. It goes from the earliest time of their pushes to the
/// latest.
pub proof fn law_flush_goes_by_age(t: TransportModel, now: Instant, order: Seq<FragmentPath>)
    requires
        flush_order(pruned(t).send.lanes, now, order),
    ensures
        forall|p: FragmentPath| #[trigger] order.contains(p) <==> is_ready(t.send.lanes, now, p),
        forall|i: int, j: int|
            0 <= i < j < order.len() ==> {
                &&& #[trigger] order[i] != #[trigger] order[j]
                &&& slot(t.send.lanes, order[i])->0.sent_at.nanos <= slot(
                    t.send.lanes,
                    order[j],
                )->0.sent_at.nanos
            },
{
    law_pruning_keeps_fragments(t);
    let lanes = pruned(t).send.lanes;
    assert forall|p: FragmentPath| #[trigger] order.contains(p) <==> is_ready(
        t.send.lanes,
        now,
        p,
    ) by {
        assert(due(lanes, now, p) <==> due(t.send.lanes, now, p));
    }
    assert forall|i: int, j: int| 0 <= i < j < order.len() implies {
        &&& #[trigger] order[i] != #[trigger] order[j]
        &&& slot(t.send.lanes, order[i])->0.sent_at.nanos <= slot(
            t.send.lanes,
            order[j],
        )->0.sent_at.nanos
    } by {
        assert(order.contains(order[i]) && order.contains(order[j]));
        assert(has_frag_at(t.send.lanes, order[i]) && has_frag_at(t.send.lanes, order[j]));
        assert(slot_at(lanes, order[i]) == slot(t.send.lanes, order[i]));
        assert(slot_at(lanes, order[j]) == slot(t.send.lanes, order[j]));
    }
}

/// Whether this is a fragment of the message with this key.
pub open spec fn is_of(p: FragmentPath, key: MessageKey) -> bool {
    p.lane_index == key.lane && p.msg_seq == key.seq
}

/// Of two messages pushed at different times, no fragment of the later one comes
/// before a fragment of the earlier one, whatever their lengths and lanes, and in
/// whichever order they were pushed.
pub proof fn law_earlier_message_goes_first(
    t: TransportModel,
    lane_a: LaneIndex,
    a: Seq<u8>,
    at_a: Instant,
    lane_b: LaneIndex,
    b: Seq<u8>,
    at_b: Instant,
    now: Instant,
    order: Seq<FragmentPath>,
    i: int,
    j: int,
)
    requires
        t.send.wf(),
        lane_a.0.0 < t.send.lanes.len(),
        lane_b.0.0 < t.send.lanes.len(),
        push_result(t.send, lane_a, a) is Ok,
        push_result(pushed(t.send, lane_a, a, at_a), lane_b, b) is Ok,
        ({
            let after = pushed(pushed(t.send, lane_a, a, at_a), lane_b, b, at_b);
            flush_order(pruned(TransportModel { send: after, ..t }).send.lanes, now, order)
        }),
        0 <= i < order.len(),
        0 <= j < order.len(),
        is_of(order[i], push_result(t.send, lane_a, a)->Ok_0),
        is_of(order[j], push_result(pushed(t.send, lane_a, a, at_a), lane_b, b)->Ok_0),
    ensures
        at_a.nanos < at_b.nanos ==> i < j,
        at_b.nanos < at_a.nanos ==> j < i,
{
    let s1 = pushed(t.send, lane_a, a, at_a);
    let s2 = pushed(s1, lane_b, b, at_b);
    let after = TransportModel { send: s2, ..t };
    let seq_a = t.send.lanes[lane_a.0.0 as int].next_msg_seq.0;
    lemma_pushed_wf(t.send, lane_a, a, at_a);
    law_push_queues_the_whole_message(t.send, lane_a, a, at_a);
    law_push_queues_the_whole_message(s1, lane_b, b, at_b);
    law_flush_goes_by_age(after, now, order);
    assert(s1.lanes[lane_a.0.0 as int].msgs.contains_key(seq_a));
    assert(s2.lanes[lane_a.0.0 as int].msgs[seq_a] == s1.lanes[lane_a.0.0 as int].msgs[seq_a]) by {
        if lane_a == lane_b {
        } else {
            assert(s2.lanes[lane_a.0.0 as int] == s1.lanes[lane_a.0.0 as int]);
        }
    }
    assert(order.contains(order[i]) && order.contains(order[j]));
    assert(slot(s2.lanes, order[i])->0.sent_at == at_a);
    assert(slot(s2.lanes, order[j])->0.sent_at == at_b);
    if i < j {
        assert(slot(s2.lanes, order[i])->0.sent_at.nanos <= slot(
            s2.lanes,
            order[j],
        )->0.sent_at.nanos);
    }
    if j < i {
        assert(slot(s2.lanes, order[j])->0.sent_at.nanos <= slot(
            s2.lanes,
            order[i],
        )->0.sent_at.nanos);
    }
}

/// Dropping messages that are done with drops those whose slots are all empty,
/// and nothing else changes.
pub proof fn law_done_messages_are_dropped(t: TransportModel)
    ensures
        ({
            let before = t.send.lanes;
            let after = pruned(t).send.lanes;
            &&& pruned(t) == (TransportModel {
                send: SendModel { lanes: after, ..t.send },
                ..t
            })
            &&& after.len() == before.len()
            &&& forall|i: int|
                0 <= i < before.len() ==> (#[trigger] after[i]).kind == before[i].kind
                    && after[i].next_msg_seq == before[i].next_msg_seq
            &&& forall|i: int, seq: u16|
                0 <= i < before.len() ==> (#[trigger] after[i].msgs.contains_key(seq) <==> {
                    &&& before[i].msgs.contains_key(seq)
                    &&& exists|k: int|
                        0 <= k < before[i].msgs[seq].len() && (
                        #[trigger] before[i].msgs[seq][k]) is Some
                })
            &&& forall|i: int, seq: u16|
                0 <= i < before.len() && #[trigger] after[i].msgs.contains_key(seq)
                    ==> after[i].msgs[seq] == before[i].msgs[seq]
        }),
{
}

// ---------------------------------------------------------------------------
// Packets of a flush
// ---------------------------------------------------------------------------

/// How many bytes the fragment takes in a packet: its message, lane and position,
/// the length of its payload, and the payload.
pub open spec fn wire_len(lanes: Seq<LaneModel>, p: FragmentPath) -> nat {
    let frag = slot(lanes, p)->0;
    2 + varint(p.lane_index.0.0 as nat).len() + varint(frag.position.0.0 as nat).len() + varint(
        frag.payload.len(),
    ).len() + frag.payload.len()
}

/// How many bytes these fragments take in a packet.
pub open spec fn wire_total(lanes: Seq<LaneModel>, paths: Seq<FragmentPath>) -> nat
    decreases paths.len(),
{
    if paths.len() == 0 {
        0
    } else {
        wire_total(lanes, paths.drop_last()) + wire_len(lanes, paths.last())
    }
}

/// How many bytes a packet may have, if `rem` bytes are left to be sent: no more
/// than those, than the mtu, and than a buffer can hold.
pub open spec fn room_for(rem: int, mtu: int) -> int {
    if rem <= mtu && rem <= isize::MAX {
        rem
    } else if mtu <= isize::MAX {
        mtu
    } else {
        isize::MAX as int
    }
}

/// A fragment takes as many bytes as are counted for it.
proof fn lemma_wire_len(lanes: Seq<LaneModel>, p: FragmentPath)
    ensures
        wire_at(lanes, p).len() == wire_len(lanes, p),
{
}

/// Fragments take as many bytes wherever their slots are the same.
proof fn lemma_wire_total_same(a: Seq<LaneModel>, b: Seq<LaneModel>, paths: Seq<FragmentPath>)
    requires
        forall|i: int| 0 <= i < paths.len() ==> slot(a, #[trigger] paths[i]) == slot(b, paths[i]),
    ensures
        wire_total(a, paths) == wire_total(b, paths),
    decreases paths.len(),
{
    if paths.len() > 0 {
        let init = paths.drop_last();
        assert forall|i: int| 0 <= i < init.len() implies slot(a, #[trigger] init[i]) == slot(
            b,
            init[i],
        ) by {
            assert(init[i] == paths[i]);
        }
        lemma_wire_total_same(a, b, init);
        assert(slot(a, paths[paths.len() - 1]) == slot(b, paths[paths.len() - 1]));
    }
}

/// Each fragment adds its own bytes.
proof fn lemma_wire_total_push(lanes: Seq<LaneModel>, paths: Seq<FragmentPath>, p: FragmentPath)
    ensures
        wire_total(lanes, paths.push(p)) == wire_total(lanes, paths) + wire_len(lanes, p),
{
    assert(paths.push(p).drop_last() =~= paths);
}

/// The bytes of fragments are no fewer than those of any one of them.
proof fn lemma_wire_total_covers(lanes: Seq<LaneModel>, paths: Seq<FragmentPath>, i: int)
    requires
        0 <= i < paths.len(),
    ensures
        wire_len(lanes, paths[i]) <= wire_total(lanes, paths),
    decreases paths.len(),
{
    if i < paths.len() - 1 {
        lemma_wire_total_covers(lanes, paths.drop_last(), i);
    }
}

/// Whether the fragment at `p` has no room in a packet with these fragments, on
/// account of those alone that were pushed no later.
pub open spec fn crowded_out(
    lanes: Seq<LaneModel>,
    frags: Seq<FragmentPath>,
    p: FragmentPath,
    room: int,
) -> bool {
    exists|m: int|
        0 <= m <= frags.len() && 8 + wire_total(lanes, #[trigger] frags.take(m)) + wire_len(
            lanes,
            p,
        ) > room && forall|i: int|
            0 <= i < m ==> slot(lanes, #[trigger] frags[i])->0.sent_at.nanos <= slot(
                lanes,
                p,
            )->0.sent_at.nanos
}

/// What a packet is filled with takes the bytes counted for it, and what is kept
/// is crowded out.
proof fn lemma_fill_crowds_out(
    lanes: Seq<LaneModel>,
    paths: Seq<FragmentPath>,
    room: nat,
    now: Instant,
    pto: Duration,
)
    requires
        sendable(lanes, paths),
    ensures
        ({
            let f = fill(lanes, paths, room, now, pto);
            &&& f.bytes.len() == wire_total(lanes, f.taken)
            &&& f.bytes.len() <= room
            &&& oldest_first(lanes, paths) ==> forall|q: FragmentPath| #[trigger]
                f.kept.contains(q) ==> crowded_out(lanes, f.taken, q, room + 8int)
        }),
    decreases paths.len(),
{
    if paths.len() > 0 {
        let init = paths.drop_last();
        let path = paths.last();
        let f = fill(lanes, paths, room, now, pto);
        let g = fill(lanes, init, room, now, pto);
        lemma_sendable_init(lanes, paths);
        lemma_fill_crowds_out(lanes, init, room, now, pto);
        lemma_fill_next(lanes, paths, room, now, pto);
        lemma_fill(lanes, init, room, now, pto);
        lemma_wire_total_push(lanes, g.taken, path);
        assert(wire_at(g.lanes, path) == wire_at(lanes, path));
        lemma_wire_len(lanes, path);
        if oldest_first(lanes, paths) {
            assert(oldest_first(lanes, init)) by {
                assert forall|i: int, j: int| 0 <= i < j < init.len() implies frag_at(
                    lanes,
                    #[trigger] init[i],
                ).sent_at.nanos <= frag_at(lanes, #[trigger] init[j]).sent_at.nanos by {
                    assert(init[i] == paths[i] && init[j] == paths[j]);
                }
            }
            assert forall|q: FragmentPath| #[trigger] f.kept.contains(q) implies crowded_out(
                lanes,
                f.taken,
                q,
                room + 8int,
            ) by {
                let x = choose|x: int| 0 <= x < f.kept.len() && f.kept[x] == q;
                if x < g.kept.len() {
                    assert(g.kept[x] == q);
                    assert(g.kept.contains(q));
                    let m = choose|m: int|
                        0 <= m <= g.taken.len() && 8 + wire_total(lanes, #[trigger] g.taken.take(m))
                            + wire_len(lanes, q) > room + 8 && forall|i: int|
                            0 <= i < m ==> slot(lanes, #[trigger] g.taken[i])->0.sent_at.nanos
                                <= slot(lanes, q)->0.sent_at.nanos;
                    assert(f.taken.take(m) =~= g.taken.take(m));
                    assert forall|i: int| 0 <= i < m implies slot(
                        lanes,
                        #[trigger] f.taken[i],
                    )->0.sent_at.nanos <= slot(lanes, q)->0.sent_at.nanos by {
                        assert(f.taken[i] == g.taken[i]);
                    }
                } else {
                    assert(q == path);
                    assert(f.taken == g.taken);
                    let m = f.taken.len() as int;
                    assert(f.taken.take(m) =~= f.taken);
                    assert forall|i: int| 0 <= i < m implies slot(
                        lanes,
                        #[trigger] f.taken[i],
                    )->0.sent_at.nanos <= slot(lanes, q)->0.sent_at.nanos by {
                        assert(g.taken.contains(f.taken[i]));
                        assert(init.contains(f.taken[i]));
                        let j = choose|j: int| 0 <= j < init.len() && init[j] == f.taken[i];
                        assert(paths[j] == f.taken[i]);
                        assert(paths[paths.len() - 1] == path);
                        assert(frag_at(lanes, paths[j]).sent_at.nanos <= frag_at(
                            lanes,
                            paths[paths.len() - 1],
                        ).sent_at.nanos);
                    }
                    assert(wire_total(lanes, f.taken.take(m)) == f.bytes.len());
                }
            }
        }
    }
}

/// A packet is filled with something if, and only if, one of the fragments has
/// room in it alone.
proof fn lemma_fill_takes(
    lanes: Seq<LaneModel>,
    paths: Seq<FragmentPath>,
    room: nat,
    now: Instant,
    pto: Duration,
)
    requires
        sendable(lanes, paths),
    ensures
        fill(lanes, paths, room, now, pto).taken.len() > 0 <==> exists|q: FragmentPath|
            #[trigger] paths.contains(q) && wire_len(lanes, q) <= room,
{
    let f = fill(lanes, paths, room, now, pto);
    lemma_fill(lanes, paths, room, now, pto);
    lemma_fill_none(lanes, paths, room, now, pto);
    lemma_fill_is_full(lanes, paths, room, now, pto);
    lemma_fill_crowds_out(lanes, paths, room, now, pto);
    if f.taken.len() > 0 {
        assert(f.taken.contains(f.taken[0]));
        assert(paths.contains(f.taken[0]));
        lemma_wire_total_covers(lanes, f.taken, 0);
    } else if exists|q: FragmentPath| #[trigger]
        paths.contains(q) && wire_len(lanes, q) <= room {
        let q = choose|q: FragmentPath| #[trigger]
            paths.contains(q) && wire_len(lanes, q) <= room;
        assert(f.kept.contains(q));
        lemma_wire_len(lanes, q);
    }
}

/// Building a packet gives one if, and only if, there is room for a header, and
/// either one of the fragments has room beside the header or none was sent yet and
/// one has to be. A packet has the next number, is paid for, discharges the owed
/// acknowledgement and restarts the wait for a heartbeat. Where there is none, no
/// more than the header is paid for.
pub proof fn law_next_packet_comes_for_cause(t: TransportModel, f: FlushModel)
    requires
        flush_ready(t, f),
    ensures
        ({
            let s = step(t, f);
            let room = room_for(t.send.bucket.rem as int, f.mtu as int);
            let after = s.transport;
            &&& s.packet is Some <==> room >= 8 && ((!f.sent_packet_yet && f.must_emit) || exists|
                q: FragmentPath,
            | #[trigger]
                f.paths.contains(q) && 8 + wire_len(t.send.lanes, q) <= room)
            &&& s.flush.now == f.now
            &&& s.flush.mtu == f.mtu
            &&& s.flush.must_emit == f.must_emit
            &&& s.flush.sent_packet_yet == (f.sent_packet_yet || s.packet is Some)
            &&& s.packet matches Some(packet) ==> {
                &&& 8 <= packet.len() <= room
                &&& after.send.bucket.rem == t.send.bucket.rem - packet.len()
                &&& after.send.next_packet_seq.0 == (t.send.next_packet_seq.0 + 1) % 0x1_0000
                &&& !after.owe_ack
                &&& after.last_flush_at == f.now
                &&& after.flushed.dom() == t.flushed.dom().insert(t.send.next_packet_seq.0)
                &&& after.flushed[t.send.next_packet_seq.0].flushed_at == f.now
                &&& packet.len() == 8 + wire_total(
                    t.send.lanes,
                    after.flushed[t.send.next_packet_seq.0].frags,
                )
                &&& forall|n: u16| #[trigger]
                    t.flushed.contains_key(n) && n != t.send.next_packet_seq.0 ==> after.flushed[n]
                        == t.flushed[n]
            }
            &&& s.packet is None ==> {
                &&& s.flush == f
                &&& after == (TransportModel {
                    send: SendModel { bucket: after.send.bucket, ..t.send },
                    ..t
                })
                &&& after.send.bucket.rem == t.send.bucket.rem - (if room >= 8 {
                    8int
                } else {
                    0int
                })
            }
            &&& after.send.bucket.cap == t.send.bucket.cap
            &&& after.send.max_frag_len == t.send.max_frag_len
            &&& after.send.error == t.send.error
            &&& after.peer_acks == t.peer_acks
            &&& after.pto == t.pto
        }),
{
    let s = step(t, f);
    let room = room_for(t.send.bucket.rem as int, f.mtu as int);
    assert(room == packet_room(t.send.bucket.rem, f.mtu));
    if room >= 8 {
        let inner = (room - 8) as nat;
        lemma_fill_takes(t.send.lanes, f.paths, inner, f.now, t.pto);
        lemma_fill_crowds_out(t.send.lanes, f.paths, inner, f.now, t.pto);
        lemma_header_round_trip(next_header(t), Seq::empty());
        if exists|q: FragmentPath| #[trigger]
            f.paths.contains(q) && 8 + wire_len(t.send.lanes, q) <= room {
            let q = choose|q: FragmentPath| #[trigger]
                f.paths.contains(q) && 8 + wire_len(t.send.lanes, q) <= room;
            assert(wire_len(t.send.lanes, q) <= inner);
        }
        if next_fill(t, f).taken.len() > 0 {
            let q = choose|q: FragmentPath| #[trigger]
                f.paths.contains(q) && wire_len(t.send.lanes, q) <= inner;
            assert(8 + wire_len(t.send.lanes, q) <= room);
        }
        assert(s.packet is Some ==> s.transport.flushed.dom() =~= t.flushed.dom().insert(
            t.send.next_packet_seq.0,
        ));
    }
}

/// Choosing from a sequence rests on what is in it alone.
proof fn lemma_filter_same(
    paths: Seq<FragmentPath>,
    a: spec_fn(FragmentPath) -> bool,
    b: spec_fn(FragmentPath) -> bool,
)
    requires
        forall|i: int| 0 <= i < paths.len() ==> a(#[trigger] paths[i]) == b(paths[i]),
    ensures
        paths.filter(a) == paths.filter(b),
    decreases paths.len(),
{
    reveal(Seq::filter);
    if paths.len() > 0 {
        let init = paths.drop_last();
        assert forall|i: int| 0 <= i < init.len() implies a(#[trigger] init[i]) == b(init[i]) by {
            assert(init[i] == paths[i]);
        }
        lemma_filter_same(init, a, b);
        assert(a(paths[paths.len() - 1]) == b(paths[paths.len() - 1]));
    }
}

/// Those of these fragments that are among `some`, in the same order.
pub open spec fn those_in(paths: Seq<FragmentPath>, some: Seq<FragmentPath>) -> Seq<FragmentPath> {
    paths.filter(|q: FragmentPath| some.contains(q))
}

/// Those of these fragments that are not among `some`, in the same order.
pub open spec fn those_not_in(paths: Seq<FragmentPath>, some: Seq<FragmentPath>) -> Seq<
    FragmentPath,
> {
    paths.filter(|q: FragmentPath| !some.contains(q))
}

/// What is taken and what is kept are in the order of the fragments, and a fragment
/// is kept on account of those taken ahead of it alone.
proof fn lemma_fill_is_greedy(
    lanes: Seq<LaneModel>,
    paths: Seq<FragmentPath>,
    room: nat,
    now: Instant,
    pto: Duration,
)
    requires
        sendable(lanes, paths),
    ensures
        ({
            let f = fill(lanes, paths, room, now, pto);
            &&& f.taken == those_in(paths, f.taken)
            &&& f.kept == those_not_in(paths, f.taken)
            &&& forall|i: int|
                0 <= i < paths.len() ==> (f.taken.contains(#[trigger] paths[i]) <==> wire_total(
                    lanes,
                    those_in(paths.take(i), f.taken),
                ) + wire_len(lanes, paths[i]) <= room)
        }),
    decreases paths.len(),
{
    reveal(Seq::filter);
    if paths.len() > 0 {
        let init = paths.drop_last();
        let path = paths.last();
        let f = fill(lanes, paths, room, now, pto);
        let g = fill(lanes, init, room, now, pto);
        lemma_sendable_init(lanes, paths);
        lemma_fill_is_greedy(lanes, init, room, now, pto);
        lemma_fill_crowds_out(lanes, init, room, now, pto);
        lemma_fill_next(lanes, paths, room, now, pto);
        lemma_fill(lanes, init, room, now, pto);
        lemma_fill(lanes, paths, room, now, pto);
        assert(wire_at(g.lanes, path) == wire_at(lanes, path));
        lemma_wire_len(lanes, path);
        assert(paths.contains(paths[paths.len() - 1]));
        assert(f.taken.contains(path) <==> f.taken == g.taken.push(path)) by {
            if f.taken != g.taken {
                assert(f.taken[g.taken.len() as int] == path);
            } else {
                assert(f.taken.len() == g.taken.len());
                assert(!g.taken.contains(path));
            }
        }
        assert forall|q: FragmentPath| #[trigger] init.contains(q) implies (f.taken.contains(q)
            <==> g.taken.contains(q)) by {
            if g.taken.contains(q) {
                let x = choose|x: int| 0 <= x < g.taken.len() && g.taken[x] == q;
                assert(f.taken[x] == q);
            }
            if f.taken.contains(q) && f.taken != g.taken {
                let x = choose|x: int| 0 <= x < f.taken.len() && f.taken[x] == q;
                if x < g.taken.len() {
                    assert(g.taken[x] == q);
                }
            }
        }
        assert forall|i: int| 0 <= i < init.len() implies (f.taken.contains(#[trigger] init[i])
            <==> g.taken.contains(init[i])) by {
            assert(init.contains(init[i]));
        }
        lemma_filter_same(
            init,
            |q: FragmentPath| f.taken.contains(q),
            |q: FragmentPath| g.taken.contains(q),
        );
        lemma_filter_same(
            init,
            |q: FragmentPath| !f.taken.contains(q),
            |q: FragmentPath| !g.taken.contains(q),
        );
        assert(f.taken =~= those_in(paths, f.taken));
        assert(f.kept =~= those_not_in(paths, f.taken));
        assert forall|i: int| 0 <= i < paths.len() implies (f.taken.contains(#[trigger] paths[i])
            <==> wire_total(lanes, those_in(paths.take(i), f.taken)) + wire_len(lanes, paths[i])
            <= room) by {
            if i < init.len() {
                assert(init[i] == paths[i]);
                assert(init.take(i) =~= paths.take(i));
                assert forall|j: int| 0 <= j < paths.take(i).len() implies (f.taken.contains(
                    #[trigger] paths.take(i)[j],
                ) <==> g.taken.contains(paths.take(i)[j])) by {
                    assert(paths.take(i)[j] == init[j]);
                }
                lemma_filter_same(
                    paths.take(i),
                    |q: FragmentPath| f.taken.contains(q),
                    |q: FragmentPath| g.taken.contains(q),
                );
            } else {
                assert(paths.take(i) =~= init);
                assert(those_in(init, f.taken) == g.taken);
            }
        }
    }
}

/// A packet is built by going through the fragments in turn: each goes in if it has
/// room beside those that went in ahead of it. They are recorded in this order, the
/// packet reads back as them, and the others are left for the next packet. Those
/// that went in are dealt with as their lanes have it, and all else on the lanes
/// stays as it was.
pub proof fn law_next_packet_takes_what_has_room(t: TransportModel, f: FlushModel)
    requires
        flush_ready(t, f),
        step(t, f).packet is Some,
    ensures
        ({
            let s = step(t, f);
            let packet = s.packet->0;
            let n = t.send.next_packet_seq.0;
            let frags = s.transport.flushed[n].frags;
            let before = t.send.lanes;
            let after = s.transport.send.lanes;
            let room = room_for(t.send.bucket.rem as int, f.mtu as int);
            &&& frags == those_in(f.paths, frags)
            &&& s.flush.paths == those_not_in(f.paths, frags)
            &&& forall|i: int|
                0 <= i < f.paths.len() ==> (frags.contains(#[trigger] f.paths[i]) <==> 8
                    + wire_total(before, those_in(f.paths.take(i), frags)) + wire_len(
                    before,
                    f.paths[i],
                ) <= room)
            &&& parse_packet(packet) is Ok
            &&& parse_packet(packet)->Ok_0.0.seq.0 == n
            &&& parse_packet(packet)->Ok_0.0.acks == t.peer_acks
            &&& parse_packet(packet)->Ok_0.1.len() == frags.len()
            &&& forall|i: int|
                0 <= i < frags.len() ==> {
                    let frag = parse_packet(packet)->Ok_0.1[i];
                    &&& frag.0.seq == (#[trigger] frags[i]).msg_seq
                    &&& frag.0.lane == frags[i].lane_index
                    &&& frag.0.position == slot(before, frags[i])->0.position
                    &&& frag.1 == slot(before, frags[i])->0.payload
                }
            &&& after.len() == before.len()
            &&& forall|i: int|
                0 <= i < before.len() ==> (#[trigger] after[i]).kind == before[i].kind
                    && after[i].next_msg_seq == before[i].next_msg_seq && after[i].msgs.dom()
                    == before[i].msgs.dom()
            &&& forall|p: FragmentPath| #[trigger]
                has_place(after, p) <==> has_place(before, p)
            &&& forall|p: FragmentPath|
                has_place(before, p) ==> #[trigger] slot(after, p) == left_in_slot(
                    before,
                    p,
                    frags.contains(p),
                    f.now,
                    t.pto,
                )
        }),
{
    let s = step(t, f);
    let fl = next_fill(t, f);
    let before = t.send.lanes;
    let after = s.transport.send.lanes;
    let inner = (packet_room(t.send.bucket.rem, f.mtu) - PACKET_HEADER_LEN) as nat;
    lemma_fill(before, f.paths, inner, f.now, t.pto);
    lemma_fill_is_greedy(before, f.paths, inner, f.now, t.pto);
    lemma_step_packet(t, f);
    reveal(reads_as);
    assert(s.transport.flushed[t.send.next_packet_seq.0].frags == fl.taken);
    assert forall|p: FragmentPath| #[trigger] has_place(after, p) <==> has_place(before, p) by {
        assert(has_slot(after, p) <==> has_slot(before, p));
    }
    assert forall|p: FragmentPath| has_place(before, p) implies #[trigger] slot(after, p)
        == left_in_slot(before, p, fl.taken.contains(p), f.now, t.pto) by {
        assert(has_slot(before, p));
        if fl.taken.contains(p) {
            assert(f.paths.contains(p));
            let i = choose|i: int| 0 <= i < f.paths.len() && f.paths[i] == p;
            assert(has_frag_at(before, f.paths[i]));
            assert(slot_at(after, p) == sent_slot(before, p, f.now, t.pto));
        } else {
            assert(slot_at(after, p) == slot_at(before, p));
        }
    }
    assert forall|i: int| 0 <= i < before.len() implies (#[trigger] after[i]).kind
        == before[i].kind && after[i].next_msg_seq == before[i].next_msg_seq
        && after[i].msgs.dom() == before[i].msgs.dom() by {
        assert(before[i].kind == after[i].kind);
    }
}

/// The fragments of a flush are gone through in the given order, and one packet
/// has to be sent if there are any, if an acknowledgement is owed, or if there is
/// no interval or it has elapsed since the last packet.
pub proof fn law_flush_begins_with_all(
    t: TransportModel,
    now: Instant,
    mtu: nat,
    heartbeat_interval: Option<Duration>,
    order: Seq<FragmentPath>,
)
    ensures
        ({
            let f = begin(t, now, mtu, heartbeat_interval, order);
            &&& f.now == now
            &&& f.mtu == mtu
            &&& !f.sent_packet_yet
            &&& f.paths == order
            &&& f.must_emit <==> order.len() > 0 || t.owe_ack || elapsed(
                t,
                now,
                heartbeat_interval,
            )
        }),
{
}

/// Whether there is no interval, or as much time has passed since the last packet.
/// Where that packet lies ahead of `now`, no time has passed.
pub open spec fn elapsed(
    t: TransportModel,
    now: Instant,
    heartbeat_interval: Option<Duration>,
) -> bool {
    match heartbeat_interval {
        None => true,
        Some(interval) => interval.nanos == 0 || t.last_flush_at.nanos + interval.nanos
            <= now.nanos,
    }
}

/// Only the first packet of a flush can be without fragments.
proof fn lemma_flush_counts(t: TransportModel, f: FlushModel)
    requires
        flush_ready(t, f),
    ensures
        ({
            let packets = flush_rest(t, f).packets;
            let taken = flush_taken(t, f);
            &&& taken.len() == packets.len()
            &&& forall|k: int|
                0 <= k < taken.len() && (k > 0 || f.sent_packet_yet) ==> (
                #[trigger] taken[k]).len() > 0
            &&& taken.len() > 1 ==> taken[0].len() > 0
            &&& f.sent_packet_yet ==> taken.len() <= f.paths.len()
            &&& taken.len() <= 1 || taken.len() <= f.paths.len()
        }),
    decreases flush_work(f),
{
    lemma_step_decreases(t, f);
    lemma_step_ready(t, f);
    let s = step(t, f);
    if s.packet is Some {
        let fl = next_fill(t, f);
        let room = (packet_room(t.send.bucket.rem, f.mtu) - 8) as nat;
        let taken = flush_taken(t, f);
        let rest = flush_taken(s.transport, s.flush);
        lemma_flush_counts(s.transport, s.flush);
        lemma_fill_len(t.send.lanes, f.paths, room, f.now, t.pto);
        assert forall|k: int|
            0 <= k < taken.len() && (k > 0 || f.sent_packet_yet) implies (
        #[trigger] taken[k]).len() > 0 by {
            if k > 0 {
                assert(taken[k] == rest[k - 1]);
            }
        }
        if fl.taken.len() == 0 {
            lemma_fill_none(t.send.lanes, f.paths, room, f.now, t.pto);
            lemma_fill_takes(t.send.lanes, f.paths, room, f.now, t.pto);
            law_next_packet_comes_for_cause(s.transport, s.flush);
            assert(s.transport.send.lanes == t.send.lanes);
            assert(s.flush.paths == f.paths);
            if step(s.transport, s.flush).packet is Some {
                let next = room_for(s.transport.send.bucket.rem as int, f.mtu as int);
                let q = choose|q: FragmentPath| #[trigger]
                    s.flush.paths.contains(q) && 8 + wire_len(t.send.lanes, q) <= next;
                assert(f.paths.contains(q) && wire_len(t.send.lanes, q) <= room);
            }
            assert(rest.len() == 0);
        }
    }
}

/// A packet without fragments is the only packet of its flush: where there are
/// more, each reads back with at least one fragment. There are no more packets
/// than fragments, unless it is that one.
pub proof fn law_packet_without_fragments_is_alone(
    t: TransportModel,
    now: Instant,
    mtu: nat,
    heartbeat_interval: Option<Duration>,
    order: Seq<FragmentPath>,
)
    requires
        can_flush(t, now, order),
    ensures
        ({
            let packets = flush_in(t, now, mtu, heartbeat_interval, order).packets;
            &&& packets.len() > 1 ==> forall|k: int|
                0 <= k < packets.len() ==> (parse_packet(#[trigger] packets[k]) matches Ok(
                    (h, frags),
                ) && frags.len() > 0)
            &&& packets.len() <= 1 || packets.len() <= order.len()
        }),
{
    let packets = flush_in(t, now, mtu, heartbeat_interval, order).packets;
    let sent = sent_in(t, now, mtu, heartbeat_interval, order);
    lemma_can_flush_ready(t, now, mtu, heartbeat_interval, order);
    lemma_flush_counts(pruned(t), begin(t, now, mtu, heartbeat_interval, order));
    law_packets_read_back(t, now, mtu, heartbeat_interval, order);
    if packets.len() > 1 {
        assert forall|k: int| 0 <= k < packets.len() implies (parse_packet(
            #[trigger] packets[k],
        ) matches Ok((h, frags)) && frags.len() > 0) by {
            assert(sent[k].len() > 0);
            assert(items_at(pruned(t).send.lanes, sent[k]).len() == sent[k].len());
        }
    }
}

/// A flush sends a packet if, and only if, there is room for the eight bytes of a
/// header, and a fragment is ready, an acknowledgement is owed, there is no
/// interval, or it has elapsed since the last packet.
pub proof fn law_flush_speaks_for_cause(
    t: TransportModel,
    now: Instant,
    mtu: nat,
    heartbeat_interval: Option<Duration>,
    order: Seq<FragmentPath>,
)
    requires
        can_flush(t, now, order),
    ensures
        flush_in(t, now, mtu, heartbeat_interval, order).packets.len() > 0 <==> {
            &&& t.send.bucket.rem >= 8
            &&& mtu >= 8
            &&& (exists|p: FragmentPath| #[trigger] is_ready(t.send.lanes, now, p)) || t.owe_ack
                || elapsed(t, now, heartbeat_interval)
        },
{
    law_flush_emits_iff_there_is_reason(t, now, mtu, heartbeat_interval, order);
    law_flush_goes_by_age(t, now, order);
    if order.len() > 0 {
        assert(order.contains(order[0]));
        assert(is_ready(t.send.lanes, now, order[0]));
    }
    if exists|p: FragmentPath| #[trigger] is_ready(t.send.lanes, now, p) {
        let p = choose|p: FragmentPath| #[trigger] is_ready(t.send.lanes, now, p);
        assert(order.contains(p));
    }
}

/// Whatever was sent before, a packet goes out once the interval has elapsed since
/// the last one, if there is room for its header.
pub proof fn law_heartbeat_comes_when_interval_elapsed(
    t: TransportModel,
    now: Instant,
    mtu: nat,
    interval: Duration,
    order: Seq<FragmentPath>,
)
    requires
        can_flush(t, now, order),
        t.send.bucket.rem >= 8,
        mtu >= 8,
        now.nanos - t.last_flush_at.nanos >= interval.nanos,
    ensures
        flush_in(t, now, mtu, Some(interval), order).packets.len() >= 1,
{
    law_flush_speaks_for_cause(t, now, mtu, Some(interval), order);
}

/// Heartbeats go on: after a flush that sent a packet, a flush that is later by
/// the interval sends one again, if there still is room for its header.
pub proof fn law_heartbeats_go_on(
    t: TransportModel,
    now: Instant,
    mtu: nat,
    heartbeat_interval: Option<Duration>,
    order: Seq<FragmentPath>,
    later: Instant,
    later_mtu: nat,
    interval: Duration,
    later_order: Seq<FragmentPath>,
)
    requires
        can_flush(t, now, order),
        flush_in(t, now, mtu, heartbeat_interval, order).packets.len() > 0,
        can_flush(flush_in(t, now, mtu, heartbeat_interval, order).transport, later, later_order),
        flush_in(t, now, mtu, heartbeat_interval, order).transport.send.bucket.rem >= 8,
        later_mtu >= 8,
        later.nanos - now.nanos >= interval.nanos,
    ensures
        flush_in(
            flush_in(t, now, mtu, heartbeat_interval, order).transport,
            later,
            later_mtu,
            Some(interval),
            later_order,
        ).packets.len() >= 1,
{
    let after = flush_in(t, now, mtu, heartbeat_interval, order).transport;
    law_flush_discharges_ack(t, now, mtu, heartbeat_interval, order);
    law_flush_speaks_for_cause(after, later, later_mtu, Some(interval), later_order);
}

/// Each packet reads back with its number and the acknowledgements, and with
/// fragments that were ready, from the one pushed first to the one pushed last,
/// under the lanes and numbers of their messages and with their own positions and
/// payloads. It has a byte for each of theirs and eight for its header.
pub proof fn law_packets_carry_ready_fragments(
    t: TransportModel,
    now: Instant,
    mtu: nat,
    heartbeat_interval: Option<Duration>,
    order: Seq<FragmentPath>,
    k: int,
)
    requires
        can_flush(t, now, order),
        0 <= k < flush_in(t, now, mtu, heartbeat_interval, order).packets.len(),
    ensures
        ({
            let packet = flush_in(t, now, mtu, heartbeat_interval, order).packets[k];
            let sent = sent_in(t, now, mtu, heartbeat_interval, order)[k];
            let lanes = t.send.lanes;
            &&& parse_packet(packet) is Ok
            &&& parse_packet(packet)->Ok_0.0.seq.0 == (t.send.next_packet_seq.0 + k) % 0x1_0000
            &&& parse_packet(packet)->Ok_0.0.acks == t.peer_acks
            &&& parse_packet(packet)->Ok_0.1.len() == sent.len()
            &&& forall|i: int|
                0 <= i < sent.len() ==> {
                    let frag = parse_packet(packet)->Ok_0.1[i];
                    &&& is_ready(lanes, now, #[trigger] sent[i])
                    &&& frag.0.seq == sent[i].msg_seq
                    &&& frag.0.lane == sent[i].lane_index
                    &&& frag.0.position == slot(lanes, sent[i])->0.position
                    &&& frag.1 == slot(lanes, sent[i])->0.payload
                }
            &&& forall|i: int, j: int|
                0 <= i < j < sent.len() ==> {
                    &&& #[trigger] sent[i] != #[trigger] sent[j]
                    &&& slot(lanes, sent[i])->0.sent_at.nanos <= slot(
                        lanes,
                        sent[j],
                    )->0.sent_at.nanos
                }
            &&& packet.len() == 8 + wire_total(lanes, sent)
        }),
{
    let packet = flush_in(t, now, mtu, heartbeat_interval, order).packets[k];
    let all = sent_in(t, now, mtu, heartbeat_interval, order);
    let sent = all[k];
    let lanes = t.send.lanes;
    let f = begin(t, now, mtu, heartbeat_interval, order);
    lemma_can_flush_ready(t, now, mtu, heartbeat_interval, order);
    law_packets_read_back(t, now, mtu, heartbeat_interval, order);
    law_flush_sends_due_fragments_once(t, now, mtu, heartbeat_interval, order);
    law_pruning_keeps_fragments(t);
    lemma_flush_lens(pruned(t), f, k);
    assert(parse_packet(packet) is Ok);
    assert(sent.no_duplicates() && oldest_first(pruned(t).send.lanes, sent));
    assert forall|i: int| 0 <= i < sent.len() implies is_ready(lanes, now, #[trigger] sent[i])
        && slot(pruned(t).send.lanes, sent[i]) == slot(lanes, sent[i]) by {
        assert(sent.contains(sent[i]));
        assert(was_taken(all, sent[i]));
        assert(due(lanes, now, sent[i]));
        assert(slot_at(pruned(t).send.lanes, sent[i]) == slot_at(lanes, sent[i]));
    }
    assert forall|i: int| 0 <= i < sent.len() implies {
        let frag = parse_packet(packet)->Ok_0.1[i];
        &&& is_ready(lanes, now, #[trigger] sent[i])
        &&& frag.0.seq == sent[i].msg_seq
        &&& frag.0.lane == sent[i].lane_index
        &&& frag.0.position == slot(lanes, sent[i])->0.position
        &&& frag.1 == slot(lanes, sent[i])->0.payload
    } by {
        assert(slot(pruned(t).send.lanes, sent[i]) == slot(lanes, sent[i]));
    }
    assert forall|i: int, j: int| 0 <= i < j < sent.len() implies {
        &&& #[trigger] sent[i] != #[trigger] sent[j]
        &&& slot(lanes, sent[i])->0.sent_at.nanos <= slot(lanes, sent[j])->0.sent_at.nanos
    } by {
        assert(slot(pruned(t).send.lanes, sent[i]) == slot(lanes, sent[i]));
        assert(slot(pruned(t).send.lanes, sent[j]) == slot(lanes, sent[j]));
    }
    lemma_wire_total_same(pruned(t).send.lanes, lanes, sent);
}

/// Each packet takes the bytes counted for its fragments and for its header, and
/// crowds out what goes into neither it nor an earlier one.
proof fn lemma_flush_lens(t: TransportModel, f: FlushModel, k: int)
    requires
        flush_ready(t, f),
        0 <= k < flush_rest(t, f).packets.len(),
    ensures
        ({
            let packets = flush_rest(t, f).packets;
            let taken = flush_taken(t, f);
            let room = room_for(t.send.bucket.rem - total_len(packets.take(k)), f.mtu as int);
            &&& taken.len() == packets.len()
            &&& packets[k].len() == 8 + wire_total(t.send.lanes, taken[k])
            &&& packets[k].len() <= room
            &&& oldest_first(t.send.lanes, f.paths) ==> forall|q: FragmentPath|
                f.paths.contains(q) && !#[trigger] was_taken(taken.take(k + 1), q) ==> crowded_out(
                    t.send.lanes,
                    taken[k],
                    q,
                    room,
                )
        }),
    decreases flush_work(f),
{
    lemma_step_decreases(t, f);
    lemma_step_ready(t, f);
    lemma_flush_packets(t, f);
    let s = step(t, f);
    let fl = next_fill(t, f);
    let lanes = t.send.lanes;
    let inner = (packet_room(t.send.bucket.rem, f.mtu) - PACKET_HEADER_LEN) as nat;
    let packets = flush_rest(t, f).packets;
    let taken = flush_taken(t, f);
    let rest = flush_rest(s.transport, s.flush).packets;
    let rest_taken = flush_taken(s.transport, s.flush);
    assert(s.packet is Some);
    lemma_fill(lanes, f.paths, inner, f.now, t.pto);
    lemma_fill_crowds_out(lanes, f.paths, inner, f.now, t.pto);
    lemma_header_round_trip(next_header(t), Seq::empty());
    lemma_was_taken_step(fl.taken, rest_taken, taken, k);
    if k == 0 {
        assert(packets.take(0) =~= Seq::empty());
        assert(taken[0] == fl.taken);
        assert forall|q: FragmentPath|
            oldest_first(lanes, f.paths) && f.paths.contains(q) && !#[trigger] was_taken(
                taken.take(k + 1),
                q,
            ) implies crowded_out(
            lanes,
            taken[k],
            q,
            room_for(t.send.bucket.rem - total_len(packets.take(k)), f.mtu as int),
        ) by {
            assert(fl.kept.contains(q));
        }
    } else {
        let room = room_for(t.send.bucket.rem - total_len(packets.take(k)), f.mtu as int);
        lemma_flush_lens(s.transport, s.flush, k - 1);
        lemma_taken_in_paths(s.transport, s.flush);
        assert(packets.take(k)[0] == packets[0]);
        assert(packets.take(k).skip(1) =~= rest.take(k - 1));
        assert(packets[k] == rest[k - 1]);
        assert(taken[k] == rest_taken[k - 1]);
        assert(packets[0].len() == 8 + fl.bytes.len());
        assert forall|i: int| 0 <= i < taken[k].len() implies fl.kept.contains(
            #[trigger] taken[k][i],
        ) by {
            assert(s.flush.paths.contains(rest_taken[k - 1][i]));
        }
        assert forall|q: FragmentPath| #[trigger] fl.kept.contains(q) implies slot(fl.lanes, q)
            == slot(lanes, q) by {
            lemma_kept_items(t, f, seq![q]);
            assert(slot_at(fl.lanes, seq![q][0]) == slot_at(lanes, q));
        }
        lemma_wire_total_same(fl.lanes, lanes, taken[k]);
        if oldest_first(lanes, f.paths) {
            lemma_fill_order(lanes, f.paths, inner, f.now, t.pto);
            assert forall|i: int| 0 <= i < fl.kept.len() implies slot_at(
                lanes,
                #[trigger] fl.kept[i],
            ) == slot_at(fl.lanes, fl.kept[i]) by {
                assert(fl.kept.contains(fl.kept[i]));
            }
            lemma_order_same(lanes, fl.lanes, fl.kept);
            assert forall|q: FragmentPath|
                f.paths.contains(q) && !#[trigger] was_taken(
                    taken.take(k + 1),
                    q,
                ) implies crowded_out(lanes, taken[k], q, room) by {
                assert(fl.kept.contains(q));
                assert(!was_taken(rest_taken.take((k - 1) + 1), q));
                assert(crowded_out(fl.lanes, rest_taken[k - 1], q, room));
                lemma_crowded_out_same(fl.lanes, lanes, taken[k], q, room);
            }
        }
    }
}

/// What was taken for the first packets was taken for the first or for a later one.
proof fn lemma_was_taken_step(
    first: Seq<FragmentPath>,
    rest: Seq<Seq<FragmentPath>>,
    all: Seq<Seq<FragmentPath>>,
    k: int,
)
    requires
        all == seq![first] + rest,
        0 <= k <= rest.len(),
    ensures
        forall|q: FragmentPath| #[trigger]
            was_taken(all.take(k + 1), q) <==> first.contains(q) || was_taken(rest.take(k), q),
{
    assert(all.take(k + 1) =~= seq![first] + rest.take(k));
    assert forall|q: FragmentPath| #[trigger] was_taken(all.take(k + 1), q) <==> first.contains(q)
        || was_taken(rest.take(k), q) by {
        lemma_was_taken_first(first, rest.take(k), q);
    }
}

/// Whether a fragment is crowded out rests on the slots alone.
proof fn lemma_crowded_out_same(
    a: Seq<LaneModel>,
    b: Seq<LaneModel>,
    frags: Seq<FragmentPath>,
    p: FragmentPath,
    room: int,
)
    requires
        crowded_out(a, frags, p, room),
        slot(a, p) == slot(b, p),
        forall|i: int| 0 <= i < frags.len() ==> slot(a, #[trigger] frags[i]) == slot(b, frags[i]),
    ensures
        crowded_out(b, frags, p, room),
{
    let m = choose|m: int|
        0 <= m <= frags.len() && 8 + wire_total(a, #[trigger] frags.take(m)) + wire_len(a, p) > room
            && forall|i: int|
            0 <= i < m ==> slot(a, #[trigger] frags[i])->0.sent_at.nanos <= slot(
                a,
                p,
            )->0.sent_at.nanos;
    let first = frags.take(m);
    assert forall|i: int| 0 <= i < first.len() implies slot(a, #[trigger] first[i]) == slot(
        b,
        first[i],
    ) by {
        assert(first[i] == frags[i]);
    }
    lemma_wire_total_same(a, b, first);
    assert forall|i: int| 0 <= i < m implies slot(b, #[trigger] frags[i])->0.sent_at.nanos <= slot(
        b,
        p,
    )->0.sent_at.nanos by {
        assert(slot(a, frags[i]) == slot(b, frags[i]));
    }
}

/// A fragment that is ready is left out of a packet for no other reason than that
/// it has no room beside fragments in it that were pushed no later. No packet has
/// more bytes than the mtu, or than are left to be sent.
pub proof fn law_fragments_wait_for_older_ones_alone(
    t: TransportModel,
    now: Instant,
    mtu: nat,
    heartbeat_interval: Option<Duration>,
    order: Seq<FragmentPath>,
    k: int,
)
    requires
        can_flush(t, now, order),
        0 <= k < flush_in(t, now, mtu, heartbeat_interval, order).packets.len(),
    ensures
        ({
            let packets = flush_in(t, now, mtu, heartbeat_interval, order).packets;
            let sent = sent_in(t, now, mtu, heartbeat_interval, order);
            let room = room_for(t.send.bucket.rem - total_len(packets.take(k)), mtu as int);
            &&& 8 <= packets[k].len() <= room
            &&& forall|p: FragmentPath|
                is_ready(t.send.lanes, now, p) && !#[trigger] was_taken(sent.take(k + 1), p)
                    ==> crowded_out(t.send.lanes, sent[k], p, room)
        }),
{
    let packets = flush_in(t, now, mtu, heartbeat_interval, order).packets;
    let sent = sent_in(t, now, mtu, heartbeat_interval, order);
    let room = room_for(t.send.bucket.rem - total_len(packets.take(k)), mtu as int);
    let before = pruned(t).send.lanes;
    lemma_can_flush_ready(t, now, mtu, heartbeat_interval, order);
    lemma_flush_lens(pruned(t), begin(t, now, mtu, heartbeat_interval, order), k);
    law_flush_goes_by_age(t, now, order);
    law_pruning_keeps_fragments(t);
    law_packets_carry_ready_fragments(t, now, mtu, heartbeat_interval, order, k);
    assert forall|p: FragmentPath| is_ready(t.send.lanes, now, p) implies #[trigger] slot(before, p)
        == slot(t.send.lanes, p) by {
        assert(has_frag_at(t.send.lanes, p));
        assert(slot_at(before, p) == slot_at(t.send.lanes, p));
    }
    assert(oldest_first(before, order));
    assert forall|p: FragmentPath|
        is_ready(t.send.lanes, now, p) && !#[trigger] was_taken(
            sent.take(k + 1),
            p,
        ) implies crowded_out(t.send.lanes, sent[k], p, room) by {
        assert(order.contains(p));
        assert(slot(before, p) == slot(t.send.lanes, p));
        assert(crowded_out(before, sent[k], p, room));
        assert forall|i: int| 0 <= i < sent[k].len() implies slot(before, #[trigger] sent[k][i])
            == slot(t.send.lanes, sent[k][i]) by {
            assert(is_ready(t.send.lanes, now, sent[k][i]));
        }
        lemma_crowded_out_same(before, t.send.lanes, sent[k], p, room);
    }
}

/// When a flush ends, no fragment that is left has room in one more packet.
proof fn lemma_flush_ends(t: TransportModel, f: FlushModel)
    requires
        flush_ready(t, f),
    ensures
        ({
            let packets = flush_rest(t, f).packets;
            &&& total_len(packets) <= t.send.bucket.rem
            &&& forall|q: FragmentPath|
                f.paths.contains(q) && !#[trigger] was_taken(flush_taken(t, f), q) ==> 8 + wire_len(
                    t.send.lanes,
                    q,
                ) > room_for(t.send.bucket.rem - total_len(packets), f.mtu as int)
        }),
    decreases flush_work(f),
{
    lemma_step_decreases(t, f);
    lemma_step_ready(t, f);
    law_next_packet_comes_for_cause(t, f);
    lemma_flush_budget(t, f);
    let s = step(t, f);
    let packets = flush_rest(t, f).packets;
    if s.packet is Some {
        let fl = next_fill(t, f);
        let rest = flush_rest(s.transport, s.flush).packets;
        let inner = (packet_room(t.send.bucket.rem, f.mtu) - PACKET_HEADER_LEN) as nat;
        lemma_fill(t.send.lanes, f.paths, inner, f.now, t.pto);
        lemma_flush_ends(s.transport, s.flush);
        assert(packets.skip(1) =~= rest);
        assert forall|q: FragmentPath|
            f.paths.contains(q) && !#[trigger] was_taken(flush_taken(t, f), q) implies 8 + wire_len(
            t.send.lanes,
            q,
        ) > room_for(t.send.bucket.rem - total_len(packets), f.mtu as int) by {
            lemma_was_taken_first(fl.taken, flush_taken(s.transport, s.flush), q);
            assert(fl.kept.contains(q));
            lemma_kept_items(t, f, seq![q]);
            assert(slot_at(fl.lanes, seq![q][0]) == slot_at(t.send.lanes, q));
        }
    } else {
        assert(total_len(packets) == 0);
    }
}

/// A flush goes on while there is room: a fragment that was ready and is not sent
/// has no room in one more packet, for which the bytes would be left.
pub proof fn law_flush_goes_on_while_there_is_room(
    t: TransportModel,
    now: Instant,
    mtu: nat,
    heartbeat_interval: Option<Duration>,
    order: Seq<FragmentPath>,
    p: FragmentPath,
)
    requires
        can_flush(t, now, order),
        is_ready(t.send.lanes, now, p),
        !was_taken(sent_in(t, now, mtu, heartbeat_interval, order), p),
    ensures
        8 + wire_len(t.send.lanes, p) > room_for(
            t.send.bucket.rem - total_len(
                flush_in(t, now, mtu, heartbeat_interval, order).packets,
            ),
            mtu as int,
        ),
{
    lemma_can_flush_ready(t, now, mtu, heartbeat_interval, order);
    law_flush_goes_by_age(t, now, order);
    law_pruning_keeps_fragments(t);
    lemma_flush_ends(pruned(t), begin(t, now, mtu, heartbeat_interval, order));
    assert(order.contains(p));
    assert(has_frag_at(t.send.lanes, p));
    assert(slot_at(pruned(t).send.lanes, p) == slot_at(t.send.lanes, p));
}

/// The bucket pays for the bytes of all packets, and for eight more where there
/// still was room for a header after the last of them.
pub proof fn law_bytes_are_paid_for(
    t: TransportModel,
    now: Instant,
    mtu: nat,
    heartbeat_interval: Option<Duration>,
    order: Seq<FragmentPath>,
)
    requires
        can_flush(t, now, order),
    ensures
        ({
            let r = flush_in(t, now, mtu, heartbeat_interval, order);
            let left = t.send.bucket.rem - total_len(r.packets);
            &&& left >= 0
            &&& r.transport.send.bucket.cap == t.send.bucket.cap
            &&& r.transport.send.bucket.rem == if left >= 8 && mtu >= 8 {
                left - 8
            } else {
                left
            }
        }),
{
    law_packets_keep_to_limits(t, now, mtu, heartbeat_interval, order);
}

// ---------------------------------------------------------------------------
// What a flush leaves behind
// ---------------------------------------------------------------------------

/// A fragment that a flush sends stays on a reliable lane, as it was but for being
/// ready again once the timeout has passed, and leaves an unreliable one. Any
/// other fragment stays as it was. Messages whose slots were all empty are gone,
/// and no other message is. Lanes keep their kinds and next numbers.
pub proof fn law_flush_deals_with_each_fragment(
    t: TransportModel,
    now: Instant,
    mtu: nat,
    heartbeat_interval: Option<Duration>,
    order: Seq<FragmentPath>,
)
    requires
        can_flush(t, now, order),
    ensures
        ({
            let before = t.send.lanes;
            let after = flush_in(t, now, mtu, heartbeat_interval, order).transport.send.lanes;
            let sent = sent_in(t, now, mtu, heartbeat_interval, order);
            &&& after.len() == before.len()
            &&& forall|i: int|
                0 <= i < before.len() ==> (#[trigger] after[i]).kind == before[i].kind
                    && after[i].next_msg_seq == before[i].next_msg_seq
            &&& forall|i: int, seq: u16|
                0 <= i < before.len() ==> (#[trigger] after[i].msgs.contains_key(seq) <==> {
                    &&& before[i].msgs.contains_key(seq)
                    &&& exists|j: int|
                        0 <= j < before[i].msgs[seq].len() && (
                        #[trigger] before[i].msgs[seq][j]) is Some
                })
            &&& forall|p: FragmentPath|
                has_place(after, p) ==> has_place(before, p) && #[trigger] slot(after, p)
                    == left_in_slot(before, p, was_taken(sent, p), now, t.pto)
            &&& forall|p: FragmentPath| #[trigger] waits(before, p) ==> has_place(after, p)
        }),
{
    let before = t.send.lanes;
    let middle = pruned(t).send.lanes;
    let after = flush_in(t, now, mtu, heartbeat_interval, order).transport.send.lanes;
    let sent = sent_in(t, now, mtu, heartbeat_interval, order);
    law_done_messages_are_dropped(t);
    law_pruning_keeps_fragments(t);
    law_flush_sends_due_fragments_once(t, now, mtu, heartbeat_interval, order);
    assert forall|i: int| 0 <= i < before.len() implies (#[trigger] after[i]).kind
        == before[i].kind && after[i].next_msg_seq == before[i].next_msg_seq
        && after[i].msgs.dom() == middle[i].msgs.dom() by {
        assert(middle[i].kind == after[i].kind);
    }
    assert forall|i: int, seq: u16| 0 <= i < before.len() implies (
    #[trigger] after[i].msgs.contains_key(seq) <==> middle[i].msgs.contains_key(seq)) by {
        assert(after[i].msgs.dom() == middle[i].msgs.dom());
    }
    assert forall|p: FragmentPath| has_place(after, p) implies has_place(before, p)
        && #[trigger] slot(after, p) == left_in_slot(
        before,
        p,
        was_taken(sent, p),
        now,
        t.pto,
    ) by {
        assert(has_slot(after, p) && has_slot(middle, p));
        assert(middle[p.lane_index.0.0 as int].msgs.contains_key(p.msg_seq.0));
        assert(slot(middle, p) == slot(before, p));
        if was_taken(sent, p) {
            assert(due(before, now, p));
            if before[p.lane_index.0.0 as int].kind.is_reliable() {
                law_reliable_fragment_is_kept(t, now, mtu, heartbeat_interval, order, p, now);
                assert(now.reaches(t.pto));
            } else {
                law_unreliable_fragment_is_forgotten(
                    t,
                    now,
                    mtu,
                    heartbeat_interval,
                    order,
                    p,
                    now,
                );
            }
        } else {
            assert(slot_at(after, p) == slot_at(middle, p));
        }
    }
    assert forall|p: FragmentPath| #[trigger] waits(before, p) implies has_place(after, p) by {
        assert(has_frag_at(before, p));
        assert(has_frag_at(middle, p));
        assert(has_slot(middle, p));
        assert(has_slot(after, p));
    }
}

/// What a flush at `now` leaves in a slot, by whether its fragment was sent.
pub open spec fn left_in_slot(
    lanes: Seq<LaneModel>,
    p: FragmentPath,
    sent: bool,
    now: Instant,
    pto: Duration,
) -> Option<FragModel> {
    if !sent {
        slot(lanes, p)
    } else if resends(lanes[p.lane_index.0.0 as int].kind) {
        let frag = slot(lanes, p)->0;
        Some(
            FragModel {
                position: frag.position,
                payload: frag.payload,
                sent_at: frag.sent_at,
                next_flush_at: Instant { nanos: (now.nanos + pto.nanos) as u128 },
                flushed: true,
            },
        )
    } else {
        None
    }
}

/// The messages of a lane that have not been flushed yet are those with a fragment
/// that waits and was in no packet.
pub proof fn law_queued_messages_have_an_unsent_fragment(lane: LaneModel, seq: u16)
    ensures
        lane.queued().contains(seq) <==> {
            &&& lane.msgs.contains_key(seq)
            &&& exists|i: int|
                0 <= i < lane.msgs[seq].len() && (#[trigger] lane.msgs[seq][i]) is Some
                    && !lane.msgs[seq][i]->0.flushed
        },
{
}

/// After a flush, a message has not been flushed yet if, and only if, it has a
/// fragment that was in no packet before and is in none of the flush. However many
/// of its fragments are sent, it stays queued until all of them were.
pub proof fn law_message_is_queued_until_all_of_it_is_sent(
    t: TransportModel,
    now: Instant,
    mtu: nat,
    heartbeat_interval: Option<Duration>,
    order: Seq<FragmentPath>,
    key: MessageKey,
)
    requires
        can_flush(t, now, order),
        key.lane.0.0 < t.send.lanes.len(),
    ensures
        flush_in(
            t,
            now,
            mtu,
            heartbeat_interval,
            order,
        ).transport.send.lanes[key.lane.0.0 as int].queued().contains(key.seq.0) <==> exists|
            p: FragmentPath,
        | #[trigger]
            waits(t.send.lanes, p) && is_of(p, key) && !slot(t.send.lanes, p)->0.flushed
                && !was_taken(sent_in(t, now, mtu, heartbeat_interval, order), p),
{
    let li = key.lane.0.0 as int;
    let before = t.send.lanes;
    let r = flush_in(t, now, mtu, heartbeat_interval, order).transport;
    let after = r.send.lanes;
    let sent = sent_in(t, now, mtu, heartbeat_interval, order);
    law_flush_deals_with_each_fragment(t, now, mtu, heartbeat_interval, order);
    law_flush_sends_due_fragments_once(t, now, mtu, heartbeat_interval, order);
    law_queued_messages_have_an_unsent_fragment(after[li], key.seq.0);
    assert(after[li].wf(r.send.max_frag_len.0 as nat));
    if after[li].queued().contains(key.seq.0) {
        let msg = after[li].msgs[key.seq.0];
        let i = choose|i: int|
            0 <= i < msg.len() && (#[trigger] msg[i]) is Some && !msg[i]->0.flushed;
        let p = path_in(key, i);
        assert(slot(after, p) == msg[i]);
        assert(has_place(after, p));
        assert(waits(before, p));
        assert(!was_taken(sent, p));
    }
    if exists|p: FragmentPath| #[trigger]
        waits(before, p) && is_of(p, key) && !slot(before, p)->0.flushed && !was_taken(sent, p) {
        let p = choose|p: FragmentPath| #[trigger]
            waits(before, p) && is_of(p, key) && !slot(before, p)->0.flushed && !was_taken(sent, p);
        assert(has_place(after, p));
        assert(slot(after, p) == slot(before, p));
        assert(after[li].msgs[key.seq.0][p.frag_index.0 as int] is Some);
    }
}

// ---------------------------------------------------------------------------
// Listing, receiving, and what transports are made of
// ---------------------------------------------------------------------------

/// Listing the messages of a lane gives its fragments that are ready, each of them
/// once and with the time of its push.
pub proof fn law_listing_gives_ready_fragments(
    lanes: Seq<LaneModel>,
    lane_index: LaneIndex,
    items: Seq<(u16, Slots)>,
    now: Instant,
)
    requires
        lane_index.0.0 < lanes.len(),
        lists_all(items, lanes[lane_index.0.0 as int].msgs),
        forall|seq: u16| #[trigger]
            lanes[lane_index.0.0 as int].msgs.contains_key(seq)
                ==> lanes[lane_index.0.0 as int].msgs[seq].len() <= 0x1_0000_0000,
    ensures
        lane_due(lane_index, items, now).no_duplicates(),
        forall|x: TimedPath| #[trigger]
            lane_due(lane_index, items, now).contains(x) <==> {
                &&& x.0.lane_index == lane_index
                &&& is_ready(lanes, now, x.0)
                &&& x.1 == slot(lanes, x.0)->0.sent_at
            },
{
    lemma_lane_lists_due(lane_index, items, lanes[lane_index.0.0 as int].msgs, now);
}

/// Messages are listed one after the other.
pub proof fn law_listing_goes_message_by_message(
    lane_index: LaneIndex,
    a: Seq<(u16, Slots)>,
    b: Seq<(u16, Slots)>,
    now: Instant,
)
    ensures
        lane_due(lane_index, a + b, now) == lane_due(lane_index, a, now) + lane_due(
            lane_index,
            b,
            now,
        ),
    decreases b.len(),
{
    if b.len() == 0 {
        assert(a + b =~= a);
        assert(lane_due(lane_index, a, now) + lane_due(lane_index, b, now) =~= lane_due(
            lane_index,
            a,
            now,
        ));
    } else {
        law_listing_goes_message_by_message(lane_index, a, b.drop_last(), now);
        assert((a + b).drop_last() =~= a + b.drop_last());
        assert((a + b).last() == b.last());
        assert(lane_due(lane_index, a + b, now) =~= lane_due(lane_index, a, now) + lane_due(
            lane_index,
            b,
            now,
        ));
    }
}

/// Within a message, fragments are listed from the first to the last.
pub proof fn law_listing_goes_slot_by_slot(
    lane_index: LaneIndex,
    msg_seq: MessageSeq,
    msg: Slots,
    now: Instant,
    n: nat,
)
    requires
        n <= 0x1_0000_0000,
    ensures
        ({
            let listed = msg_due(lane_index, msg_seq, msg, now, n);
            &&& forall|i: int, j: int|
                0 <= i < j < listed.len() ==> (#[trigger] listed[i]).0.frag_index.0 < (
                #[trigger] listed[j]).0.frag_index.0
            &&& forall|i: int| 0 <= i < listed.len() ==> (#[trigger] listed[i]).0.frag_index.0 < n
        }),
    decreases n,
{
    if n > 0 {
        let k = (n - 1) as nat;
        let listed = msg_due(lane_index, msg_seq, msg, now, n);
        let before = msg_due(lane_index, msg_seq, msg, now, k);
        law_listing_goes_slot_by_slot(lane_index, msg_seq, msg, now, k);
        assert forall|i: int| 0 <= i < before.len() implies #[trigger] listed[i] == before[i] by {}
        assert forall|i: int| 0 <= i < listed.len() implies (#[trigger] listed[i]).0.frag_index.0
            < n by {
            if i < before.len() {
                assert(before[i].0.frag_index.0 < k);
            }
        }
        assert forall|i: int, j: int| 0 <= i < j < listed.len() implies (
        #[trigger] listed[i]).0.frag_index.0 < (#[trigger] listed[j]).0.frag_index.0 by {
            assert(before[i].0.frag_index.0 < k);
            if j < before.len() {
                assert(before[i].0.frag_index.0 < before[j].0.frag_index.0);
            }
        }
    }
}

/// A packet with fewer bytes than a header can't be read. Of one that can, the
/// first bytes are the number and the acknowledgements, and there are fragments in
/// it if, and only if, there is anything else in it.
pub proof fn law_packet_starts_with_header(packet: Seq<u8>)
    ensures
        packet.len() < 8 ==> parse_packet(packet) == Err::<
            (PacketHeader, Seq<FragItem>),
            ReadError,
        >(ReadError::TooShort),
        parse_packet(packet) matches Ok((h, frags)) ==> {
            &&& h.seq.0 == packet[0] * 256 + packet[1]
            &&& h.acks.last_recv.0 == packet[2] * 256 + packet[3]
            &&& h.acks.bits == packet[4] * 0x100_0000 + packet[5] * 0x1_0000 + packet[6] * 256
                + packet[7]
            &&& frags.len() > 0 <==> packet.len() > 8
        },
{
    if packet.len() >= 8 {
        let s2 = packet.skip(2);
        let s4 = packet.skip(4);
        assert(s2[0] == packet[2] && s2[1] == packet[3]);
        assert(s4[0] == packet[4] && s4[1] == packet[5] && s4[2] == packet[6] && s4[3]
            == packet[7]);
        assert(0 <= packet[0] * 256 + packet[1] <= u16::MAX);
        assert(0 <= packet[2] * 256 + packet[3] <= u16::MAX);
        assert(0 <= packet[4] * 0x100_0000 + packet[5] * 0x1_0000 + packet[6] * 256 + packet[7]
            <= u32::MAX);
        let body = packet.skip(PACKET_HEADER_LEN as int);
        assert(body.len() == packet.len() - 8);
    }
}

/// A packet that can be read makes an acknowledgement owed if, and only if, there
/// is more to it than a header. One that can't be read, and all else, leaves things
/// as they were.
pub proof fn law_received_packet_obliges_if_more_than_header(t: TransportModel, packet: Seq<u8>)
    ensures
        received(t, packet) == (TransportModel {
            owe_ack: t.owe_ack || (parse_packet(packet) is Ok && packet.len() > 8),
            ..t
        }),
{
    law_packet_starts_with_header(packet);
}

/// Headers start with the number and the acknowledgements. Fragments start with
/// the number of their message and end with their payload, and have as many bytes
/// between as their lane, position and length take.
pub proof fn law_bytes_in_packets(h: PacketHeader, frag: FragmentHeader, payload: Seq<u8>)
    ensures
        ({
            let a = h.wire();
            let b = frag_wire(frag, payload);
            let between = varint(frag.lane.0.0 as nat).len() + varint(
                frag.position.0.0 as nat,
            ).len() + varint(payload.len()).len();
            &&& a.len() == 8
            &&& a[0] * 256 + a[1] == h.seq.0
            &&& a[2] * 256 + a[3] == h.acks.last_recv.0
            &&& a[4] * 0x100_0000 + a[5] * 0x1_0000 + a[6] * 256 + a[7] == h.acks.bits
            &&& b.len() == 2 + between + payload.len()
            &&& b[0] * 256 + b[1] == frag.seq.0
            &&& b.skip(2 + between as int) == payload
        }),
{
    lemma_header_round_trip(h, Seq::empty());
    let a = h.wire();
    assert(a + Seq::<u8>::empty() =~= a);
    assert(a.skip(2)[0] == a[2] && a.skip(2)[1] == a[3]);
    assert(a.skip(4)[0] == a[4] && a.skip(4)[1] == a[5] && a.skip(4)[2] == a[6] && a.skip(4)[3]
        == a[7]);
    assert(0 <= a[0] * 256 + a[1] <= u16::MAX);
    assert(0 <= a[2] * 256 + a[3] <= u16::MAX);
    assert(0 <= a[4] * 0x100_0000 + a[5] * 0x1_0000 + a[6] * 256 + a[7] <= u32::MAX);
    let b = frag_wire(frag, payload);
    let v = frag.seq.0;
    assert(b[0] == (v / 256) as u8 && b[1] == (v % 256) as u8);
    let between = varint(frag.lane.0.0 as nat).len() + varint(frag.position.0.0 as nat).len()
        + varint(payload.len()).len();
    assert(b.skip(2 + between as int) =~= payload);
}

/// A new transport has its lanes in the given order, with nothing on them and
/// counting from zero, and all bytes there are to be sent.
pub proof fn law_new_transport_is_empty(max_frag_len: MinSize, kinds: Seq<LaneKind>)
    ensures
        ({
            let s = new_send(max_frag_len, kinds);
            &&& s.max_frag_len == max_frag_len
            &&& s.lanes.len() == kinds.len()
            &&& forall|i: int|
                0 <= i < kinds.len() ==> {
                    &&& (#[trigger] s.lanes[i]).kind == kinds[i]
                    &&& s.lanes[i].next_msg_seq.0 == 0
                    &&& forall|seq: u16| !#[trigger] s.lanes[i].msgs.contains_key(seq)
                }
            &&& s.bucket.cap == usize::MAX
            &&& s.bucket.rem == usize::MAX
            &&& s.next_packet_seq.0 == 0
            &&& s.error is None
        }),
{
}

/// Fragments leave 25 bytes of the smallest packets to headers, as far as their
/// lengths can be told.
pub proof fn law_fragments_leave_room_for_headers(min_mtu: usize)
    requires
        min_mtu > 25,
    ensures
        frag_len_for(min_mtu).0 <= min_mtu - 25,
        frag_len_for(min_mtu).0 == min_mtu - 25 || (frag_len_for(min_mtu).0 == u32::MAX && min_mtu
            - 25 > u32::MAX),
{
}

/// A message is split into as few fragments as can carry it. All of them but the
/// last carry as much as they can, each starts where the one before ends, and the
/// position tells the index and the last.
pub proof fn law_split_is_even(msg: Seq<u8>, max: nat, i: int)
    requires
        max > 0,
        0 <= i < num_frags(msg.len(), max),
    ensures
        ({
            let n = num_frags(msg.len(), max);
            &&& (n - 1) * max < msg.len() <= n * max
            &&& splittable(msg.len(), max) <==> msg.len() <= max * most_frags()
            &&& chunk(msg, max, i) == msg.subrange(
                i * max,
                if i < n - 1 {
                    i * max + max
                } else {
                    msg.len() as int
                },
            )
            &&& i < most_frags() ==> FragmentPosition::at(i, true).0.0 == 2 * i + 1
            &&& i < most_frags() ==> FragmentPosition::at(i, false).0.0 == 2 * i
        }),
{
    let n = num_frags(msg.len(), max);
    lemma_num_frags(msg.len(), max);
    assert((i + 1) * max == i * max + max) by (nonlinear_arith);
    assert(0 <= i * max < msg.len());
    if i < n - 1 {
        assert(0 <= (i + 1) * max < msg.len());
    } else {
        assert((i + 1) * max >= msg.len());
    }
}

/// A message without bytes is split into no fragments, and any other into some.
pub proof fn law_only_empty_message_has_no_fragments(len: nat, max: nat)
    requires
        max > 0,
    ensures
        num_frags(len, max) == 0 <==> len == 0,
{
    lemma_num_frags(len, max);
}

/// Numbers go up by one, and start over after the last of sixteen bits.
pub proof fn law_numbers_start_over(n: u16)
    ensures
        next_seq(n) == (n + 1) % 0x1_0000,
{
}

/// The smaller of two amounts is one of them, and no greater than either.
pub proof fn law_smaller_amount_is_one_of_two(a: nat, b: nat)
    ensures
        min_nat(a, b) <= a,
        min_nat(a, b) <= b,
        min_nat(a, b) == a || min_nat(a, b) == b,
{
}

/// Filling in tokens adds all that fit under the cap, and takes none away. It is
/// the same whether they are filled in at once or bit by bit.
pub proof fn law_tokens_fill_up_to_the_cap(bucket: BucketModel, a: nat, b: nat)
    requires
        bucket.rem <= bucket.cap,
    ensures
        bucket.refilled(a).cap == bucket.cap,
        bucket.rem + a <= bucket.cap ==> bucket.refilled(a).rem == bucket.rem + a,
        bucket.rem + a > bucket.cap ==> bucket.refilled(a).rem == bucket.cap,
        bucket.refilled(a).refilled(b) == bucket.refilled(a + b),
{
}

/// Another cap takes away the tokens that are over it, and no others.
pub proof fn law_cap_takes_away_what_is_over_it(bucket: BucketModel, cap: nat)
    ensures
        bucket.capped(cap).cap == cap,
        bucket.rem <= cap ==> bucket.capped(cap).rem == bucket.rem,
        bucket.rem > cap ==> bucket.capped(cap).rem == cap,
{
}

/// The lanes that guarantee that messages arrive are those that send again.
pub proof fn law_reliable_lanes_resend(kind: LaneKind)
    ensures
        kind.is_reliable() == resends(kind),
{
}

/// A span between two points is what lies between them, and none where the second
/// comes first.
pub proof fn law_span_lies_between_points(from: Instant, to: Instant)
    ensures
        from.nanos <= to.nanos ==> from.nanos + to.since(from) == to.nanos,
        from.nanos > to.nanos ==> to.since(from) == 0,
{
}

/// The point after a span lies so many nanoseconds later, where it can be told.
pub proof fn law_points_lie_a_span_apart(at: Instant, span: Duration)
    ensures
        at.reaches(span) <==> at.nanos + span.nanos <= u128::MAX,
        at.reaches(span) ==> at.plus(span).nanos == at.nanos + span.nanos,
{
}

/// A transport can be flushed unless a fragment of a reliable lane is ready and the
/// time at which to send it again can't be told.
pub proof fn law_flush_is_possible_unless_time_ends(t: TransportModel, now: Instant)
    ensures
        resendable_when_due(t, now) <==> now.nanos + t.pto.nanos <= u128::MAX || forall|
            p: FragmentPath,
        | #[trigger]
            is_ready(t.send.lanes, now, p) ==> !resends(
                t.send.lanes[p.lane_index.0.0 as int].kind,
            ),
{
    if resendable_when_due(t, now) && now.nanos + t.pto.nanos > u128::MAX {
        assert forall|p: FragmentPath| #[trigger] is_ready(t.send.lanes, now, p) implies !resends(
            t.send.lanes[p.lane_index.0.0 as int].kind,
        ) by {
            assert(due(t.send.lanes, now, p));
        }
    }
    if !resendable_when_due(t, now) {
        let p = choose|p: FragmentPath| #[trigger]
            due(t.send.lanes, now, p)
                && t.send.lanes[p.lane_index.0.0 as int].kind.is_reliable() && !now.reaches(t.pto);
        assert(is_ready(t.send.lanes, now, p));
    }
}

/// A transport stands for what its fields hold.
pub proof fn law_transport_stands_for_its_fields(t: Transport, n: u16)
    ensures
        t@.send == t.send@,
        t@.pto == t.rtt@,
        t@.peer_acks == t.peer_acks,
        t@.owe_ack == t.owe_ack,
        t@.last_flush_at == t.last_flush_at,
        t@.flushed.contains_key(n) <==> t.flushed_packets@.contains_key(n),
        t@.flushed.contains_key(n) ==> t@.flushed[n].flushed_at == t.flushed_packets@[n].flushed_at
            && t@.flushed[n].frags == t.flushed_packets@[n].frags@,
{
}

/// A message stands for its slots, one by one, and a fragment for what its fields
/// hold.
pub proof fn law_message_stands_for_its_slots(msg: SentMessage, i: int)
    requires
        0 <= i < msg.frags@.len(),
    ensures
        msg@.len() == msg.frags@.len(),
        msg@[i] is Some <==> msg.frags@[i] is Some,
        msg@[i] is Some ==> {
            &&& msg@[i]->0.position == msg.frags@[i]->0.position
            &&& msg@[i]->0.payload == msg.frags@[i]->0.payload@
            &&& msg@[i]->0.sent_at == msg.frags@[i]->0.sent_at
            &&& msg@[i]->0.next_flush_at == msg.frags@[i]->0.next_flush_at
            &&& msg@[i]->0.flushed == msg.frags@[i]->0.flushed
        },
{
}

/// Packets, lanes, listed messages and fragments in a packet stand for what they
/// hold, one by one.
pub proof fn law_sequences_stand_for_their_items(
    packets: Seq<Bytes>,
    lanes: Seq<SendLane>,
    msgs: Seq<(u16, &SentMessage)>,
    frags: Seq<Fragment>,
    i: int,
)
    ensures
        packets_view(packets).len() == packets.len(),
        0 <= i < packets.len() ==> packets_view(packets)[i] == bytes_contents(packets[i]),
        lanes_view(lanes).len() == lanes.len(),
        0 <= i < lanes.len() ==> lanes_view(lanes)[i] == lanes[i]@,
        items_view(msgs).len() == msgs.len(),
        0 <= i < msgs.len() ==> items_view(msgs)[i] == (msgs[i].0, msgs[i].1@),
        frags_view(frags).len() == frags.len(),
        0 <= i < frags.len() ==> frags_view(frags)[i] == (frags[i].header, frags[i].payload@),
{
}

/// A fragment that is cut short can't be read.
pub proof fn law_fragment_cut_short_is_refused(
    header: FragmentHeader,
    payload: Seq<u8>,
    n: int,
)
    requires
        payload.len() <= u32::MAX,
        0 <= n < frag_wire(header, payload).len(),
    ensures
        parse_fragment(frag_wire(header, payload).take(n)) == Err::<
            (FragItem, Seq<u8>),
            ReadError,
        >(ReadError::TooShort),
{
    let s3 = payload;
    let s2 = varint(payload.len()) + s3;
    let s1 = varint(header.position.0.0 as nat) + s2;
    let s0 = varint(header.lane.0.0 as nat) + s1;
    let s = frag_wire(header, payload).take(n);
    assert(frag_wire(header, payload) =~= be16(header.seq.0) + s0);
    if n >= 2 {
        assert(s.skip(2) =~= s0.take(n - 2));
        let a = n - 2;
        lemma_varint_prefix(header.lane.0.0, s1, a);
        let b = a - varint(header.lane.0.0 as nat).len();
        if b >= 0 {
            lemma_varint_prefix(header.position.0.0, s2, b);
            let c = b - varint(header.position.0.0 as nat).len();
            if c >= 0 {
                lemma_varint_prefix(payload.len() as u32, s3, c);
            }
        }
    }
    reveal(parse_fragment);
}

/// Of a variable-length number and what follows it, the first bytes read as the
/// number if all its bytes are among them.
proof fn lemma_varint_prefix(v: u32, rest: Seq<u8>, n: int)
    requires
        0 <= n <= varint(v as nat).len() + rest.len(),
    ensures
        ({
            let len = varint(v as nat).len();
            let s = (varint(v as nat) + rest).take(n);
            &&& n < len ==> parse_varint(s) == Err::<(u32, Seq<u8>), ReadError>(ReadError::TooShort)
            &&& n >= len ==> parse_varint(s) == Ok::<(u32, Seq<u8>), ReadError>(
                (v, rest.take(n - len)),
            )
        }),
{
    let w = varint(v as nat);
    let s = (w + rest).take(n);
    if n < w.len() {
        assert(s =~= w.take(n));
        lemma_varint_cut_short(v, n);
    } else {
        assert(s =~= w + rest.take(n - w.len()));
        lemma_varint_round_trip(v, rest.take(n - w.len()));
    }
}

/// A packet whose last fragment is cut short can't be read, whatever comes before.
pub proof fn law_packet_cut_short_is_refused(
    h: PacketHeader,
    frags: Seq<FragItem>,
    header: FragmentHeader,
    payload: Seq<u8>,
    n: int,
)
    requires
        forall|i: int| 0 <= i < frags.len() ==> (#[trigger] frags[i]).1.len() <= u32::MAX,
        payload.len() <= u32::MAX,
        0 < n < frag_wire(header, payload).len(),
    ensures
        parse_packet(h.wire() + (frags_wire(frags) + frag_wire(header, payload).take(n))) == Err::<
            (PacketHeader, Seq<FragItem>),
            ReadError,
        >(ReadError::TooShort),
{
    let rest = frag_wire(header, payload).take(n);
    law_fragment_cut_short_is_refused(header, payload, n);
    assert(rest.len() > 0);
    assert(parse_fragments(rest) == Err::<Seq<FragItem>, ReadError>(ReadError::TooShort));
    lemma_fragments_round_trip(frags, rest);
    lemma_header_round_trip(h, frags_wire(frags) + rest);
}

/// A fragment is read off the front: what is left, and the payload before it, are
/// the end of the bytes, and the first two are the number of the message.
pub proof fn law_fragment_is_read_off_the_front(s: Seq<u8>)
    ensures
        parse_fragment(s) matches Ok((frag, rest)) ==> {
            let before = s.len() - frag.1.len() - rest.len();
            &&& 5 <= before <= 17
            &&& s.skip(before) == frag.1 + rest
            &&& frag.0.seq.0 == s[0] * 256 + s[1]
        },
{
    reveal(parse_fragment);
    if let Ok((frag, rest)) = parse_fragment(s) {
        let (lane, s1) = parse_varint(s.skip(2))->Ok_0;
        let (position, s2) = parse_varint(s1)->Ok_0;
        let (len, s3) = parse_varint(s2)->Ok_0;
        let before = s.len() - frag.1.len() - rest.len();
        assert(0 <= s[0] * 256 + s[1] <= u16::MAX);
        assert(s3 =~= frag.1 + rest);
        assert(s.skip(before) =~= s3);
    }
}

/// A fragment whose lane is a number that goes on past five bytes is refused for
/// that reason.
pub proof fn law_overlong_number_is_refused(s: Seq<u8>)
    requires
        s.len() >= 7,
        forall|i: int| 2 <= i < 7 ==> #[trigger] s[i] >= 128,
    ensures
        parse_fragment(s) == Err::<(FragItem, Seq<u8>), ReadError>(ReadError::VarIntTooLarge),
{
    reveal(parse_fragment);
    reveal_with_fuel(varint_span, 6);
    let a = s.skip(2);
    assert(a[0] == s[2] && a.skip(1)[0] == s[3] && a.skip(1).skip(1)[0] == s[4]);
    assert(a.skip(1).skip(1).skip(1)[0] == s[5] && a.skip(1).skip(1).skip(1).skip(1)[0] == s[6]);
}

/// All bytes of a variable-length number but the last have their top bit set.
proof fn lemma_varint_span_cut_short(v: nat, n: int)
    requires
        0 <= n < varint(v).len(),
    ensures
        varint_span(varint(v).take(n)) == n + 1,
    decreases v,
{
    let s = varint(v).take(n);
    if n > 0 {
        let head = (v % 128 + 128) as u8;
        assert(v >= 128);
        assert(s[0] == head && head >= 128);
        assert(s.skip(1) =~= varint(v / 128).take(n - 1));
        lemma_varint_span_cut_short(v / 128, n - 1);
    }
}

/// A variable-length number that is cut short can't be read.
proof fn lemma_varint_cut_short(v: u32, n: int)
    requires
        0 <= n < varint(v as nat).len(),
    ensures
        parse_varint(varint(v as nat).take(n)) == Err::<(u32, Seq<u8>), ReadError>(
            ReadError::TooShort,
        ),
{
    lemma_varint_len(v);
    lemma_varint_span_cut_short(v as nat, n);
}

}
