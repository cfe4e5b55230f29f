//! What holds of sending as a whole.

use crate::frag::{chunk, lemma_num_frags, num_frags};
use crate::lane::LaneIndex;
use crate::limit::min_nat;
use crate::model::{
    after_send, begin, due, flush_in, flush_order, flush_rest, frag_at, has_frag_at, has_slot,
    heartbeat_due, msg_slots, next_fill, next_header, packet_room, pruned, push_result, pushed,
    slot_at, step, wire_at, FlushedModel, LaneModel, SendModel, Slots, TransportModel,
};
use crate::octets::ReadError;
use crate::order::{
    lane_due, lemma_flush_order_sendable, lemma_lane_lists_due, lemma_resendable_order, lists_all,
    resendable_when_due, TimedPath,
};
use crate::packet::{
    lemma_frag_wire_len, parse_packet, FragmentHeader, FragmentPosition, PacketHeader, PacketSeq,
    MAX_FRAG_OVERHEAD, PACKET_HEADER_LEN,
};
use crate::packing::{flush_ready, lemma_after_send, lemma_fill, lemma_pruned_wf, same_frames};
use crate::queue::{has_frag, unflushed, FragModel};
use crate::recv::received;
use crate::send::TransportSendError;
use crate::size::MinSize;
use crate::time::{Duration, Instant};
use crate::trace::{
    cost, flush_taken, lemma_flush_budget, lemma_flush_complete, lemma_flush_is_full,
    lemma_flush_is_sound, lemma_flush_oldest_first, lemma_flush_packets, lemma_flush_record,
    lemma_flush_scalars, lemma_frag_len, nth_seq, oldest_first, reads_as, total_len, was_taken,
};
use crate::transport::{frag_len_for, FragmentPath, MessageKey, MAX_PACKET_OVERHEAD};
use crate::wire::{item_at, items_at, FragItem};
use vstd::prelude::*;

verus! {

// ---------------------------------------------------------------------------
// Queueing
// ---------------------------------------------------------------------------

/// Payloads of these slots, one after the other.
pub open spec fn payloads(slots: Slots) -> Seq<u8>
    decreases slots.len(),
{
    if slots.len() == 0 {
        Seq::empty()
    } else {
        payloads(slots.drop_last()) + slots.last()->0.payload
    }
}

/// The first `k` fragments of a message carry its first bytes.
proof fn lemma_payloads_take(msg: Seq<u8>, max: nat, now: Instant, k: nat)
    requires
        max > 0,
        msg.len() > 0,
        k <= num_frags(msg.len(), max),
    ensures
        payloads(msg_slots(msg, max, now).take(k as int)) == msg.take(
            min_nat(k * max, msg.len()) as int,
        ),
    decreases k,
{
    let slots = msg_slots(msg, max, now);
    if k == 0 {
        assert(slots.take(0) =~= Seq::empty());
        assert(msg.take(0) =~= Seq::empty());
    } else {
        let i = (k - 1) as nat;
        lemma_payloads_take(msg, max, now, i);
        lemma_num_frags(msg.len(), max);
        assert(0 <= i * max < msg.len());
        assert((i + 1) * max == i * max + max) by (nonlinear_arith);
        assert(slots.take(k as int).drop_last() =~= slots.take(i as int));
        assert(slots.take(k as int).last() == slots[i as int]);
        assert(msg.take((i * max) as int) + chunk(msg, max, i as int) =~= msg.take(
            min_nat(k * max, msg.len()) as int,
        ));
    }
}

/// The fragments that a message is split into make up the message again.
pub proof fn law_fragments_make_up_message(msg: Seq<u8>, max: nat, now: Instant)
    requires
        max > 0,
    ensures
        payloads(msg_slots(msg, max, now)) == msg,
{
    let slots = msg_slots(msg, max, now);
    if msg.len() == 0 {
        assert(slots.drop_last() =~= Seq::empty());
        assert(payloads(slots.drop_last()) =~= Seq::empty());
        assert(payloads(slots) =~= msg);
    } else {
        let n = num_frags(msg.len(), max);
        lemma_num_frags(msg.len(), max);
        lemma_payloads_take(msg, max, now, n);
        assert(slots.take(n as int) =~= slots);
        assert(msg.take(msg.len() as int) =~= msg);
    }
}

/// A message that is taken on is queued under its key, which no queued message
/// had, and leaves all queued messages as they are. There is one more message
/// that has not been flushed yet.
pub proof fn law_push_queues_one_message(
    s: SendModel,
    lane_index: LaneIndex,
    msg: Seq<u8>,
    now: Instant,
)
    requires
        s.wf(),
        lane_index.0.0 < s.lanes.len(),
        push_result(s, lane_index, msg) is Ok,
    ensures
        ({
            let key = push_result(s, lane_index, msg)->Ok_0;
            let before = s.lanes[lane_index.0.0 as int];
            let after = pushed(s, lane_index, msg, now).lanes[lane_index.0.0 as int];
            &&& key.lane == lane_index
            &&& !before.msgs.contains_key(key.seq.0)
            &&& after.msgs.contains_key(key.seq.0)
            &&& after.msgs[key.seq.0] == msg_slots(msg, s.max_frag_len.0 as nat, now)
            &&& forall|seq: u16| #[trigger]
                before.msgs.contains_key(seq) ==> after.msgs.contains_key(seq) && after.msgs[seq]
                    == before.msgs[seq]
            &&& after.msgs.dom().len() == before.msgs.dom().len() + 1
            &&& after.queued() == before.queued().insert(key.seq.0)
            &&& after.queued().len() == before.queued().len() + 1
            &&& forall|i: int|
                0 <= i < s.lanes.len() && i != lane_index.0.0 ==> #[trigger] pushed(
                    s,
                    lane_index,
                    msg,
                    now,
                ).lanes[i] == s.lanes[i]
        }),
{
    let before = s.lanes[lane_index.0.0 as int];
    let key = push_result(s, lane_index, msg)->Ok_0;
    assert(before.wf(s.max_frag_len.0 as nat));
    assert(before.msgs.insert(
        key.seq.0,
        msg_slots(msg, s.max_frag_len.0 as nat, now),
    ).dom() =~= before.msgs.dom().insert(key.seq.0));
    let slots = msg_slots(msg, s.max_frag_len.0 as nat, now);
    let after = pushed(s, lane_index, msg, now).lanes[lane_index.0.0 as int];
    assert(slots[0] is Some && !slots[0]->0.flushed);
    assert(unflushed(slots));
    assert(after.queued() =~= before.queued().insert(key.seq.0));
    vstd::set_lib::lemma_set_subset_finite(before.msgs.dom(), before.queued());
}

/// A message that is refused changes nothing, but that the error is kept until
/// it is asked for.
pub proof fn law_refused_push_keeps_error(
    s: SendModel,
    lane_index: LaneIndex,
    msg: Seq<u8>,
    now: Instant,
)
    requires
        push_result(s, lane_index, msg) is Err,
    ensures
        pushed(s, lane_index, msg, now) == (SendModel {
            error: Some(push_result(s, lane_index, msg)->Err_0),
            ..s
        }),
{
}

/// Message to be pushed, with its lane and the time.
pub type Push = (LaneIndex, Seq<u8>, Instant);

/// State once these messages are pushed one after the other.
pub open spec fn pushed_all(s: SendModel, pushes: Seq<Push>) -> SendModel
    decreases pushes.len(),
{
    if pushes.len() == 0 {
        s
    } else {
        let (lane_index, msg, now) = pushes.last();
        pushed(pushed_all(s, pushes.drop_last()), lane_index, msg, now)
    }
}

/// What is answered to the message at `i` of these, which are pushed one after
/// the other.
pub open spec fn push_result_at(s: SendModel, pushes: Seq<Push>, i: int) -> Result<
    MessageKey,
    TransportSendError,
> {
    push_result(pushed_all(s, pushes.take(i)), pushes[i].0, pushes[i].1)
}

/// Between two pushes, the next number on a lane goes up by at most one for each
/// push, and by one for each message that is taken on there.
proof fn lemma_numbers_go_up(s: SendModel, pushes: Seq<Push>, lane: int, i: int, j: int) -> (n: int)
    requires
        0 <= lane < s.lanes.len(),
        0 <= i <= j <= pushes.len(),
        forall|k: int| 0 <= k < pushes.len() ==> (#[trigger] pushes[k]).0.0.0 < s.lanes.len(),
    ensures
        0 <= n <= j - i,
        i < j && pushes[i].0.0.0 == lane && push_result_at(s, pushes, i) is Ok ==> n > 0,
        pushed_all(s, pushes.take(i)).lanes.len() == s.lanes.len(),
        pushed_all(s, pushes.take(j)).lanes.len() == s.lanes.len(),
        pushed_all(s, pushes.take(j)).lanes[lane].next_msg_seq.0 == nth_seq(
            pushed_all(s, pushes.take(i)).lanes[lane].next_msg_seq.0,
            n,
        ),
    decreases j,
{
    if i == j {
        if i > 0 {
            lemma_numbers_go_up(s, pushes, lane, i - 1, i - 1);
            assert(pushes.take(i).drop_last() =~= pushes.take(i - 1));
        }
        0
    } else {
        let m = lemma_numbers_go_up(s, pushes, lane, i, j - 1);
        assert(pushes.take(j).drop_last() =~= pushes.take(j - 1));
        assert(pushes.take(j).last() == pushes[j - 1]);
        if pushes[j - 1].0.0.0 == lane && push_result_at(s, pushes, j - 1) is Ok {
            m + 1
        } else {
            m
        }
    }
}

/// Messages have different keys, unless the numbers on their lane may have
/// started over between them.
pub proof fn law_keys_differ(s: SendModel, pushes: Seq<Push>, i: int, j: int)
    requires
        forall|k: int| 0 <= k < pushes.len() ==> (#[trigger] pushes[k]).0.0.0 < s.lanes.len(),
        0 <= i < j < pushes.len(),
        j - i < 0x1_0000,
        push_result_at(s, pushes, i) is Ok,
        push_result_at(s, pushes, j) is Ok,
    ensures
        push_result_at(s, pushes, i)->Ok_0 != push_result_at(s, pushes, j)->Ok_0,
{
    let lane = pushes[i].0.0.0 as int;
    assert(lane < s.lanes.len());
    let n = lemma_numbers_go_up(s, pushes, lane, i, j);
}

// ---------------------------------------------------------------------------
// Dropping messages that are done with
// ---------------------------------------------------------------------------

/// Dropping messages without a fragment to be sent drops no fragment: the same
/// ones are there before and after, and the same ones are due. No message is
/// left that has none.
pub proof fn law_pruning_keeps_fragments(t: TransportModel)
    ensures
        ({
            let before = t.send.lanes;
            let after = pruned(t).send.lanes;
            &&& after.len() == before.len()
            &&& forall|path: FragmentPath| #[trigger]
                has_frag_at(after, path) <==> has_frag_at(before, path)
            &&& forall|path: FragmentPath|
                has_frag_at(before, path) ==> #[trigger] slot_at(after, path) == slot_at(
                    before,
                    path,
                )
            &&& forall|now: Instant, path: FragmentPath| #[trigger]
                due(after, now, path) <==> due(before, now, path)
            &&& forall|i: int, seq: u16|
                0 <= i < after.len() && #[trigger] after[i].msgs.contains_key(seq) ==> has_frag(
                    after[i].msgs[seq],
                )
        }),
{
    let before = t.send.lanes;
    let after = pruned(t).send.lanes;
    assert forall|path: FragmentPath| #[trigger] has_frag_at(after, path) <==> has_frag_at(
        before,
        path,
    ) by {
        if has_frag_at(before, path) {
            let msg = before[path.lane_index.0.0 as int].msgs[path.msg_seq.0];
            assert(msg[path.frag_index.0 as int] is Some);
            assert(has_frag(msg));
        }
    }
    assert forall|path: FragmentPath| has_frag_at(before, path) implies #[trigger] slot_at(
        after,
        path,
    ) == slot_at(before, path) by {
        assert(has_frag_at(after, path));
    }
    assert forall|now: Instant, path: FragmentPath| #[trigger] due(after, now, path) <==> due(
        before,
        now,
        path,
    ) by {
        assert(has_frag_at(after, path) <==> has_frag_at(before, path));
        if has_frag_at(before, path) {
            assert(slot_at(after, path) == slot_at(before, path));
        }
    }
}

/// Path of a fragment of the message with this key.
pub open spec fn path_in(key: MessageKey, index: int) -> FragmentPath {
    FragmentPath { lane_index: key.lane, msg_seq: key.seq, frag_index: MinSize(index as u32) }
}

/// A message that was pushed has a fragment, even if it is empty, and all its
/// fragments are due from then on. It is therefore not dropped before it is
/// sent.
pub proof fn law_pushed_message_is_due(
    t: TransportModel,
    lane_index: LaneIndex,
    msg: Seq<u8>,
    now: Instant,
    later: Instant,
)
    requires
        t.send.wf(),
        lane_index.0.0 < t.send.lanes.len(),
        push_result(t.send, lane_index, msg) is Ok,
        later.nanos >= now.nanos,
    ensures
        ({
            let key = push_result(t.send, lane_index, msg)->Ok_0;
            let after = TransportModel { send: pushed(t.send, lane_index, msg, now), ..t };
            let slots = msg_slots(msg, t.send.max_frag_len.0 as nat, now);
            &&& slots.len() > 0
            &&& pruned(after).send.lanes[lane_index.0.0 as int].msgs.contains_key(key.seq.0)
            &&& forall|i: int|
                0 <= i < slots.len() ==> {
                    &&& due(pruned(after).send.lanes, later, #[trigger] path_in(key, i))
                    &&& slot_at(pruned(after).send.lanes, path_in(key, i)) == slots[i]
                }
        }),
{
    let max = t.send.max_frag_len.0 as nat;
    let key = push_result(t.send, lane_index, msg)->Ok_0;
    let after = TransportModel { send: pushed(t.send, lane_index, msg, now), ..t };
    let slots = msg_slots(msg, max, now);
    lemma_num_frags(msg.len(), max);
    law_pruning_keeps_fragments(after);
    assert(after.send.lanes[lane_index.0.0 as int].msgs[key.seq.0] == slots);
    assert forall|i: int| 0 <= i < slots.len() implies {
        &&& due(pruned(after).send.lanes, later, #[trigger] path_in(key, i))
        &&& slot_at(pruned(after).send.lanes, path_in(key, i)) == slots[i]
    } by {
        let path = path_in(key, i);
        assert(slots[i] is Some);
        assert(has_slot(after.send.lanes, path));
        assert(slot_at(after.send.lanes, path) == slots[i]);
        assert(has_frag_at(after.send.lanes, path));
        assert(due(after.send.lanes, later, path));
        assert(due(pruned(after).send.lanes, later, path));
        assert(slot_at(pruned(after).send.lanes, path) == slot_at(after.send.lanes, path));
    }
    assert(due(pruned(after).send.lanes, later, path_in(key, 0)));
    assert(has_slot(pruned(after).send.lanes, path_in(key, 0)));
}

/// Listing the due fragments of a lane again finds all that were found before,
/// and no more where no time has passed. It drops no further message.
pub proof fn law_listing_again_finds_as_much(
    lane: LaneModel,
    lane_index: LaneIndex,
    first: Seq<(u16, Slots)>,
    now: Instant,
    second: Seq<(u16, Slots)>,
    later: Instant,
)
    requires
        forall|seq: u16| #[trigger]
            lane.msgs.contains_key(seq) ==> lane.msgs[seq].len() <= 0x1_0000_0000,
        lists_all(first, lane.pruned().msgs),
        lists_all(second, lane.pruned().pruned().msgs),
        now.nanos <= later.nanos,
    ensures
        lane.pruned().pruned() == lane.pruned(),
        forall|x: TimedPath| #[trigger]
            lane_due(lane_index, first, now).contains(x) ==> lane_due(
                lane_index,
                second,
                later,
            ).contains(x),
        now == later ==> forall|x: TimedPath| #[trigger]
            lane_due(lane_index, second, later).contains(x) ==> lane_due(
                lane_index,
                first,
                now,
            ).contains(x),
{
    assert(lane.pruned().pruned().msgs =~= lane.pruned().msgs);
    assert forall|seq: u16| #[trigger] lane.pruned().msgs.contains_key(seq) implies
        lane.pruned().msgs[seq].len() <= 0x1_0000_0000 by {
        assert(lane.msgs.contains_key(seq));
    }
    lemma_lane_lists_due(lane_index, first, lane.pruned().msgs, now);
    lemma_lane_lists_due(lane_index, second, lane.pruned().msgs, later);
}

/// A fragment that was put into a packet is listed again on a reliable lane once
/// the timeout has passed, and not before, with the time at which it was pushed.
/// On an unreliable lane, it is never listed again.
pub proof fn law_written_fragment_is_listed_after_timeout(
    lanes: Seq<LaneModel>,
    path: FragmentPath,
    now: Instant,
    pto: Duration,
    items: Seq<(u16, Slots)>,
    later: Instant,
)
    requires
        has_frag_at(lanes, path),
        lanes[path.lane_index.0.0 as int].kind.is_reliable() ==> now.reaches(pto),
        forall|seq: u16| #[trigger]
            lanes[path.lane_index.0.0 as int].msgs.contains_key(seq)
                ==> lanes[path.lane_index.0.0 as int].msgs[seq].len() <= 0x1_0000_0000,
        lists_all(
            items,
            after_send(lanes, path, now, pto)[path.lane_index.0.0 as int].pruned().msgs,
        ),
    ensures
        forall|pushed_at: Instant| #[trigger]
            lane_due(path.lane_index, items, later).contains((path, pushed_at)) <==> {
                &&& lanes[path.lane_index.0.0 as int].kind.is_reliable()
                &&& later.nanos >= now.nanos + pto.nanos
                &&& pushed_at == frag_at(lanes, path).sent_at
            },
{
    let li = path.lane_index.0.0 as int;
    let seq = path.msg_seq.0;
    let after = after_send(lanes, path, now, pto);
    let msgs = after[li].pruned().msgs;
    lemma_after_send(lanes, path, now, pto);
    assert forall|seq: u16| #[trigger] msgs.contains_key(seq) implies msgs[seq].len()
        <= 0x1_0000_0000 by {
        assert(lanes[li].msgs.contains_key(seq));
    }
    lemma_lane_lists_due(path.lane_index, items, msgs, later);
    assert(has_slot(after, path));
    if lanes[li].kind.is_reliable() {
        assert(after[li].msgs[seq][path.frag_index.0 as int] is Some);
        assert(has_frag(after[li].msgs[seq]));
        assert(msgs.contains_key(seq));
    }
}

// ---------------------------------------------------------------------------
// Flushing
// ---------------------------------------------------------------------------

/// Whether a transport can be flushed at this time in this order.
pub open spec fn can_flush(t: TransportModel, now: Instant, order: Seq<FragmentPath>) -> bool {
    &&& t.send.wf()
    &&& resendable_when_due(t, now)
    &&& flush_order(pruned(t).send.lanes, now, order)
}

/// Fragments that a flush puts into each of its packets.
pub open spec fn sent_in(
    t: TransportModel,
    now: Instant,
    mtu: nat,
    heartbeat_interval: Option<Duration>,
    order: Seq<FragmentPath>,
) -> Seq<Seq<FragmentPath>> {
    flush_taken(pruned(t), begin(t, now, mtu, heartbeat_interval, order))
}

/// A transport that can be flushed is ready for its first packet.
pub proof fn lemma_can_flush_ready(
    t: TransportModel,
    now: Instant,
    mtu: nat,
    heartbeat_interval: Option<Duration>,
    order: Seq<FragmentPath>,
)
    requires
        can_flush(t, now, order),
    ensures
        flush_ready(pruned(t), begin(t, now, mtu, heartbeat_interval, order)),
{
    lemma_pruned_wf(t);
    lemma_flush_order_sendable(pruned(t).send.lanes, now, order);
    lemma_resendable_order(t, now, order);
}

/// A flush sends a packet if, and only if, there is room for a header and there
/// is a reason to: a fragment that is due, an acknowledgement that is owed, or
/// a heartbeat that is due.
pub proof fn law_flush_emits_iff_there_is_reason(
    t: TransportModel,
    now: Instant,
    mtu: nat,
    heartbeat_interval: Option<Duration>,
    order: Seq<FragmentPath>,
)
    requires
        can_flush(t, now, order),
    ensures
        flush_in(t, now, mtu, heartbeat_interval, order).packets.len() > 0 <==> packet_room(
            t.send.bucket.rem,
            mtu,
        ) >= PACKET_HEADER_LEN && (order.len() > 0 || t.owe_ack || heartbeat_due(
            t,
            now,
            heartbeat_interval,
        )),
{
    let f = begin(t, now, mtu, heartbeat_interval, order);
    lemma_can_flush_ready(t, now, mtu, heartbeat_interval, order);
    if packet_room(t.send.bucket.rem, mtu) >= PACKET_HEADER_LEN && order.len() == 0 {
        let room = (packet_room(t.send.bucket.rem, mtu) - PACKET_HEADER_LEN) as nat;
        lemma_fill(pruned(t).send.lanes, order, room, now, t.pto);
        let fl = next_fill(pruned(t), f);
        if fl.taken.len() > 0 {
            assert(fl.taken.contains(fl.taken[0]));
            assert(order.contains(fl.taken[0]));
        }
    }
}

/// Without a heartbeat interval, a flush always sends a packet, if there is room
/// for a header.
pub proof fn law_without_interval_always_emits(
    t: TransportModel,
    now: Instant,
    mtu: nat,
    order: Seq<FragmentPath>,
)
    requires
        can_flush(t, now, order),
        packet_room(t.send.bucket.rem, mtu) >= PACKET_HEADER_LEN,
    ensures
        flush_in(t, now, mtu, None, order).packets.len() > 0,
{
    law_flush_emits_iff_there_is_reason(t, now, mtu, None, order);
}

/// An idle transport sends nothing: no fragment is due, no acknowledgement is
/// owed, and the interval has not passed.
pub proof fn law_idle_transport_is_silent(
    t: TransportModel,
    now: Instant,
    mtu: nat,
    interval: Duration,
    order: Seq<FragmentPath>,
)
    requires
        can_flush(t, now, order),
        forall|path: FragmentPath| !#[trigger] due(t.send.lanes, now, path),
        !t.owe_ack,
        now.since(t.last_flush_at) < interval.nanos,
    ensures
        flush_in(t, now, mtu, Some(interval), order).packets.len() == 0,
{
    law_pruning_keeps_fragments(t);
    if order.len() > 0 {
        assert(order.contains(order[0]));
        assert(due(pruned(t).send.lanes, now, order[0]));
        assert(due(t.send.lanes, now, order[0]));
    }
    law_flush_emits_iff_there_is_reason(t, now, mtu, Some(interval), order);
}

/// A packet without fragments is sent once, however often the flush could go on:
/// where no fragment is due and there is another reason to send, the flush comes
/// to a header alone.
pub proof fn law_heartbeat_is_one_header(
    t: TransportModel,
    now: Instant,
    mtu: nat,
    heartbeat_interval: Option<Duration>,
    order: Seq<FragmentPath>,
)
    requires
        can_flush(t, now, order),
        packet_room(t.send.bucket.rem, mtu) >= PACKET_HEADER_LEN,
        order.len() == 0,
        t.owe_ack || heartbeat_due(t, now, heartbeat_interval),
    ensures
        flush_in(t, now, mtu, heartbeat_interval, order).packets == seq![next_header(t).wire()],
{
    let f = begin(t, now, mtu, heartbeat_interval, order);
    let s = step(pruned(t), f);
    assert(next_fill(pruned(t), f).taken.len() == 0);
    assert(s.packet is Some);
    assert(s.packet->0 =~= next_header(t).wire());
    assert(step(s.transport, s.flush).packet is None);
    assert(flush_rest(s.transport, s.flush).packets =~= Seq::empty());
    assert(flush_rest(pruned(t), f).packets =~= seq![next_header(t).wire()]);
}

/// A flush that sends a packet discharges the owed acknowledgement and restarts
/// the wait for the next heartbeat. One that sends none leaves both as they are.
/// Neither changes anything that has nothing to do with sending.
pub proof fn law_flush_discharges_ack(
    t: TransportModel,
    now: Instant,
    mtu: nat,
    heartbeat_interval: Option<Duration>,
    order: Seq<FragmentPath>,
)
    ensures
        ({
            let r = flush_in(t, now, mtu, heartbeat_interval, order);
            &&& r.packets.len() > 0 ==> !r.transport.owe_ack && r.transport.last_flush_at == now
            &&& r.packets.len() == 0 ==> r.transport.owe_ack == t.owe_ack
                && r.transport.last_flush_at == t.last_flush_at
            &&& r.transport.pto == t.pto
            &&& r.transport.peer_acks == t.peer_acks
            &&& r.transport.send.max_frag_len == t.send.max_frag_len
            &&& r.transport.send.error == t.send.error
        }),
{
    lemma_flush_scalars(pruned(t), begin(t, now, mtu, heartbeat_interval, order));
}

/// No packet has more bytes than it may, and all packets together have no more
/// than the bucket had. The bucket pays for them, and for one more header that
/// is not sent where there is room for it.
pub proof fn law_packets_keep_to_limits(
    t: TransportModel,
    now: Instant,
    mtu: nat,
    heartbeat_interval: Option<Duration>,
    order: Seq<FragmentPath>,
)
    requires
        can_flush(t, now, order),
    ensures
        ({
            let r = flush_in(t, now, mtu, heartbeat_interval, order);
            let left = (t.send.bucket.rem - total_len(r.packets)) as nat;
            &&& forall|k: int| 0 <= k < r.packets.len() ==> (#[trigger] r.packets[k]).len() <= mtu
            &&& total_len(r.packets) <= t.send.bucket.rem
            &&& r.transport.send.bucket.cap == t.send.bucket.cap
            &&& r.transport.send.bucket.rem == left - if packet_room(left, mtu)
                >= PACKET_HEADER_LEN {
                PACKET_HEADER_LEN as int
            } else {
                0int
            }
        }),
{
    lemma_can_flush_ready(t, now, mtu, heartbeat_interval, order);
    lemma_flush_budget(pruned(t), begin(t, now, mtu, heartbeat_interval, order));
}

/// A packet is as full as it can be: it leaves no room for any fragment that is
/// due and went into neither it nor an earlier packet of the flush. One that is
/// too large does not keep out smaller ones that come after it.
pub proof fn law_packets_are_full(
    t: TransportModel,
    now: Instant,
    mtu: nat,
    heartbeat_interval: Option<Duration>,
    order: Seq<FragmentPath>,
    k: int,
    path: FragmentPath,
)
    requires
        can_flush(t, now, order),
        0 <= k < flush_in(t, now, mtu, heartbeat_interval, order).packets.len(),
        due(t.send.lanes, now, path),
        !was_taken(sent_in(t, now, mtu, heartbeat_interval, order).take(k + 1), path),
    ensures
        ({
            let packets = flush_in(t, now, mtu, heartbeat_interval, order).packets;
            let rem = (t.send.bucket.rem - total_len(packets.take(k))) as nat;
            packets[k].len() + wire_at(t.send.lanes, path).len() > packet_room(rem, mtu)
        }),
{
    lemma_can_flush_ready(t, now, mtu, heartbeat_interval, order);
    law_pruning_keeps_fragments(t);
    assert(due(pruned(t).send.lanes, now, path));
    assert(order.contains(path));
    assert(slot_at(pruned(t).send.lanes, path) == slot_at(t.send.lanes, path));
    lemma_flush_is_full(pruned(t), begin(t, now, mtu, heartbeat_interval, order));
}

/// Each packet reads back as a header with the next sequence number and the
/// acknowledgements that are current, and the fragments that were put into it,
/// the older before the newer.
pub proof fn law_packets_read_back(
    t: TransportModel,
    now: Instant,
    mtu: nat,
    heartbeat_interval: Option<Duration>,
    order: Seq<FragmentPath>,
)
    requires
        can_flush(t, now, order),
    ensures
        ({
            let r = flush_in(t, now, mtu, heartbeat_interval, order);
            let sent = sent_in(t, now, mtu, heartbeat_interval, order);
            let lanes = pruned(t).send.lanes;
            &&& sent.len() == r.packets.len()
            &&& forall|k: int|
                0 <= k < r.packets.len() ==> {
                    &&& parse_packet(#[trigger] r.packets[k]) == Ok::<
                        (PacketHeader, Seq<FragItem>),
                        ReadError,
                    >(
                        (
                            PacketHeader {
                                seq: PacketSeq(nth_seq(t.send.next_packet_seq.0, k)),
                                acks: t.peer_acks,
                            },
                            items_at(lanes, sent[k]),
                        ),
                    )
                    &&& oldest_first(lanes, sent[k])
                }
            &&& r.transport.send.next_packet_seq.0 == nth_seq(
                t.send.next_packet_seq.0,
                r.packets.len() as int,
            )
        }),
{
    let f = begin(t, now, mtu, heartbeat_interval, order);
    let r = flush_in(t, now, mtu, heartbeat_interval, order);
    let sent = sent_in(t, now, mtu, heartbeat_interval, order);
    lemma_can_flush_ready(t, now, mtu, heartbeat_interval, order);
    reveal(reads_as);
    lemma_flush_packets(pruned(t), f);
    lemma_flush_oldest_first(pruned(t), f);
    lemma_flush_scalars(pruned(t), f);
    assert forall|k: int| 0 <= k < r.packets.len() implies oldest_first(
        pruned(t).send.lanes,
        #[trigger] sent[k],
    ) && reads_as(r.packets[k], pruned(t), nth_seq(t.send.next_packet_seq.0, k), sent[k]) by {}
    assert forall|k: int| 0 <= k < r.packets.len() implies {
        &&& parse_packet(#[trigger] r.packets[k]) == Ok::<(PacketHeader, Seq<FragItem>), ReadError>(
            (
                PacketHeader {
                    seq: PacketSeq(nth_seq(t.send.next_packet_seq.0, k)),
                    acks: t.peer_acks,
                },
                items_at(pruned(t).send.lanes, sent[k]),
            ),
        )
        &&& oldest_first(pruned(t).send.lanes, sent[k])
    } by {
        assert(oldest_first(pruned(t).send.lanes, sent[k]));
    }
}

/// Each packet is recorded under its sequence number, with the time and its
/// fragments, and no other record changes. Sequence numbers start over after so
/// many packets that no flush of fewer uses one twice.
pub proof fn law_packets_are_recorded(
    t: TransportModel,
    now: Instant,
    mtu: nat,
    heartbeat_interval: Option<Duration>,
    order: Seq<FragmentPath>,
)
    requires
        sent_in(t, now, mtu, heartbeat_interval, order).len() <= 0x1_0000,
    ensures
        ({
            let after = flush_in(t, now, mtu, heartbeat_interval, order).transport.flushed;
            let sent = sent_in(t, now, mtu, heartbeat_interval, order);
            let n = t.send.next_packet_seq.0;
            &&& forall|k: int|
                0 <= k < sent.len() ==> after.contains_key(nth_seq(n, k)) && after[nth_seq(n, k)]
                    == (FlushedModel { flushed_at: now, frags: #[trigger] sent[k] })
            &&& forall|key: u16|
                (forall|k: int| 0 <= k < sent.len() ==> nth_seq(n, k) != key) ==> {
                    &&& #[trigger] after.contains_key(key) <==> t.flushed.contains_key(key)
                    &&& after[key] == t.flushed[key]
                }
        }),
{
    lemma_flush_record(pruned(t), begin(t, now, mtu, heartbeat_interval, order));
}

/// A flush sends none but fragments that are due, each at most once. Fragments
/// that it does not send stay as they are, and so do the messages on the lanes
/// and their numbers.
pub proof fn law_flush_sends_due_fragments_once(
    t: TransportModel,
    now: Instant,
    mtu: nat,
    heartbeat_interval: Option<Duration>,
    order: Seq<FragmentPath>,
)
    requires
        can_flush(t, now, order),
    ensures
        ({
            let before = pruned(t).send.lanes;
            let after = flush_in(t, now, mtu, heartbeat_interval, order).transport;
            let sent = sent_in(t, now, mtu, heartbeat_interval, order);
            &&& after.send.wf()
            &&& same_frames(before, after.send.lanes)
            &&& forall|path: FragmentPath| #[trigger]
                was_taken(sent, path) ==> due(t.send.lanes, now, path)
            &&& forall|k: int| 0 <= k < sent.len() ==> (#[trigger] sent[k]).no_duplicates()
            &&& forall|k: int, l: int, path: FragmentPath|
                0 <= k < l < sent.len() ==> !(#[trigger] sent[k].contains(path)
                    && #[trigger] sent[l].contains(path))
            &&& forall|path: FragmentPath|
                has_slot(before, path) && !was_taken(sent, path) ==> #[trigger] slot_at(
                    after.send.lanes,
                    path,
                ) == slot_at(before, path)
        }),
{
    let f = begin(t, now, mtu, heartbeat_interval, order);
    let sent = sent_in(t, now, mtu, heartbeat_interval, order);
    lemma_can_flush_ready(t, now, mtu, heartbeat_interval, order);
    lemma_flush_is_sound(pruned(t), f);
    law_pruning_keeps_fragments(t);
    assert forall|path: FragmentPath| #[trigger] was_taken(sent, path) implies due(
        t.send.lanes,
        now,
        path,
    ) by {
        assert(order.contains(path));
        assert(due(pruned(t).send.lanes, now, path));
    }
}

/// A flush never drops a fragment of a reliable lane. One that it sends is due
/// again once the timeout has passed, and not before.
pub proof fn law_reliable_fragment_is_kept(
    t: TransportModel,
    now: Instant,
    mtu: nat,
    heartbeat_interval: Option<Duration>,
    order: Seq<FragmentPath>,
    path: FragmentPath,
    later: Instant,
)
    requires
        can_flush(t, now, order),
        has_frag_at(t.send.lanes, path),
        t.send.lanes[path.lane_index.0.0 as int].kind.is_reliable(),
    ensures
        ({
            let after = flush_in(t, now, mtu, heartbeat_interval, order).transport.send.lanes;
            let sent = was_taken(sent_in(t, now, mtu, heartbeat_interval, order), path);
            let frag = frag_at(t.send.lanes, path);
            &&& has_frag_at(after, path)
            &&& frag_at(after, path) == FragModel {
                next_flush_at: if sent {
                    now.plus(t.pto)
                } else {
                    frag.next_flush_at
                },
                flushed: frag.flushed || sent,
                ..frag
            }
            &&& sent ==> (due(after, later, path) <==> later.nanos >= now.nanos + t.pto.nanos)
        }),
{
    let f = begin(t, now, mtu, heartbeat_interval, order);
    let before = pruned(t).send.lanes;
    let after = flush_in(t, now, mtu, heartbeat_interval, order).transport.send.lanes;
    lemma_can_flush_ready(t, now, mtu, heartbeat_interval, order);
    lemma_flush_is_sound(pruned(t), f);
    law_pruning_keeps_fragments(t);
    assert(has_frag_at(before, path));
    assert(slot_at(before, path) == slot_at(t.send.lanes, path));
    assert(has_slot(before, path));
    assert(has_slot(after, path));
    if was_taken(sent_in(t, now, mtu, heartbeat_interval, order), path) {
        assert(order.contains(path));
        assert(due(before, now, path));
        assert(due(t.send.lanes, now, path));
        assert(now.reaches(t.pto));
    }
    assert(slot_at(after, path) is Some);
}

/// A fragment of an unreliable lane that a flush sends is forgotten, and never
/// due again.
pub proof fn law_unreliable_fragment_is_forgotten(
    t: TransportModel,
    now: Instant,
    mtu: nat,
    heartbeat_interval: Option<Duration>,
    order: Seq<FragmentPath>,
    path: FragmentPath,
    later: Instant,
)
    requires
        can_flush(t, now, order),
        was_taken(sent_in(t, now, mtu, heartbeat_interval, order), path),
        !t.send.lanes[path.lane_index.0.0 as int].kind.is_reliable(),
    ensures
        !has_frag_at(
            flush_in(t, now, mtu, heartbeat_interval, order).transport.send.lanes,
            path,
        ),
        !due(
            flush_in(t, now, mtu, heartbeat_interval, order).transport.send.lanes,
            later,
            path,
        ),
{
    let f = begin(t, now, mtu, heartbeat_interval, order);
    let after = flush_in(t, now, mtu, heartbeat_interval, order).transport.send.lanes;
    lemma_can_flush_ready(t, now, mtu, heartbeat_interval, order);
    lemma_flush_is_sound(pruned(t), f);
    assert(order.contains(path));
    assert(due(pruned(t).send.lanes, now, path));
    assert(slot_at(after, path) is None);
}

/// Once all that was left of a message on an unreliable lane is sent, the next
/// flush drops the message.
pub proof fn law_sent_unreliable_message_is_dropped(
    t: TransportModel,
    now: Instant,
    mtu: nat,
    heartbeat_interval: Option<Duration>,
    order: Seq<FragmentPath>,
    key: MessageKey,
)
    requires
        can_flush(t, now, order),
        key.lane.0.0 < t.send.lanes.len(),
        !t.send.lanes[key.lane.0.0 as int].kind.is_reliable(),
        forall|i: int|
            has_frag_at(t.send.lanes, #[trigger] path_in(key, i)) ==> was_taken(
                sent_in(t, now, mtu, heartbeat_interval, order),
                path_in(key, i),
            ),
    ensures
        !pruned(
            flush_in(t, now, mtu, heartbeat_interval, order).transport,
        ).send.lanes[key.lane.0.0 as int].msgs.contains_key(key.seq.0),
{
    let after = flush_in(t, now, mtu, heartbeat_interval, order).transport;
    let before = pruned(t).send.lanes;
    let li = key.lane.0.0 as int;
    law_flush_sends_due_fragments_once(t, now, mtu, heartbeat_interval, order);
    law_pruning_keeps_fragments(t);
    if pruned(after).send.lanes[li].msgs.contains_key(key.seq.0) {
        let msg = after.send.lanes[li].msgs[key.seq.0];
        assert(after.send.lanes[li].msgs.contains_key(key.seq.0));
        assert(has_frag(msg));
        let i = choose|i: int| 0 <= i < msg.len() && #[trigger] msg[i] is Some;
        assert(after.send.lanes[li].wf(after.send.max_frag_len.0 as nat));
        let path = path_in(key, i);
        assert(has_frag_at(after.send.lanes, path));
        assert(has_slot(before, path));
        if was_taken(sent_in(t, now, mtu, heartbeat_interval, order), path) {
            law_unreliable_fragment_is_forgotten(
                t,
                now,
                mtu,
                heartbeat_interval,
                order,
                path,
                now,
            );
        } else {
            assert(slot_at(after.send.lanes, path) == slot_at(before, path));
            assert(has_frag_at(before, path));
        }
    }
}

/// A packet obliges the peer to acknowledge it if, and only if, there are
/// fragments in it.
pub proof fn law_only_fragments_oblige_an_ack(
    t: TransportModel,
    now: Instant,
    mtu: nat,
    heartbeat_interval: Option<Duration>,
    order: Seq<FragmentPath>,
    peer: TransportModel,
    k: int,
)
    requires
        can_flush(t, now, order),
        0 <= k < flush_in(t, now, mtu, heartbeat_interval, order).packets.len(),
    ensures
        received(peer, flush_in(t, now, mtu, heartbeat_interval, order).packets[k]) == (
        TransportModel {
            owe_ack: peer.owe_ack || sent_in(t, now, mtu, heartbeat_interval, order)[k].len() > 0,
            ..peer
        }),
{
    law_packets_read_back(t, now, mtu, heartbeat_interval, order);
    assert(parse_packet(flush_in(t, now, mtu, heartbeat_interval, order).packets[k]) is Ok);
}

/// Two idle peers do not answer each other forever: a packet without fragments
/// leaves an idle peer silent.
pub proof fn law_idle_peer_stays_silent(
    t: TransportModel,
    now: Instant,
    mtu: nat,
    heartbeat_interval: Option<Duration>,
    order: Seq<FragmentPath>,
    k: int,
    peer: TransportModel,
    peer_now: Instant,
    peer_mtu: nat,
    peer_interval: Duration,
    peer_order: Seq<FragmentPath>,
)
    requires
        can_flush(t, now, order),
        0 <= k < flush_in(t, now, mtu, heartbeat_interval, order).packets.len(),
        sent_in(t, now, mtu, heartbeat_interval, order)[k].len() == 0,
        can_flush(peer, peer_now, peer_order),
        forall|path: FragmentPath| !#[trigger] due(peer.send.lanes, peer_now, path),
        !peer.owe_ack,
        peer_now.since(peer.last_flush_at) < peer_interval.nanos,
    ensures
        flush_in(
            received(peer, flush_in(t, now, mtu, heartbeat_interval, order).packets[k]),
            peer_now,
            peer_mtu,
            Some(peer_interval),
            peer_order,
        ).packets.len() == 0,
{
    law_only_fragments_oblige_an_ack(t, now, mtu, heartbeat_interval, order, peer, k);
    law_idle_transport_is_silent(peer, peer_now, peer_mtu, peer_interval, peer_order);
}

/// Whether packets have room for any fragment.
pub open spec fn mtu_suffices(t: TransportModel, mtu: nat) -> bool {
    t.send.max_frag_len.0 + PACKET_HEADER_LEN + MAX_FRAG_OVERHEAD <= min_nat(
        mtu,
        isize::MAX as nat,
    )
}

/// Packets of the size that a transport was made for have room for any of its
/// fragments, and so have larger ones.
pub proof fn law_min_mtu_suffices(t: TransportModel, min_mtu: usize, mtu: nat)
    requires
        min_mtu > MAX_PACKET_OVERHEAD,
        min_mtu <= isize::MAX,
        t.send.max_frag_len == frag_len_for(min_mtu),
        mtu >= min_mtu,
    ensures
        mtu_suffices(t, mtu),
{
}

/// A flush sends every fragment that is due, if packets have room for any
/// fragment and the bucket could pay for a packet for each.
pub proof fn law_flush_is_complete(
    t: TransportModel,
    now: Instant,
    mtu: nat,
    heartbeat_interval: Option<Duration>,
    order: Seq<FragmentPath>,
)
    requires
        can_flush(t, now, order),
        mtu_suffices(t, mtu),
        cost(pruned(t).send.lanes, order) <= t.send.bucket.rem,
    ensures
        forall|path: FragmentPath| #[trigger]
            due(t.send.lanes, now, path) ==> was_taken(
                sent_in(t, now, mtu, heartbeat_interval, order),
                path,
            ),
{
    let f = begin(t, now, mtu, heartbeat_interval, order);
    let lanes = pruned(t).send.lanes;
    lemma_can_flush_ready(t, now, mtu, heartbeat_interval, order);
    law_pruning_keeps_fragments(t);
    assert forall|i: int| 0 <= i < order.len() implies PACKET_HEADER_LEN + wire_at(
        lanes,
        #[trigger] order[i],
    ).len() <= min_nat(mtu, isize::MAX as nat) by {
        let path = order[i];
        assert(has_frag_at(lanes, path));
        lemma_frag_len(pruned(t), path);
        lemma_frag_wire_len(item_at(lanes, path).0, item_at(lanes, path).1);
    }
    lemma_flush_complete(pruned(t), f);
    assert forall|path: FragmentPath| #[trigger] due(t.send.lanes, now, path) implies was_taken(
        sent_in(t, now, mtu, heartbeat_interval, order),
        path,
    ) by {
        assert(due(lanes, now, path));
        assert(order.contains(path));
    }
}

/// A flush with room enough leaves nothing to send: flushing again at the same
/// time sends no packet, if there is a timeout before fragments are sent again
/// and an interval between heartbeats.
pub proof fn law_second_flush_is_silent(
    t: TransportModel,
    now: Instant,
    mtu: nat,
    interval: Duration,
    order: Seq<FragmentPath>,
    second_order: Seq<FragmentPath>,
)
    requires
        can_flush(t, now, order),
        mtu_suffices(t, mtu),
        cost(pruned(t).send.lanes, order) <= t.send.bucket.rem,
        t.pto.nanos > 0,
        interval.nanos > 0,
        flush_order(
            pruned(flush_in(t, now, mtu, Some(interval), order).transport).send.lanes,
            now,
            second_order,
        ),
    ensures
        can_flush(flush_in(t, now, mtu, Some(interval), order).transport, now, second_order),
        flush_in(
            flush_in(t, now, mtu, Some(interval), order).transport,
            now,
            mtu,
            Some(interval),
            second_order,
        ).packets.len() == 0,
{
    let first = flush_in(t, now, mtu, Some(interval), order);
    let after = first.transport;
    let sent = sent_in(t, now, mtu, Some(interval), order);
    law_flush_is_complete(t, now, mtu, Some(interval), order);
    law_flush_sends_due_fragments_once(t, now, mtu, Some(interval), order);
    law_pruning_keeps_fragments(t);
    assert forall|path: FragmentPath| !#[trigger] due(after.send.lanes, now, path) by {
        if due(after.send.lanes, now, path) {
            let li = path.lane_index.0.0 as int;
            assert(has_slot(pruned(t).send.lanes, path));
            if was_taken(sent, path) {
                assert(due(t.send.lanes, now, path));
                if t.send.lanes[li].kind.is_reliable() {
                    law_reliable_fragment_is_kept(
                        t,
                        now,
                        mtu,
                        Some(interval),
                        order,
                        path,
                        now,
                    );
                } else {
                    law_unreliable_fragment_is_forgotten(
                        t,
                        now,
                        mtu,
                        Some(interval),
                        order,
                        path,
                        now,
                    );
                }
            } else {
                assert(slot_at(after.send.lanes, path) == slot_at(pruned(t).send.lanes, path));
                assert(due(pruned(t).send.lanes, now, path));
                assert(due(t.send.lanes, now, path));
            }
        }
    }
    law_pruning_keeps_fragments(after);
    if second_order.len() > 0 {
        assert(second_order.contains(second_order[0]));
        assert(due(pruned(after).send.lanes, now, second_order[0]));
        assert(due(after.send.lanes, now, second_order[0]));
    }
    law_flush_emits_iff_there_is_reason(t, now, mtu, Some(interval), order);
    law_flush_emits_iff_there_is_reason(after, now, mtu, Some(interval), second_order);
    law_flush_discharges_ack(t, now, mtu, Some(interval), order);
    law_packets_keep_to_limits(t, now, mtu, Some(interval), order);
}

/// Once all that was never sent of a message is sent, the message counts as
/// flushed, whatever its lane.
pub proof fn law_sent_message_is_flushed(
    t: TransportModel,
    now: Instant,
    mtu: nat,
    heartbeat_interval: Option<Duration>,
    order: Seq<FragmentPath>,
    key: MessageKey,
)
    requires
        can_flush(t, now, order),
        key.lane.0.0 < t.send.lanes.len(),
        forall|i: int|
            has_frag_at(t.send.lanes, #[trigger] path_in(key, i)) && !frag_at(
                t.send.lanes,
                path_in(key, i),
            ).flushed ==> was_taken(
                sent_in(t, now, mtu, heartbeat_interval, order),
                path_in(key, i),
            ),
    ensures
        !flush_in(
            t,
            now,
            mtu,
            heartbeat_interval,
            order,
        ).transport.send.lanes[key.lane.0.0 as int].queued().contains(key.seq.0),
{
    let after = flush_in(t, now, mtu, heartbeat_interval, order).transport;
    let before = pruned(t).send.lanes;
    let li = key.lane.0.0 as int;
    law_flush_sends_due_fragments_once(t, now, mtu, heartbeat_interval, order);
    law_pruning_keeps_fragments(t);
    if after.send.lanes[li].queued().contains(key.seq.0) {
        let msg = after.send.lanes[li].msgs[key.seq.0];
        let i = choose|i: int|
            0 <= i < msg.len() && (#[trigger] msg[i]) is Some && !msg[i]->0.flushed;
        assert(after.send.lanes[li].wf(after.send.max_frag_len.0 as nat));
        assert(after.send.lanes[li].msgs.contains_key(key.seq.0));
        let path = path_in(key, i);
        assert(has_frag_at(after.send.lanes, path));
        assert(has_slot(before, path));
        if was_taken(sent_in(t, now, mtu, heartbeat_interval, order), path) {
            assert(due(t.send.lanes, now, path));
            if t.send.lanes[li].kind.is_reliable() {
                law_reliable_fragment_is_kept(t, now, mtu, heartbeat_interval, order, path, now);
            } else {
                law_unreliable_fragment_is_forgotten(
                    t,
                    now,
                    mtu,
                    heartbeat_interval,
                    order,
                    path,
                    now,
                );
            }
        } else {
            assert(slot_at(after.send.lanes, path) == slot_at(before, path));
            assert(has_frag_at(before, path));
            assert(has_frag_at(t.send.lanes, path));
        }
    }
}

/// Whether one of these packets reads back with this fragment in it.
pub open spec fn carries(packets: Seq<Seq<u8>>, item: FragItem) -> bool {
    exists|k: int|
        0 <= k < packets.len() && (parse_packet(#[trigger] packets[k]) matches Ok((header, frags))
            && frags.contains(item))
}

/// What is pushed comes out at the other end: once a message is taken on, a
/// flush with room enough sends packets which, read back, carry every fragment
/// of the message under its key. These fragments make up the message.
pub proof fn law_pushed_message_goes_out(
    t: TransportModel,
    lane_index: LaneIndex,
    msg: Seq<u8>,
    pushed_at: Instant,
    now: Instant,
    mtu: nat,
    heartbeat_interval: Option<Duration>,
    order: Seq<FragmentPath>,
)
    requires
        t.send.wf(),
        lane_index.0.0 < t.send.lanes.len(),
        push_result(t.send, lane_index, msg) is Ok,
        now.nanos >= pushed_at.nanos,
        ({
            let after = TransportModel { send: pushed(t.send, lane_index, msg, pushed_at), ..t };
            &&& can_flush(after, now, order)
            &&& mtu_suffices(after, mtu)
            &&& cost(pruned(after).send.lanes, order) <= after.send.bucket.rem
        }),
    ensures
        ({
            let after = TransportModel { send: pushed(t.send, lane_index, msg, pushed_at), ..t };
            let key = push_result(t.send, lane_index, msg)->Ok_0;
            let slots = msg_slots(msg, t.send.max_frag_len.0 as nat, pushed_at);
            let packets = flush_in(after, now, mtu, heartbeat_interval, order).packets;
            &&& payloads(slots) == msg
            &&& forall|i: int|
                0 <= i < slots.len() ==> carries(
                    packets,
                    (
                        FragmentHeader {
                            seq: key.seq,
                            lane: key.lane,
                            position: FragmentPosition::at(i, i == slots.len() - 1),
                        },
                        (#[trigger] slots[i])->0.payload,
                    ),
                )
        }),
{
    let after = TransportModel { send: pushed(t.send, lane_index, msg, pushed_at), ..t };
    let key = push_result(t.send, lane_index, msg)->Ok_0;
    let slots = msg_slots(msg, t.send.max_frag_len.0 as nat, pushed_at);
    let packets = flush_in(after, now, mtu, heartbeat_interval, order).packets;
    let sent = sent_in(after, now, mtu, heartbeat_interval, order);
    let lanes = pruned(after).send.lanes;
    law_fragments_make_up_message(msg, t.send.max_frag_len.0 as nat, pushed_at);
    law_pushed_message_is_due(t, lane_index, msg, pushed_at, now);
    law_pruning_keeps_fragments(after);
    law_flush_is_complete(after, now, mtu, heartbeat_interval, order);
    law_packets_read_back(after, now, mtu, heartbeat_interval, order);
    assert forall|i: int| 0 <= i < slots.len() implies carries(
        packets,
        (
            FragmentHeader {
                seq: key.seq,
                lane: key.lane,
                position: FragmentPosition::at(i, i == slots.len() - 1),
            },
            (#[trigger] slots[i])->0.payload,
        ),
    ) by {
        let path = path_in(key, i);
        assert(due(lanes, now, path));
        assert(due(after.send.lanes, now, path));
        assert(was_taken(sent, path));
        let k = choose|k: int| 0 <= k < sent.len() && (#[trigger] sent[k]).contains(path);
        let j = choose|j: int| 0 <= j < sent[k].len() && sent[k][j] == path;
        assert(items_at(lanes, sent[k])[j] == item_at(lanes, path));
        assert(items_at(lanes, sent[k]).contains(item_at(lanes, path)));
        assert(slot_at(lanes, path) == slots[i]);
        assert(parse_packet(packets[k]) is Ok);
    }
}

}
