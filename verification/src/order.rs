//! The order in which fragments that are due are gone through.

use crate::lane::LaneIndex;
use crate::model::{
    due, flush_order, frag_at, has_frag_at, pruned, LaneModel, Slots, TransportModel,
};
use crate::packet::MessageSeq;
use crate::packing::{resendable, sendable};
use crate::size::MinSize;
use crate::time::Instant;
use crate::transport::FragmentPath;
use vstd::prelude::*;

verus! {

/// Path of a fragment, and when its message was pushed.
pub type TimedPath = (FragmentPath, Instant);

/// Paths of the fragments in the first `n` slots of a message that are due.
pub open spec fn msg_due(
    lane_index: LaneIndex,
    msg_seq: MessageSeq,
    msg: Slots,
    now: Instant,
    n: nat,
) -> Seq<TimedPath>
    decreases n,
{
    if n == 0 {
        Seq::empty()
    } else {
        let i = (n - 1) as nat;
        let before = msg_due(lane_index, msg_seq, msg, now, i);
        match msg[i as int] {
            Some(frag) if now.nanos >= frag.next_flush_at.nanos => before.push(
                (FragmentPath { lane_index, msg_seq, frag_index: MinSize(i as u32) }, frag.sent_at),
            ),
            _ => before,
        }
    }
}

/// Paths of the fragments of these messages that are due, message by message.
pub open spec fn lane_due(
    lane_index: LaneIndex,
    items: Seq<(u16, Slots)>,
    now: Instant,
) -> Seq<TimedPath>
    decreases items.len(),
{
    if items.len() == 0 {
        Seq::empty()
    } else {
        let (seq, msg) = items.last();
        lane_due(lane_index, items.drop_last(), now) + msg_due(
            lane_index,
            MessageSeq(seq),
            msg,
            now,
            msg.len(),
        )
    }
}

/// Whether these are the messages of a map with their numbers, each of them
/// once.
pub open spec fn lists_all(items: Seq<(u16, Slots)>, msgs: Map<u16, Slots>) -> bool {
    &&& forall|i: int|
        0 <= i < items.len() ==> msgs.contains_key((#[trigger] items[i]).0) && items[i].1
            == msgs[items[i].0]
    &&& forall|i: int, j: int|
        0 <= i < j < items.len() ==> (#[trigger] items[i]).0 != (#[trigger] items[j]).0
    &&& forall|seq: u16| #[trigger]
        msgs.contains_key(seq) ==> exists|i: int|
            0 <= i < items.len() && (#[trigger] items[i]).0 == seq
}

/// Whether a path with its time is that of a due fragment in the first `n`
/// slots of a message.
pub open spec fn in_msg_due(
    lane_index: LaneIndex,
    msg_seq: MessageSeq,
    msg: Slots,
    now: Instant,
    n: nat,
    x: TimedPath,
) -> bool {
    &&& x.0.lane_index == lane_index
    &&& x.0.msg_seq == msg_seq
    &&& x.0.frag_index.0 < n
    &&& msg[x.0.frag_index.0 as int] is Some
    &&& now.nanos >= msg[x.0.frag_index.0 as int]->0.next_flush_at.nanos
    &&& x.1 == msg[x.0.frag_index.0 as int]->0.sent_at
}

/// The due fragments of a message are listed once each.
proof fn lemma_msg_due(
    lane_index: LaneIndex,
    msg_seq: MessageSeq,
    msg: Slots,
    now: Instant,
    n: nat,
)
    requires
        n <= 0x1_0000_0000,
    ensures
        msg_due(lane_index, msg_seq, msg, now, n).no_duplicates(),
        forall|x: TimedPath|
            #![trigger msg_due(lane_index, msg_seq, msg, now, n).contains(x)]
            msg_due(lane_index, msg_seq, msg, now, n).contains(x) <==> in_msg_due(
                lane_index,
                msg_seq,
                msg,
                now,
                n,
                x,
            ),
    decreases n,
{
    if n > 0 {
        let i = (n - 1) as nat;
        lemma_msg_due(lane_index, msg_seq, msg, now, i);
        let before = msg_due(lane_index, msg_seq, msg, now, i);
        let after = msg_due(lane_index, msg_seq, msg, now, n);
        let path = FragmentPath { lane_index, msg_seq, frag_index: MinSize(i as u32) };
        if after != before {
            let y = (path, msg[i as int]->0.sent_at);
            assert(after == before.push(y));
            assert(!in_msg_due(lane_index, msg_seq, msg, now, i, y));
            assert(!before.contains(y));
            assert forall|x: TimedPath| #[trigger] after.contains(x) <==> before.contains(x) || x
                == y by {
                if before.contains(x) {
                    let k = choose|k: int| 0 <= k < before.len() && before[k] == x;
                    assert(after[k] == x);
                }
                assert(after[before.len() as int] == y);
            }
            assert forall|x: TimedPath| #[trigger]
                after.contains(x) <==> in_msg_due(lane_index, msg_seq, msg, now, n, x) by {}
        } else {
            assert forall|x: TimedPath| #[trigger]
                after.contains(x) <==> in_msg_due(lane_index, msg_seq, msg, now, n, x) by {
                if in_msg_due(lane_index, msg_seq, msg, now, n, x) && x.0.frag_index.0 == i {
                    assert(after.len() == before.len() + 1);
                }
            }
        }
    }
}

/// Whether a path with its time is that of a due fragment of one of these
/// messages.
spec fn in_lane_due(
    lane_index: LaneIndex,
    items: Seq<(u16, Slots)>,
    now: Instant,
    x: TimedPath,
) -> bool {
    exists|i: int|
        0 <= i < items.len() && in_msg_due(
            lane_index,
            MessageSeq((#[trigger] items[i]).0),
            items[i].1,
            now,
            items[i].1.len(),
            x,
        )
}

/// The due fragments of messages are listed once each.
proof fn lemma_lane_due(lane_index: LaneIndex, items: Seq<(u16, Slots)>, now: Instant)
    requires
        forall|i: int| 0 <= i < items.len() ==> (#[trigger] items[i]).1.len() <= 0x1_0000_0000,
        forall|i: int, j: int|
            0 <= i < j < items.len() ==> (#[trigger] items[i]).0 != (#[trigger] items[j]).0,
    ensures
        lane_due(lane_index, items, now).no_duplicates(),
        forall|x: TimedPath| #[trigger]
            lane_due(lane_index, items, now).contains(x) <==> in_lane_due(
                lane_index,
                items,
                now,
                x,
            ),
    decreases items.len(),
{
    if items.len() > 0 {
        let init = items.drop_last();
        lemma_lane_due(lane_index, init, now);
        let k = items.len() - 1;
        let (seq, msg) = items.last();
        lemma_msg_due(lane_index, MessageSeq(seq), msg, now, msg.len());
        let a = lane_due(lane_index, init, now);
        let b = msg_due(lane_index, MessageSeq(seq), msg, now, msg.len());
        let all = lane_due(lane_index, items, now);
        assert(all == a + b);
        assert forall|x: TimedPath| #[trigger] all.contains(x) <==> a.contains(x) || b.contains(
            x,
        ) by {
            if a.contains(x) {
                let j = choose|j: int| 0 <= j < a.len() && a[j] == x;
                assert(all[j] == x);
            }
            if b.contains(x) {
                let j = choose|j: int| 0 <= j < b.len() && b[j] == x;
                assert(all[a.len() + j] == x);
            }
            if all.contains(x) {
                let j = choose|j: int| 0 <= j < all.len() && all[j] == x;
                if j < a.len() {
                    assert(a[j] == x);
                } else {
                    assert(b[j - a.len()] == x);
                }
            }
        }
        assert forall|x: TimedPath| #[trigger] all.contains(x) <==> in_lane_due(
            lane_index,
            items,
            now,
            x,
        ) by {
            if a.contains(x) {
                let i = choose|i: int|
                    0 <= i < init.len() && in_msg_due(
                        lane_index,
                        MessageSeq((#[trigger] init[i]).0),
                        init[i].1,
                        now,
                        init[i].1.len(),
                        x,
                    );
                assert(items[i] == init[i]);
            }
            if b.contains(x) {
                assert(items[k] == (seq, msg));
            }
            if in_lane_due(lane_index, items, now, x) {
                let i = choose|i: int|
                    0 <= i < items.len() && in_msg_due(
                        lane_index,
                        MessageSeq((#[trigger] items[i]).0),
                        items[i].1,
                        now,
                        items[i].1.len(),
                        x,
                    );
                if i < k {
                    assert(init[i] == items[i]);
                }
            }
        }
        assert forall|x: TimedPath| !(a.contains(x) && #[trigger] b.contains(x)) by {
            if a.contains(x) && b.contains(x) {
                let i = choose|i: int|
                    0 <= i < init.len() && in_msg_due(
                        lane_index,
                        MessageSeq((#[trigger] init[i]).0),
                        init[i].1,
                        now,
                        init[i].1.len(),
                        x,
                    );
                assert(items[i].0 != items[k].0);
            }
        }
        assert forall|i: int, j: int| 0 <= i < j < all.len() implies all[i] != all[j] by {
            if i < a.len() {
                assert(a.contains(all[i]));
            }
            if j >= a.len() {
                assert(all[j] == b[j - a.len()]);
                assert(b.contains(all[j]));
            }
        }
    }
}

/// Whether these are the paths of all due fragments on the first `n` lanes with
/// their times, each of them once.
pub open spec fn all_due(
    lanes: Seq<LaneModel>,
    now: Instant,
    n: nat,
    timed: Seq<TimedPath>,
) -> bool {
    &&& timed.no_duplicates()
    &&& forall|x: TimedPath| #[trigger]
        timed.contains(x) <==> x.0.lane_index.0.0 < n && due(lanes, now, x.0) && x.1 == frag_at(
            lanes,
            x.0,
        ).sent_at
}

/// Which fragments on the first `n` lanes are due rests on these lanes alone.
pub proof fn lemma_all_due_same(
    a: Seq<LaneModel>,
    b: Seq<LaneModel>,
    now: Instant,
    n: nat,
    timed: Seq<TimedPath>,
)
    requires
        all_due(a, now, n, timed),
        a.len() == b.len(),
        n <= a.len(),
        forall|i: int| 0 <= i < n ==> a[i] == #[trigger] b[i],
    ensures
        all_due(b, now, n, timed),
{
    assert forall|x: TimedPath| #[trigger] timed.contains(x) <==> x.0.lane_index.0.0 < n && due(
        b,
        now,
        x.0,
    ) && x.1 == frag_at(b, x.0).sent_at by {
        if x.0.lane_index.0.0 < n {
            assert(a[x.0.lane_index.0.0 as int] == b[x.0.lane_index.0.0 as int]);
        }
    }
}

/// The due fragments of one more lane come after those of the lanes before it.
pub proof fn lemma_all_due_next(
    lanes: Seq<LaneModel>,
    now: Instant,
    n: u32,
    timed: Seq<TimedPath>,
    items: Seq<(u16, Slots)>,
)
    requires
        n < lanes.len(),
        all_due(lanes, now, n as nat, timed),
        lists_all(items, lanes[n as int].msgs),
        forall|seq: u16| #[trigger]
            lanes[n as int].msgs.contains_key(seq) ==> lanes[n as int].msgs[seq].len()
                <= 0x1_0000_0000,
    ensures
        all_due(
            lanes,
            now,
            n as nat + 1,
            timed + lane_due(LaneIndex(MinSize(n)), items, now),
        ),
{
    let lane_index = LaneIndex(MinSize(n));
    let b = lane_due(lane_index, items, now);
    let all = timed + b;
    assert forall|i: int| 0 <= i < items.len() implies (#[trigger] items[i]).1.len()
        <= 0x1_0000_0000 by {
        assert(lanes[n as int].msgs.contains_key(items[i].0));
    }
    lemma_lane_due(lane_index, items, now);
    assert forall|x: TimedPath| #[trigger] b.contains(x) <==> x.0.lane_index == lane_index && due(
        lanes,
        now,
        x.0,
    ) && x.1 == frag_at(lanes, x.0).sent_at by {
        if in_lane_due(lane_index, items, now, x) {
            let i = choose|i: int|
                0 <= i < items.len() && in_msg_due(
                    lane_index,
                    MessageSeq((#[trigger] items[i]).0),
                    items[i].1,
                    now,
                    items[i].1.len(),
                    x,
                );
            assert(lanes[n as int].msgs.contains_key(items[i].0));
        }
        if x.0.lane_index == lane_index && due(lanes, now, x.0) {
            let seq = x.0.msg_seq.0;
            assert(lanes[n as int].msgs.contains_key(seq));
            let i = choose|i: int| 0 <= i < items.len() && (#[trigger] items[i]).0 == seq;
            assert(items[i].1 == lanes[n as int].msgs[seq]);
        }
    }
    assert forall|x: TimedPath| #[trigger] all.contains(x) <==> timed.contains(x) || b.contains(
        x,
    ) by {
        if timed.contains(x) {
            let j = choose|j: int| 0 <= j < timed.len() && timed[j] == x;
            assert(all[j] == x);
        }
        if b.contains(x) {
            let j = choose|j: int| 0 <= j < b.len() && b[j] == x;
            assert(all[timed.len() + j] == x);
        }
        if all.contains(x) {
            let j = choose|j: int| 0 <= j < all.len() && all[j] == x;
            if j < timed.len() {
                assert(timed[j] == x);
            } else {
                assert(b[j - timed.len()] == x);
            }
        }
    }
    assert forall|i: int, j: int| 0 <= i < j < all.len() implies all[i] != all[j] by {
        if i < timed.len() {
            assert(timed.contains(all[i]));
        }
        if j >= timed.len() {
            assert(all[j] == b[j - timed.len()]);
            assert(b.contains(all[j]));
        }
    }
}

/// The due fragments of all messages on a lane are listed once each, with the
/// times at which they were pushed.
pub proof fn lemma_lane_lists_due(
    lane_index: LaneIndex,
    items: Seq<(u16, Slots)>,
    msgs: Map<u16, Slots>,
    now: Instant,
)
    requires
        lists_all(items, msgs),
        forall|seq: u16| #[trigger] msgs.contains_key(seq) ==> msgs[seq].len() <= 0x1_0000_0000,
    ensures
        lane_due(lane_index, items, now).no_duplicates(),
        forall|x: TimedPath| #[trigger]
            lane_due(lane_index, items, now).contains(x) <==> msgs.contains_key(x.0.msg_seq.0)
                && in_msg_due(
                lane_index,
                x.0.msg_seq,
                msgs[x.0.msg_seq.0],
                now,
                msgs[x.0.msg_seq.0].len(),
                x,
            ),
{
    assert forall|i: int| 0 <= i < items.len() implies (#[trigger] items[i]).1.len()
        <= 0x1_0000_0000 by {
        assert(msgs.contains_key(items[i].0));
    }
    lemma_lane_due(lane_index, items, now);
    assert forall|x: TimedPath| #[trigger]
        lane_due(lane_index, items, now).contains(x) <==> msgs.contains_key(x.0.msg_seq.0)
            && in_msg_due(
            lane_index,
            x.0.msg_seq,
            msgs[x.0.msg_seq.0],
            now,
            msgs[x.0.msg_seq.0].len(),
            x,
        ) by {
        if msgs.contains_key(x.0.msg_seq.0) {
            let i = choose|i: int|
                0 <= i < items.len() && (#[trigger] items[i]).0 == x.0.msg_seq.0;
            assert(items[i].1 == msgs[x.0.msg_seq.0]);
        }
    }
}

/// The same paths, without their times.
pub open spec fn untimed(timed: Seq<TimedPath>) -> Seq<FragmentPath> {
    Seq::new(timed.len(), |i: int| timed[i].0)
}

/// Whether the paths go from the earliest time to the latest.
pub open spec fn by_time(timed: Seq<TimedPath>) -> bool {
    forall|i: int, j: int|
        0 <= i < j < timed.len() ==> (#[trigger] timed[i]).1.nanos <= (#[trigger] timed[j]).1.nanos
}

/// All due fragments, once sorted by their times, are in order for a flush.
pub proof fn lemma_sorted_is_flush_order(
    lanes: Seq<LaneModel>,
    now: Instant,
    n: nat,
    found: Seq<TimedPath>,
    sorted: Seq<TimedPath>,
)
    requires
        n >= lanes.len(),
        all_due(lanes, now, n, found),
        sorted.to_multiset() == found.to_multiset(),
        by_time(sorted),
    ensures
        flush_order(lanes, now, untimed(sorted)),
{
    broadcast use vstd::seq_lib::group_to_multiset_ensures;

    found.lemma_multiset_has_no_duplicates();
    sorted.lemma_multiset_has_no_duplicates_conv();
    assert forall|x: TimedPath| #[trigger] sorted.contains(x) <==> found.contains(x) by {
        assert(found.to_multiset().count(x) > 0 <==> found.contains(x));
        assert(sorted.to_multiset().count(x) > 0 <==> sorted.contains(x));
    }
    let order = untimed(sorted);
    assert forall|i: int| 0 <= i < sorted.len() implies due(lanes, now, (#[trigger] sorted[i]).0)
        && sorted[i].1 == frag_at(lanes, sorted[i].0).sent_at by {
        assert(sorted.contains(sorted[i]));
        assert(found.contains(sorted[i]));
    }
    assert forall|i: int, j: int| 0 <= i < j < order.len() implies order[i] != order[j] by {
        assert(sorted[i] != sorted[j]);
    }
    assert forall|path: FragmentPath| #[trigger] order.contains(path) <==> due(
        lanes,
        now,
        path,
    ) by {
        if order.contains(path) {
            let i = choose|i: int| 0 <= i < order.len() && order[i] == path;
            assert(sorted[i].0 == path);
        }
        if due(lanes, now, path) {
            let x = (path, frag_at(lanes, path).sent_at);
            assert(found.contains(x));
            assert(sorted.contains(x));
            let i = choose|i: int| 0 <= i < sorted.len() && sorted[i] == x;
            assert(order[i] == path);
        }
    }
    assert forall|i: int, j: int| 0 <= i < j < order.len() implies frag_at(
        lanes,
        #[trigger] order[i],
    ).sent_at.nanos <= frag_at(lanes, #[trigger] order[j]).sent_at.nanos by {
        assert(sorted[i].1.nanos <= sorted[j].1.nanos);
    }
}

/// Fragments in order for a flush can be sent.
pub proof fn lemma_flush_order_sendable(
    lanes: Seq<LaneModel>,
    now: Instant,
    order: Seq<FragmentPath>,
)
    requires
        flush_order(lanes, now, order),
    ensures
        sendable(lanes, order),
{
    assert forall|i: int| 0 <= i < order.len() implies has_frag_at(lanes, #[trigger] order[i]) by {
        assert(order.contains(order[i]));
    }
}

/// Whether it can be told of each fragment that is due when it is to be sent
/// again, as far as it is.
pub open spec fn resendable_when_due(t: TransportModel, now: Instant) -> bool {
    forall|path: FragmentPath| #[trigger]
        due(t.send.lanes, now, path)
            && t.send.lanes[path.lane_index.0.0 as int].kind.is_reliable() ==> now.reaches(t.pto)
}

/// It can then be told so of the fragments in order for a flush.
pub proof fn lemma_resendable_order(t: TransportModel, now: Instant, order: Seq<FragmentPath>)
    requires
        resendable_when_due(t, now),
        flush_order(pruned(t).send.lanes, now, order),
    ensures
        resendable(pruned(t).send.lanes, order, now, t.pto),
{
    let lanes = pruned(t).send.lanes;
    assert forall|i: int|
        0 <= i < order.len()
            && lanes[(#[trigger] order[i]).lane_index.0.0 as int].kind.is_reliable()
        implies now.reaches(t.pto) by {
        assert(order.contains(order[i]));
        assert(due(lanes, now, order[i]));
        assert(due(t.send.lanes, now, order[i]));
    }
}

}
