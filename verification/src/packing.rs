//! What filling a packet does to the fragments on the lanes.

use crate::model::{
    after_send, fill, flush_work, frag_at, has_frag_at, has_slot, lemma_fill_len, lemma_with_slot,
    msg_wf, next_fill, packet_room, pruned, slot_after_send, slot_at, step, wire_at, with_slot,
    Fill, FlushModel, LaneModel, TransportModel,
};
use crate::packet::PACKET_HEADER_LEN;
use crate::queue::FragModel;
use crate::time::{Duration, Instant};
use crate::transport::FragmentPath;
use vstd::prelude::*;

verus! {

/// Whether these are paths of fragments, each of them once.
pub open spec fn sendable(lanes: Seq<LaneModel>, paths: Seq<FragmentPath>) -> bool {
    &&& paths.no_duplicates()
    &&& forall|i: int| 0 <= i < paths.len() ==> has_frag_at(lanes, #[trigger] paths[i])
}

/// Whether all these lanes hold messages, whose fragments carry up to `max`
/// bytes.
pub open spec fn lanes_wf(lanes: Seq<LaneModel>, max: nat) -> bool {
    forall|i: int| 0 <= i < lanes.len() ==> (#[trigger] lanes[i]).wf(max)
}

/// Whether lanes are the same but for their fragments.
pub open spec fn same_frames(a: Seq<LaneModel>, b: Seq<LaneModel>) -> bool {
    &&& a.len() == b.len()
    &&& forall|i: int| #![trigger a[i]] #![trigger b[i]]
        0 <= i < a.len() ==> {
            &&& a[i].kind == b[i].kind
            &&& a[i].next_msg_seq == b[i].next_msg_seq
            &&& a[i].msgs.dom() == b[i].msgs.dom()
        }
    &&& forall|path: FragmentPath| #[trigger] has_slot(a, path) <==> has_slot(b, path)
}

/// What becomes of the fragment at a path that is put into a packet.
pub open spec fn sent_slot(
    lanes: Seq<LaneModel>,
    path: FragmentPath,
    now: Instant,
    pto: Duration,
) -> Option<FragModel> {
    slot_after_send(lanes[path.lane_index.0.0 as int].kind, frag_at(lanes, path), now, pto)
}

/// Putting a fragment into a packet changes its slot, and nothing else.
pub proof fn lemma_after_send(
    lanes: Seq<LaneModel>,
    path: FragmentPath,
    now: Instant,
    pto: Duration,
)
    requires
        has_frag_at(lanes, path),
    ensures
        ({
            let after = after_send(lanes, path, now, pto);
            &&& same_frames(lanes, after)
            &&& slot_at(after, path) == sent_slot(lanes, path, now, pto)
            &&& forall|other: FragmentPath|
                has_slot(lanes, other) && other != path ==> #[trigger] slot_at(after, other)
                    == slot_at(lanes, other)
        }),
{
    let slot = sent_slot(lanes, path, now, pto);
    let after = with_slot(lanes, path, slot);
    lemma_with_slot(lanes, path, slot, path);
    assert forall|other: FragmentPath| has_slot(lanes, other) && other != path implies #[trigger]
        slot_at(after, other) == slot_at(lanes, other) by {
        lemma_with_slot(lanes, path, slot, other);
    }
    assert forall|other: FragmentPath| #[trigger] has_slot(lanes, other) <==> has_slot(
        after,
        other,
    ) by {
        lemma_with_slot(lanes, path, slot, other);
    }
    assert forall|i: int| #![trigger lanes[i]] #![trigger after[i]]
        0 <= i < lanes.len() implies {
            &&& lanes[i].kind == after[i].kind
            &&& lanes[i].next_msg_seq == after[i].next_msg_seq
            &&& lanes[i].msgs.dom() == after[i].msgs.dom()
        } by {
        assert(lanes[i].msgs.dom() =~= after[i].msgs.dom());
    }
}

/// Lanes stay well-formed as a fragment is put into a packet.
pub proof fn lemma_after_send_wf(
    lanes: Seq<LaneModel>,
    path: FragmentPath,
    now: Instant,
    pto: Duration,
    max: nat,
)
    requires
        has_frag_at(lanes, path),
        lanes_wf(lanes, max),
    ensures
        lanes_wf(after_send(lanes, path, now, pto), max),
{
    let after = after_send(lanes, path, now, pto);
    lemma_after_send(lanes, path, now, pto);
    assert forall|i: int| 0 <= i < after.len() implies (#[trigger] after[i]).wf(max) by {
        assert(lanes[i].wf(max));
        assert forall|seq: u16| #[trigger] after[i].msgs.contains_key(seq) implies msg_wf(
            after[i].msgs[seq],
            max,
        ) by {
            assert(lanes[i].msgs.contains_key(seq));
            assert(msg_wf(lanes[i].msgs[seq], max));
        }
    }
}

/// What a packet is filled with is as good as the fragments that were there:
/// each of them is either taken or kept, those taken are dealt with as their
/// lanes have it, and all else stays as it is.
pub proof fn lemma_fill(
    lanes: Seq<LaneModel>,
    paths: Seq<FragmentPath>,
    room: nat,
    now: Instant,
    pto: Duration,
)
    requires
        sendable(lanes, paths),
    ensures
        fill_is_sound(lanes, paths, room, now, pto, fill(lanes, paths, room, now, pto)),
    decreases paths.len(),
{
    let f = fill(lanes, paths, room, now, pto);
    if paths.len() > 0 {
        let init = paths.drop_last();
        let path = paths.last();
        let g = fill(lanes, init, room, now, pto);
        assert forall|i: int| 0 <= i < init.len() implies has_frag_at(
            lanes,
            #[trigger] init[i],
        ) by {
            assert(init[i] == paths[i]);
        }
        lemma_fill(lanes, init, room, now, pto);
        assert(has_frag_at(lanes, paths[paths.len() - 1]));
        assert(!init.contains(path)) by {
            if init.contains(path) {
                let i = choose|i: int| 0 <= i < init.len() && init[i] == path;
                assert(paths[i] == paths[paths.len() - 1]);
            }
        }
        assert(!g.taken.contains(path));
        assert(slot_at(g.lanes, path) == slot_at(lanes, path));
        assert(has_slot(lanes, path));
        assert(has_frag_at(g.lanes, path));
        lemma_after_send(g.lanes, path, now, pto);
        let li = path.lane_index.0.0 as int;
        assert(g.lanes[li].kind == lanes[li].kind);
        assert forall|q: FragmentPath| #[trigger] paths.contains(q) <==> init.contains(q) || q
            == path by {
            if init.contains(q) {
                let i = choose|i: int| 0 <= i < init.len() && init[i] == q;
                assert(paths[i] == q);
            }
            if paths.contains(q) {
                let i = choose|i: int| 0 <= i < paths.len() && paths[i] == q;
                if i < init.len() {
                    assert(init[i] == q);
                }
            }
            assert(paths[paths.len() - 1] == path);
        }
        if f.taken != g.taken {
            lemma_push_contains(g.taken, path);
            assert forall|q: FragmentPath| f.taken.contains(q) implies #[trigger] slot_at(
                f.lanes,
                q,
            ) == sent_slot(lanes, q, now, pto) by {
                if q != path {
                    assert(g.taken.contains(q));
                    assert(init.contains(q));
                    let i = choose|i: int| 0 <= i < init.len() && init[i] == q;
                    assert(has_frag_at(lanes, init[i]));
                    assert(has_slot(g.lanes, q));
                    assert(slot_at(g.lanes, q) == sent_slot(lanes, q, now, pto));
                }
            }
        } else {
            assert(f.kept == g.kept.push(path)) by {
                assert(f.taken.len() == g.taken.len());
            }
            lemma_push_contains(g.kept, path);
        }
    }
}

/// A pushed path joins those that were there.
proof fn lemma_push_contains(s: Seq<FragmentPath>, path: FragmentPath)
    requires
        s.no_duplicates(),
        !s.contains(path),
    ensures
        s.push(path).no_duplicates(),
        forall|q: FragmentPath| #[trigger]
            s.push(path).contains(q) <==> s.contains(q) || q == path,
{
    let t = s.push(path);
    assert forall|q: FragmentPath| #[trigger] t.contains(q) <==> s.contains(q) || q == path by {
        if s.contains(q) {
            let i = choose|i: int| 0 <= i < s.len() && s[i] == q;
            assert(t[i] == q);
        }
        assert(t[s.len() as int] == path);
    }
}

/// Whether a packet was filled as it should be: each fragment is either taken
/// or kept, there was room for those taken, these are dealt with as their lanes
/// have it, and all else stays as it is.
pub open spec fn fill_is_sound(
    lanes: Seq<LaneModel>,
    paths: Seq<FragmentPath>,
    room: nat,
    now: Instant,
    pto: Duration,
    f: Fill,
) -> bool {
    &&& same_frames(lanes, f.lanes)
    &&& f.bytes.len() <= room
    &&& f.taken.no_duplicates()
    &&& f.kept.no_duplicates()
    &&& forall|q: FragmentPath| #[trigger]
        paths.contains(q) <==> f.taken.contains(q) || f.kept.contains(q)
    &&& forall|q: FragmentPath| !(#[trigger] f.taken.contains(q) && f.kept.contains(q))
    &&& forall|q: FragmentPath|
        has_slot(lanes, q) && !f.taken.contains(q) ==> #[trigger] slot_at(f.lanes, q) == slot_at(
            lanes,
            q,
        )
    &&& forall|q: FragmentPath|
        f.taken.contains(q) ==> #[trigger] slot_at(f.lanes, q) == sent_slot(lanes, q, now, pto)
}

/// What comes first of fragments that can be sent can be sent.
pub proof fn lemma_sendable_init(lanes: Seq<LaneModel>, paths: Seq<FragmentPath>)
    requires
        sendable(lanes, paths),
        paths.len() > 0,
    ensures
        sendable(lanes, paths.drop_last()),
        has_frag_at(lanes, paths.last()),
        !paths.drop_last().contains(paths.last()),
{
    let init = paths.drop_last();
    assert forall|i: int| 0 <= i < init.len() implies has_frag_at(lanes, #[trigger] init[i]) by {
        assert(init[i] == paths[i]);
    }
    assert(has_frag_at(lanes, paths[paths.len() - 1]));
    if init.contains(paths.last()) {
        let i = choose|i: int| 0 <= i < init.len() && init[i] == paths.last();
        assert(paths[i] == paths[paths.len() - 1]);
    }
}

/// The first of fragments that can be sent can be sent.
pub proof fn lemma_sendable_take(lanes: Seq<LaneModel>, paths: Seq<FragmentPath>, n: int)
    requires
        sendable(lanes, paths),
        0 <= n <= paths.len(),
    ensures
        sendable(lanes, paths.take(n)),
{
    let init = paths.take(n);
    assert forall|i: int| 0 <= i < init.len() implies has_frag_at(lanes, #[trigger] init[i]) by {
        assert(init[i] == paths[i]);
    }
}

/// A fragment that was not gone through yet is as it was.
pub proof fn lemma_fill_next(
    lanes: Seq<LaneModel>,
    paths: Seq<FragmentPath>,
    room: nat,
    now: Instant,
    pto: Duration,
)
    requires
        sendable(lanes, paths),
        paths.len() > 0,
    ensures
        ({
            let f = fill(lanes, paths.drop_last(), room, now, pto);
            &&& has_frag_at(f.lanes, paths.last())
            &&& slot_at(f.lanes, paths.last()) == slot_at(lanes, paths.last())
        }),
{
    lemma_sendable_init(lanes, paths);
    lemma_fill(lanes, paths.drop_last(), room, now, pto);
    let f = fill(lanes, paths.drop_last(), room, now, pto);
    assert(!f.taken.contains(paths.last()));
    assert(has_slot(lanes, paths.last()));
    assert(slot_at(f.lanes, paths.last()) == slot_at(lanes, paths.last()));
}

/// Lanes stay well-formed as a packet is filled.
pub proof fn lemma_fill_wf(
    lanes: Seq<LaneModel>,
    paths: Seq<FragmentPath>,
    room: nat,
    now: Instant,
    pto: Duration,
    max: nat,
)
    requires
        sendable(lanes, paths),
        lanes_wf(lanes, max),
    ensures
        lanes_wf(fill(lanes, paths, room, now, pto).lanes, max),
    decreases paths.len(),
{
    if paths.len() > 0 {
        lemma_sendable_init(lanes, paths);
        lemma_fill_wf(lanes, paths.drop_last(), room, now, pto, max);
        lemma_fill_next(lanes, paths, room, now, pto);
        let f = fill(lanes, paths.drop_last(), room, now, pto);
        lemma_after_send_wf(f.lanes, paths.last(), now, pto, max);
    }
}

/// A packet for which nothing was taken leaves everything as it was.
pub proof fn lemma_fill_none(
    lanes: Seq<LaneModel>,
    paths: Seq<FragmentPath>,
    room: nat,
    now: Instant,
    pto: Duration,
)
    ensures
        ({
            let f = fill(lanes, paths, room, now, pto);
            f.taken.len() == 0 ==> f.lanes == lanes && f.kept == paths && f.bytes.len() == 0
        }),
    decreases paths.len(),
{
    if paths.len() > 0 {
        lemma_fill_none(lanes, paths.drop_last(), room, now, pto);
        assert(paths.drop_last().push(paths.last()) =~= paths);
    }
}

/// There is no room left for any fragment that is kept.
pub proof fn lemma_fill_is_full(
    lanes: Seq<LaneModel>,
    paths: Seq<FragmentPath>,
    room: nat,
    now: Instant,
    pto: Duration,
)
    requires
        sendable(lanes, paths),
    ensures
        ({
            let f = fill(lanes, paths, room, now, pto);
            forall|q: FragmentPath| #[trigger]
                f.kept.contains(q) ==> f.bytes.len() + wire_at(lanes, q).len() > room
        }),
    decreases paths.len(),
{
    if paths.len() > 0 {
        let f = fill(lanes, paths, room, now, pto);
        let g = fill(lanes, paths.drop_last(), room, now, pto);
        lemma_sendable_init(lanes, paths);
        lemma_fill_is_full(lanes, paths.drop_last(), room, now, pto);
        lemma_fill_next(lanes, paths, room, now, pto);
        assert forall|q: FragmentPath| #[trigger] f.kept.contains(q) implies f.bytes.len()
            + wire_at(lanes, q).len() > room by {
            let i = choose|i: int| 0 <= i < f.kept.len() && f.kept[i] == q;
            if i < g.kept.len() {
                assert(g.kept[i] == q);
                assert(g.kept.contains(q));
            }
        }
    }
}

/// Whether it can be told of these fragments when they are to be sent again, as
/// far as they are.
pub open spec fn resendable(
    lanes: Seq<LaneModel>,
    paths: Seq<FragmentPath>,
    now: Instant,
    pto: Duration,
) -> bool {
    forall|i: int|
        0 <= i < paths.len()
            && lanes[(#[trigger] paths[i]).lane_index.0.0 as int].kind.is_reliable()
            ==> now.reaches(pto)
}

/// Whether a flush can go on: the fragments that are left are on the lanes, and
/// it can be told when they are to be sent again.
pub open spec fn flush_ready(t: TransportModel, f: FlushModel) -> bool {
    &&& t.send.wf()
    &&& sendable(t.send.lanes, f.paths)
    &&& resendable(t.send.lanes, f.paths, f.now, t.pto)
}

/// A flush that can go on can still go on after a packet.
pub proof fn lemma_step_ready(t: TransportModel, f: FlushModel)
    requires
        flush_ready(t, f),
    ensures
        flush_ready(step(t, f).transport, step(t, f).flush),
{
    let s = step(t, f);
    if packet_room(t.send.bucket.rem, f.mtu) >= PACKET_HEADER_LEN {
        let room = (packet_room(t.send.bucket.rem, f.mtu) - PACKET_HEADER_LEN) as nat;
        let fl = next_fill(t, f);
        lemma_fill(t.send.lanes, f.paths, room, f.now, t.pto);
        lemma_fill_wf(t.send.lanes, f.paths, room, f.now, t.pto, t.send.max_frag_len.0 as nat);
        assert forall|i: int| 0 <= i < fl.kept.len() implies has_frag_at(
            fl.lanes,
            #[trigger] fl.kept[i],
        ) by {
            let q = fl.kept[i];
            assert(fl.kept.contains(q));
            assert(f.paths.contains(q));
            let j = choose|j: int| 0 <= j < f.paths.len() && f.paths[j] == q;
            assert(has_frag_at(t.send.lanes, f.paths[j]));
            assert(!fl.taken.contains(q));
            assert(slot_at(fl.lanes, q) == slot_at(t.send.lanes, q));
            assert(has_slot(t.send.lanes, q));
        }
        assert(lanes_wf(fl.lanes, t.send.max_frag_len.0 as nat));
        assert(resendable(fl.lanes, fl.kept, f.now, t.pto)) by {
            assert forall|i: int|
                0 <= i < fl.kept.len()
                    && fl.lanes[(#[trigger] fl.kept[i]).lane_index.0.0 as int].kind.is_reliable()
                implies f.now.reaches(t.pto) by {
                let q = fl.kept[i];
                assert(fl.kept.contains(q));
                assert(f.paths.contains(q));
                let j = choose|j: int| 0 <= j < f.paths.len() && f.paths[j] == q;
                assert(has_frag_at(t.send.lanes, f.paths[j]));
                assert(t.send.lanes[q.lane_index.0.0 as int].kind
                    == fl.lanes[q.lane_index.0.0 as int].kind);
            }
        }
    }
}

/// Dropping messages that have no fragment to be sent leaves a transport
/// well-formed.
pub proof fn lemma_pruned_wf(t: TransportModel)
    requires
        t.send.wf(),
    ensures
        pruned(t).send.wf(),
{
    let max = t.send.max_frag_len.0 as nat;
    let lanes = pruned(t).send.lanes;
    assert forall|i: int| 0 <= i < lanes.len() implies (#[trigger] lanes[i]).wf(max) by {
        let lane = t.send.lanes[i];
        assert(lane.wf(max));
        assert(lanes[i].msgs.dom().subset_of(lane.msgs.dom()));
        vstd::set_lib::lemma_set_subset_finite(lane.msgs.dom(), lanes[i].msgs.dom());
        assert forall|seq: u16| #[trigger] lanes[i].msgs.contains_key(seq) implies msg_wf(
            lanes[i].msgs[seq],
            max,
        ) by {
            assert(lane.msgs.contains_key(seq));
        }
    }
}

/// Each packet leaves less for the flush to do.
pub proof fn lemma_step_decreases(t: TransportModel, f: FlushModel)
    ensures
        step(t, f).packet is Some ==> flush_work(step(t, f).flush) < flush_work(f),
{
    lemma_fill_len(
        t.send.lanes,
        f.paths,
        (packet_room(t.send.bucket.rem, f.mtu) - PACKET_HEADER_LEN) as nat,
        f.now,
        t.pto,
    );
}

}
