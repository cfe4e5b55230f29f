//! Which fragments a flush puts into which packet, and what that comes to.

use crate::limit::min_nat;
use crate::model::{
    fill, flush_rest, flush_work, frag_at, has_frag_at, has_slot, next_fill, next_header,
    packet_room, slot_at, step, wire_at, FlushModel, FlushedModel, LaneModel, TransportModel,
};
use crate::octets::ReadError;
use crate::packet::{next_seq, parse_packet, PacketHeader, PacketSeq, PACKET_HEADER_LEN};
use crate::packing::{
    flush_ready, lemma_fill, lemma_fill_is_full, lemma_fill_next, lemma_sendable_init,
    lemma_step_decreases, lemma_step_ready, same_frames, sendable, sent_slot,
};
use crate::time::{Duration, Instant};
use crate::transport::FragmentPath;
use crate::wire::{
    items_at, law_packet_round_trip, lemma_fill_wire, lemma_header_round_trip, FragItem,
};
use vstd::prelude::*;

verus! {

/// Fragments that the rest of a flush puts into each of its packets.
pub open spec fn flush_taken(t: TransportModel, f: FlushModel) -> Seq<Seq<FragmentPath>>
    decreases flush_work(f),
{
    proof {
        lemma_step_decreases(t, f);
    }
    let s = step(t, f);
    if s.packet is Some {
        seq![next_fill(t, f).taken] + flush_taken(s.transport, s.flush)
    } else {
        Seq::empty()
    }
}

/// Whether one of these packets has the fragment at this path.
pub open spec fn was_taken(taken: Seq<Seq<FragmentPath>>, path: FragmentPath) -> bool {
    exists|k: int| 0 <= k < taken.len() && (#[trigger] taken[k]).contains(path)
}

/// What was taken was taken for the first packet or for a later one.
pub proof fn lemma_was_taken_first(
    first: Seq<FragmentPath>,
    rest: Seq<Seq<FragmentPath>>,
    path: FragmentPath,
)
    ensures
        was_taken(seq![first] + rest, path) <==> first.contains(path) || was_taken(rest, path),
{
    let all = seq![first] + rest;
    if first.contains(path) {
        assert(all[0].contains(path));
    }
    if was_taken(rest, path) {
        let k = choose|k: int| 0 <= k < rest.len() && (#[trigger] rest[k]).contains(path);
        assert(all[k + 1].contains(path));
    }
    if was_taken(all, path) {
        let k = choose|k: int| 0 <= k < all.len() && (#[trigger] all[k]).contains(path);
        if k > 0 {
            assert(rest[k - 1].contains(path));
        }
    }
}

/// Whether a flush did to the lanes what it should: each fragment is sent at
/// most once, those sent are dealt with as their lanes have it, and all else
/// stays as it is.
pub open spec fn flush_is_sound(
    t: TransportModel,
    f: FlushModel,
    after: Seq<LaneModel>,
    taken: Seq<Seq<FragmentPath>>,
) -> bool {
    &&& same_frames(t.send.lanes, after)
    &&& forall|q: FragmentPath| #[trigger] was_taken(taken, q) ==> f.paths.contains(q)
    &&& forall|q: FragmentPath|
        was_taken(taken, q) ==> #[trigger] slot_at(after, q) == sent_slot(
            t.send.lanes,
            q,
            f.now,
            t.pto,
        )
    &&& forall|q: FragmentPath|
        has_slot(t.send.lanes, q) && !was_taken(taken, q) ==> #[trigger] slot_at(after, q)
            == slot_at(t.send.lanes, q)
    &&& forall|k: int| 0 <= k < taken.len() ==> (#[trigger] taken[k]).no_duplicates()
    &&& forall|k: int, l: int, q: FragmentPath|
        0 <= k < l < taken.len() ==> !(#[trigger] taken[k].contains(q)
            && #[trigger] taken[l].contains(q))
}

/// A flush does to the lanes what it should, and leaves them well-formed.
pub proof fn lemma_flush_is_sound(t: TransportModel, f: FlushModel)
    requires
        flush_ready(t, f),
    ensures
        flush_is_sound(t, f, flush_rest(t, f).transport.send.lanes, flush_taken(t, f)),
        flush_rest(t, f).transport.send.wf(),
    decreases flush_work(f),
{
    lemma_step_decreases(t, f);
    lemma_step_ready(t, f);
    let s = step(t, f);
    if s.packet is Some {
        let fl = next_fill(t, f);
        let room = (packet_room(t.send.bucket.rem, f.mtu) - PACKET_HEADER_LEN) as nat;
        let lanes = t.send.lanes;
        let rest = flush_taken(s.transport, s.flush);
        let after = flush_rest(t, f).transport.send.lanes;
        let all = flush_taken(t, f);
        lemma_fill(lanes, f.paths, room, f.now, t.pto);
        lemma_flush_is_sound(s.transport, s.flush);
        assert(all == seq![fl.taken] + rest);
        assert(s.transport.send.lanes == fl.lanes);
        assert forall|q: FragmentPath| #[trigger] was_taken(all, q) <==> fl.taken.contains(q)
            || was_taken(rest, q) by {
            lemma_was_taken_first(fl.taken, rest, q);
        }
        assert forall|q: FragmentPath| #[trigger] was_taken(all, q) implies f.paths.contains(q) by {
            if was_taken(rest, q) {
                assert(fl.kept.contains(q));
            }
        }
        assert forall|q: FragmentPath| was_taken(all, q) implies #[trigger] slot_at(after, q)
            == sent_slot(lanes, q, f.now, t.pto) by {
            assert(f.paths.contains(q));
            let i = choose|i: int| 0 <= i < f.paths.len() && f.paths[i] == q;
            assert(has_frag_at(lanes, f.paths[i]));
            assert(has_slot(lanes, q));
            assert(has_slot(fl.lanes, q));
            assert(lanes[q.lane_index.0.0 as int].kind == fl.lanes[q.lane_index.0.0 as int].kind);
            if was_taken(rest, q) {
                assert(fl.kept.contains(q));
                assert(!fl.taken.contains(q));
                assert(slot_at(fl.lanes, q) == slot_at(lanes, q));
                assert(slot_at(after, q) == sent_slot(fl.lanes, q, f.now, t.pto));
            } else {
                assert(slot_at(after, q) == slot_at(fl.lanes, q));
            }
        }
        assert forall|q: FragmentPath| has_slot(lanes, q) && !was_taken(all, q) implies #[trigger]
            slot_at(after, q) == slot_at(lanes, q) by {
            assert(has_slot(fl.lanes, q));
            assert(slot_at(fl.lanes, q) == slot_at(lanes, q));
        }
        assert forall|k: int| 0 <= k < all.len() implies (#[trigger] all[k]).no_duplicates() by {
            if k > 0 {
                assert(all[k] == rest[k - 1]);
            }
        }
        assert forall|k: int, l: int, q: FragmentPath| 0 <= k < l < all.len() implies !(
        #[trigger] all[k].contains(q) && #[trigger] all[l].contains(q)) by {
            assert(all[l] == rest[l - 1]);
            if k > 0 {
                assert(all[k] == rest[k - 1]);
                assert(!(rest[k - 1].contains(q) && rest[l - 1].contains(q)));
            } else if all[l].contains(q) {
                assert(rest[l - 1].contains(q));
                assert(was_taken(rest, q));
                assert(fl.kept.contains(q));
                assert(all[0] == fl.taken);
            }
        }
        assert(same_frames(lanes, after)) by {
            assert forall|i: int| #![trigger lanes[i]] #![trigger after[i]]
                0 <= i < lanes.len() implies {
                    &&& lanes[i].kind == after[i].kind
                    &&& lanes[i].next_msg_seq == after[i].next_msg_seq
                    &&& lanes[i].msgs.dom() == after[i].msgs.dom()
                } by {
                assert(fl.lanes[i].kind == after[i].kind);
                assert(lanes[i].kind == fl.lanes[i].kind);
            }
            assert forall|q: FragmentPath| #[trigger] has_slot(lanes, q) <==> has_slot(
                after,
                q,
            ) by {
                assert(has_slot(lanes, q) <==> has_slot(fl.lanes, q));
            }
        }
    }
}

/// Sequence number `k` places after `n`.
pub open spec fn nth_seq(n: u16, k: int) -> u16 {
    ((n + k) % 0x1_0000) as u16
}

/// Fragments that are kept can be read from the lanes as before.
pub proof fn lemma_kept_items(t: TransportModel, f: FlushModel, paths: Seq<FragmentPath>)
    requires
        flush_ready(t, f),
        packet_room(t.send.bucket.rem, f.mtu) >= PACKET_HEADER_LEN,
        forall|i: int| 0 <= i < paths.len() ==> next_fill(t, f).kept.contains(#[trigger] paths[i]),
    ensures
        items_at(next_fill(t, f).lanes, paths) == items_at(t.send.lanes, paths),
        forall|i: int|
            0 <= i < paths.len() ==> slot_at(next_fill(t, f).lanes, #[trigger] paths[i]) == slot_at(
                t.send.lanes,
                paths[i],
            ),
{
    let fl = next_fill(t, f);
    let room = (packet_room(t.send.bucket.rem, f.mtu) - PACKET_HEADER_LEN) as nat;
    lemma_fill(t.send.lanes, f.paths, room, f.now, t.pto);
    assert forall|i: int| 0 <= i < paths.len() implies slot_at(fl.lanes, #[trigger] paths[i])
        == slot_at(t.send.lanes, paths[i]) by {
        let q = paths[i];
        assert(f.paths.contains(q));
        let j = choose|j: int| 0 <= j < f.paths.len() && f.paths[j] == q;
        assert(has_frag_at(t.send.lanes, f.paths[j]));
        assert(has_slot(t.send.lanes, q));
        assert(!fl.taken.contains(q));
    }
    assert(items_at(fl.lanes, paths) =~= items_at(t.send.lanes, paths));
}

/// A packet can be read back.
pub proof fn lemma_step_packet(t: TransportModel, f: FlushModel)
    requires
        flush_ready(t, f),
    ensures
        step(t, f).packet matches Some(packet) ==> {
            &&& reads_as(packet, t, t.send.next_packet_seq.0, next_fill(t, f).taken)
            &&& packet.len() == PACKET_HEADER_LEN + next_fill(t, f).bytes.len()
            &&& packet.len() <= packet_room(t.send.bucket.rem, f.mtu)
        },
{
    reveal(reads_as);
    if step(t, f).packet is Some {
        let fl = next_fill(t, f);
        let room = (packet_room(t.send.bucket.rem, f.mtu) - PACKET_HEADER_LEN) as nat;
        let items = items_at(t.send.lanes, fl.taken);
        lemma_fill(t.send.lanes, f.paths, room, f.now, t.pto);
        lemma_fill_wire(t.send.lanes, f.paths, room, f.now, t.pto);
        assert forall|i: int| 0 <= i < items.len() implies (#[trigger] items[i]).1.len()
            <= u32::MAX by {
            let q = fl.taken[i];
            assert(fl.taken.contains(q));
            assert(f.paths.contains(q));
            let j = choose|j: int| 0 <= j < f.paths.len() && f.paths[j] == q;
            assert(has_frag_at(t.send.lanes, f.paths[j]));
            lemma_frag_len(t, q);
        }
        law_packet_round_trip(next_header(t), items);
        lemma_header_round_trip(next_header(t), fl.bytes);
    }
}

/// Fragments carry no more than they may.
pub proof fn lemma_frag_len(t: TransportModel, path: FragmentPath)
    requires
        t.send.wf(),
        has_frag_at(t.send.lanes, path),
    ensures
        frag_at(t.send.lanes, path).payload.len() <= t.send.max_frag_len.0,
{
    let lane = t.send.lanes[path.lane_index.0.0 as int];
    assert(lane.wf(t.send.max_frag_len.0 as nat));
    assert(lane.msgs.contains_key(path.msg_seq.0));
}

/// A flush puts none but its own fragments into packets.
pub proof fn lemma_taken_in_paths(t: TransportModel, f: FlushModel)
    requires
        flush_ready(t, f),
    ensures
        forall|k: int, i: int|
            0 <= k < flush_taken(t, f).len() && 0 <= i < flush_taken(t, f)[k].len()
                ==> f.paths.contains(#[trigger] flush_taken(t, f)[k][i]),
{
    lemma_flush_is_sound(t, f);
    let taken = flush_taken(t, f);
    assert forall|k: int, i: int| 0 <= k < taken.len() && 0 <= i < taken[k].len() implies
        f.paths.contains(#[trigger] taken[k][i]) by {
        assert(taken[k].contains(taken[k][i]));
        assert(was_taken(taken, taken[k][i]));
    }
}

/// Whether a packet can be read back as one with this number and these
/// fragments.
#[verifier::opaque]
pub open spec fn reads_as(
    packet: Seq<u8>,
    t: TransportModel,
    number: u16,
    frags: Seq<FragmentPath>,
) -> bool {
    parse_packet(packet) == Ok::<(PacketHeader, Seq<FragItem>), ReadError>(
        (
            PacketHeader { seq: PacketSeq(number), acks: t.peer_acks },
            items_at(t.send.lanes, frags),
        ),
    )
}

/// How a packet reads rests on its fragments and the acknowledgements alone.
proof fn lemma_reads_as_same(
    packet: Seq<u8>,
    a: TransportModel,
    b: TransportModel,
    number: u16,
    frags: Seq<FragmentPath>,
)
    requires
        reads_as(packet, a, number, frags),
        a.peer_acks == b.peer_acks,
        items_at(a.send.lanes, frags) == items_at(b.send.lanes, frags),
    ensures
        reads_as(packet, b, number, frags),
{
    reveal(reads_as);
}

/// Each packet of a flush can be read back.
pub proof fn lemma_flush_packets(t: TransportModel, f: FlushModel)
    requires
        flush_ready(t, f),
    ensures
        ({
            let packets = flush_rest(t, f).packets;
            let taken = flush_taken(t, f);
            &&& packets.len() == taken.len()
            &&& forall|k: int|
                0 <= k < packets.len() ==> reads_as(
                    #[trigger] packets[k],
                    t,
                    nth_seq(t.send.next_packet_seq.0, k),
                    taken[k],
                )
        }),
    decreases flush_work(f),
{
    lemma_step_decreases(t, f);
    lemma_step_ready(t, f);
    lemma_step_packet(t, f);
    let s = step(t, f);
    if s.packet is Some {
        let packets = flush_rest(t, f).packets;
        let taken = flush_taken(t, f);
        let rest = flush_rest(s.transport, s.flush).packets;
        let rest_taken = flush_taken(s.transport, s.flush);
        lemma_flush_packets(s.transport, s.flush);
        lemma_taken_in_paths(s.transport, s.flush);
        assert forall|k: int| 0 <= k < packets.len() implies reads_as(
            #[trigger] packets[k],
            t,
            nth_seq(t.send.next_packet_seq.0, k),
            taken[k],
        ) by {
            if k > 0 {
                assert(packets[k] == rest[k - 1]);
                assert(taken[k] == rest_taken[k - 1]);
                assert forall|i: int| 0 <= i < taken[k].len() implies next_fill(
                    t,
                    f,
                ).kept.contains(#[trigger] taken[k][i]) by {
                    assert(s.flush.paths.contains(rest_taken[k - 1][i]));
                }
                lemma_kept_items(t, f, taken[k]);
                lemma_reads_as_same(
                    packets[k],
                    s.transport,
                    t,
                    nth_seq(next_seq(t.send.next_packet_seq.0), k - 1),
                    taken[k],
                );
                assert(nth_seq(next_seq(t.send.next_packet_seq.0), k - 1) == nth_seq(
                    t.send.next_packet_seq.0,
                    k,
                ));
            }
        }
    }
}

/// How many bytes these packets have in all.
pub open spec fn total_len(packets: Seq<Seq<u8>>) -> nat
    decreases packets.len(),
{
    if packets.len() == 0 {
        0
    } else {
        packets[0].len() + total_len(packets.skip(1))
    }
}

/// Packets are paid for, and keep within the limits.
pub proof fn lemma_flush_budget(t: TransportModel, f: FlushModel)
    requires
        flush_ready(t, f),
    ensures
        ({
            let r = flush_rest(t, f);
            let left = (t.send.bucket.rem - total_len(r.packets)) as nat;
            &&& total_len(r.packets) <= t.send.bucket.rem
            &&& r.transport.send.bucket.cap == t.send.bucket.cap
            &&& r.transport.send.bucket.rem == left - if packet_room(left, f.mtu)
                >= PACKET_HEADER_LEN {
                PACKET_HEADER_LEN as int
            } else {
                0int
            }
            &&& forall|k: int|
                0 <= k < r.packets.len() ==> PACKET_HEADER_LEN <= (
                #[trigger] r.packets[k]).len() <= f.mtu
        }),
    decreases flush_work(f),
{
    lemma_step_decreases(t, f);
    lemma_step_ready(t, f);
    lemma_step_packet(t, f);
    let s = step(t, f);
    if s.packet is Some {
        let r = flush_rest(t, f);
        let rest = flush_rest(s.transport, s.flush);
        lemma_flush_budget(s.transport, s.flush);
        assert(r.packets.skip(1) =~= rest.packets);
        assert forall|k: int| 0 <= k < r.packets.len() implies PACKET_HEADER_LEN <= (
        #[trigger] r.packets[k]).len() <= f.mtu by {
            if k > 0 {
                assert(r.packets[k] == rest.packets[k - 1]);
            }
        }
    }
}

/// Each packet leaves no room for any fragment that goes into neither it nor an
/// earlier one.
pub proof fn lemma_flush_is_full(t: TransportModel, f: FlushModel)
    requires
        flush_ready(t, f),
    ensures
        ({
            let packets = flush_rest(t, f).packets;
            let taken = flush_taken(t, f);
            &&& taken.len() == packets.len()
            &&& forall|k: int, q: FragmentPath|
                0 <= k < packets.len() && f.paths.contains(q) && !#[trigger] was_taken(
                    taken.take(k + 1),
                    q,
                ) ==> packets[k].len() + wire_at(t.send.lanes, q).len() > packet_room(
                    (t.send.bucket.rem - total_len(packets.take(k))) as nat,
                    f.mtu,
                )
        }),
    decreases flush_work(f),
{
    lemma_step_decreases(t, f);
    lemma_step_ready(t, f);
    lemma_step_packet(t, f);
    let s = step(t, f);
    if s.packet is Some {
        let fl = next_fill(t, f);
        let room = (packet_room(t.send.bucket.rem, f.mtu) - PACKET_HEADER_LEN) as nat;
        let packets = flush_rest(t, f).packets;
        let taken = flush_taken(t, f);
        let rest = flush_rest(s.transport, s.flush).packets;
        let rest_taken = flush_taken(s.transport, s.flush);
        lemma_fill(t.send.lanes, f.paths, room, f.now, t.pto);
        lemma_fill_is_full(t.send.lanes, f.paths, room, f.now, t.pto);
        lemma_flush_is_full(s.transport, s.flush);
        assert forall|k: int, q: FragmentPath|
            0 <= k < packets.len() && f.paths.contains(q) && !#[trigger] was_taken(
                taken.take(k + 1),
                q,
            ) implies packets[k].len() + wire_at(t.send.lanes, q).len() > packet_room(
            (t.send.bucket.rem - total_len(packets.take(k))) as nat,
            f.mtu,
        ) by {
            assert(taken.take(k + 1) =~= seq![fl.taken] + rest_taken.take(k));
            lemma_was_taken_first(fl.taken, rest_taken.take(k), q);
            assert(fl.kept.contains(q));
            if k == 0 {
                assert(packets.take(0) =~= Seq::empty());
            } else {
                assert(!was_taken(rest_taken.take((k - 1) + 1), q));
                assert(packets.take(k)[0] == packets[0]);
                assert(packets.take(k).skip(1) =~= rest.take(k - 1));
                assert(packets[k] == rest[k - 1]);
                lemma_kept_items(t, f, seq![q]);
                assert(slot_at(fl.lanes, seq![q][0]) == slot_at(t.send.lanes, q));
            }
        }
    }
}

/// What a flush does to the rest of a transport.
pub proof fn lemma_flush_scalars(t: TransportModel, f: FlushModel)
    ensures
        ({
            let r = flush_rest(t, f);
            let after = r.transport;
            &&& after.pto == t.pto
            &&& after.peer_acks == t.peer_acks
            &&& after.send.max_frag_len == t.send.max_frag_len
            &&& after.send.error == t.send.error
            &&& after.send.next_packet_seq.0 == nth_seq(
                t.send.next_packet_seq.0,
                r.packets.len() as int,
            )
            &&& after.owe_ack == (t.owe_ack && r.packets.len() == 0)
            &&& after.last_flush_at == if r.packets.len() == 0 {
                t.last_flush_at
            } else {
                f.now
            }
        }),
    decreases flush_work(f),
{
    lemma_step_decreases(t, f);
    let s = step(t, f);
    if s.packet is Some {
        lemma_flush_scalars(s.transport, s.flush);
    }
}

/// Packets are recorded under their sequence numbers.
pub proof fn lemma_flush_record(t: TransportModel, f: FlushModel)
    ensures
        ({
            let r = flush_rest(t, f);
            let taken = flush_taken(t, f);
            let n = t.send.next_packet_seq.0;
            &&& taken.len() == r.packets.len()
            &&& taken.len() <= 0x1_0000 ==> {
                &&& forall|k: int|
                    0 <= k < taken.len() ==> r.transport.flushed.contains_key(nth_seq(n, k))
                        && r.transport.flushed[nth_seq(n, k)] == (FlushedModel {
                        flushed_at: f.now,
                        frags: #[trigger] taken[k],
                    })
                &&& forall|key: u16|
                    (forall|k: int| 0 <= k < taken.len() ==> nth_seq(n, k) != key) ==> {
                        &&& #[trigger] r.transport.flushed.contains_key(key)
                            <==> t.flushed.contains_key(key)
                        &&& r.transport.flushed[key] == t.flushed[key]
                    }
            }
        }),
    decreases flush_work(f),
{
    lemma_step_decreases(t, f);
    let s = step(t, f);
    if s.packet is Some {
        let r = flush_rest(t, f);
        let taken = flush_taken(t, f);
        let rest_taken = flush_taken(s.transport, s.flush);
        let n = t.send.next_packet_seq.0;
        let m = s.transport.send.next_packet_seq.0;
        lemma_flush_record(s.transport, s.flush);
        assert forall|k: int| nth_seq(m, k) == #[trigger] nth_seq(n, k + 1) by {}
        if taken.len() <= 0x1_0000 {
            assert forall|k: int| 0 <= k < taken.len() implies r.transport.flushed.contains_key(
                nth_seq(n, k),
            ) && r.transport.flushed[nth_seq(n, k)] == (FlushedModel {
                flushed_at: f.now,
                frags: #[trigger] taken[k],
            }) by {
                if k > 0 {
                    assert(taken[k] == rest_taken[k - 1]);
                    assert(nth_seq(m, k - 1) == nth_seq(n, k - 1 + 1));
                } else {
                    assert(nth_seq(n, 0) == n);
                    assert forall|j: int| 0 <= j < rest_taken.len() implies nth_seq(m, j) != n by {
                        assert(nth_seq(m, j) == nth_seq(n, j + 1));
                    }
                    assert(s.transport.flushed.contains_key(n));
                    assert(r.transport.flushed.contains_key(n));
                }
            }
            assert forall|key: u16|
                (forall|k: int| 0 <= k < taken.len() ==> nth_seq(n, k) != key) implies {
                    &&& #[trigger] r.transport.flushed.contains_key(key)
                        <==> t.flushed.contains_key(key)
                    &&& r.transport.flushed[key] == t.flushed[key]
                } by {
                assert(nth_seq(n, 0) == n);
                assert(key != n);
                assert forall|j: int| 0 <= j < rest_taken.len() implies nth_seq(m, j) != key by {
                    assert(nth_seq(m, j) == nth_seq(n, j + 1));
                }
                let rest = flush_rest(s.transport, s.flush);
                assert(rest.transport.flushed.contains_key(key)
                    <==> s.transport.flushed.contains_key(key));
            }
        }
    }
}

// ---------------------------------------------------------------------------
// Every fragment that is due goes out, if there is room for it
// ---------------------------------------------------------------------------

/// How many bytes it takes to send each of these fragments in a packet of its
/// own.
pub open spec fn cost(lanes: Seq<LaneModel>, paths: Seq<FragmentPath>) -> nat
    decreases paths.len(),
{
    if paths.len() == 0 {
        0
    } else {
        cost(lanes, paths.drop_last()) + PACKET_HEADER_LEN as nat + wire_at(
            lanes,
            paths.last(),
        ).len()
    }
}

/// Each fragment adds its own cost.
proof fn lemma_cost_push(lanes: Seq<LaneModel>, paths: Seq<FragmentPath>, path: FragmentPath)
    ensures
        cost(lanes, paths.push(path)) == cost(lanes, paths) + PACKET_HEADER_LEN + wire_at(
            lanes,
            path,
        ).len(),
{
    assert(paths.push(path).drop_last() =~= paths);
}

/// The cost of fragments depends on nothing but their slots.
proof fn lemma_cost_same(a: Seq<LaneModel>, b: Seq<LaneModel>, paths: Seq<FragmentPath>)
    requires
        forall|i: int|
            0 <= i < paths.len() ==> slot_at(a, #[trigger] paths[i]) == slot_at(b, paths[i]),
    ensures
        cost(a, paths) == cost(b, paths),
    decreases paths.len(),
{
    if paths.len() > 0 {
        let init = paths.drop_last();
        assert forall|i: int| 0 <= i < init.len() implies slot_at(a, #[trigger] init[i]) == slot_at(
            b,
            init[i],
        ) by {
            assert(init[i] == paths[i]);
        }
        lemma_cost_same(a, b, init);
        assert(slot_at(a, paths[paths.len() - 1]) == slot_at(b, paths[paths.len() - 1]));
    }
}

/// The cost of fragments covers that of the first.
proof fn lemma_cost_first(lanes: Seq<LaneModel>, paths: Seq<FragmentPath>)
    requires
        paths.len() > 0,
    ensures
        cost(lanes, paths) >= PACKET_HEADER_LEN + wire_at(lanes, paths[0]).len(),
    decreases paths.len(),
{
    if paths.len() > 1 {
        lemma_cost_first(lanes, paths.drop_last());
    }
}

/// Filling a packet shares out the cost between what is taken and what is kept,
/// and takes the first fragment if there is room for it.
proof fn lemma_fill_cost(
    lanes: Seq<LaneModel>,
    paths: Seq<FragmentPath>,
    room: nat,
    now: Instant,
    pto: Duration,
)
    requires
        sendable(lanes, paths),
    ensures
        ({
            let f = fill(lanes, paths, room, now, pto);
            &&& cost(lanes, f.taken) + cost(lanes, f.kept) == cost(lanes, paths)
            &&& f.bytes.len() + PACKET_HEADER_LEN * f.taken.len() == cost(lanes, f.taken)
            &&& paths.len() > 0 && wire_at(lanes, paths[0]).len() <= room ==> f.taken.len() > 0
        }),
    decreases paths.len(),
{
    if paths.len() > 0 {
        let init = paths.drop_last();
        let path = paths.last();
        let g = fill(lanes, init, room, now, pto);
        let f = fill(lanes, paths, room, now, pto);
        lemma_sendable_init(lanes, paths);
        lemma_fill_cost(lanes, init, room, now, pto);
        lemma_fill_next(lanes, paths, room, now, pto);
        assert(wire_at(g.lanes, path) == wire_at(lanes, path));
        lemma_cost_push(lanes, g.taken, path);
        lemma_cost_push(lanes, g.kept, path);
        if init.len() > 0 {
            assert(init[0] == paths[0]);
        }
    }
}

/// A flush with room for all its fragments sends all of them.
pub proof fn lemma_flush_complete(t: TransportModel, f: FlushModel)
    requires
        flush_ready(t, f),
        cost(t.send.lanes, f.paths) <= t.send.bucket.rem,
        forall|i: int|
            0 <= i < f.paths.len() ==> PACKET_HEADER_LEN + wire_at(
                t.send.lanes,
                #[trigger] f.paths[i],
            ).len() <= min_nat(f.mtu, isize::MAX as nat),
    ensures
        forall|q: FragmentPath| f.paths.contains(q) ==> #[trigger] was_taken(flush_taken(t, f), q),
    decreases flush_work(f),
{
    if f.paths.len() > 0 {
        let lanes = t.send.lanes;
        let fl = next_fill(t, f);
        let s = step(t, f);
        let room = (packet_room(t.send.bucket.rem, f.mtu) - PACKET_HEADER_LEN) as nat;
        lemma_step_decreases(t, f);
        lemma_step_ready(t, f);
        lemma_cost_first(lanes, f.paths);
        assert(PACKET_HEADER_LEN + wire_at(lanes, f.paths[0]).len() <= packet_room(
            t.send.bucket.rem,
            f.mtu,
        ));
        lemma_fill(lanes, f.paths, room, f.now, t.pto);
        lemma_fill_cost(lanes, f.paths, room, f.now, t.pto);
        assert(s.packet is Some);
        assert forall|i: int| 0 <= i < fl.kept.len() implies fl.kept.contains(
            #[trigger] fl.kept[i],
        ) by {}
        lemma_kept_items(t, f, fl.kept);
        lemma_cost_same(fl.lanes, lanes, fl.kept);
        assert forall|i: int| 0 <= i < fl.kept.len() implies PACKET_HEADER_LEN + wire_at(
            fl.lanes,
            #[trigger] fl.kept[i],
        ).len() <= min_nat(f.mtu, isize::MAX as nat) by {
            let q = fl.kept[i];
            assert(fl.kept.contains(q));
            assert(f.paths.contains(q));
            let j = choose|j: int| 0 <= j < f.paths.len() && f.paths[j] == q;
            assert(wire_at(fl.lanes, q) == wire_at(lanes, f.paths[j]));
        }
        lemma_flush_complete(s.transport, s.flush);
        assert forall|q: FragmentPath| f.paths.contains(q) implies #[trigger] was_taken(
            flush_taken(t, f),
            q,
        ) by {
            lemma_was_taken_first(fl.taken, flush_taken(s.transport, s.flush), q);
            if !fl.taken.contains(q) {
                assert(fl.kept.contains(q));
            }
        }
    }
}

// ---------------------------------------------------------------------------
// Older fragments come before newer ones
// ---------------------------------------------------------------------------

/// Whether the fragments go from the one pushed first to the one pushed last.
pub open spec fn oldest_first(lanes: Seq<LaneModel>, paths: Seq<FragmentPath>) -> bool {
    forall|i: int, j: int|
        0 <= i < j < paths.len() ==> frag_at(lanes, #[trigger] paths[i]).sent_at.nanos <= frag_at(
            lanes,
            #[trigger] paths[j],
        ).sent_at.nanos
}

/// Filling a packet keeps the order of what is taken, and of what is kept.
pub proof fn lemma_fill_order(
    lanes: Seq<LaneModel>,
    paths: Seq<FragmentPath>,
    room: nat,
    now: Instant,
    pto: Duration,
)
    requires
        sendable(lanes, paths),
        oldest_first(lanes, paths),
    ensures
        oldest_first(lanes, fill(lanes, paths, room, now, pto).taken),
        oldest_first(lanes, fill(lanes, paths, room, now, pto).kept),
    decreases paths.len(),
{
    if paths.len() > 0 {
        let init = paths.drop_last();
        let path = paths.last();
        let g = fill(lanes, init, room, now, pto);
        lemma_sendable_init(lanes, paths);
        assert(oldest_first(lanes, init)) by {
            assert forall|i: int, j: int| 0 <= i < j < init.len() implies frag_at(
                lanes,
                #[trigger] init[i],
            ).sent_at.nanos <= frag_at(lanes, #[trigger] init[j]).sent_at.nanos by {
                assert(init[i] == paths[i] && init[j] == paths[j]);
            }
        }
        lemma_fill_order(lanes, init, room, now, pto);
        lemma_fill(lanes, init, room, now, pto);
        assert forall|q: FragmentPath| #[trigger] init.contains(q) implies frag_at(
            lanes,
            q,
        ).sent_at.nanos <= frag_at(lanes, path).sent_at.nanos by {
            let i = choose|i: int| 0 <= i < init.len() && init[i] == q;
            assert(paths[i] == q);
            assert(paths[paths.len() - 1] == path);
        }
        lemma_order_push(lanes, init, g.taken, path);
        lemma_order_push(lanes, init, g.kept, path);
    }
}

/// A fragment that is newer than all others can come last.
proof fn lemma_order_push(
    lanes: Seq<LaneModel>,
    init: Seq<FragmentPath>,
    part: Seq<FragmentPath>,
    path: FragmentPath,
)
    requires
        oldest_first(lanes, part),
        forall|q: FragmentPath| part.contains(q) ==> #[trigger] init.contains(q),
        forall|q: FragmentPath| #[trigger]
            init.contains(q) ==> frag_at(lanes, q).sent_at.nanos <= frag_at(
                lanes,
                path,
            ).sent_at.nanos,
    ensures
        oldest_first(lanes, part.push(path)),
{
    let all = part.push(path);
    assert forall|i: int, j: int| 0 <= i < j < all.len() implies frag_at(
        lanes,
        #[trigger] all[i],
    ).sent_at.nanos <= frag_at(lanes, #[trigger] all[j]).sent_at.nanos by {
        assert(part.contains(part[i]));
        assert(init.contains(part[i]));
        if j < part.len() {
            assert(frag_at(lanes, part[i]).sent_at.nanos <= frag_at(lanes, part[j]).sent_at.nanos);
        }
    }
}

/// In each packet, older fragments come before newer ones.
pub proof fn lemma_flush_oldest_first(t: TransportModel, f: FlushModel)
    requires
        flush_ready(t, f),
        oldest_first(t.send.lanes, f.paths),
    ensures
        forall|k: int|
            0 <= k < flush_taken(t, f).len() ==> oldest_first(
                t.send.lanes,
                #[trigger] flush_taken(t, f)[k],
            ),
    decreases flush_work(f),
{
    lemma_step_decreases(t, f);
    lemma_step_ready(t, f);
    let s = step(t, f);
    if s.packet is Some {
        let lanes = t.send.lanes;
        let fl = next_fill(t, f);
        let room = (packet_room(t.send.bucket.rem, f.mtu) - PACKET_HEADER_LEN) as nat;
        let taken = flush_taken(t, f);
        let rest = flush_taken(s.transport, s.flush);
        lemma_fill_order(lanes, f.paths, room, f.now, t.pto);
        assert forall|i: int| 0 <= i < fl.kept.len() implies fl.kept.contains(
            #[trigger] fl.kept[i],
        ) by {}
        lemma_kept_items(t, f, fl.kept);
        lemma_order_same(lanes, fl.lanes, fl.kept);
        lemma_flush_oldest_first(s.transport, s.flush);
        lemma_taken_in_paths(s.transport, s.flush);
        assert forall|k: int| 0 <= k < taken.len() implies oldest_first(
            lanes,
            #[trigger] taken[k],
        ) by {
            if k > 0 {
                assert(taken[k] == rest[k - 1]);
                assert forall|i: int| 0 <= i < taken[k].len() implies fl.kept.contains(
                    #[trigger] taken[k][i],
                ) by {
                    assert(s.flush.paths.contains(rest[k - 1][i]));
                }
                lemma_kept_items(t, f, taken[k]);
                lemma_order_same(fl.lanes, lanes, taken[k]);
            }
        }
    }
}

/// The order of fragments depends on nothing but their slots.
pub proof fn lemma_order_same(a: Seq<LaneModel>, b: Seq<LaneModel>, paths: Seq<FragmentPath>)
    requires
        oldest_first(a, paths),
        forall|i: int|
            0 <= i < paths.len() ==> slot_at(a, #[trigger] paths[i]) == slot_at(b, paths[i]),
    ensures
        oldest_first(b, paths),
{
    assert forall|i: int, j: int| 0 <= i < j < paths.len() implies frag_at(
        b,
        #[trigger] paths[i],
    ).sent_at.nanos <= frag_at(b, #[trigger] paths[j]).sent_at.nanos by {
        assert(slot_at(a, paths[i]) == slot_at(b, paths[i]));
        assert(slot_at(a, paths[j]) == slot_at(b, paths[j]));
    }
}

}
