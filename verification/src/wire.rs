//! Reading gives back what was written.

use crate::model::{fill, frag_at, wire_at, LaneModel};
use crate::octets::{
    be16, be32, from_be16, from_be32, lemma_varint_len, parse_varint, varint, varint_span,
    varint_sum, ReadError,
};
use crate::packet::{
    frag_wire, parse_fragment, parse_fragments, parse_header, parse_packet, FragmentHeader,
    PacketHeader, PACKET_HEADER_LEN,
};
use crate::packing::{lemma_fill_next, lemma_sendable_init, sendable};
use crate::time::{Duration, Instant};
use crate::transport::FragmentPath;
use vstd::prelude::*;

verus! {

/// Big-endian bytes stand for the number that they were made from.
pub proof fn lemma_be_round_trip(a: u16, b: u32, rest: Seq<u8>)
    ensures
        from_be16(be16(a) + rest) == a,
        from_be32(be32(b) + rest) == b,
{
    assert(be16(a) + rest =~= seq![(a / 256) as u8, (a % 256) as u8] + rest);
    assert(b / 0x100_0000 < 256);
    assert(b / 0x100_0000 * 0x100_0000 + b / 0x1_0000 % 256 * 0x1_0000 + b / 256 % 256 * 256 + b
        % 256 == b);
}

/// The bytes of a variable-length number end where they should, and stand for
/// the number.
proof fn lemma_varint_span_sum(v: nat, rest: Seq<u8>)
    ensures
        varint_span(varint(v) + rest) == varint(v).len(),
        varint_sum(varint(v)) == v,
    decreases v,
{
    let s = varint(v);
    if v < 128 {
        assert(s.skip(1) =~= Seq::empty());
        assert((s + rest)[0] == v as u8);
        assert(varint_sum(s.skip(1)) == 0);
    } else {
        let head = (v % 128 + 128) as u8;
        let tail = varint(v / 128);
        lemma_varint_span_sum(v / 128, rest);
        assert((s + rest)[0] == head);
        assert((s + rest).skip(1) =~= tail + rest);
        assert(s.skip(1) =~= tail);
        assert(head >= 128);
        assert(head % 128 == v % 128);
    }
}

/// Reading a variable-length number gives back the number that was written.
pub proof fn lemma_varint_round_trip(v: u32, rest: Seq<u8>)
    ensures
        parse_varint(varint(v as nat) + rest) == Ok::<(u32, Seq<u8>), ReadError>((v, rest)),
{
    let w = varint(v as nat);
    lemma_varint_len(v);
    lemma_varint_span_sum(v as nat, rest);
    assert((w + rest).take(w.len() as int) =~= w);
    assert((w + rest).skip(w.len() as int) =~= rest);
}

/// Reading a header gives back the header that was written.
pub proof fn lemma_header_round_trip(h: PacketHeader, rest: Seq<u8>)
    ensures
        h.wire().len() == PACKET_HEADER_LEN,
        parse_header(h.wire() + rest) == Ok::<PacketHeader, ReadError>(h),
        (h.wire() + rest).skip(PACKET_HEADER_LEN as int) == rest,
{
    let s = h.wire() + rest;
    let a = be16(h.seq.0);
    let b = be16(h.acks.last_recv.0);
    let c = be32(h.acks.bits);
    assert(s =~= a + (b + c + rest));
    assert(s.skip(2) =~= b + (c + rest));
    assert(s.skip(4) =~= c + rest);
    assert(s.skip(8) =~= rest);
    lemma_be_round_trip(h.seq.0, h.acks.bits, b + c + rest);
    lemma_be_round_trip(h.acks.last_recv.0, h.acks.bits, c + rest);
    lemma_be_round_trip(h.seq.0, h.acks.bits, rest);
}

/// Header and payload of a fragment.
pub type FragItem = (FragmentHeader, Seq<u8>);

/// Reading a fragment gives back the fragment that was written.
pub proof fn lemma_fragment_round_trip(frag: FragItem, rest: Seq<u8>)
    requires
        frag.1.len() <= u32::MAX,
    ensures
        parse_fragment(frag_wire(frag.0, frag.1) + rest) == Ok::<(FragItem, Seq<u8>), ReadError>(
            (frag, rest),
        ),
{
    reveal(parse_fragment);
    let (header, payload) = frag;
    let s = frag_wire(header, payload) + rest;
    let len = payload.len() as u32;
    let s3 = payload + rest;
    let s2 = varint(len as nat) + s3;
    let s1 = varint(header.position.0.0 as nat) + s2;
    let s0 = varint(header.lane.0.0 as nat) + s1;
    assert(s =~= be16(header.seq.0) + s0);
    assert(s.skip(2) =~= s0);
    lemma_be_round_trip(header.seq.0, 0, s0);
    lemma_varint_round_trip(header.lane.0.0, s1);
    lemma_varint_round_trip(header.position.0.0, s2);
    lemma_varint_round_trip(len, s3);
    assert(s3.take(len as int) =~= payload);
    assert(s3.skip(len as int) =~= rest);
}

/// Bytes of these fragments, one after the other.
pub open spec fn frags_wire(frags: Seq<FragItem>) -> Seq<u8>
    decreases frags.len(),
{
    if frags.len() == 0 {
        Seq::empty()
    } else {
        frags_wire(frags.drop_last()) + frag_wire(frags.last().0, frags.last().1)
    }
}

/// Reading fragments gives back the fragments that were written.
pub proof fn lemma_fragments_round_trip(frags: Seq<FragItem>, rest: Seq<u8>)
    requires
        forall|i: int| 0 <= i < frags.len() ==> (#[trigger] frags[i]).1.len() <= u32::MAX,
    ensures
        match parse_fragments(rest) {
            Ok(later) => parse_fragments(frags_wire(frags) + rest) == Ok::<
                Seq<FragItem>,
                ReadError,
            >(frags + later),
            Err(e) => parse_fragments(frags_wire(frags) + rest) == Err::<Seq<FragItem>, ReadError>(
                e,
            ),
        },
    decreases frags.len(),
{
    if frags.len() == 0 {
        assert(frags_wire(frags) + rest =~= rest);
        if let Ok(later) = parse_fragments(rest) {
            assert(frags + later =~= later);
        }
    } else {
        let init = frags.drop_last();
        let last = frags.last();
        let w = frag_wire(last.0, last.1);
        assert(frags[frags.len() - 1] == last);
        assert forall|i: int| 0 <= i < init.len() implies (#[trigger] init[i]).1.len()
            <= u32::MAX by {
            assert(init[i] == frags[i]);
        }
        lemma_fragments_round_trip(init, w + rest);
        lemma_fragment_round_trip(last, rest);
        assert(frags_wire(frags) + rest =~= frags_wire(init) + (w + rest));
        assert((w + rest).len() > 0);
        if let Ok(later) = parse_fragments(rest) {
            assert(init + (seq![last] + later) =~= frags + later);
        }
    }
}

/// Reading a packet gives back the header and fragments that were written.
pub proof fn law_packet_round_trip(header: PacketHeader, frags: Seq<FragItem>)
    requires
        forall|i: int| 0 <= i < frags.len() ==> (#[trigger] frags[i]).1.len() <= u32::MAX,
    ensures
        parse_packet(header.wire() + frags_wire(frags)) == Ok::<
            (PacketHeader, Seq<FragItem>),
            ReadError,
        >((header, frags)),
{
    lemma_header_round_trip(header, frags_wire(frags));
    lemma_fragments_round_trip(frags, Seq::empty());
    assert(frags_wire(frags) + Seq::empty() =~= frags_wire(frags));
    assert(frags + Seq::<FragItem>::empty() =~= frags);
}

/// Header and payload with which the fragment at this path is written.
pub open spec fn item_at(lanes: Seq<LaneModel>, path: FragmentPath) -> FragItem {
    (
        FragmentHeader {
            seq: path.msg_seq,
            lane: path.lane_index,
            position: frag_at(lanes, path).position,
        },
        frag_at(lanes, path).payload,
    )
}

/// Headers and payloads with which the fragments at these paths are written.
pub open spec fn items_at(lanes: Seq<LaneModel>, paths: Seq<FragmentPath>) -> Seq<FragItem> {
    Seq::new(paths.len(), |i: int| item_at(lanes, paths[i]))
}

/// A packet is filled with the fragments that are taken, one after the other.
pub proof fn lemma_fill_wire(
    lanes: Seq<LaneModel>,
    paths: Seq<FragmentPath>,
    room: nat,
    now: Instant,
    pto: Duration,
)
    requires
        sendable(lanes, paths),
    ensures
        ({
            let f = fill(lanes, paths, room, now, pto);
            f.bytes == frags_wire(items_at(lanes, f.taken))
        }),
    decreases paths.len(),
{
    if paths.len() > 0 {
        let g = fill(lanes, paths.drop_last(), room, now, pto);
        let f = fill(lanes, paths, room, now, pto);
        let path = paths.last();
        lemma_sendable_init(lanes, paths);
        lemma_fill_wire(lanes, paths.drop_last(), room, now, pto);
        lemma_fill_next(lanes, paths, room, now, pto);
        assert(wire_at(g.lanes, path) == wire_at(lanes, path));
        if f.taken != g.taken {
            let items = items_at(lanes, f.taken);
            assert(items.drop_last() =~= items_at(lanes, g.taken));
            assert(items.last() == item_at(lanes, path));
        }
    }
}

}
