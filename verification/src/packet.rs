//! What packets are made of, and how it is laid out in bytes.

use crate::lane::LaneIndex;
use crate::octets::{
    be16, be32, bytes_contents, bytes_empty, bytes_len, from_be16, from_be32, lemma_varint_len,
    parse_varint, read_next, read_u16, read_u32, read_varint, varint, varint_len, write_bytes,
    write_u16, write_u32, write_varint, ReadError,
};
use crate::size::MinSize;
use octs::Bytes;
use vstd::prelude::*;

verus! {

/// Number after `n` in a sequence that starts over after its greatest number.
pub open spec fn next_seq(n: u16) -> u16 {
    if n == u16::MAX {
        0
    } else {
        (n + 1) as u16
    }
}

/// Sequence number of a packet.
#[derive(Debug, Clone, Copy, PartialEq, Eq, Hash, Structural)]
pub struct PacketSeq(pub u16);

impl PacketSeq {
    /// Makes a sequence number from its number.
    pub fn new(n: u16) -> (r: Self)
        ensures
            r.0 == n,
    {
        PacketSeq(n)
    }

    /// Gives the sequence number of the packet that comes next.
    pub fn next(self) -> (r: Self)
        ensures
            r.0 == next_seq(self.0),
    {
        PacketSeq(self.0.wrapping_add(1))
    }
}

/// Sequence number of a message on its lane.
#[derive(Debug, Clone, Copy, PartialEq, Eq, Hash, Structural)]
pub struct MessageSeq(pub u16);

impl MessageSeq {
    /// Makes a sequence number from its number.
    pub fn new(n: u16) -> (r: Self)
        ensures
            r.0 == n,
    {
        MessageSeq(n)
    }

    /// Gives the sequence number of the message that comes next.
    pub fn next(self) -> (r: Self)
        ensures
            r.0 == next_seq(self.0),
    {
        MessageSeq(self.0.wrapping_add(1))
    }
}

/// Tells a peer which of its packets have arrived.
#[derive(Debug, Clone, Copy, PartialEq, Eq, Hash, Structural)]
pub struct Acknowledge {
    /// Last packet that arrived.
    pub last_recv: PacketSeq,
    /// Which of the packets before the last one arrived.
    pub bits: u32,
}

impl Default for Acknowledge {
    fn default() -> (r: Self)
        ensures
            r.last_recv.0 == 0,
            r.bits == 0,
    {
        Acknowledge { last_recv: PacketSeq(0), bits: 0 }
    }
}

/// Leads every packet.
#[derive(Debug, Clone, Copy, PartialEq, Eq, Hash, Structural)]
pub struct PacketHeader {
    /// Sequence number of the packet.
    pub seq: PacketSeq,
    /// Which of the receiver's packets have arrived.
    pub acks: Acknowledge,
}

/// How many bytes the header of a packet takes.
pub const PACKET_HEADER_LEN: usize = 8;

impl PacketHeader {
    /// Bytes of the header in a packet.
    pub open spec fn wire(self) -> Seq<u8> {
        be16(self.seq.0) + be16(self.acks.last_recv.0) + be32(self.acks.bits)
    }

    /// Gets how many bytes the header takes.
    pub fn encode_len(&self) -> (r: usize)
        ensures
            r == self.wire().len(),
            r == PACKET_HEADER_LEN,
    {
        PACKET_HEADER_LEN
    }

    /// Appends the header to a packet.
    pub fn encode(&self, dst: &mut Vec<u8>)
        requires
            old(dst)@.len() + PACKET_HEADER_LEN <= isize::MAX,
        ensures
            final(dst)@ == old(dst)@ + self.wire(),
    {
        write_u16(dst, self.seq.0);
        write_u16(dst, self.acks.last_recv.0);
        write_u32(dst, self.acks.bits);
        assert(dst@ =~= old(dst)@ + self.wire());
    }
}

/// Where a fragment stands in its message, and whether it is the last one.
#[derive(Debug, Clone, Copy, PartialEq, Eq, Hash, Structural)]
pub struct FragmentPosition(pub MinSize);

/// Greatest index that a fragment can have in its message.
pub const MAX_FRAG_INDEX: u32 = 0x7fff_ffff;

impl FragmentPosition {
    /// Position with this index, which is the last one or not.
    pub open spec fn at(index: int, last: bool) -> Self {
        FragmentPosition(MinSize((2 * index + if last { 1int } else { 0int }) as u32))
    }

    /// Index of the fragment in its message.
    pub open spec fn frag_index(self) -> int {
        self.0.0 as int / 2
    }

    /// Whether no fragment of the message comes after this one.
    pub open spec fn ends_message(self) -> bool {
        self.0.0 % 2 == 1
    }

    /// Position of a fragment which is not the last of its message.
    pub fn non_last(index: MinSize) -> (r: Option<Self>)
        ensures
            match r {
                Some(p) => index.0 <= MAX_FRAG_INDEX && p == Self::at(index.0 as int, false)
                    && p.frag_index() == index.0 && !p.ends_message(),
                None => index.0 > MAX_FRAG_INDEX,
            },
    {
        if index.0 <= MAX_FRAG_INDEX {
            Some(FragmentPosition(MinSize(index.0 * 2)))
        } else {
            None
        }
    }

    /// Position of the last fragment of its message.
    pub fn last(index: MinSize) -> (r: Option<Self>)
        ensures
            match r {
                Some(p) => index.0 <= MAX_FRAG_INDEX && p == Self::at(index.0 as int, true)
                    && p.frag_index() == index.0 && p.ends_message(),
                None => index.0 > MAX_FRAG_INDEX,
            },
    {
        if index.0 <= MAX_FRAG_INDEX {
            Some(FragmentPosition(MinSize(index.0 * 2 + 1)))
        } else {
            None
        }
    }

    /// Position of the only fragment of its message.
    pub fn zero_last() -> (r: Self)
        ensures
            r == Self::at(0, true),
    {
        FragmentPosition(MinSize(1))
    }
}

/// Leads every fragment in a packet.
#[derive(Debug, Clone, Copy, PartialEq, Eq, Hash, Structural)]
pub struct FragmentHeader {
    /// Message that the fragment belongs to.
    pub seq: MessageSeq,
    /// Lane that the message is sent along.
    pub lane: LaneIndex,
    /// Where the fragment stands in the message.
    pub position: FragmentPosition,
}

impl FragmentHeader {
    /// Bytes of the header in a packet.
    pub open spec fn wire(self) -> Seq<u8> {
        be16(self.seq.0) + varint(self.lane.0.0 as nat) + varint(self.position.0.0 as nat)
    }
}

/// Bytes of a message that one fragment carries.
#[derive(Debug)]
pub struct FragmentPayload {
    bytes: Bytes,
}

impl View for FragmentPayload {
    type V = Seq<u8>;

    closed spec fn view(&self) -> Seq<u8> {
        bytes_contents(self.bytes)
    }
}

impl FragmentPayload {
    /// Whether the length of the payload can be told to a peer.
    pub open spec fn wf(self) -> bool {
        self@.len() <= u32::MAX
    }

    /// Makes a payload of these bytes, unless there are too many of them.
    pub fn new(bytes: Bytes) -> (r: Option<Self>)
        ensures
            match r {
                Some(p) => p.wf() && p@ == bytes_contents(bytes),
                None => bytes_contents(bytes).len() > u32::MAX,
            },
    {
        if bytes_len(&bytes) as u64 <= u32::MAX as u64 {
            Some(FragmentPayload { bytes })
        } else {
            None
        }
    }

    /// Makes a payload without any bytes.
    pub fn empty() -> (r: Self)
        ensures
            r.wf(),
            r@ == Seq::<u8>::empty(),
    {
        FragmentPayload { bytes: bytes_empty() }
    }

    /// Gets access to the bytes of the payload.
    pub fn bytes(&self) -> (r: &Bytes)
        ensures
            bytes_contents(*r) == self@,
    {
        &self.bytes
    }

    /// Gets how many bytes the payload has.
    pub fn len(&self) -> (r: MinSize)
        requires
            self.wf(),
        ensures
            r.0 == self@.len(),
    {
        MinSize(bytes_len(&self.bytes) as u32)
    }
}

impl Clone for FragmentPayload {
    fn clone(&self) -> (r: Self)
        ensures
            r@ == self@,
    {
        FragmentPayload { bytes: self.bytes.clone() }
    }
}

/// Part of a message, as it stands in a packet.
#[derive(Debug)]
pub struct Fragment {
    /// Says which part of which message this is.
    pub header: FragmentHeader,
    /// Bytes of that part.
    pub payload: FragmentPayload,
}

/// Most bytes that a fragment takes in a packet besides its payload.
pub const MAX_FRAG_OVERHEAD: usize = 17;

/// Bytes of a fragment in a packet.
pub open spec fn frag_wire(header: FragmentHeader, payload: Seq<u8>) -> Seq<u8> {
    header.wire() + varint(payload.len()) + payload
}

impl View for Fragment {
    type V = (FragmentHeader, Seq<u8>);

    open spec fn view(&self) -> (FragmentHeader, Seq<u8>) {
        (self.header, self.payload@)
    }
}

/// A fragment takes no more than its overhead and its payload in a packet.
pub proof fn lemma_frag_wire_len(header: FragmentHeader, payload: Seq<u8>)
    requires
        payload.len() <= u32::MAX,
    ensures
        payload.len() + 5 <= frag_wire(header, payload).len() <= payload.len() + MAX_FRAG_OVERHEAD,
{
    lemma_varint_len(header.lane.0.0);
    lemma_varint_len(header.position.0.0);
    lemma_varint_len(payload.len() as u32);
}

impl Fragment {
    /// Bytes of the fragment in a packet.
    pub open spec fn wire(self) -> Seq<u8> {
        frag_wire(self.header, self.payload@)
    }

    /// Gets how many bytes the fragment takes in a packet.
    pub fn encode_len(&self) -> (r: usize)
        requires
            self.payload.wf(),
            self.payload@.len() + MAX_FRAG_OVERHEAD <= usize::MAX,
        ensures
            r == self.wire().len(),
    {
        proof {
            lemma_frag_wire_len(self.header, self.payload@);
        }
        let len = self.payload.len();
        2 + varint_len(self.header.lane.0.0) + varint_len(self.header.position.0.0) + varint_len(
            len.0,
        ) + len.to_usize()
    }

    /// Appends the fragment to a packet.
    pub fn encode(&self, dst: &mut Vec<u8>)
        requires
            self.payload.wf(),
            old(dst)@.len() + self.wire().len() <= isize::MAX,
        ensures
            final(dst)@ == old(dst)@ + self.wire(),
    {
        let len = self.payload.len();
        write_u16(dst, self.header.seq.0);
        write_varint(dst, self.header.lane.0.0);
        write_varint(dst, self.header.position.0.0);
        write_varint(dst, len.0);
        write_bytes(dst, &self.payload.bytes);
        assert(dst@ =~= old(dst)@ + self.wire());
    }
}

/// Reads the header off the front of a packet.
pub open spec fn parse_header(s: Seq<u8>) -> Result<PacketHeader, ReadError> {
    if s.len() < PACKET_HEADER_LEN {
        Err(ReadError::TooShort)
    } else {
        Ok(
            PacketHeader {
                seq: PacketSeq(from_be16(s) as u16),
                acks: Acknowledge {
                    last_recv: PacketSeq(from_be16(s.skip(2)) as u16),
                    bits: from_be32(s.skip(4)) as u32,
                },
            },
        )
    }
}

/// Reads a fragment off the front of `s`, and gives its header and payload with
/// what is left.
#[verifier::opaque]
pub open spec fn parse_fragment(s: Seq<u8>) -> Result<
    ((FragmentHeader, Seq<u8>), Seq<u8>),
    ReadError,
> {
    if s.len() < 2 {
        Err(ReadError::TooShort)
    } else {
        match parse_varint(s.skip(2)) {
            Err(e) => Err(e),
            Ok((lane, s1)) => match parse_varint(s1) {
                Err(e) => Err(e),
                Ok((position, s2)) => match parse_varint(s2) {
                    Err(e) => Err(e),
                    Ok((len, s3)) => if s3.len() < len {
                        Err(ReadError::TooShort)
                    } else {
                        let header = FragmentHeader {
                            seq: MessageSeq(from_be16(s) as u16),
                            lane: LaneIndex(MinSize(lane)),
                            position: FragmentPosition(MinSize(position)),
                        };
                        Ok(((header, s3.take(len as int)), s3.skip(len as int)))
                    },
                },
            },
        }
    }
}

/// Reading a fragment leaves fewer bytes.
pub proof fn lemma_parse_fragment_shorter(s: Seq<u8>)
    ensures
        parse_fragment(s) matches Ok((frag, rest)) ==> rest.len() < s.len(),
{
    reveal(parse_fragment);
}

/// Reads fragments until there is nothing left.
pub open spec fn parse_fragments(s: Seq<u8>) -> Result<Seq<(FragmentHeader, Seq<u8>)>, ReadError>
    decreases s.len(),
{
    if s.len() == 0 {
        Ok(Seq::empty())
    } else {
        proof {
            lemma_parse_fragment_shorter(s);
        }
        match parse_fragment(s) {
            Err(e) => Err(e),
            Ok((frag, rest)) => match parse_fragments(rest) {
                Err(e) => Err(e),
                Ok(frags) => Ok(seq![frag] + frags),
            },
        }
    }
}

/// What a packet holds.
#[derive(Debug)]
pub struct Packet {
    /// Header of the packet.
    pub header: PacketHeader,
    /// Fragments in the packet.
    pub frags: Vec<Fragment>,
}

/// What each of these fragments stands for.
pub open spec fn frags_view(frags: Seq<Fragment>) -> Seq<(FragmentHeader, Seq<u8>)> {
    Seq::new(frags.len(), |i: int| frags[i]@)
}

impl View for Packet {
    type V = (PacketHeader, Seq<(FragmentHeader, Seq<u8>)>);

    open spec fn view(&self) -> (PacketHeader, Seq<(FragmentHeader, Seq<u8>)>) {
        (self.header, frags_view(self.frags@))
    }
}

/// Reads a packet: its header, and fragments until there is nothing left.
pub open spec fn parse_packet(s: Seq<u8>) -> Result<
    (PacketHeader, Seq<(FragmentHeader, Seq<u8>)>),
    ReadError,
> {
    match parse_header(s) {
        Err(e) => Err(e),
        Ok(header) => match parse_fragments(s.skip(PACKET_HEADER_LEN as int)) {
            Err(e) => Err(e),
            Ok(frags) => Ok((header, frags)),
        },
    }
}

impl PacketHeader {
    /// Takes the header off the front of a packet.
    fn decode(src: &mut Bytes) -> (r: Result<Self, ReadError>)
        ensures
            r == parse_header(bytes_contents(*old(src))),
            r is Ok ==> bytes_contents(*final(src)) == bytes_contents(*old(src)).skip(
                PACKET_HEADER_LEN as int,
            ),
    {
        let ghost s = bytes_contents(*src);
        let seq = read_u16(src)?;
        let last_recv = read_u16(src)?;
        assert(s.skip(2).skip(2) =~= s.skip(4));
        let bits = read_u32(src)?;
        assert(s.skip(4).skip(4) =~= s.skip(8));
        Ok(
            PacketHeader {
                seq: PacketSeq(seq),
                acks: Acknowledge { last_recv: PacketSeq(last_recv), bits },
            },
        )
    }
}

impl Fragment {
    /// Takes a fragment off the front of a packet.
    fn decode(src: &mut Bytes) -> (r: Result<Self, ReadError>)
        ensures
            match (r, parse_fragment(bytes_contents(*old(src)))) {
                (Ok(frag), Ok((parsed, rest))) => {
                    &&& frag@ == parsed
                    &&& frag.payload.wf()
                    &&& bytes_contents(*final(src)) == rest
                },
                (Err(e), Err(parse_err)) => e == parse_err,
                _ => false,
            },
    {
        reveal(parse_fragment);
        let seq = read_u16(src)?;
        let lane = read_varint(src)?;
        let position = read_varint(src)?;
        let len = read_varint(src)?;
        let bytes = read_next(src, len as usize)?;
        Ok(
            Fragment {
                header: FragmentHeader {
                    seq: MessageSeq(seq),
                    lane: LaneIndex(MinSize(lane)),
                    position: FragmentPosition(MinSize(position)),
                },
                payload: FragmentPayload { bytes },
            },
        )
    }
}

impl Packet {
    /// Reads a packet: its header, and fragments until there is nothing left.
    pub fn decode(packet: Bytes) -> (r: Result<Self, ReadError>)
        ensures
            match (r, parse_packet(bytes_contents(packet))) {
                (Ok(packet), Ok(parsed)) => packet@ == parsed,
                (Err(e), Err(parse_err)) => e == parse_err,
                _ => false,
            },
    {
        let mut src = packet;
        let header = PacketHeader::decode(&mut src)?;
        let ghost body = bytes_contents(src);
        let mut frags: Vec<Fragment> = Vec::new();
        assert(parsed_so_far(frags@, parse_fragments(body)) == parse_fragments(body)) by {
            if let Ok(all) = parse_fragments(body) {
                assert(frags_view(frags@) + all =~= all);
            }
        }
        while bytes_len(&src) > 0
            invariant
                parse_header(bytes_contents(packet)) == Ok::<PacketHeader, ReadError>(header),
                body == bytes_contents(packet).skip(PACKET_HEADER_LEN as int),
                parsed_so_far(frags@, parse_fragments(bytes_contents(src))) == parse_fragments(
                    body,
                ),
            decreases bytes_contents(src).len(),
        {
            let ghost rest = bytes_contents(src);
            let ghost before = frags@;
            proof {
                lemma_parse_fragment_shorter(rest);
            }
            let frag = Fragment::decode(&mut src)?;
            frags.push(frag);
            proof {
                if let Ok(later) = parse_fragments(bytes_contents(src)) {
                    assert(frags_view(frags@) + later =~= frags_view(before) + (seq![frag@]
                        + later));
                }
            }
        }
        assert(frags_view(frags@) + Seq::empty() =~= frags_view(frags@));
        Ok(Packet { header, frags })
    }
}

/// What reading comes to, given the fragments already read and what reading the
/// rest comes to.
spec fn parsed_so_far(
    frags: Seq<Fragment>,
    rest: Result<Seq<(FragmentHeader, Seq<u8>)>, ReadError>,
) -> Result<Seq<(FragmentHeader, Seq<u8>)>, ReadError> {
    match rest {
        Err(e) => Err(e),
        Ok(later) => Ok(frags_view(frags) + later),
    }
}

}
