//! Byte buffers, and the primitive encodings that packets are made of.
//!
//! Buffers are [`Bytes`] and encodings are those of the `octs` crate. This
//! module says what the calls into that crate do, in terms of plain byte
//! sequences.

use octs::{BufTooShortOr, Bytes, EncodeLen, Read, VarInt, VarIntTooLarge, Write};
use vstd::prelude::*;

verus! {

/// The shared byte buffer of the `octs` crate.
#[verifier::external_type_specification]
#[verifier::external_body]
pub struct ExBytes(octs::Bytes);

/// The bytes that a buffer holds, from its first readable one.
pub uninterp spec fn bytes_contents(b: Bytes) -> Seq<u8>;

/// Big-endian bytes of a 16-bit number.
pub open spec fn be16(v: u16) -> Seq<u8> {
    seq![(v / 256) as u8, (v % 256) as u8]
}

/// Big-endian bytes of a 32-bit number.
pub open spec fn be32(v: u32) -> Seq<u8> {
    seq![
        (v / 0x100_0000) as u8,
        (v / 0x1_0000 % 256) as u8,
        (v / 256 % 256) as u8,
        (v % 256) as u8,
    ]
}

/// Variable-length bytes of a number: seven bits a byte, lowest first, with
/// the top bit set in every byte but the last.
pub open spec fn varint(v: nat) -> Seq<u8>
    decreases v,
{
    if v < 128 {
        seq![v as u8]
    } else {
        seq![(v % 128 + 128) as u8] + varint(v / 128)
    }
}

/// A 32-bit number takes one to five variable-length bytes.
pub proof fn lemma_varint_len(v: u32)
    ensures
        1 <= varint(v as nat).len() <= MAX_VARINT_LEN,
{
    reveal_with_fuel(varint, 5);
}

/// Number that the big-endian bytes at the front of `s` stand for.
pub open spec fn from_be16(s: Seq<u8>) -> int {
    s[0] * 256 + s[1]
}

/// Number that the big-endian bytes at the front of `s` stand for.
pub open spec fn from_be32(s: Seq<u8>) -> int {
    s[0] * 0x100_0000 + s[1] * 0x1_0000 + s[2] * 256 + s[3]
}

/// Most bytes that a variable-length number may take.
pub const MAX_VARINT_LEN: usize = 5;

/// How many bytes the variable-length number at the front of `s` takes, which
/// is one more than the bytes that have their top bit set there.
pub open spec fn varint_span(s: Seq<u8>) -> nat
    decreases s.len(),
{
    if s.len() == 0 || s[0] < 128 {
        1
    } else {
        1 + varint_span(s.skip(1))
    }
}

/// Sum of the seven-bit groups in `s`, lowest first.
pub open spec fn varint_sum(s: Seq<u8>) -> nat
    decreases s.len(),
{
    if s.len() == 0 {
        0
    } else {
        (s[0] % 128) as nat + 128 * varint_sum(s.skip(1))
    }
}

/// Reads a variable-length number off the front of `s`, and gives it with what
/// is left.
pub open spec fn parse_varint(s: Seq<u8>) -> Result<(u32, Seq<u8>), ReadError> {
    let span = varint_span(s);
    if span > MAX_VARINT_LEN {
        Err(ReadError::VarIntTooLarge)
    } else if span > s.len() {
        Err(ReadError::TooShort)
    } else {
        Ok(
            (
                (varint_sum(s.take(span as int)) % 0x1_0000_0000) as u32,
                s.skip(span as int),
            ),
        )
    }
}

/// Why a value could not be read from a buffer.
#[derive(Debug, Clone, Copy, PartialEq, Eq, Structural)]
pub enum ReadError {
    /// There are fewer bytes than the value takes.
    TooShort,
    /// A variable-length number goes on past its greatest length.
    VarIntTooLarge,
}

/// `Bytes::len`: how many bytes the buffer holds.
#[verifier::external_body]
pub(crate) fn bytes_len(b: &Bytes) -> (r: usize)
    ensures
        r == bytes_contents(*b).len(),
{
    b.len()
}

/// `Bytes::new`: a buffer that holds nothing.
#[verifier::external_body]
pub(crate) fn bytes_empty() -> (r: Bytes)
    ensures
        bytes_contents(r) == Seq::<u8>::empty(),
{
    Bytes::new()
}

/// `Bytes::from`: a buffer that holds what the vector held.
#[verifier::external_body]
pub(crate) fn bytes_from_vec(v: Vec<u8>) -> (r: Bytes)
    ensures
        bytes_contents(r) == v@,
{
    Bytes::from(v)
}

/// `Bytes::slice`: a buffer that holds the bytes from `start` up to `end`.
/// The call panics outside of these bounds.
#[verifier::external_body]
pub(crate) fn bytes_slice(b: &Bytes, start: usize, end: usize) -> (r: Bytes)
    requires
        start <= end <= bytes_contents(*b).len(),
    ensures
        bytes_contents(r) == bytes_contents(*b).subrange(start as int, end as int),
{
    b.slice(start..end)
}

/// `Bytes::clone`: a buffer that holds the same bytes.
pub assume_specification[ <Bytes as Clone>::clone ](b: &Bytes) -> (r: Bytes)
    ensures
        bytes_contents(r) == bytes_contents(*b),
;

/// `octs::Write::write` of a `u16` into a vector: appends its big-endian bytes.
/// The call fails where the vector would hold more than `isize::MAX` bytes.
#[verifier::external_body]
pub(crate) fn write_u16(dst: &mut Vec<u8>, v: u16)
    requires
        old(dst)@.len() + 2 <= isize::MAX,
    ensures
        final(dst)@ == old(dst)@ + be16(v),
{
    dst.write(v).expect("should grow the buffer when writing over capacity");
}

/// `octs::Write::write` of a `u32` into a vector: appends its big-endian bytes.
/// The call fails where the vector would hold more than `isize::MAX` bytes.
#[verifier::external_body]
pub(crate) fn write_u32(dst: &mut Vec<u8>, v: u32)
    requires
        old(dst)@.len() + 4 <= isize::MAX,
    ensures
        final(dst)@ == old(dst)@ + be32(v),
{
    dst.write(v).expect("should grow the buffer when writing over capacity");
}

/// `octs::Write::write` of a `VarInt<u32>` into a vector: appends its
/// variable-length bytes. The call fails where the vector would hold more than
/// `isize::MAX` bytes.
#[verifier::external_body]
pub(crate) fn write_varint(dst: &mut Vec<u8>, v: u32)
    requires
        old(dst)@.len() + varint(v as nat).len() <= isize::MAX,
    ensures
        final(dst)@ == old(dst)@ + varint(v as nat),
{
    dst.write(VarInt(v)).expect("should grow the buffer when writing over capacity");
}

/// `octs::EncodeLen::encode_len` of a `VarInt<u32>`: how many bytes writing the
/// number takes.
#[verifier::external_body]
pub(crate) fn varint_len(v: u32) -> (r: usize)
    ensures
        r == varint(v as nat).len(),
{
    VarInt(v).encode_len()
}

/// `octs::Write::write_from` a buffer into a vector: appends all that the
/// buffer holds. The call fails where the vector would hold more than
/// `isize::MAX` bytes.
#[verifier::external_body]
pub(crate) fn write_bytes(dst: &mut Vec<u8>, src: &Bytes)
    requires
        old(dst)@.len() + bytes_contents(*src).len() <= isize::MAX,
    ensures
        final(dst)@ == old(dst)@ + bytes_contents(*src),
{
    dst.write_from(src.as_ref()).expect("should grow the buffer when writing over capacity");
}

/// `octs::Read::read` of a `u16` from a buffer: takes two big-endian bytes off
/// its front, or fails and leaves it as it is where it holds fewer.
#[verifier::external_body]
pub(crate) fn read_u16(src: &mut Bytes) -> (r: Result<u16, ReadError>)
    ensures
        match r {
            Ok(v) => {
                &&& bytes_contents(*old(src)).len() >= 2
                &&& v == from_be16(bytes_contents(*old(src)))
                &&& bytes_contents(*final(src)) == bytes_contents(*old(src)).skip(2)
            },
            Err(e) => {
                &&& bytes_contents(*old(src)).len() < 2
                &&& e == ReadError::TooShort
                &&& bytes_contents(*final(src)) == bytes_contents(*old(src))
            },
        },
{
    src.read::<u16>().map_err(|_| ReadError::TooShort)
}

/// `octs::Read::read` of a `u32` from a buffer: takes four big-endian bytes off
/// its front, or fails and leaves it as it is where it holds fewer.
#[verifier::external_body]
pub(crate) fn read_u32(src: &mut Bytes) -> (r: Result<u32, ReadError>)
    ensures
        match r {
            Ok(v) => {
                &&& bytes_contents(*old(src)).len() >= 4
                &&& v == from_be32(bytes_contents(*old(src)))
                &&& bytes_contents(*final(src)) == bytes_contents(*old(src)).skip(4)
            },
            Err(e) => {
                &&& bytes_contents(*old(src)).len() < 4
                &&& e == ReadError::TooShort
                &&& bytes_contents(*final(src)) == bytes_contents(*old(src))
            },
        },
{
    src.read::<u32>().map_err(|_| ReadError::TooShort)
}

/// `octs::Read::read` of a `VarInt<u32>` from a buffer: takes bytes off its
/// front up to the first whose top bit is clear, and gives the low 32 bits of
/// the number that their seven-bit groups make. Fails where the buffer ends
/// before such a byte, then taking all that there is, and where the first five
/// bytes all have their top bit set, then taking these five.
#[verifier::external_body]
pub(crate) fn read_varint(src: &mut Bytes) -> (r: Result<u32, ReadError>)
    ensures
        ({
            let s = bytes_contents(*old(src));
            let span = varint_span(s);
            match r {
                Ok(v) => {
                    &&& span <= MAX_VARINT_LEN
                    &&& span <= s.len()
                    &&& v == varint_sum(s.take(span as int)) % 0x1_0000_0000
                    &&& bytes_contents(*final(src)) == s.skip(span as int)
                },
                Err(ReadError::TooShort) => {
                    &&& span <= MAX_VARINT_LEN
                    &&& span > s.len()
                    &&& bytes_contents(*final(src)) == Seq::<u8>::empty()
                },
                Err(ReadError::VarIntTooLarge) => {
                    &&& span > MAX_VARINT_LEN
                    &&& bytes_contents(*final(src)) == s.skip(MAX_VARINT_LEN as int)
                },
            }
        }),
{
    match src.read::<VarInt<u32>>() {
        Ok(VarInt(v)) => Ok(v),
        Err(BufTooShortOr::TooShort) => Err(ReadError::TooShort),
        Err(BufTooShortOr::Or(VarIntTooLarge)) => Err(ReadError::VarIntTooLarge),
    }
}

/// `octs::Read::read_next` on a buffer: takes `n` bytes off its front, or fails
/// and leaves it as it is where it holds fewer.
#[verifier::external_body]
pub(crate) fn read_next(src: &mut Bytes, n: usize) -> (r: Result<Bytes, ReadError>)
    ensures
        match r {
            Ok(b) => {
                &&& bytes_contents(*old(src)).len() >= n
                &&& bytes_contents(b) == bytes_contents(*old(src)).take(n as int)
                &&& bytes_contents(*final(src)) == bytes_contents(*old(src)).skip(n as int)
            },
            Err(e) => {
                &&& bytes_contents(*old(src)).len() < n
                &&& e == ReadError::TooShort
                &&& bytes_contents(*final(src)) == bytes_contents(*old(src))
            },
        },
{
    src.read_next(n).map_err(|_| ReadError::TooShort)
}

}
