//! The scalar part of the RLP wire format: how a byte string is framed, and
//! how a header is read back.

use crate::radix::{
    be_value, bit_len, byte_len, lemma_be_bytes_len, lemma_bit_len_le, lemma_minimal_be_bytes,
    minimal_be_bytes,
};
use vstd::arithmetic::power2::lemma2_to64;
use vstd::prelude::*;

verus! {

/// What a header says of the item that follows it.
#[derive(Clone, Copy, Debug, PartialEq, Eq)]
pub struct RlpHeader {
    /// The item is a list, not a string.
    pub is_list: bool,
    /// The number of payload bytes that follow the header.
    pub payload_length: usize,
}

/// Why an encoded integer could not be read.
#[derive(Clone, Copy, Debug, PartialEq, Eq)]
pub enum DecodeError {
    /// The header announces a list where a string was expected.
    UnexpectedList,
    /// The input ends before the header or the payload does.
    BufferUnderrun,
    /// The payload does not fit the integer type.
    Overflow,
    /// The header breaks the grammar.
    MalformedHeader,
}

/// The header of a string of `len` bytes: one byte `0x80 + len` up to 55
/// bytes, else the byte `0xB7 + k` and the length on `k` big-endian bytes.
pub open spec fn string_header(len: nat) -> Seq<u8> {
    if len < 56 {
        seq![(0x80 + len) as u8]
    } else {
        seq![(0xB7 + byte_len(len)) as u8] + minimal_be_bytes(len)
    }
}

/// The encoding of the byte string `p`: a single byte below `0x80` stands for
/// itself, every other string follows its header.
pub open spec fn string_encoding(p: Seq<u8>) -> Seq<u8> {
    if p.len() == 1 && p[0] < 0x80 {
        p
    } else {
        string_header(p.len()) + p
    }
}

/// The encoding of the unsigned number `v`: `0x80` for zero, the byte itself
/// below `0x80`, else the shortest big-endian form behind its string header.
pub open spec fn scalar_encoding(v: nat) -> Seq<u8> {
    if v == 0 {
        seq![0x80u8]
    } else if v < 0x80 {
        seq![v as u8]
    } else {
        string_header(byte_len(v)) + minimal_be_bytes(v)
    }
}

/// A header whose length field takes `k` bytes after the first byte of `s`.
/// The field may not start with a zero byte, nor hold a length below 56 or
/// beyond `usize`; the payload it announces must be there.
pub open spec fn long_header(s: Seq<u8>, is_list: bool, k: nat) -> Result<(RlpHeader, nat), DecodeError> {
    let len = be_value(s.subrange(1, 1 + k as int));
    if s.len() - 1 < k {
        Err(DecodeError::BufferUnderrun)
    } else if s[1] == 0 || len > usize::MAX || len < 56 {
        Err(DecodeError::MalformedHeader)
    } else if s.len() - 1 - k < len {
        Err(DecodeError::BufferUnderrun)
    } else {
        Ok((RlpHeader { is_list, payload_length: len as usize }, 1 + k))
    }
}

/// A header directly followed by `len` payload bytes, after `n` header bytes.
pub open spec fn short_header(s: Seq<u8>, is_list: bool, len: nat, n: nat) -> Result<(RlpHeader, nat), DecodeError> {
    if s.len() - n < len {
        Err(DecodeError::BufferUnderrun)
    } else {
        Ok((RlpHeader { is_list, payload_length: len as usize }, n))
    }
}

/// The header at the start of `s` and the number of bytes it takes, under the
/// strict grammar: a byte below `0x80` is its own one-byte payload and takes
/// no header byte; a one-byte string that holds such a byte is refused.
pub open spec fn strict_header(s: Seq<u8>) -> Result<(RlpHeader, nat), DecodeError> {
    if s.len() == 0 {
        Err(DecodeError::BufferUnderrun)
    } else if s[0] < 0x80 {
        short_header(s, false, 1, 0)
    } else if s[0] < 0xB8 {
        if s[0] == 0x81 && s.len() >= 2 && s[1] < 0x80 {
            Err(DecodeError::MalformedHeader)
        } else {
            short_header(s, false, (s[0] - 0x80) as nat, 1)
        }
    } else if s[0] < 0xC0 {
        long_header(s, false, (s[0] - 0xB7) as nat)
    } else if s[0] < 0xF8 {
        short_header(s, true, (s[0] - 0xC0) as nat, 1)
    } else {
        long_header(s, true, (s[0] - 0xF7) as nat)
    }
}

/// A byte below `0x80` that was written as a one-byte string.
pub open spec fn is_wrapped_byte(s: Seq<u8>) -> bool {
    s.len() >= 2 && s[0] == 0x81 && s[1] < 0x80
}

/// The header at the start of `s` and the number of bytes it takes. This is
/// the strict grammar, except that a byte below `0x80` written as a one-byte
/// string is read as that string.
pub open spec fn header_of(s: Seq<u8>) -> Result<(RlpHeader, nat), DecodeError> {
    if is_wrapped_byte(s) {
        Ok((RlpHeader { is_list: false, payload_length: 1 }, 1))
    } else {
        strict_header(s)
    }
}

/// The header of the empty string, which is also the encoding of zero.
pub const EMPTY_STRING_CODE: u8 = 0x80;

/// Assumed of `alloy_rlp::length_of_length`: it returns one for a payload
/// below 56 bytes, and else nine less the number of whole zero bytes that lead
/// the length, where the zero bits are counted in the width of `usize`.
pub assume_specification[ alloy_rlp::length_of_length ](payload_length: usize) -> (r: usize)
    ensures
        payload_length < 56 ==> r == 1,
        payload_length >= 56 ==> r == 9 - (usize::BITS - bit_len(payload_length as nat)) / 8,
;

/// Assumed of `alloy_rlp::Header::encode`, called on the header of a string:
/// it appends to `out` the header of a string of `payload_length` bytes and
/// nothing else.
#[verifier::external_body]
pub(crate) fn put_string_header(payload_length: usize, out: &mut Vec<u8>)
    ensures
        final(out)@ == old(out)@ + string_header(payload_length as nat),
{
    alloy_rlp::Header { list: false, payload_length }.encode(out);
}

/// Assumed of `alloy_rlp::Encodable::encode` for `u64`: it appends to `out`
/// the encoding of the number `x` and nothing else.
#[verifier::external_body]
pub(crate) fn put_u64(x: u64, out: &mut Vec<u8>)
    ensures
        final(out)@ == old(out)@ + scalar_encoding(x as nat),
{
    alloy_rlp::Encodable::encode(&x, out);
}

/// Assumed of `alloy_rlp::Encodable::encode` for `u128`: it appends to `out`
/// the encoding of the number `x` and nothing else.
#[verifier::external_body]
pub(crate) fn put_u128(x: u128, out: &mut Vec<u8>)
    ensures
        final(out)@ == old(out)@ + scalar_encoding(x as nat),
{
    alloy_rlp::Encodable::encode(&x, out);
}

/// Assumed of `alloy_rlp::Header::decode`: it reads the header at the cursor
/// under the strict grammar, succeeds only where the announced payload is
/// there, and then leaves the cursor behind the header bytes. Its error for a
/// short input is handed on as `BufferUnderrun`, every other one as
/// `MalformedHeader`. Nothing is claimed of the cursor after an error.
#[verifier::external_body]
pub(crate) fn read_header(buf: &mut &[u8]) -> (r: Result<RlpHeader, DecodeError>)
    ensures
        match r {
            Ok(h) => strict_header(old(buf)@) matches Ok((g, n)) && h == g && final(buf)@ == old(
                buf,
            )@.skip(n as int),
            Err(e) => strict_header(old(buf)@) == Err::<(RlpHeader, nat), DecodeError>(e),
        },
{
    match alloy_rlp::Header::decode(buf) {
        Ok(h) => Ok(RlpHeader { is_list: h.list, payload_length: h.payload_length }),
        Err(alloy_rlp::DecodeError::InputTooShort) => Err(DecodeError::BufferUnderrun),
        Err(_) => Err(DecodeError::MalformedHeader),
    }
}

/// Reads the header at the cursor and moves the cursor past it. A byte below
/// `0x80` that was written as a one-byte string is accepted; everything else
/// is left to the strict grammar. After an error the cursor is anywhere in the
/// input.
pub fn parse_header(buf: &mut &[u8]) -> (r: Result<RlpHeader, DecodeError>)
    ensures
        match r {
            Ok(h) => header_of(old(buf)@) matches Ok((g, n)) && h == g && final(buf)@ == old(
                buf,
            )@.skip(n as int),
            Err(e) => header_of(old(buf)@) == Err::<(RlpHeader, nat), DecodeError>(e),
        },
{
    let bytes: &[u8] = *buf;
    if bytes.len() >= 2 && bytes[0] == 0x81 && bytes[1] < 0x80 {
        *buf = vstd::slice::slice_subrange(bytes, 1, bytes.len());
        Ok(RlpHeader { is_list: false, payload_length: 1 })
    } else {
        read_header(buf)
    }
}

/// The number of bytes in the header of a string of `payload_length` bytes.
pub fn header_length(payload_length: usize) -> (r: usize)
    ensures
        r == string_header(payload_length as nat).len(),
        1 <= r <= 9,
{
    let n = alloy_rlp::length_of_length(payload_length);
    proof {
        lemma2_to64();
        lemma_bit_len_le(payload_length as nat, usize::BITS as nat);
        lemma_bit_len_le(payload_length as nat, 5);
        lemma_be_bytes_len(payload_length as nat, byte_len(payload_length as nat));
    }
    if payload_length < 56 {
        n
    } else {
        // the count is made as if `usize` had eight bytes: take off those it lacks
        n - (8 - (usize::BITS / 8) as usize)
    }
}

/// The payload that a header announces lies within the input.
pub proof fn lemma_header_fits(s: Seq<u8>)
    ensures
        header_of(s) matches Ok((h, n)) ==> 0 <= n <= 9 && n + h.payload_length <= s.len(),
{
}

/// A number is encoded as the string of its shortest big-endian form.
pub proof fn lemma_scalar_is_string(v: nat)
    ensures
        scalar_encoding(v) == string_encoding(minimal_be_bytes(v)),
{
    lemma2_to64();
    lemma_minimal_be_bytes(v);
    lemma_bit_len_le(v, 7);
    lemma_bit_len_le(v, 8);
    let p = minimal_be_bytes(v);
    if v == 0 {
        assert(p =~= Seq::<u8>::empty());
        assert(string_header(0) + p =~= seq![0x80u8]);
    } else if v < 0x80 {
        assert(byte_len(v) == 1);
        assert(p.drop_last() =~= Seq::<u8>::empty());
        assert(be_value(p) == p[0]);
        assert(p =~= seq![v as u8]);
    } else if p.len() == 1 {
        assert(p.drop_last() =~= Seq::<u8>::empty());
        assert(be_value(p) == p[0]);
    }
}

} // verus!
