//! Encoding a signed integer as an RLP scalar and decoding it again.

use crate::radix::{
    be_value, byte_len, lemma_be_bytes_len, lemma_bit_len_le, lemma_le_value_one, minimal_be_bytes,
};
use crate::signed::{push_be_tail, Signed};
use crate::wire::{
    header_length, header_of, lemma_header_fits, parse_header, put_string_header, put_u128,
    put_u64, scalar_encoding, string_header, DecodeError, EMPTY_STRING_CODE,
};
use vstd::arithmetic::power2::{lemma2_to64, pow2};
use vstd::prelude::*;

verus! {

impl<const BITS: usize, const LIMBS: usize> Signed<BITS, LIMBS> {
    /// The payload of the encoding: the bytes of the bit pattern, most
    /// significant first, without leading zero bytes.
    pub open spec fn payload(&self) -> Seq<u8> {
        minimal_be_bytes(self.raw())
    }

    /// The encoding of the value: that of its bit pattern read as an unsigned
    /// number.
    pub open spec fn encoding(&self) -> Seq<u8> {
        scalar_encoding(self.raw())
    }

    /// The bit pattern that a payload stands for: the number it denotes, if
    /// the payload is no longer than the byte width and sets no bit at or
    /// above `BITS`. A width that the words cannot hold has no values.
    pub open spec fn payload_value(p: Seq<u8>) -> Result<nat, DecodeError> {
        if Self::valid_config() && p.len() <= Self::byte_width() && be_value(p) < pow2(BITS as nat) {
            Ok(be_value(p))
        } else {
            Err(DecodeError::Overflow)
        }
    }

    /// The bit pattern that the start of `s` decodes to, and the number of
    /// bytes that the header and the payload take.
    pub open spec fn decoded(s: Seq<u8>) -> Result<(nat, nat), DecodeError> {
        match header_of(s) {
            Err(e) => Err(e),
            Ok((h, n)) => if h.is_list {
                Err(DecodeError::UnexpectedList)
            } else {
                match Self::payload_value(s.subrange(n as int, n + h.payload_length)) {
                    Err(e) => Err(e),
                    Ok(v) => Ok((v, n + h.payload_length as nat)),
                }
            },
        }
    }

    /// The number of bytes that `encode` writes.
    pub fn length(&self) -> (r: usize)
        ensures
            r == self.encoding().len(),
    {
        let bits = self.bit_len();
        proof {
            lemma2_to64();
            lemma_bit_len_le(self.raw(), 7);
            lemma_be_bytes_len(self.raw(), byte_len(self.raw()));
        }
        if bits <= 7 {
            1
        } else {
            let bytes = (bits - 1) / 8 + 1;
            bytes + header_length(bytes)
        }
    }

    /// Appends the encoding of the value to `out`: a single byte `0x80` for
    /// zero, the value itself as one byte from 1 to 127, and else the bytes of
    /// the bit pattern without leading zero bytes, behind their header. A
    /// negative value has its sign bit set, so none of its bytes is dropped.
    pub fn encode(&self, out: &mut Vec<u8>)
        ensures
            final(out)@ == old(out)@ + self.encoding(),
            self.value() == 0 ==> final(out)@ == old(out)@.push(0x80),
            1 <= self.value() <= 127 ==> final(out)@ == old(out)@.push(self.value() as u8),
    {
        let limbs = self.as_limbs();
        proof {
            lemma2_to64();
        }
        // one and two words are handed to the encoders of `u64` and `u128`
        if LIMBS == 0 {
            out.push(EMPTY_STRING_CODE);
        } else if LIMBS == 1 {
            proof {
                lemma_le_value_one(self.words());
            }
            put_u64(limbs[0], out);
        } else if LIMBS == 2 {
            let lo: u64 = limbs[0];
            let hi: u64 = limbs[1];
            let x: u128 = lo as u128 | (hi as u128) << 64;
            proof {
                assert(x == lo as u128 + (hi as u128) * 0x1_0000_0000_0000_0000) by (bit_vector)
                    requires
                        x == lo as u128 | (hi as u128) << 64,
                ;
                lemma_le_value_one(self.words().drop_first());
            }
            put_u128(x, out);
        } else {
            let bits = self.bit_len();
            proof {
                lemma_bit_len_le(self.raw(), 7);
            }
            if bits == 0 {
                out.push(EMPTY_STRING_CODE);
            } else if bits <= 7 {
                assert(limbs@[0] == self.raw());
                out.push(limbs[0] as u8);
            } else {
                let len = (bits - 1) / 8 + 1;
                let ghost before = out@;
                if len <= 55 {
                    out.push(EMPTY_STRING_CODE + len as u8);
                } else {
                    put_string_header(len, out);
                }
                assert(out@ == before + string_header(len as nat));
                push_be_tail(out, limbs, len);
            }
        }
        proof {
            self.lemma_small_value();
        }
        assert(final(out)@ =~= old(out)@ + self.encoding());
    }

    /// Reads an encoded value at the cursor and moves the cursor past its
    /// header and payload. A list is refused as `UnexpectedList`. A payload of
    /// more than `byte_width()` bytes, or one that sets a bit at or above
    /// `BITS`, is refused as `Overflow`; a shorter payload is extended with
    /// zeros on the left, and leading zero bytes are accepted. After an error
    /// the cursor is anywhere in the input.
    pub fn decode(buf: &mut &[u8]) -> (r: Result<Self, DecodeError>)
        ensures
            match r {
                Ok(v) => Self::decoded(old(buf)@) matches Ok((raw, n)) && v.wf() && v.raw() == raw
                    && final(buf)@ == old(buf)@.skip(n as int),
                Err(e) => Self::decoded(old(buf)@) == Err::<(nat, nat), DecodeError>(e),
            },
            header_of(old(buf)@) matches Ok((h, _)) && h.is_list ==> r == Err::<Self, DecodeError>(
                DecodeError::UnexpectedList,
            ),
            header_of(old(buf)@) matches Ok((h, _)) && !h.is_list && h.payload_length
                > Self::byte_width() ==> r == Err::<Self, DecodeError>(DecodeError::Overflow),
    {
        proof {
            lemma_header_fits(buf@);
        }
        let h = match parse_header(buf) {
            Ok(h) => h,
            Err(e) => {
                return Err(e);
            },
        };
        if h.is_list {
            return Err(DecodeError::UnexpectedList);
        }
        let rest: &[u8] = *buf;
        if rest.len() < h.payload_length {
            return Err(DecodeError::BufferUnderrun);
        }
        let payload = vstd::slice::slice_subrange(rest, 0, h.payload_length);
        assert(payload@ =~= old(buf)@.subrange(
            old(buf)@.len() - rest@.len(),
            old(buf)@.len() - rest@.len() + h.payload_length,
        ));
        match Self::from_be_slice(payload) {
            Some(v) => {
                *buf = vstd::slice::slice_subrange(rest, h.payload_length, rest.len());
                assert(buf@ =~= old(buf)@.skip(old(buf)@.len() - rest@.len() + h.payload_length));
                Ok(v)
            },
            None => Err(DecodeError::Overflow),
        }
    }
}

} // verus!
