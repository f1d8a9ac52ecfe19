//! What holds of the codec as a whole: decoding undoes encoding, and the
//! payload of a value is as short as its sign allows.

use crate::radix::{
    be_bytes, be_value, bit_len, byte_len, lemma_be_bytes_first, lemma_be_bytes_len,
    lemma_bit_len_le, lemma_byte_len_bounds, lemma_minimal_be_bytes, minimal_be_bytes,
};
use crate::signed::Signed;
use crate::wire::{lemma_scalar_is_string, string_encoding, DecodeError};
use vstd::arithmetic::power2::{lemma2_to64, lemma_pow2_adds, lemma_pow2_pos, pow2};
use vstd::prelude::*;

verus! {

impl<const BITS: usize, const LIMBS: usize> Signed<BITS, LIMBS> {
    /// The encoding of a value is its payload framed as a string.
    pub proof fn lemma_encoding_frames_payload(self)
        ensures
            self.encoding() == string_encoding(self.payload()),
    {
        lemma_scalar_is_string(self.raw());
    }

    /// The payload of a value denotes its bit pattern and is no longer than
    /// the byte width.
    pub proof fn lemma_payload_denotes_pattern(self)
        requires
            self.wf(),
        ensures
            be_value(self.payload()) == self.raw(),
            self.payload().len() == byte_len(self.raw()),
            self.payload().len() <= Self::byte_width(),
    {
        lemma_minimal_be_bytes(self.raw());
        lemma_bit_len_le(self.raw(), BITS as nat);
    }

    /// The payload of a value that is not negative is the shortest form of
    /// the value: it has as many bytes as the value needs, denotes the value,
    /// and does not start with a zero byte.
    pub proof fn lemma_nonnegative_payload_is_minimal(self)
        requires
            self.wf(),
            self.value() >= 0,
        ensures
            self.payload().len() == byte_len(self.value() as nat),
            be_value(self.payload()) == self.value(),
            self.value() > 0 ==> self.payload()[0] != 0,
            self.value() == 0 ==> self.payload().len() == 0,
    {
        self.lemma_small_value();
        lemma_minimal_be_bytes(self.raw());
        lemma_byte_len_bounds(self.raw());
    }

    /// The payload of a negative value is the whole bit pattern, the value
    /// plus `2^BITS`: it has `byte_width()` bytes, and the sign bit, bit
    /// `(BITS - 1) % 8` of the first byte, is set. Where `BITS` is a multiple
    /// of eight that is the top bit of the first byte.
    pub proof fn lemma_negative_payload_keeps_sign(self)
        requires
            self.wf(),
            self.value() < 0,
        ensures
            BITS > 0,
            self.payload() == be_bytes(self.raw(), Self::byte_width() as nat),
            self.payload().len() == Self::byte_width(),
            pow2(((BITS - 1) % 8) as nat) <= self.payload()[0] < 2 * pow2(((BITS - 1) % 8) as nat),
            BITS % 8 == 0 ==> self.payload()[0] >= 0x80,
            be_value(self.payload()) == self.value() + pow2(BITS as nat),
    {
        lemma2_to64();
        self.lemma_value_range();
        lemma_minimal_be_bytes(self.raw());
        let raw = self.raw();
        let n = Self::byte_width() as nat;
        assert(BITS > 0);
        let top = (BITS - 1) as nat;
        lemma_pow2_adds(1, top);
        assert(pow2(BITS as nat) == 2 * pow2(top));
        assert(pow2(top) <= raw);
        // the pattern needs all its bits
        lemma_bit_len_le(raw, top);
        lemma_bit_len_le(raw, BITS as nat);
        assert(bit_len(raw) == BITS);
        assert(byte_len(raw) == n);
        lemma_be_bytes_len(raw, n);
        // the first byte holds the bits from 8 * (n - 1) up
        Self::lemma_width();
        lemma_be_bytes_first(raw, n);
        let low = (8 * (n - 1)) as nat;
        let t = (top % 8) as nat;
        assert(low + t == top);
        lemma_pow2_adds(low, t);
        lemma_pow2_pos(low);
        let first = self.payload()[0] as nat;
        assert(first == raw / pow2(low));
        assert(pow2(t) <= raw / pow2(low) < 2 * pow2(t)) by (nonlinear_arith)
            requires
                pow2(low) * pow2(t) <= raw < 2 * (pow2(low) * pow2(t)),
                pow2(low) > 0,
        ;
    }

    /// Decoding the encoding of a value, whatever bytes follow it, yields the
    /// bit pattern of the value and takes exactly the bytes of the encoding.
    /// No other value has that bit pattern.
    pub proof fn lemma_round_trip(self, rest: Seq<u8>)
        requires
            self.wf(),
        ensures
            Self::decoded(self.encoding() + rest) == Ok::<(nat, nat), DecodeError>(
                (self.raw(), self.encoding().len()),
            ),
            forall|other: Self| other.wf() && other.raw() == self.raw() ==> other == self,
    {
        lemma2_to64();
        let raw = self.raw();
        let p = self.payload();
        let k = p.len() as int;
        let e = self.encoding();
        let s = e + rest;
        self.lemma_payload_denotes_pattern();
        self.lemma_encoding_frames_payload();
        lemma_minimal_be_bytes(raw);
        lemma_byte_len_bounds(raw);
        assert forall|other: Self| other.wf() && other.raw() == self.raw() implies other
            == self by {
            other.lemma_raw_injective(self);
        }
        if k == 1 && p[0] < 0x80 {
            assert(s[0] == p[0]);
            assert(s.subrange(0, 1) =~= p);
        } else if k < 56 {
            assert(s[0] == 0x80 + k);
            if k == 1 {
                assert(s[1] == p[0]);
            }
            assert(s.subrange(1, 1 + k) =~= p);
        } else {
            let field = minimal_be_bytes(k as nat);
            let kk = field.len() as int;
            lemma_minimal_be_bytes(k as nat);
            lemma_bit_len_le(k as nat, 64);
            lemma_bit_len_le(k as nat, 5);
            assert(1 <= kk <= 8);
            assert(s[0] == 0xB7 + kk);
            assert(s[1] == field[0]);
            assert(s.subrange(1, 1 + kk) =~= field);
            assert(s.subrange(1 + kk, 1 + kk + k) =~= p);
        }
    }
}

} // verus!
