//! Fixed-width two's-complement signed integers, held as 64-bit words.

use crate::radix::{
    be_bytes, be_value, bit_len, le_value, lemma_be_bytes_len, lemma_be_bytes_of_low_word,
    lemma_be_bytes_of_words, lemma_be_bytes_pad, lemma_be_value_concat, lemma_bit_len_le,
    lemma_bit_len_shift, lemma_le_value_bound, lemma_le_value_concat, lemma_le_value_injective,
    lemma_le_value_one, lemma_le_value_zero, lemma_pow2_byte, zero_bytes,
};
use vstd::arithmetic::div_mod::{lemma_div_denominator, lemma_div_pos_is_pos};
use vstd::arithmetic::power2::{
    lemma2_to64, lemma2_to64_rest, lemma_pow2_adds, lemma_pow2_pos, lemma_pow2_strictly_increases,
    pow2,
};
use vstd::bits::lemma_u64_shr_is_div;
use vstd::prelude::*;
use vstd::std_specs::bits::u64_leading_zeros;

verus! {

/// A signed integer of `BITS` bits in two's complement, stored in `LIMBS`
/// 64-bit words, least significant word first. Bits at and above position
/// `BITS` are zero.
#[derive(Clone, Copy, Debug, PartialEq, Eq, Hash)]
pub struct Signed<const BITS: usize, const LIMBS: usize> {
    limbs: [u64; LIMBS],
}

/// The bit length of a 64-bit word is 64 less its leading zeros.
pub proof fn lemma_bit_len_u64(x: u64)
    ensures
        bit_len(x as nat) == 64 - u64_leading_zeros(x),
        bit_len(x as nat) <= 64,
    decreases x,
{
    reveal(u64_leading_zeros);
    if x != 0 {
        lemma_bit_len_u64(x / 2);
    }
}

/// The bit length of the number that the words of `w` denote.
fn limbs_bit_len<const LIMBS: usize>(w: &[u64; LIMBS]) -> (r: usize)
    requires
        64 * LIMBS <= usize::MAX,
    ensures
        r == bit_len(le_value(w@)),
{
    let mut i: usize = LIMBS;
    while i > 0 && w[i - 1] == 0
        invariant
            i <= LIMBS,
            forall|j: int| i <= j < LIMBS ==> w@[j] == 0,
        decreases i,
    {
        i -= 1;
    }
    proof {
        let lo = w@.take(i as int);
        let hi = w@.skip(i as int);
        assert(w@ =~= lo + hi);
        lemma_le_value_concat(lo, hi);
        lemma_le_value_zero(hi);
        assert(le_value(hi) == 0);
        assert(pow2(64 * lo.len()) * 0 == 0);
        assert(le_value(w@) == le_value(lo));
    }
    if i == 0 {
        0
    } else {
        let top: u64 = w[i - 1];
        let zeros: u32 = top.leading_zeros();
        proof {
            let lo = w@.take(i as int);
            let low = lo.take(i - 1);
            let one = lo.skip(i - 1);
            assert(lo =~= low + one);
            lemma_le_value_concat(low, one);
            lemma_le_value_one(one);
            lemma_le_value_bound(low);
            lemma_bit_len_shift(le_value(low), top as nat, 64 * low.len());
            lemma_bit_len_u64(top);
        }
        64 * (i - 1) + (64 - zeros as usize)
    }
}

/// Appends the `n` low-order bytes of `x`, most significant first.
fn push_be_low(out: &mut Vec<u8>, x: u64, n: usize)
    requires
        n <= 8,
    ensures
        final(out)@ == old(out)@ + be_bytes(x as nat, n as nat),
{
    let ghost start = out@;
    let mut i: usize = n;
    proof {
        lemma_pow2_pos((8 * i) as nat);
        lemma_div_pos_is_pos(x as int, pow2((8 * i) as nat) as int);
        assert(start + be_bytes(x as nat / pow2((8 * i) as nat), 0) =~= start);
    }
    while i > 0
        invariant
            i <= n <= 8,
            out@ == start + be_bytes(x as nat / pow2((8 * i) as nat), (n - i) as nat),
        decreases i,
    {
        i -= 1;
        let shift: u64 = 8 * (i as u64);
        let masked: u64 = (x >> shift) & 0xff;
        proof {
            let shifted = x >> shift;
            lemma_u64_shr_is_div(x, shift);
            assert(shifted & 0xff == shifted % 256) by (bit_vector);
            lemma_pow2_byte(i as nat);
            lemma_div_pos_is_pos(x as int, pow2((8 * i) as nat) as int);
            lemma_div_denominator(x as int, pow2((8 * i) as nat) as int, 256);
            assert(pow2((8 * i) as nat) * 256 == pow2((8 * (i + 1)) as nat));
            assert((n - i) as nat == (n - (i + 1)) as nat + 1);
        }
        out.push(masked as u8);
    }
    proof {
        lemma2_to64();
        assert(x as nat / pow2(0) == x as nat);
    }
}

/// Appends the `len` low-order bytes of the number that the words of `w`
/// denote, most significant first.
pub(crate) fn push_be_tail<const LIMBS: usize>(out: &mut Vec<u8>, w: &[u64; LIMBS], len: usize)
    requires
        len <= 8 * LIMBS,
    ensures
        final(out)@ == old(out)@ + be_bytes(le_value(w@), len as nat),
{
    if len == 0 {
        assert(out@ + be_bytes(le_value(w@), 0) =~= out@);
        return ;
    }
    let top: usize = (len - 1) / 8;
    push_be_low(out, w[top], len - 8 * top);
    proof {
        lemma_be_bytes_of_low_word(w@.skip(top as int), (len - 8 * top) as nat);
    }
    let mut j: usize = top;
    while j > 0
        invariant
            j <= top < LIMBS,
            8 * top < len <= 8 * LIMBS,
            out@ == old(out)@ + be_bytes(le_value(w@.skip(j as int)), (len - 8 * j) as nat),
        decreases j,
    {
        j -= 1;
        push_be_low(out, w[j], 8);
        proof {
            let t = w@.skip(j as int);
            let m = (len - 8 * (j + 1)) as nat;
            lemma_be_bytes_of_words(t, m);
            assert(t.drop_first() =~= w@.skip(j + 1));
            assert(8 + m == (len - 8 * j) as nat);
            assert(out@ =~= old(out)@ + be_bytes(le_value(t), (len - 8 * j) as nat));
        }
    }
    proof {
        assert(w@.skip(0) =~= w@);
    }
}

/// The number that `bytes` denotes, most significant byte first, as words.
fn words_of_be<const LIMBS: usize>(bytes: &[u8]) -> (r: [u64; LIMBS])
    requires
        bytes@.len() <= 8 * LIMBS,
    ensures
        le_value(r@) == be_value(bytes@),
{
    let mut limbs: [u64; LIMBS] = [0u64; LIMBS];
    let len: usize = bytes.len();
    let mut end: usize = len;
    let mut j: usize = 0;
    while end > 0
        invariant
            len == bytes@.len(),
            len <= 8 * LIMBS,
            end <= len,
            end > 0 ==> len - end == 8 * j,
            j <= LIMBS,
            le_value(limbs@.take(j as int)) == be_value(bytes@.skip(end as int)),
            forall|k: int| j <= k < LIMBS ==> limbs@[k] == 0,
        decreases end,
    {
        let start: usize = if end >= 8 { end - 8 } else { 0 };
        let mut acc: u64 = 0;
        let mut i: usize = start;
        proof {
            lemma2_to64();
        }
        while i < end
            invariant
                len == bytes@.len(),
                start <= i <= end <= len,
                end - start <= 8,
                acc == be_value(bytes@.subrange(start as int, i as int)),
                acc < pow2((8 * (i - start)) as nat),
            decreases end - i,
        {
            proof {
                lemma2_to64();
                lemma2_to64_rest();
                lemma_pow2_byte((i - start) as nat);
                if i - start < 7 {
                    lemma_pow2_strictly_increases((8 * (i - start)) as nat, 56);
                }
                let next = bytes@.subrange(start as int, i + 1);
                assert(next.drop_last() =~= bytes@.subrange(start as int, i as int));
            }
            acc = acc * 256 + bytes[i] as u64;
            i += 1;
        }
        proof {
            let chunk = bytes@.subrange(start as int, end as int);
            let tail = bytes@.skip(end as int);
            assert(bytes@.skip(start as int) =~= chunk + tail);
            lemma_be_value_concat(chunk, tail);
            let low = limbs@.take(j as int);
            let next = limbs@.update(j as int, acc).take(j + 1);
            assert(next =~= low + seq![acc]);
            lemma_le_value_concat(low, seq![acc]);
            lemma_le_value_one(seq![acc]);
            assert(8 * tail.len() == 64 * low.len());
            assert(acc * pow2(64 * low.len()) == pow2(64 * low.len()) * acc) by (nonlinear_arith);
        }
        limbs[j] = acc;
        end = start;
        j += 1;
    }
    proof {
        let lo = limbs@.take(j as int);
        let hi = limbs@.skip(j as int);
        assert(limbs@ =~= lo + hi);
        lemma_le_value_concat(lo, hi);
        lemma_le_value_zero(hi);
        assert(pow2(64 * lo.len()) * 0 == 0);
        assert(bytes@.skip(0) =~= bytes@);
    }
    limbs
}

impl<const BITS: usize, const LIMBS: usize> Signed<BITS, LIMBS> {
    /// The words can hold the width, and their bits can be counted in `usize`.
    pub open spec fn valid_config() -> bool {
        BITS <= 64 * LIMBS <= usize::MAX
    }

    /// The width in bytes: `BITS` divided by eight, rounded up.
    pub open spec fn spec_byte_width() -> usize {
        ((BITS + 7) / 8) as usize
    }

    /// The width in bytes: `BITS` divided by eight, rounded up.
    #[verifier::when_used_as_spec(spec_byte_width)]
    pub fn byte_width() -> (r: usize)
        ensures
            r == (BITS + 7) / 8,
            r == Self::spec_byte_width(),
    {
        BITS / 8 + (BITS % 8 + 7) / 8
    }

    /// The words of the value, least significant first.
    pub closed spec fn words(&self) -> Seq<u64> {
        self.limbs@
    }

    /// The bit pattern read as an unsigned number.
    pub open spec fn raw(&self) -> nat {
        le_value(self.words())
    }

    /// The integer that the bit pattern stands for in two's complement.
    pub open spec fn value(&self) -> int {
        if 2 * self.raw() < pow2(BITS as nat) {
            self.raw() as int
        } else {
            self.raw() - pow2(BITS as nat)
        }
    }

    /// The invariant of the type: the configuration is valid and no bit at or
    /// above position `BITS` is set.
    pub open spec fn wf(&self) -> bool {
        &&& Self::valid_config()
        &&& self.words().len() == LIMBS
        &&& self.raw() < pow2(BITS as nat)
    }

    #[verifier::type_invariant]
    spec fn inv(&self) -> bool {
        self.wf()
    }

    fn config_fits() -> (r: bool)
        ensures
            r == Self::valid_config(),
    {
        LIMBS <= usize::MAX / 64 && BITS <= 64 * LIMBS
    }

    /// The value with the given words, least significant first, if the
    /// configuration is valid and the words set no bit at or above `BITS`.
    pub fn from_limbs(limbs: [u64; LIMBS]) -> (r: Option<Self>)
        ensures
            r is Some <==> Self::valid_config() && le_value(limbs@) < pow2(BITS as nat),
            r matches Some(v) ==> v.wf() && v.words() == limbs@,
    {
        if !Self::config_fits() {
            return None;
        }
        let bits = limbs_bit_len(&limbs);
        proof {
            lemma_bit_len_le(le_value(limbs@), BITS as nat);
        }
        if bits <= BITS {
            Some(Signed { limbs })
        } else {
            None
        }
    }

    /// The words of the value, least significant first.
    pub fn as_limbs(&self) -> (r: &[u64; LIMBS])
        ensures
            r@ == self.words(),
            self.wf(),
    {
        proof {
            use_type_invariant(self);
        }
        &self.limbs
    }

    /// Index of the highest set bit of the pattern, plus one; zero for zero.
    pub fn bit_len(&self) -> (r: usize)
        ensures
            r == bit_len(self.raw()),
            r <= BITS,
            self.wf(),
    {
        proof {
            use_type_invariant(self);
            lemma_bit_len_le(self.raw(), BITS as nat);
        }
        limbs_bit_len(&self.limbs)
    }

    /// The bit pattern on `byte_width()` bytes, most significant first.
    pub fn to_be_bytes(&self) -> (r: Vec<u8>)
        ensures
            r@ == be_bytes(self.raw(), Self::byte_width() as nat),
            r@.len() == Self::byte_width(),
            self.wf(),
    {
        proof {
            use_type_invariant(self);
        }
        let n = Self::byte_width();
        let mut out: Vec<u8> = Vec::with_capacity(n);
        push_be_tail(&mut out, &self.limbs, n);
        proof {
            lemma_be_bytes_len(self.raw(), n as nat);
            assert(out@ =~= be_bytes(self.raw(), n as nat));
        }
        out
    }

    /// The value whose bit pattern `bytes` denotes, most significant byte
    /// first, if there are at most `byte_width()` bytes and they set no bit at
    /// or above `BITS`. Fewer bytes are extended with zeros on the left.
    pub fn from_be_slice(bytes: &[u8]) -> (r: Option<Self>)
        ensures
            r is Some <==> Self::valid_config() && bytes@.len() <= Self::byte_width() && be_value(
                bytes@,
            ) < pow2(BITS as nat),
            r matches Some(v) ==> v.wf() && v.raw() == be_value(bytes@) && be_bytes(
                v.raw(),
                Self::byte_width() as nat,
            ) == zero_bytes((Self::byte_width() - bytes@.len()) as nat) + bytes@,
    {
        if !Self::config_fits() || bytes.len() > Self::byte_width() {
            return None;
        }
        proof {
            lemma_be_bytes_pad(bytes@, Self::byte_width() as nat);
        }
        let limbs: [u64; LIMBS] = words_of_be(bytes);
        Self::from_limbs(limbs)
    }

    /// Two values with the same bit pattern are the same value.
    pub proof fn lemma_raw_injective(self, other: Self)
        requires
            self.wf(),
            other.wf(),
            self.raw() == other.raw(),
        ensures
            self == other,
    {
        lemma_le_value_injective(self.words(), other.words());
        assert(self.limbs =~= other.limbs);
    }

    /// The value lies in the range of `BITS`-bit two's complement, and the
    /// bit pattern is the value modulo `2^BITS`.
    pub proof fn lemma_value_range(self)
        requires
            self.wf(),
            BITS > 0,
        ensures
            -pow2((BITS - 1) as nat) <= self.value() < pow2((BITS - 1) as nat),
            self.value() >= 0 ==> self.raw() == self.value(),
            self.value() < 0 ==> self.raw() == self.value() + pow2(BITS as nat),
    {
        lemma_pow2_adds(1, (BITS - 1) as nat);
        lemma2_to64();
    }

    /// A pattern below `2^(BITS-1)` stands for itself; zero is the only
    /// pattern that stands for zero.
    pub proof fn lemma_small_value(&self)
        requires
            self.wf(),
        ensures
            self.value() >= 0 ==> self.value() == self.raw(),
            self.value() == 0 <==> self.raw() == 0,
            self.value() >= 0 <==> 2 * self.raw() < pow2(BITS as nat),
    {
    }

    /// A value fits its byte width, and the byte width fits the words.
    pub proof fn lemma_width()
        requires
            Self::valid_config(),
        ensures
            Self::byte_width() <= 8 * LIMBS,
            pow2(BITS as nat) <= pow2((8 * Self::byte_width()) as nat),
            BITS > 0 ==> pow2((8 * (Self::byte_width() - 1)) as nat) < pow2(BITS as nat),
    {
        let n = Self::byte_width();
        if BITS < 8 * n {
            lemma_pow2_strictly_increases(BITS as nat, (8 * n) as nat);
        }
        if BITS > 0 {
            lemma_pow2_strictly_increases((8 * (n - 1)) as nat, BITS as nat);
        }
    }
}

} // verus!
