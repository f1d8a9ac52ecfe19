//! Positional notation: big-endian byte strings, little-endian word arrays,
//! and the bit and byte lengths of natural numbers.

use vstd::arithmetic::power2::{lemma2_to64, lemma_pow2_adds, lemma_pow2_pos, lemma_pow2_strictly_increases, pow2};
use vstd::prelude::*;

verus! {

/// The number that the byte string `s` denotes, most significant byte first.
pub open spec fn be_value(s: Seq<u8>) -> nat
    decreases s.len(),
{
    if s.len() == 0 {
        0
    } else {
        256 * be_value(s.drop_last()) + s.last() as nat
    }
}

/// The `n` low-order bytes of `v`, most significant byte first.
pub open spec fn be_bytes(v: nat, n: nat) -> Seq<u8>
    decreases n,
{
    if n == 0 {
        Seq::empty()
    } else {
        be_bytes(v / 256, (n - 1) as nat).push((v % 256) as u8)
    }
}

/// Index of the highest set bit of `v`, plus one; zero for zero.
pub open spec fn bit_len(v: nat) -> nat
    decreases v,
{
    if v == 0 {
        0
    } else {
        1 + bit_len(v / 2)
    }
}

/// The number of bytes needed to write `v` without a leading zero byte.
pub open spec fn byte_len(v: nat) -> nat {
    (bit_len(v) + 7) / 8
}

/// The shortest big-endian byte string that denotes `v`; empty for zero.
pub open spec fn minimal_be_bytes(v: nat) -> Seq<u8> {
    be_bytes(v, byte_len(v))
}

/// A string of `n` zero bytes.
pub open spec fn zero_bytes(n: nat) -> Seq<u8> {
    Seq::new(n, |i: int| 0u8)
}

/// The number that the 64-bit words `w` denote, least significant word first.
pub open spec fn le_value(w: Seq<u64>) -> nat
    decreases w.len(),
{
    if w.len() == 0 {
        0
    } else {
        w[0] as nat + 0x1_0000_0000_0000_0000 * le_value(w.drop_first())
    }
}

/// One more byte multiplies the range by 256.
pub proof fn lemma_pow2_byte(n: nat)
    ensures
        pow2(8 * (n + 1)) == 256 * pow2(8 * n),
        pow2(8 * n) > 0,
{
    lemma2_to64();
    lemma_pow2_adds(8, 8 * n);
    lemma_pow2_pos(8 * n);
    assert(8 + 8 * n == 8 * (n + 1));
}

/// One more word multiplies the range by 2^64.
pub proof fn lemma_pow2_word(n: nat)
    ensures
        pow2(64 * (n + 1)) == 0x1_0000_0000_0000_0000 * pow2(64 * n),
        pow2(64 * n) > 0,
{
    lemma2_to64();
    lemma_pow2_adds(64, 64 * n);
    lemma_pow2_pos(64 * n);
    assert(64 + 64 * n == 64 * (n + 1));
}

/// `bit_len(v)` is the least `n` with `v < 2^n`.
pub proof fn lemma_bit_len_bounds(v: nat)
    ensures
        v < pow2(bit_len(v)),
        v > 0 ==> pow2((bit_len(v) - 1) as nat) <= v,
    decreases v,
{
    lemma2_to64();
    if v > 0 {
        lemma_bit_len_bounds(v / 2);
        let n = bit_len(v / 2);
        lemma_pow2_adds(1, n);
        assert(pow2(1 + n) == 2 * pow2(n));
        if v / 2 > 0 {
            lemma_pow2_adds(1, (n - 1) as nat);
            assert(1 + (n - 1) as nat == n);
        }
    }
}

/// A number is below `2^n` exactly when its bit length is at most `n`.
pub proof fn lemma_bit_len_le(v: nat, n: nat)
    ensures
        bit_len(v) <= n <==> v < pow2(n),
{
    lemma_bit_len_bounds(v);
    lemma_pow2_pos(n);
    if bit_len(v) < n {
        lemma_pow2_strictly_increases(bit_len(v), n);
    }
    if v > 0 && n < bit_len(v) {
        if n < bit_len(v) - 1 {
            lemma_pow2_strictly_increases(n, (bit_len(v) - 1) as nat);
        }
    }
}

pub proof fn lemma_be_bytes_len(v: nat, n: nat)
    ensures
        be_bytes(v, n).len() == n,
    decreases n,
{
    if n > 0 {
        lemma_be_bytes_len(v / 256, (n - 1) as nat);
    }
}

/// A string of `n` bytes denotes a number below `256^n`.
pub proof fn lemma_be_value_bound(s: Seq<u8>)
    ensures
        be_value(s) < pow2(8 * s.len()),
    decreases s.len(),
{
    lemma2_to64();
    if s.len() > 0 {
        lemma_be_value_bound(s.drop_last());
        lemma_pow2_byte(s.drop_last().len());
    }
}

/// Writing a number that fits and reading it back gives the number.
pub proof fn lemma_be_value_of_bytes(v: nat, n: nat)
    requires
        v < pow2(8 * n),
    ensures
        be_value(be_bytes(v, n)) == v,
    decreases n,
{
    lemma2_to64();
    if n > 0 {
        lemma_pow2_byte((n - 1) as nat);
        lemma_be_value_of_bytes(v / 256, (n - 1) as nat);
        let s = be_bytes(v, n);
        assert(s.drop_last() == be_bytes(v / 256, (n - 1) as nat));
    }
}

/// Reading a string and writing the number back at the same length gives the string.
pub proof fn lemma_be_bytes_of_value(s: Seq<u8>)
    ensures
        be_bytes(be_value(s), s.len()) == s,
    decreases s.len(),
{
    if s.len() > 0 {
        lemma_be_bytes_of_value(s.drop_last());
        assert(be_value(s) / 256 == be_value(s.drop_last()));
        assert(s.drop_last().push(s.last()) == s);
    }
}

/// A number that fits `k` bytes, written on `n >= k` bytes, is its `k`-byte form
/// behind `n - k` zero bytes.
pub proof fn lemma_be_bytes_zero_extend(v: nat, k: nat, n: nat)
    requires
        k <= n,
        v < pow2(8 * k),
    ensures
        be_bytes(v, n) == zero_bytes((n - k) as nat) + be_bytes(v, k),
        be_bytes(v, n).skip(n - k) == be_bytes(v, k),
    decreases k,
{
    lemma2_to64();
    lemma_be_bytes_len(v, k);
    if k == 0 {
        lemma_be_bytes_zero(n);
        assert(be_bytes(v, n) =~= zero_bytes(n) + be_bytes(v, 0));
    } else {
        lemma_pow2_byte((k - 1) as nat);
        lemma_be_bytes_zero_extend(v / 256, (k - 1) as nat, (n - 1) as nat);
        lemma_be_bytes_len(v / 256, (k - 1) as nat);
        assert(be_bytes(v, n) =~= zero_bytes((n - k) as nat) + be_bytes(v, k));
    }
    assert((zero_bytes((n - k) as nat) + be_bytes(v, k)).skip(n - k) =~= be_bytes(v, k));
}

/// Zero, written on any number of bytes, is all zero bytes.
pub proof fn lemma_be_bytes_zero(n: nat)
    ensures
        be_bytes(0, n) == zero_bytes(n),
    decreases n,
{
    if n > 0 {
        lemma_be_bytes_zero((n - 1) as nat);
    }
    assert(be_bytes(0, n) =~= zero_bytes(n));
}

/// A string followed by another denotes the first number shifted left by the
/// length of the second, plus the second number.
pub proof fn lemma_be_value_concat(x: Seq<u8>, y: Seq<u8>)
    ensures
        be_value(x + y) == be_value(x) * pow2(8 * y.len()) + be_value(y),
    decreases y.len(),
{
    lemma2_to64();
    if y.len() == 0 {
        assert(x + y =~= x);
        assert(pow2(8 * y.len()) == 1);
    } else {
        let yy = y.drop_last();
        lemma_be_value_concat(x, yy);
        lemma_pow2_byte(yy.len());
        assert((x + y).drop_last() =~= x + yy);
        assert((x + y).last() == y.last());
        assert(8 * (yy.len() + 1) == 8 * y.len());
        assert(be_value(x) * (256 * pow2(8 * yy.len())) == 256 * (be_value(x) * pow2(8 * yy.len())))
            by (nonlinear_arith);
    }
}

/// The number that a string denotes, written on at least as many bytes, is
/// the string behind zero bytes.
pub proof fn lemma_be_bytes_pad(s: Seq<u8>, n: nat)
    requires
        s.len() <= n,
    ensures
        be_bytes(be_value(s), n) == zero_bytes((n - s.len()) as nat) + s,
{
    lemma_be_value_bound(s);
    lemma_be_bytes_zero_extend(be_value(s), s.len(), n);
    lemma_be_bytes_of_value(s);
}

/// The big-endian form of `a + 256^k * b` on `k + m` bytes is the form of `b` on
/// `m` bytes followed by the form of `a` on `k` bytes.
pub proof fn lemma_be_bytes_split(a: nat, b: nat, k: nat, m: nat)
    requires
        a < pow2(8 * k),
    ensures
        be_bytes(a + pow2(8 * k) * b, k + m) == be_bytes(b, m) + be_bytes(a, k),
    decreases k,
{
    lemma2_to64();
    if k == 0 {
        assert(pow2(8 * k) == 1);
        assert(be_bytes(b, m) + be_bytes(a, 0) =~= be_bytes(b, m));
    } else {
        let k1 = (k - 1) as nat;
        lemma_pow2_byte(k1);
        assert(8 * (k1 + 1) == 8 * k);
        lemma_be_bytes_split(a / 256, b, k1, m);
        let v = a + pow2(8 * k) * b;
        assert(pow2(8 * k) * b == 256 * (pow2(8 * k1) * b)) by (nonlinear_arith)
            requires
                pow2(8 * k) == 256 * pow2(8 * k1),
        ;
        assert(v / 256 == a / 256 + pow2(8 * k1) * b);
        assert(v % 256 == a % 256);
        assert((k + m - 1) as nat == k1 + m);
        assert(be_bytes(v, k + m) =~= be_bytes(b, m) + be_bytes(a, k));
    }
}

/// The shortest form of a positive number fits its byte length and starts with
/// a nonzero byte.
pub proof fn lemma_byte_len_bounds(v: nat)
    ensures
        v < pow2(8 * byte_len(v)),
        v > 0 ==> byte_len(v) > 0 && pow2((8 * (byte_len(v) - 1)) as nat) <= v,
        v == 0 <==> byte_len(v) == 0,
{
    lemma_bit_len_bounds(v);
    let n = bit_len(v);
    let k = byte_len(v);
    if n < 8 * k {
        lemma_pow2_strictly_increases(n, 8 * k);
    }
    if v > 0 {
        if 8 * (k - 1) < n - 1 {
            lemma_pow2_strictly_increases((8 * (k - 1)) as nat, (n - 1) as nat);
        }
    }
}

/// The first byte of an `n`-byte form is the number divided by `256^(n-1)`.
pub proof fn lemma_be_bytes_first(v: nat, n: nat)
    requires
        n > 0,
        v < pow2(8 * n),
    ensures
        be_bytes(v, n).len() == n,
        be_bytes(v, n)[0] as nat == v / pow2((8 * (n - 1)) as nat),
    decreases n,
{
    lemma2_to64();
    lemma_be_bytes_len(v, n);
    let n1 = (n - 1) as nat;
    lemma_pow2_byte(n1);
    if n == 1 {
        assert(be_bytes(v / 256, 0).push((v % 256) as u8)[0] == (v % 256) as u8);
    } else {
        let n2 = (n - 2) as nat;
        lemma_pow2_byte(n2);
        lemma_be_bytes_first(v / 256, n1);
        lemma_be_bytes_len(v / 256, n1);
        assert(8 * (n2 + 1) == 8 * n1);
        vstd::arithmetic::div_mod::lemma_div_denominator(v as int, 256, pow2(8 * n2) as int);
        assert(256 * pow2(8 * n2) == pow2(8 * n1));
    }
}

/// The shortest form of a positive number has a nonzero first byte.
pub proof fn lemma_minimal_be_bytes(v: nat)
    ensures
        minimal_be_bytes(v).len() == byte_len(v),
        be_value(minimal_be_bytes(v)) == v,
        v > 0 ==> minimal_be_bytes(v)[0] != 0,
{
    lemma_byte_len_bounds(v);
    lemma_be_bytes_len(v, byte_len(v));
    lemma_be_value_of_bytes(v, byte_len(v));
    if v > 0 {
        let k = byte_len(v);
        lemma_be_bytes_first(v, k);
        let d = pow2((8 * (k - 1)) as nat);
        lemma_pow2_pos((8 * (k - 1)) as nat);
        assert(v / d >= 1) by (nonlinear_arith)
            requires
                0 < d <= v,
        ;
    }
}

/// `n` words denote a number below `2^(64 n)`.
pub proof fn lemma_le_value_bound(w: Seq<u64>)
    ensures
        le_value(w) < pow2(64 * w.len()),
    decreases w.len(),
{
    lemma2_to64();
    if w.len() > 0 {
        lemma_le_value_bound(w.drop_first());
        lemma_pow2_word(w.drop_first().len());
        assert(64 * (w.drop_first().len() + 1) == 64 * w.len());
    }
}

/// Words followed by more words denote the first number plus the second
/// shifted left by the length of the first.
pub proof fn lemma_le_value_concat(x: Seq<u64>, y: Seq<u64>)
    ensures
        le_value(x + y) == le_value(x) + pow2(64 * x.len()) * le_value(y),
    decreases x.len(),
{
    lemma2_to64();
    if x.len() == 0 {
        assert(x + y =~= y);
        assert(pow2(64 * x.len()) == 1);
    } else {
        let xx = x.drop_first();
        lemma_le_value_concat(xx, y);
        lemma_pow2_word(xx.len());
        assert((x + y).drop_first() =~= xx + y);
        assert((x + y)[0] == x[0]);
        assert(64 * (xx.len() + 1) == 64 * x.len());
        assert((0x1_0000_0000_0000_0000 * pow2(64 * xx.len())) * le_value(y)
            == 0x1_0000_0000_0000_0000 * (pow2(64 * xx.len()) * le_value(y))) by (nonlinear_arith);
    }
}

/// A single word denotes itself.
pub proof fn lemma_le_value_one(w: Seq<u64>)
    requires
        w.len() == 1,
    ensures
        le_value(w) == w[0] as nat,
{
    assert(le_value(w.drop_first()) == 0);
}

/// Words that are all zero denote zero, and only they do.
pub proof fn lemma_le_value_zero(w: Seq<u64>)
    ensures
        le_value(w) == 0 <==> (forall|i: int| 0 <= i < w.len() ==> w[i] == 0),
    decreases w.len(),
{
    if w.len() > 0 {
        let r = w.drop_first();
        lemma_le_value_zero(r);
        if le_value(w) == 0 {
            assert forall|i: int| 0 <= i < w.len() implies w[i] == 0 by {
                if i > 0 {
                    assert(w[i] == r[i - 1]);
                }
            }
        } else if forall|i: int| 0 <= i < w.len() ==> w[i] == 0 {
            assert forall|i: int| 0 <= i < r.len() implies r[i] == 0 by {
                assert(r[i] == w[i + 1]);
            }
        }
    }
}

/// Two word strings of one length that denote the same number are equal.
pub proof fn lemma_le_value_injective(a: Seq<u64>, b: Seq<u64>)
    requires
        a.len() == b.len(),
        le_value(a) == le_value(b),
    ensures
        a == b,
    decreases a.len(),
{
    if a.len() > 0 {
        let x = le_value(a.drop_first());
        let y = le_value(b.drop_first());
        assert(a[0] as nat + 0x1_0000_0000_0000_0000 * x == b[0] as nat + 0x1_0000_0000_0000_0000 * y);
        assert(x == y);
        lemma_le_value_injective(a.drop_first(), b.drop_first());
        assert(a =~= seq![a[0]] + a.drop_first());
        assert(b =~= seq![b[0]] + b.drop_first());
    } else {
        assert(a =~= b);
    }
}

/// Bytes at and above position `k` do not show in a form of at most `k` bytes.
pub proof fn lemma_be_bytes_ignores_high(a: nat, b: nat, k: nat, m: nat)
    requires
        m <= k,
    ensures
        be_bytes(a + pow2(8 * k) * b, m) == be_bytes(a, m),
    decreases m,
{
    if m > 0 {
        let k1 = (k - 1) as nat;
        lemma_pow2_byte(k1);
        assert(8 * (k1 + 1) == 8 * k);
        let v = a + pow2(8 * k) * b;
        assert(pow2(8 * k) * b == 256 * (pow2(8 * k1) * b)) by (nonlinear_arith)
            requires
                pow2(8 * k) == 256 * pow2(8 * k1),
        ;
        assert(v / 256 == a / 256 + pow2(8 * k1) * b);
        assert(v % 256 == a % 256);
        lemma_be_bytes_ignores_high(a / 256, b, k1, (m - 1) as nat);
    }
}

/// The big-endian form of some words on `8 + m` bytes is the form of all but
/// the lowest word on `m` bytes, followed by the eight bytes of the lowest
/// word.
pub proof fn lemma_be_bytes_of_words(w: Seq<u64>, m: nat)
    requires
        w.len() > 0,
    ensures
        be_bytes(le_value(w), 8 + m) == be_bytes(le_value(w.drop_first()), m) + be_bytes(
            w[0] as nat,
            8,
        ),
{
    lemma2_to64();
    assert(pow2(8 * 8) == 0x1_0000_0000_0000_0000) by {
        assert(8 * 8 == 64);
    }
    lemma_be_bytes_split(w[0] as nat, le_value(w.drop_first()), 8, m);
}

/// A form of at most eight bytes shows the lowest word only.
pub proof fn lemma_be_bytes_of_low_word(w: Seq<u64>, n: nat)
    requires
        w.len() > 0,
        n <= 8,
    ensures
        be_bytes(le_value(w), n) == be_bytes(w[0] as nat, n),
{
    lemma2_to64();
    assert(pow2(8 * 8) == 0x1_0000_0000_0000_0000) by {
        assert(8 * 8 == 64);
    }
    lemma_be_bytes_ignores_high(w[0] as nat, le_value(w.drop_first()), 8, n);
}

/// Shifting a positive number left by `k` bits and filling the low bits adds
/// `k` to its bit length.
pub proof fn lemma_bit_len_shift(a: nat, b: nat, k: nat)
    requires
        a < pow2(k),
        b > 0,
    ensures
        bit_len(a + pow2(k) * b) == k + bit_len(b),
    decreases k,
{
    lemma2_to64();
    if k == 0 {
        assert(pow2(0) * b == b);
    } else {
        let k1 = (k - 1) as nat;
        lemma_pow2_adds(1, k1);
        assert(1 + k1 == k);
        lemma_pow2_pos(k1);
        let v = a + pow2(k) * b;
        assert(pow2(k) * b == 2 * (pow2(k1) * b)) by (nonlinear_arith)
            requires
                pow2(k) == 2 * pow2(k1),
        ;
        assert(pow2(k1) * b > 0) by (nonlinear_arith)
            requires
                pow2(k1) > 0,
                b > 0,
        ;
        assert(v / 2 == a / 2 + pow2(k1) * b);
        lemma_bit_len_shift(a / 2, b, k1);
    }
}

} // verus!
