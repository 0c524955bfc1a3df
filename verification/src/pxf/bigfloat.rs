//! `pxf.BigFloat`'s literal form: a numeric literal on a `pxf.BigFloat`
//! field decodes to the wire message — an unsigned big-endian mantissa, a
//! binary exponent, a precision and a sign — and the message encodes back
//! to a literal.
//!
//! The literal is read as Go's `math/big` reads it at 256 bits,
//! `new(big.Float).SetPrec(256).Parse(s, 10)`. That conversion is not
//! correctly rounded: it multiplies or divides the exact digit integer by a
//! power of five that was itself rounded to 320 bits and built by
//! square-and-multiply, then rounds once more to 256. The functions here
//! take the same steps at the same precisions, so that the bytes agree with
//! that reading in the last bit: [`Fl::mul`] and [`Fl::quo`] are correctly
//! rounded, and [`parse_big_float`] applies them in that order. The text
//! form is `big.Float.Text('g', 78)`, written by [`format_big_float`].
//!
//! The arithmetic runs on a small unsigned big integer of its own; every
//! conversion is bounded by the literal's digit count on the way in.
use vstd::arithmetic::div_mod::lemma_fundamental_div_mod_converse;
use vstd::arithmetic::power::{
    lemma_pow0, lemma_pow1, lemma_pow_adds, lemma_pow_multiplies, lemma_square_is_pow2, pow,
};
use vstd::arithmetic::power2::{
    lemma2_to64, lemma_pow2_adds, lemma_pow2_pos, lemma_pow2_strictly_increases, lemma_pow2_unfold, pow2,
};
use vstd::prelude::*;
use vstd::string::StringSliceAdditionalSpecFns;

use crate::pxf::bignum::{
    all_ascii_digits, be_bytes_to_decimal, be_value, canonical_be, check_literal_digits,
    count_digits, decimal_digits_to_be_bytes, digit_limit_error, digits_in, digits_value,
    lemma_canonical_be_value, over_digit_limit,
};
use crate::text::decimal_chars;

verus! {

// ---------------------------------------------------------------- bits
pub open spec fn bit_val(b: bool) -> nat {
    if b {
        1
    } else {
        0
    }
}

/// The number little-endian bits stand for.
pub open spec fn bits_value(s: Seq<bool>) -> nat
    decreases s.len(),
{
    if s.len() == 0 {
        0
    } else {
        bit_val(s[0]) + 2 * bits_value(s.drop_first())
    }
}

/// The number of binary digits of `v`: zero for zero.
pub open spec fn bitlen(v: nat) -> nat
    decreases v,
{
    if v == 0 {
        0
    } else {
        1 + bitlen(v / 2)
    }
}

proof fn lemma_pow2_zero()
    ensures
        pow2(0) == 1,
{
    lemma_pow0(2);
}

proof fn lemma_bits_push(s: Seq<bool>, b: bool)
    ensures
        bits_value(s.push(b)) == bits_value(s) + pow2(s.len()) * bit_val(b),
    decreases s.len(),
{
    if s.len() == 0 {
        assert(s.push(b).drop_first() =~= Seq::<bool>::empty());
        assert(s.push(b)[0] == b);
        assert(bits_value(Seq::<bool>::empty()) == 0);
        assert(bits_value(s.push(b)) == bit_val(b));
        lemma_pow2_zero();
        assert(pow2(0) * bit_val(b) == bit_val(b));
    } else {
        assert(s.push(b).drop_first() =~= s.drop_first().push(b));
        assert(s.push(b)[0] == s[0]);
        lemma_bits_push(s.drop_first(), b);
        assert(bits_value(s.push(b)) == bit_val(s[0]) + 2 * bits_value(s.drop_first().push(b)));
        lemma_pow2_unfold(s.len());
        let p = pow2((s.len() - 1) as nat);
        let q = pow2(s.len());
        let x = bit_val(b);
        assert(2 * (p * x) == q * x) by (nonlinear_arith)
            requires
                q == 2 * p,
        ;
    }
}

proof fn lemma_bits_bound(s: Seq<bool>)
    ensures
        bits_value(s) < pow2(s.len()),
    decreases s.len(),
{
    if s.len() == 0 {
        lemma_pow2_zero();
    } else {
        lemma_bits_bound(s.drop_first());
        lemma_pow2_unfold(s.len());
    }
}

proof fn lemma_bits_top(s: Seq<bool>)
    requires
        s.len() > 0,
        s.last(),
    ensures
        bits_value(s) >= pow2((s.len() - 1) as nat),
    decreases s.len(),
{
    if s.len() == 1 {
        lemma_pow2_zero();
        assert(s[0] == s.last());
    } else {
        let t = s.drop_first();
        assert(t.last() == s.last());
        lemma_bits_top(t);
        lemma_pow2_unfold((s.len() - 1) as nat);
    }
}

proof fn lemma_bits_zero(s: Seq<bool>)
    ensures
        bits_value(s) == 0 <==> forall|i: int| 0 <= i < s.len() ==> !s[i],
    decreases s.len(),
{
    if s.len() > 0 {
        lemma_bits_zero(s.drop_first());
        if bits_value(s) == 0 {
            assert forall|i: int| 0 <= i < s.len() implies !s[i] by {
                if i > 0 {
                    assert(s[i] == s.drop_first()[i - 1]);
                }
            }
        }
        if forall|i: int| 0 <= i < s.len() ==> !s[i] {
            assert forall|i: int| 0 <= i < s.drop_first().len() implies !s.drop_first()[i] by {
                assert(s.drop_first()[i] == s[i + 1]);
            }
            assert(!s[0]);
        }
    }
}

proof fn lemma_bits_split(s: Seq<bool>, k: int)
    requires
        0 <= k <= s.len(),
    ensures
        bits_value(s) == bits_value(s.subrange(0, k)) + pow2(k as nat) * bits_value(
            s.subrange(k, s.len() as int),
        ),
    decreases k,
{
    if k == 0 {
        lemma_pow2_zero();
        assert(s.subrange(0, 0) =~= Seq::<bool>::empty());
        assert(bits_value(s.subrange(0, 0)) == 0);
        assert(s.subrange(0, s.len() as int) =~= s);
        let v = bits_value(s);
        assert(1 * v == v);
    } else {
        let t = s.drop_first();
        lemma_bits_split(t, k - 1);
        let lo = s.subrange(0, k);
        assert(lo.drop_first() =~= t.subrange(0, k - 1));
        assert(lo[0] == s[0]);
        assert(bits_value(lo) == bit_val(s[0]) + 2 * bits_value(t.subrange(0, k - 1)));
        assert(s.subrange(k, s.len() as int) =~= t.subrange(k - 1, t.len() as int));
        assert(bits_value(s) == bit_val(s[0]) + 2 * bits_value(t));
        lemma_pow2_unfold(k as nat);
        let a = bits_value(t.subrange(0, k - 1));
        let b = bits_value(t.subrange(k - 1, t.len() as int));
        let p = pow2((k - 1) as nat);
        let q = pow2(k as nat);
        assert(bits_value(t) == a + p * b);
        assert(2 * (a + p * b) == 2 * a + q * b) by (nonlinear_arith)
            requires
                q == 2 * p,
        ;
    }
}

/// Canonical bits (no zero on top) are as many as the value's binary
/// digits.
proof fn lemma_bits_len(s: Seq<bool>)
    requires
        s.len() == 0 || s.last(),
    ensures
        s.len() == bitlen(bits_value(s)),
    decreases s.len(),
{
    if s.len() > 0 {
        let t = s.drop_first();
        let v = bits_value(s);
        if s.len() > 1 {
            assert(t.last() == s.last());
        } else {
            assert(s[0] == s.last());
            assert(t.len() == 0);
        }
        lemma_bits_len(t);
        lemma_bits_top(s);
        lemma_pow2_pos((s.len() - 1) as nat);
        lemma_fundamental_div_mod_converse(v as int, 2, bits_value(t) as int, bit_val(s[0]) as int);
    }
}

/// The bounds of the binary digit count.
pub proof fn lemma_bitlen(v: nat)
    ensures
        v < pow2(bitlen(v)),
        v > 0 ==> v >= pow2((bitlen(v) - 1) as nat),
    decreases v,
{
    if v == 0 {
        lemma_pow2_zero();
    } else {
        lemma_bitlen(v / 2);
        lemma_pow2_unfold(bitlen(v));
        if v / 2 == 0 {
            lemma_pow2_zero();
        } else {
            lemma_pow2_unfold((bitlen(v) - 1) as nat);
        }
    }
}

/// A value's bits after dropping `n` from the bottom: the value divided by
/// `2^n`; those dropped: the remainder.
proof fn lemma_bits_shr(s: Seq<bool>, n: int)
    requires
        0 <= n <= s.len(),
    ensures
        bits_value(s.subrange(n, s.len() as int)) == bits_value(s) / pow2(n as nat),
        bits_value(s.subrange(0, n)) == bits_value(s) % pow2(n as nat),
{
    lemma_bits_split(s, n);
    lemma_bits_bound(s.subrange(0, n));
    lemma_pow2_pos(n as nat);
    let h = bits_value(s.subrange(n, s.len() as int));
    let p = pow2(n as nat);
    assert(p * h == h * p) by (nonlinear_arith);
    lemma_fundamental_div_mod_converse(
        bits_value(s) as int,
        pow2(n as nat) as int,
        bits_value(s.subrange(n, s.len() as int)) as int,
        bits_value(s.subrange(0, n)) as int,
    );
}

/// `n` zero bits.
pub open spec fn zero_bits(n: nat) -> Seq<bool> {
    Seq::new(n, |i: int| false)
}

proof fn lemma_shl_value(s: Seq<bool>, n: nat)
    ensures
        bits_value(zero_bits(n) + s) == bits_value(s) * pow2(n),
{
    let z = zero_bits(n) + s;
    lemma_bits_split(z, n as int);
    assert(z.subrange(0, n as int) =~= zero_bits(n));
    assert(z.subrange(n as int, z.len() as int) =~= s);
    lemma_bits_zero(zero_bits(n));
    assert(bits_value(zero_bits(n)) == 0);
    let p = pow2(n);
    let v = bits_value(s);
    assert(p * v == v * p) by (nonlinear_arith);
}


/// A big-endian byte in front of others.
proof fn lemma_be_prepend(x: u8, rest: Seq<u8>)
    ensures
        be_value(seq![x] + rest) == x * pow2(8 * rest.len()) + be_value(rest),
    decreases rest.len(),
{
    let z = seq![x] + rest;
    if rest.len() == 0 {
        lemma_pow2_zero();
        assert(z.drop_last() =~= Seq::<u8>::empty());
        assert(be_value(Seq::<u8>::empty()) == 0);
        assert(z.last() == x);
        assert(be_value(z) == x);
        assert(rest =~= Seq::<u8>::empty());
        assert(be_value(rest) == 0);
        assert(8 * rest.len() == 0);
        assert(x * pow2(0) == x);
    } else {
        assert(z.drop_last() =~= seq![x] + rest.drop_last());
        assert(z.last() == rest.last());
        lemma_be_prepend(x, rest.drop_last());
        let m = (8 * (rest.len() - 1)) as nat;
        lemma_pow2_adds(m, 8);
        assert(pow2(8) == 256) by {
            lemma2_to64();
        }
        assert(m + 8 == 8 * rest.len());
        let p = pow2(m);
        let q = pow2(8 * rest.len());
        let b = be_value(rest.drop_last());
        assert((x * p + b) * 256 == x * q + b * 256) by (nonlinear_arith)
            requires
                q == p * 256,
        ;
        assert(be_value(seq![x] + rest.drop_last()) == x * p + b);
        assert(be_value(z) == (x * p + b) * 256 + rest.last());
        assert(be_value(rest) == b * 256 + rest.last());
    }
}

/// The low `k + 1` bits of `s`, padded with zeros above its length.
pub open spec fn low_bits(s: Seq<bool>, k: int) -> nat {
    if k < s.len() {
        bits_value(s.subrange(0, k))
    } else {
        bits_value(s)
    }
}

pub open spec fn bit_at(s: Seq<bool>, k: int) -> bool {
    0 <= k < s.len() && s[k]
}

proof fn lemma_low_bits_step(s: Seq<bool>, k: int)
    requires
        0 <= k,
    ensures
        low_bits(s, k + 1) == low_bits(s, k) + pow2(k as nat) * bit_val(bit_at(s, k)),
{
    if k < s.len() {
        assert(s.subrange(0, k + 1) =~= s.subrange(0, k).push(s[k]));
        lemma_bits_push(s.subrange(0, k), s[k]);
        if k + 1 == s.len() {
            assert(s.subrange(0, k + 1) =~= s);
        }
    } else {
        let p = pow2(k as nat);
        assert(p * 0 == 0) by (nonlinear_arith);
    }
}

proof fn lemma_low_bits_zero(s: Seq<bool>)
    ensures
        low_bits(s, 0) == 0,
{
    if s.len() > 0 {
        assert(s.subrange(0, 0) =~= Seq::<bool>::empty());
    }
}

proof fn lemma_low_bits_all(s: Seq<bool>, k: int)
    requires
        k >= s.len(),
    ensures
        low_bits(s, k) == bits_value(s),
{
}


/// Two bit strings of one length that agree above `k` and differ at `k`,
/// where the first has the one: the first is the larger.
proof fn lemma_bits_differ(s: Seq<bool>, t: Seq<bool>, k: int)
    requires
        s.len() == t.len(),
        0 <= k < s.len(),
        s[k],
        !t[k],
        s.subrange(k + 1, s.len() as int) == t.subrange(k + 1, t.len() as int),
    ensures
        bits_value(s) > bits_value(t),
{
    lemma_bits_split(s, k);
    lemma_bits_split(t, k);
    let hs = s.subrange(k, s.len() as int);
    let ht = t.subrange(k, t.len() as int);
    assert(hs.drop_first() =~= s.subrange(k + 1, s.len() as int));
    assert(ht.drop_first() =~= t.subrange(k + 1, t.len() as int));
    assert(hs[0] == s[k]);
    assert(ht[0] == t[k]);
    let h = bits_value(s.subrange(k + 1, s.len() as int));
    assert(bits_value(hs) == 1 + 2 * h);
    assert(bits_value(ht) == 2 * h);
    lemma_bits_bound(t.subrange(0, k));
    let p = pow2(k as nat);
    let ls = bits_value(s.subrange(0, k));
    let lt = bits_value(t.subrange(0, k));
    assert(ls + p * (1 + 2 * h) > lt + p * (2 * h)) by (nonlinear_arith)
        requires
            lt < p,
            ls >= 0,
    ;
}


/// A positive number between `2^(l-1)` and `2^l` has `l` binary digits.
proof fn lemma_bitlen_unique(v: nat, l: nat)
    requires
        v > 0,
        l > 0,
        pow2((l - 1) as nat) <= v < pow2(l),
    ensures
        bitlen(v) == l,
{
    lemma_bitlen(v);
    let b = bitlen(v);
    if b < l {
        if b < l - 1 {
            lemma_pow2_strictly_increases(b, (l - 1) as nat);
        }
    }
    if b > l {
        if l < b - 1 {
            lemma_pow2_strictly_increases(l, (b - 1) as nat);
        }
    }
}

proof fn lemma_bitlen_mono(a: nat, b: nat)
    requires
        a <= b,
    ensures
        bitlen(a) <= bitlen(b),
{
    lemma_bitlen(a);
    lemma_bitlen(b);
    if bitlen(a) > bitlen(b) && a > 0 {
        if bitlen(b) < bitlen(a) - 1 {
            lemma_pow2_strictly_increases(bitlen(b), (bitlen(a) - 1) as nat);
        }
    }
}

proof fn lemma_bitlen_shl(v: nat, j: nat)
    requires
        v > 0,
    ensures
        bitlen(v * pow2(j)) == bitlen(v) + j,
{
    lemma_bitlen(v);
    let l = bitlen(v);
    lemma_pow2_adds((l - 1) as nat, j);
    lemma_pow2_adds(l, j);
    lemma_pow2_pos(j);
    let p = pow2(j);
    let lo = pow2((l - 1) as nat);
    let hi = pow2(l);
    assert(lo * p <= v * p < hi * p) by (nonlinear_arith)
        requires
            lo <= v < hi,
            p > 0,
    ;
    assert(v * p > 0) by (nonlinear_arith)
        requires
            v > 0,
            p > 0,
    ;
    lemma_bitlen_unique(v * p, l + j);
}

proof fn lemma_bitlen_shr(v: nat, j: nat)
    requires
        bitlen(v) >= j,
    ensures
        bitlen(v / pow2(j)) == bitlen(v) - j,
{
    lemma_bitlen(v);
    let l = bitlen(v);
    lemma_pow2_pos(j);
    let p = pow2(j);
    let q = v / p;
    if l == j {
        lemma_fundamental_div_mod_converse(v as int, p as int, 0, v as int);
    } else {
        lemma_pow2_adds((l - 1 - j) as nat, j);
        lemma_pow2_adds((l - j) as nat, j);
        let lo = pow2((l - 1 - j) as nat);
        let hi = pow2((l - j) as nat);
        assert(v == q * p + v % p) by {
            vstd::arithmetic::div_mod::lemma_fundamental_div_mod(v as int, p as int);
        }
        assert(0 <= v % p < p) by {
            vstd::arithmetic::div_mod::lemma_mod_bound(v as int, p as int);
        }
        assert(lo <= q < hi) by (nonlinear_arith)
            requires
                lo * p <= v < hi * p,
                v == q * p + v % p,
                0 <= v % p < p,
                p > 0,
        ;
        lemma_pow2_pos((l - 1 - j) as nat);
        lemma_bitlen_unique(q, (l - j) as nat);
    }
}

proof fn lemma_bitlen_mul(a: nat, b: nat)
    ensures
        bitlen(a * b) <= bitlen(a) + bitlen(b),
{
    lemma_bitlen(a);
    lemma_bitlen(b);
    lemma_pow2_adds(bitlen(a), bitlen(b));
    let pa = pow2(bitlen(a));
    let pb = pow2(bitlen(b));
    assert(a * b < pa * pb) by (nonlinear_arith)
        requires
            a < pa,
            b < pb,
    ;
    lemma_bitlen(a * b);
    let l = bitlen(a * b);
    if l > bitlen(a) + bitlen(b) {
        if bitlen(a) + bitlen(b) < l - 1 {
            lemma_pow2_strictly_increases(bitlen(a) + bitlen(b), (l - 1) as nat);
        }
    }
}

/// One more than a `p`-digit number with `p + 1` digits is `2^p`, whose half
/// has `p` digits again.
proof fn lemma_bitlen_carry(k: nat, p: nat)
    requires
        p > 0,
        bitlen(k) == p,
        bitlen(k + 1) > p,
    ensures
        k + 1 == pow2(p),
        bitlen(((k + 1) / 2) as nat) == p,
{
    lemma_bitlen(k);
    lemma_bitlen(k + 1);
    if bitlen(k + 1) > p + 1 {
        lemma_pow2_strictly_increases(p, (bitlen(k + 1) - 1) as nat);
    }
    lemma_pow2_unfold(p);
    lemma_fundamental_div_mod_converse((k + 1) as int, 2, pow2((p - 1) as nat) as int, 0);
    lemma_bitlen_unique(pow2((p - 1) as nat), p);
    lemma_pow2_pos((p - 1) as nat);
    if p > 1 {
        lemma_pow2_strictly_increases((p - 1) as nat, p);
    } else {
        lemma_pow2_zero();
    }
}

// ---------------------------------------------------------------- BigUint
/// An unsigned big integer: little-endian bits, none zero on top.
#[derive(Debug, PartialEq, Eq)]
pub struct BigUint {
    bits: Vec<bool>,
}

impl BigUint {
    #[verifier::type_invariant]
    spec fn inv(self) -> bool {
        self.bits@.len() == 0 || self.bits@.last()
    }

    /// The number.
    pub closed spec fn value(&self) -> nat {
        bits_value(self.bits@)
    }

    /// Bits without their zero top.
    fn from_bits(v: Vec<bool>) -> (r: BigUint)
        ensures
            r.value() == bits_value(v@),
    {
        let ghost orig = v@;
        let mut v = v;
        while v.len() > 0 && !v[v.len() - 1]
            invariant
                bits_value(v@) == bits_value(orig),
            decreases v@.len(),
        {
            let ghost before = v@;
            v.pop();
            proof {
                assert(before =~= v@.push(false));
                lemma_bits_push(v@, false);
                let p = pow2(v@.len());
                assert(bit_val(false) == 0);
                assert(p * 0 == 0) by (nonlinear_arith);
            }
        }
        BigUint { bits: v }
    }

    pub fn zero() -> (r: BigUint)
        ensures
            r.value() == 0,
    {
        BigUint { bits: Vec::new() }
    }

    /// A copy.
    pub fn duplicate(&self) -> (r: BigUint)
        ensures
            r.value() == self.value(),
    {
        proof {
            use_type_invariant(self);
        }
        let mut v: Vec<bool> = Vec::with_capacity(self.bits.len());
        let mut k: usize = 0;
        while k < self.bits.len()
            invariant
                k <= self.bits@.len(),
                v@ == self.bits@.subrange(0, k as int),
            decreases self.bits@.len() - k,
        {
            v.push(self.bits[k]);
            k = k + 1;
            assert(v@ == self.bits@.subrange(0, k as int));
        }
        assert(self.bits@.subrange(0, k as int) == self.bits@);
        BigUint { bits: v }
    }

    /// Appends the `n` low bits of `x`, lowest first.
    fn push_low_bits(out: &mut Vec<bool>, x: u64, n: usize)
        requires
            n <= 64,
            x < pow2(n as nat),
        ensures
            final(out)@.len() == old(out)@.len() + n,
            bits_value(final(out)@) == bits_value(old(out)@) + pow2(old(out)@.len()) * x,
            final(out)@.subrange(0, old(out)@.len() as int) == old(out)@,
    {
        let ghost start = out@;
        let mut cur: u64 = x;
        let mut k: usize = 0;
        assert(start.subrange(0, start.len() as int) =~= start);
        while k < n
            invariant
                k <= n <= 64,
                out@.len() == start.len() + k,
                bits_value(out@) + pow2(out@.len()) * cur == bits_value(start) + pow2(start.len())
                    * x,
                cur < pow2((n - k) as nat),
                out@.subrange(0, start.len() as int) == start,
            decreases n - k,
        {
            let b = cur % 2 == 1;
            let ghost before = out@;
            proof {
                lemma_pow2_unfold((n - k) as nat);
            }
            out.push(b);
            proof {
                lemma_bits_push(before, b);
                let p = pow2(before.len());
                lemma_pow2_unfold(out@.len());
                assert(p * (cur as int) == p * bit_val(b) + pow2(out@.len()) * (cur / 2)) by (
                nonlinear_arith)
                    requires
                        pow2(out@.len()) == 2 * p,
                        cur as int == 2 * (cur / 2) + bit_val(b),
                ;
                assert(out@.subrange(0, start.len() as int) =~= before.subrange(
                    0,
                    start.len() as int,
                ));
            }
            cur = cur / 2;
            k = k + 1;
        }
        proof {
            lemma_pow2_zero();
            assert(cur == 0);
            let p = pow2(out@.len());
            assert(p * 0 == 0) by (nonlinear_arith);
        }
    }

    /// The number big-endian bytes stand for.
    pub fn from_be_bytes(bytes: &[u8]) -> (r: BigUint)
        ensures
            r.value() == be_value(bytes@),
    {
        let mut out: Vec<bool> = Vec::new();
        let mut j: usize = bytes.len();
        proof {
            assert(bytes@.subrange(j as int, bytes@.len() as int) =~= Seq::<u8>::empty());
            assert(bits_value(out@) == 0);
        }
        while j > 0
            invariant
                j <= bytes@.len(),
                out@.len() == 8 * (bytes@.len() - j),
                bits_value(out@) == be_value(bytes@.subrange(j as int, bytes@.len() as int)),
            decreases j,
        {
            j = j - 1;
            let x = bytes[j];
            let ghost rest = bytes@.subrange(j + 1, bytes@.len() as int);
            proof {
                lemma2_to64();
            }
            Self::push_low_bits(&mut out, x as u64, 8);
            proof {
                lemma_be_prepend(x, rest);
                assert(bytes@.subrange(j as int, bytes@.len() as int) =~= seq![x] + rest);
                let p = pow2(8 * rest.len());
                assert(p * x == x * p) by (nonlinear_arith);
            }
        }
        assert(bytes@.subrange(0, bytes@.len() as int) =~= bytes@);
        Self::from_bits(out)
    }

    /// The number ASCII decimal digits spell; leading zeros are fine.
    pub fn from_decimal_digits(digits: &[u8]) -> (r: BigUint)
        requires
            all_ascii_digits(digits@),
        ensures
            r.value() == digits_value(digits@),
    {
        let be = decimal_digits_to_be_bytes(digits);
        proof {
            lemma_canonical_be_value(digits_value(digits@));
        }
        Self::from_be_bytes(be.as_slice())
    }

    pub fn is_zero(&self) -> (r: bool)
        ensures
            r == (self.value() == 0),
    {
        proof {
            use_type_invariant(self);
            if self.bits@.len() > 0 {
                lemma_bits_top(self.bits@);
                lemma_pow2_pos((self.bits@.len() - 1) as nat);
            }
        }
        self.bits.len() == 0
    }

    /// The number of binary digits.
    pub fn bit_len(&self) -> (r: u64)
        ensures
            r == bitlen(self.value()),
            r <= usize::MAX,
    {
        proof {
            use_type_invariant(self);
            lemma_bits_len(self.bits@);
        }
        self.bits.len() as u64
    }

    /// Bit `i`, counted from the lowest.
    pub fn bit(&self, i: u64) -> (r: bool)
        ensures
            r == ((self.value() / pow2(i as nat)) % 2 == 1),
    {
        proof {
            use_type_invariant(self);
        }
        let ghost s = self.bits@;
        if i < self.bits.len() as u64 {
            let b = self.bits[i as usize];
            proof {
                lemma_bits_shr(s, i as int);
                let t = s.subrange(i as int, s.len() as int);
                assert(t[0] == b);
                lemma_fundamental_div_mod_converse(
                    bits_value(t) as int,
                    2,
                    bits_value(t.drop_first()) as int,
                    bit_val(b) as int,
                );
            }
            b
        } else {
            proof {
                lemma_bits_bound(s);
                if i > s.len() {
                    lemma_pow2_strictly_increases(s.len(), i as nat);
                }
                lemma_fundamental_div_mod_converse(
                    bits_value(s) as int,
                    pow2(i as nat) as int,
                    0,
                    bits_value(s) as int,
                );
            }
            false
        }
    }

    /// Whether any bit strictly below position `i` is set.
    pub fn any_bit_below(&self, i: u64) -> (r: bool)
        ensures
            r == (self.value() % pow2(i as nat) != 0),
    {
        proof {
            use_type_invariant(self);
        }
        let ghost s = self.bits@;
        let m: usize = if i < self.bits.len() as u64 {
            i as usize
        } else {
            self.bits.len()
        };
        let mut k: usize = 0;
        while k < m
            invariant
                m == if i < s.len() {
                    i as int
                } else {
                    s.len() as int
                },
                s == self.bits@,
                k <= m,
                forall|j: int| 0 <= j < k ==> !s[j],
            decreases m - k,
        {
            if self.bits[k] {
                proof {
                    self.lemma_low_mod(i, m as int);
                    lemma_bits_zero(s.subrange(0, m as int));
                    assert(s.subrange(0, m as int)[k as int]);
                }
                return true;
            }
            k = k + 1;
        }
        proof {
            self.lemma_low_mod(i, m as int);
            lemma_bits_zero(s.subrange(0, m as int));
            assert forall|j: int| 0 <= j < m implies !s.subrange(0, m as int)[j] by {
                assert(s.subrange(0, m as int)[j] == s[j]);
            }
        }
        false
    }

    /// The value modulo `2^i` is the value of the bits below `min(i, len)`.
    proof fn lemma_low_mod(&self, i: u64, m: int)
        requires
            m == if i < self.bits@.len() {
                i as int
            } else {
                self.bits@.len() as int
            },
        ensures
            self.value() % pow2(i as nat) == bits_value(self.bits@.subrange(0, m)),
    {
        let ghost s = self.bits@;
        if i < s.len() {
            lemma_bits_shr(s, i as int);
        } else {
            assert(s.subrange(0, m) =~= s);
            lemma_bits_bound(s);
            if i > s.len() {
                lemma_pow2_strictly_increases(s.len(), i as nat);
            }
            lemma_fundamental_div_mod_converse(
                bits_value(s) as int,
                pow2(i as nat) as int,
                0,
                bits_value(s) as int,
            );
        }
    }

    /// The lowest bit.
    pub fn lsb(&self) -> (r: bool)
        ensures
            r == (self.value() % 2 == 1),
    {
        proof {
            lemma_pow2_zero();
        }
        self.bit(0)
    }

    /// The sum.
    fn add(a: &BigUint, b: &BigUint) -> (r: BigUint)
        ensures
            r.value() == a.value() + b.value(),
    {
        let ghost sa = a.bits@;
        let ghost sb = b.bits@;
        let n: usize = if a.bits.len() > b.bits.len() {
            a.bits.len()
        } else {
            b.bits.len()
        };
        let mut out: Vec<bool> = Vec::new();
        let mut c = false;
        let mut k: usize = 0;
        proof {
            lemma_low_bits_zero(sa);
            lemma_low_bits_zero(sb);
            lemma_pow2_zero();
            assert(bits_value(out@) == 0);
        }
        while k < n
            invariant
                sa == a.bits@,
                sb == b.bits@,
                k <= n,
                n >= sa.len() && n >= sb.len(),
                out@.len() == k,
                bits_value(out@) + pow2(k as nat) * bit_val(c) == low_bits(sa, k as int) + low_bits(
                    sb,
                    k as int,
                ),
            decreases n - k,
        {
            let x = k < a.bits.len() && a.bits[k];
            let y = k < b.bits.len() && b.bits[k];
            let bit = x ^ y ^ c;
            let carry = (x && y) || (x && c) || (y && c);
            let ghost before = out@;
            out.push(bit);
            proof {
                lemma_bits_push(before, bit);
                lemma_low_bits_step(sa, k as int);
                lemma_low_bits_step(sb, k as int);
                assert(x == bit_at(sa, k as int));
                assert(y == bit_at(sb, k as int));
                lemma_pow2_unfold((k + 1) as nat);
                let p = pow2(k as nat);
                let q = pow2((k + 1) as nat);
                assert(bit_val(bit) + 2 * bit_val(carry) == bit_val(x) + bit_val(y) + bit_val(c));
                assert(p * bit_val(bit) + q * bit_val(carry) == p * bit_val(c) + p * bit_val(x) + p
                    * bit_val(y)) by (nonlinear_arith)
                    requires
                        q == 2 * p,
                        bit_val(bit) + 2 * bit_val(carry) == bit_val(x) + bit_val(y) + bit_val(c),
                ;
            }
            c = carry;
            k = k + 1;
        }
        if c {
            let ghost before = out@;
            out.push(true);
            proof {
                lemma_bits_push(before, true);
            }
        } else {
            proof {
                let p = pow2(k as nat);
                assert(p * 0 == 0) by (nonlinear_arith);
            }
        }
        proof {
            lemma_low_bits_all(sa, n as int);
            lemma_low_bits_all(sb, n as int);
        }
        Self::from_bits(out)
    }

    /// Adds one.
    pub fn add_one(&mut self)
        ensures
            final(self).value() == old(self).value() + 1,
    {
        let one = Self::from_u64(1);
        let r = Self::add(self, &one);
        *self = r;
    }

    /// The value times `2^n`.
    pub fn shl(&self, n: u64) -> (r: BigUint)
        requires
            n <= usize::MAX,
        ensures
            r.value() == self.value() * pow2(n as nat),
    {
        proof {
            use_type_invariant(self);
        }
        if self.bits.len() == 0 {
            proof {
                let p = pow2(n as nat);
                assert(0 * p == 0) by (nonlinear_arith);
            }
            return Self::zero();
        }
        let m = n as usize;
        let mut out: Vec<bool> = Vec::new();
        let mut k: usize = 0;
        while k < m
            invariant
                k <= m,
                out@ == zero_bits(k as nat),
            decreases m - k,
        {
            out.push(false);
            k = k + 1;
            assert(out@ =~= zero_bits(k as nat));
        }
        let mut j: usize = 0;
        while j < self.bits.len()
            invariant
                j <= self.bits@.len(),
                out@ == zero_bits(m as nat) + self.bits@.subrange(0, j as int),
            decreases self.bits@.len() - j,
        {
            out.push(self.bits[j]);
            j = j + 1;
            assert(out@ =~= zero_bits(m as nat) + self.bits@.subrange(0, j as int));
        }
        proof {
            assert(self.bits@.subrange(0, j as int) =~= self.bits@);
            lemma_shl_value(self.bits@, m as nat);
            assert(out@.last() == self.bits@.last());
        }
        BigUint { bits: out }
    }

    /// The value divided by `2^n`, rounded down.
    pub fn shr(&self, n: u64) -> (r: BigUint)
        ensures
            r.value() == self.value() / pow2(n as nat),
    {
        proof {
            use_type_invariant(self);
        }
        let ghost s = self.bits@;
        if n >= self.bits.len() as u64 {
            proof {
                lemma_bits_bound(s);
                if n > s.len() {
                    lemma_pow2_strictly_increases(s.len(), n as nat);
                }
                lemma_fundamental_div_mod_converse(
                    bits_value(s) as int,
                    pow2(n as nat) as int,
                    0,
                    bits_value(s) as int,
                );
            }
            return Self::zero();
        }
        let a = n as usize;
        let mut out: Vec<bool> = Vec::new();
        let mut j: usize = a;
        while j < self.bits.len()
            invariant
                a <= j <= s.len(),
                s == self.bits@,
                out@ == s.subrange(a as int, j as int),
            decreases s.len() - j,
        {
            out.push(self.bits[j]);
            j = j + 1;
            assert(out@ =~= s.subrange(a as int, j as int));
        }
        proof {
            lemma_bits_shr(s, a as int);
            assert(out@.last() == s.last());
        }
        BigUint { bits: out }
    }

    /// The product.
    pub fn mul(&self, other: &BigUint) -> (r: BigUint)
        ensures
            r.value() == self.value() * other.value(),
    {
        let ghost so = other.bits@;
        let mut out = Self::zero();
        let mut k: usize = 0;
        proof {
            lemma_low_bits_zero(so);
            let a = self.value();
            assert(a * 0 == 0) by (nonlinear_arith);
        }
        while k < other.bits.len()
            invariant
                so == other.bits@,
                k <= so.len(),
                out.value() == self.value() * low_bits(so, k as int),
            decreases so.len() - k,
        {
            proof {
                lemma_low_bits_step(so, k as int);
            }
            let ghost a = self.value();
            let ghost lo = low_bits(so, k as int);
            let ghost p = pow2(k as nat);
            if other.bits[k] {
                let t = self.shl(k as u64);
                out = Self::add(&out, &t);
                proof {
                    assert(a * lo + a * p == a * (lo + p * 1)) by (nonlinear_arith);
                }
            } else {
                proof {
                    assert(a * lo == a * (lo + p * 0)) by (nonlinear_arith);
                }
            }
            k = k + 1;
        }
        proof {
            lemma_low_bits_all(so, k as int);
        }
        out
    }

    /// The sign of the difference of the two values: -1, 0 or 1.
    fn compare(&self, other: &BigUint) -> (r: i8)
        ensures
            r == -1 ==> self.value() < other.value(),
            r == 0 ==> self.value() == other.value(),
            r == 1 ==> self.value() > other.value(),
            r == -1 || r == 0 || r == 1,
    {
        proof {
            use_type_invariant(self);
            use_type_invariant(other);
        }
        let ghost s = self.bits@;
        let ghost t = other.bits@;
        if self.bits.len() < other.bits.len() {
            proof {
                lemma_bits_bound(s);
                lemma_bits_top(t);
                if s.len() < t.len() - 1 {
                    lemma_pow2_strictly_increases(s.len(), (t.len() - 1) as nat);
                }
            }
            return -1;
        }
        if self.bits.len() > other.bits.len() {
            proof {
                lemma_bits_bound(t);
                lemma_bits_top(s);
                if t.len() < s.len() - 1 {
                    lemma_pow2_strictly_increases(t.len(), (s.len() - 1) as nat);
                }
            }
            return 1;
        }
        let mut k: usize = self.bits.len();
        while k > 0
            invariant
                s == self.bits@,
                t == other.bits@,
                s.len() == t.len(),
                k <= s.len(),
                s.subrange(k as int, s.len() as int) == t.subrange(k as int, t.len() as int),
            decreases k,
        {
            let x = self.bits[k - 1];
            let y = other.bits[k - 1];
            if x != y {
                proof {
                    if x {
                        lemma_bits_differ(s, t, k - 1);
                    } else {
                        lemma_bits_differ(t, s, k - 1);
                    }
                }
                if x {
                    return 1;
                } else {
                    return -1;
                }
            }
            proof {
                assert(s.subrange(k - 1, s.len() as int) =~= seq![x] + s.subrange(
                    k as int,
                    s.len() as int,
                ));
                assert(t.subrange(k - 1, t.len() as int) =~= seq![y] + t.subrange(
                    k as int,
                    t.len() as int,
                ));
            }
            k = k - 1;
        }
        proof {
            assert(s =~= s.subrange(0, s.len() as int));
            assert(t =~= t.subrange(0, t.len() as int));
        }
        0
    }

    /// Orders the two values.
    pub fn cmp(&self, other: &BigUint) -> (r: std::cmp::Ordering)
        ensures
            match r {
                std::cmp::Ordering::Less => self.value() < other.value(),
                std::cmp::Ordering::Equal => self.value() == other.value(),
                std::cmp::Ordering::Greater => self.value() > other.value(),
            },
    {
        let c = self.compare(other);
        if c < 0 {
            std::cmp::Ordering::Less
        } else if c == 0 {
            std::cmp::Ordering::Equal
        } else {
            std::cmp::Ordering::Greater
        }
    }

    /// The difference of the two values, the first at least the second.
    fn sub(a: &BigUint, b: &BigUint) -> (r: BigUint)
        requires
            a.value() >= b.value(),
        ensures
            r.value() == a.value() - b.value(),
    {
        proof {
            use_type_invariant(a);
            use_type_invariant(b);
        }
        let ghost sa = a.bits@;
        let ghost sb = b.bits@;
        proof {
            if sb.len() > sa.len() {
                lemma_bits_bound(sa);
                lemma_bits_top(sb);
                if sa.len() < sb.len() - 1 {
                    lemma_pow2_strictly_increases(sa.len(), (sb.len() - 1) as nat);
                }
            }
        }
        let n = a.bits.len();
        let mut out: Vec<bool> = Vec::new();
        let mut br = false;
        let mut k: usize = 0;
        proof {
            lemma_low_bits_zero(sa);
            lemma_low_bits_zero(sb);
            lemma_pow2_zero();
            assert(bits_value(out@) == 0);
        }
        while k < n
            invariant
                sa == a.bits@,
                sb == b.bits@,
                n == sa.len(),
                sb.len() <= n,
                k <= n,
                out@.len() == k,
                bits_value(out@) - pow2(k as nat) * bit_val(br) == low_bits(sa, k as int)
                    - low_bits(sb, k as int),
            decreases n - k,
        {
            let x = a.bits[k];
            let y = k < b.bits.len() && b.bits[k];
            let bit = x ^ y ^ br;
            let borrow = (!x && (y || br)) || (x && y && br);
            let ghost before = out@;
            out.push(bit);
            proof {
                lemma_bits_push(before, bit);
                lemma_low_bits_step(sa, k as int);
                lemma_low_bits_step(sb, k as int);
                assert(x == bit_at(sa, k as int));
                assert(y == bit_at(sb, k as int));
                lemma_pow2_unfold((k + 1) as nat);
                let p = pow2(k as nat);
                let q = pow2((k + 1) as nat);
                assert(bit_val(bit) - 2 * bit_val(borrow) == bit_val(x) - bit_val(y) - bit_val(br));
                assert(p * bit_val(bit) - q * bit_val(borrow) == p * bit_val(x) - p * bit_val(y)
                    - p * bit_val(br)) by (nonlinear_arith)
                    requires
                        q == 2 * p,
                        bit_val(bit) - 2 * bit_val(borrow) == bit_val(x) - bit_val(y) - bit_val(br),
                ;
            }
            br = borrow;
            k = k + 1;
        }
        proof {
            lemma_low_bits_all(sa, n as int);
            lemma_low_bits_all(sb, n as int);
            lemma_bits_bound(out@);
            if br {
                assert(false);
            }
            let p = pow2(n as nat);
            assert(p * 0 == 0) by (nonlinear_arith);
        }
        Self::from_bits(out)
    }

    /// Subtracts `other`, which is at most the value.
    pub fn sub_assign(&mut self, other: &BigUint)
        requires
            old(self).value() >= other.value(),
        ensures
            final(self).value() == old(self).value() - other.value(),
    {
        let r = Self::sub(self, other);
        *self = r;
    }

    /// Quotient and remainder, by shift and subtract.
    pub fn divrem(&self, den: &BigUint) -> (r: (BigUint, BigUint))
        requires
            den.value() > 0,
        ensures
            r.0.value() == self.value() / den.value(),
            r.1.value() == self.value() % den.value(),
    {
        let ghost a = self.value();
        let ghost d0 = den.value();
        if self.compare(den) < 0 {
            proof {
                lemma_fundamental_div_mod_converse(a as int, d0 as int, 0, a as int);
            }
            return (Self::zero(), self.duplicate());
        }
        let la = self.bit_len();
        let ld = den.bit_len();
        proof {
            lemma_bitlen(a);
            lemma_bitlen(d0);
            if la < ld {
                if la < ld - 1 {
                    lemma_pow2_strictly_increases(la as nat, (ld - 1) as nat);
                }
                assert(false);
            }
        }
        let shift = la - ld;
        let mut rem = self.duplicate();
        let mut q = Self::zero();
        let mut d = den.shl(shift);
        let mut k: u64 = shift + 1;
        proof {
            lemma_pow2_adds(k as nat, (ld - 1) as nat);
            let p = pow2(k as nat);
            let h = pow2((ld - 1) as nat);
            assert(p * h <= d0 * p) by (nonlinear_arith)
                requires
                    h <= d0,
            ;
            assert(0 * d0 * p == 0) by (nonlinear_arith);
            let ps = pow2(shift as nat);
            assert(d0 * ps == d0 * pow2((k - 1) as nat));
        }
        while k > 0
            invariant
                a == q.value() * d0 * pow2(k as nat) + rem.value(),
                rem.value() < d0 * pow2(k as nat),
                k >= 1 ==> d.value() == d0 * pow2((k - 1) as nat),
                d0 > 0,
            decreases k,
        {
            let ghost q0 = q.value();
            let ghost r0 = rem.value();
            let ghost dv = d.value();
            let take = rem.compare(&d) >= 0;
            if take {
                rem.sub_assign(&d);
            }
            q = q.shl(1);
            if take {
                q.add_one();
            }
            d = d.shr(1);
            k = k - 1;
            proof {
                lemma_pow2_unfold((k + 1) as nat);
                lemma_pow2_zero();
                lemma_pow2_unfold(1);
                assert(pow2(1) == 2);
                let p = pow2(k as nat);
                let b = bit_val(take);
                assert(q.value() == q0 * 2 + b);
                assert(rem.value() == r0 - b * dv);
                assert(dv == d0 * p);
                assert(d0 * (2 * p) == 2 * (d0 * p)) by (nonlinear_arith);
                assert(q0 * d0 * (2 * p) + r0 == (q0 * 2 + b) * d0 * p + (r0 - b * (d0 * p))) by (
                nonlinear_arith);
                if k >= 1 {
                    lemma_pow2_unfold(k as nat);
                    let h = pow2((k - 1) as nat);
                    assert(d0 * p == (d0 * h) * 2) by (nonlinear_arith)
                        requires
                            p == 2 * h,
                    ;
                    lemma_fundamental_div_mod_converse(dv as int, 2, (d0 * h) as int, 0);
                }
            }
        }
        proof {
            lemma_pow2_zero();
            assert(q.value() * d0 * 1 == q.value() * d0) by (nonlinear_arith);
            assert(d0 * 1 == d0);
            lemma_fundamental_div_mod_converse(
                a as int,
                d0 as int,
                q.value() as int,
                rem.value() as int,
            );
        }
        (q, rem)
    }

    /// Exactly `5^k`.
    pub fn pow5_exact(k: u64) -> (r: BigUint)
        ensures
            r.value() == pow(5, k as nat),
    {
        let mut result = Self::from_u64(1);
        let mut base = Self::from_u64(5);
        let mut n: u64 = k;
        while n > 0
            invariant
                result.value() * pow(base.value() as int, n as nat) == pow(5, k as nat),
            decreases n,
        {
            let ghost b = base.value() as int;
            let ghost r0 = result.value() as int;
            let ghost n0 = n as nat;
            let ghost h = (n0 / 2) as nat;
            let ghost o = (n0 % 2) as nat;
            if n % 2 == 1 {
                result = result.mul(&base);
            }
            n = n / 2;
            if n > 0 {
                base = base.mul(&base);
            }
            proof {
                lemma_pow_adds(b, 2 * h, o);
                assert(n0 == 2 * h + o);
                lemma_pow_multiplies(b, 2, h);
                lemma_square_is_pow2(b);
                lemma_pow0(b);
                lemma_pow1(b);
                lemma_pow0(b * b);
                let big = pow(b * b, h);
                assert(pow(b, n0) == big * pow(b, o));
                if o == 1 {
                    assert(result.value() == r0 * b);
                    assert(r0 * (big * b) == (r0 * b) * big) by (nonlinear_arith);
                } else {
                    assert(r0 * (big * 1) == r0 * big) by (nonlinear_arith);
                }
                if n == 0 {
                    assert(h == 0);
                    lemma_pow0(base.value() as int);
                } else {
                    assert(base.value() == b * b);
                }
            }
        }
        proof {
            lemma_pow0(base.value() as int);
            let rv = result.value() as int;
            assert(rv * 1 == rv);
        }
        result
    }

    /// The value modulo 256.
    fn low_byte(&self) -> (r: u8)
        ensures
            r == self.value() % 256,
    {
        let ghost s = self.bits@;
        let m: usize = if self.bits.len() > 8 {
            8
        } else {
            self.bits.len()
        };
        let mut r: u32 = 0;
        let mut p: u32 = 1;
        let mut k: usize = 0;
        proof {
            lemma_pow2_zero();
            assert(s.subrange(0, 0) =~= Seq::<bool>::empty());
        }
        while k < m
            invariant
                s == self.bits@,
                m <= 8,
                m <= s.len(),
                k <= m,
                p == pow2(k as nat),
                r == bits_value(s.subrange(0, k as int)),
                r < pow2(k as nat),
            decreases m - k,
        {
            proof {
                assert(s.subrange(0, k + 1) =~= s.subrange(0, k as int).push(s[k as int]));
                lemma_bits_push(s.subrange(0, k as int), s[k as int]);
                lemma_pow2_unfold((k + 1) as nat);
                lemma2_to64();
                if k < 8 {
                    lemma_pow2_strictly_increases(k as nat, 8);
                }
            }
            let ghost r0 = r;
            let ghost p0 = p;
            let bk = self.bits[k];
            if bk {
                r = r + p;
            }
            proof {
                let x = bit_val(bk);
                assert(p0 * x == if bk {
                    p0
                } else {
                    0
                }) by (nonlinear_arith)
                    requires
                        x == if bk {
                            1int
                        } else {
                            0int
                        },
                ;
                assert(r == bits_value(s.subrange(0, k + 1)));
            }
            p = p * 2;
            k = k + 1;
        }
        proof {
            lemma2_to64();
            self.lemma_low_mod(8, m as int);
            if m < 8 {
                lemma_pow2_strictly_increases(m as nat, 8);
            }
        }
        r as u8
    }

    /// The big-endian bytes of the value without leading zeros; empty for
    /// zero.
    pub fn to_be_bytes(&self) -> (r: Vec<u8>)
        ensures
            r@ == canonical_be(self.value()),
    {
        let ghost total = self.value();
        let mut cur = self.duplicate();
        let mut acc: Vec<u8> = Vec::new();
        assert(canonical_be(total) + acc@ =~= canonical_be(total));
        while !cur.is_zero()
            invariant
                canonical_be(total) == canonical_be(cur.value()) + acc@,
            decreases cur.value(),
        {
            let ghost v = cur.value();
            let b = cur.low_byte();
            acc.insert(0, b);
            cur = cur.shr(8);
            proof {
                lemma2_to64();
                assert(canonical_be(v) == canonical_be(v / 256).push((v % 256) as u8));
                assert(canonical_be(v / 256).push((v % 256) as u8) + acc@.drop_first()
                    =~= canonical_be(v / 256) + acc@);
            }
        }
        proof {
            assert(canonical_be(0) == Seq::<u8>::empty());
            assert(Seq::<u8>::empty() + acc@ =~= acc@);
        }
        acc
    }

    /// The value in decimal.
    pub fn to_decimal_string(&self) -> (r: String)
        ensures
            r@ == decimal_chars(self.value()),
    {
        let b = self.to_be_bytes();
        proof {
            lemma_canonical_be_value(self.value());
        }
        be_bytes_to_decimal(b.as_slice())
    }

    pub fn from_u64(v: u64) -> (r: BigUint)
        ensures
            r.value() == v,
    {
        proof {
            lemma2_to64();
            lemma_pow2_zero();
        }
        let mut out: Vec<bool> = Vec::new();
        let mut cur: u64 = v;
        assert(bits_value(out@) == 0);
        assert(pow2(0) * cur == cur);
        while cur > 0
            invariant
                bits_value(out@) + pow2(out@.len()) * cur == v,
                out@.len() <= 64,
                cur < pow2((64 - out@.len()) as nat),
                cur == 0 ==> (out@.len() == 0 || out@.last()),
            decreases cur,
        {
            let b = cur % 2 == 1;
            let ghost before = out@;
            proof {
                if before.len() == 64 {
                    lemma_pow2_zero();
                }
                lemma_pow2_unfold((64 - before.len()) as nat);
            }
            out.push(b);
            proof {
                lemma_bits_push(before, b);
                let p = pow2(before.len());
                lemma_pow2_unfold(out@.len());
                assert(p * (cur as int) == p * bit_val(b) + pow2(out@.len()) * (cur / 2)) by (
                nonlinear_arith)
                    requires
                        pow2(out@.len()) == 2 * p,
                        cur as int == 2 * (cur / 2) + bit_val(b),
                ;
            }
            cur = cur / 2;
        }
        BigUint { bits: out }
    }
}

} // verus!

verus! {

// ---------------------------------------------------------------- Fl
/// The exponent range of `math/big`'s floats.
pub const MAX_EXP: i64 = 2147483647;

pub const MIN_EXP: i64 = -2147483648;

/// A `math/big` float as a number: zero, infinity, or `0.m × 2^e` with `m`
/// read as a `p`-bit binary fraction, that is `m × 2^(e − p)`.
pub enum FlVal {
    Zero,
    Inf,
    Fin(nat, int, nat),
}

/// `m × 2^e` read as a `0.m` binary fraction, rounded to `p` bits to the
/// nearest, ties to even; `sticky` tells whether non-zero bits below `m`
/// were dropped before. Out of the exponent range the value becomes zero
/// below and infinity above. This is `math/big`'s `setExpAndRound`.
pub open spec fn round_spec(m: nat, e: int, p: nat, sticky: bool) -> FlVal {
    if m == 0 || e < MIN_EXP {
        FlVal::Zero
    } else if e > MAX_EXP {
        FlVal::Inf
    } else if bitlen(m) <= p {
        FlVal::Fin(m * pow2((p - bitlen(m)) as nat), e, p)
    } else {
        let r = (bitlen(m) - p - 1) as nat;
        let rbit = (m / pow2(r)) % 2 == 1;
        let sbit = sticky || m % pow2(r) != 0;
        let kept = m / pow2((bitlen(m) - p) as nat);
        if rbit && (sbit || kept % 2 == 1) {
            if bitlen(kept + 1) > p {
                if e >= MAX_EXP {
                    FlVal::Inf
                } else {
                    FlVal::Fin(((kept + 1) / 2) as nat, e + 1, p)
                }
            } else {
                FlVal::Fin(kept + 1, e, p)
            }
        } else {
            FlVal::Fin(kept, e, p)
        }
    }
}

/// An integer as a float of `p` bits.
pub open spec fn from_u64_spec(v: nat, p: nat) -> FlVal {
    round_spec(v, bitlen(v) as int, p, false)
}

/// `math/big`'s `Float.Mul` at precision `p`: the exact product, rounded.
pub open spec fn mul_spec(x: FlVal, y: FlVal, p: nat) -> FlVal {
    if x is Zero || y is Zero {
        FlVal::Zero
    } else if x is Inf || y is Inf {
        FlVal::Inf
    } else {
        let (xm, xe, xp) = (x->0, x->1, x->2);
        let (ym, ye, yp) = (y->0, y->1, y->2);
        round_spec(xm * ym, xe + ye - xp - yp + bitlen(xm * ym), p, false)
    }
}

/// `math/big`'s `Float.Quo` at precision `p`: a quotient of at least `p + 2`
/// bits, rounded with the remainder standing in for the dropped bits.
pub open spec fn quo_spec(x: FlVal, y: FlVal, p: nat) -> FlVal {
    if x is Zero || y is Inf {
        FlVal::Zero
    } else if x is Inf || y is Zero {
        FlVal::Inf
    } else {
        let (xm, xe, xp) = (x->0, x->1, x->2);
        let (ym, ye, yp) = (y->0, y->1, y->2);
        let s = p + 2 + bitlen(ym) - bitlen(xm);
        let num = if s >= 0 {
            xm * pow2(s as nat)
        } else {
            xm
        };
        let den = if s >= 0 {
            ym
        } else {
            ym * pow2((-s) as nat)
        };
        let q = num / den;
        round_spec(q, xe - ye - xp + yp - s + bitlen(q), p, num % den != 0)
    }
}

/// The square-and-multiply loop of `math/big`'s `pow5`: the multiplier is
/// squared at `p + 64` bits, each product into the result rounded to `p`.
pub open spec fn pow5_loop(z: FlVal, f: FlVal, n: nat, p: nat) -> FlVal
    decreases n,
{
    if n == 0 {
        z
    } else {
        let z2 = if n % 2 == 1 {
            mul_spec(z, f, p)
        } else {
            z
        };
        pow5_loop(z2, mul_spec(f, f, p + 64), n / 2, p)
    }
}

/// `math/big`'s `pow5(n)` at precision `p`: exact up to `5^27`, then
/// square-and-multiply with every step rounded.
pub open spec fn pow5_spec(n: nat, p: nat) -> FlVal {
    if n <= 27 {
        from_u64_spec(pow(5, n) as nat, p)
    } else {
        pow5_loop(
            from_u64_spec(pow(5, 27) as nat, p),
            from_u64_spec(5, p + 64),
            (n - 27) as nat,
            p,
        )
    }
}

/// `5^n` for the exponents whose power fits a `u64`.
fn pow5_u64(n: u64) -> (r: u64)
    requires
        n <= 27,
    ensures
        r == pow(5, n as nat),
{
    proof {
        assert(pow(5, 27) == 7450580596923828125) by {
            reveal_with_fuel(pow, 28);
        }
        lemma_pow0(5);
    }
    let mut r: u64 = 1;
    let mut k: u64 = 0;
    while k < n
        invariant
            k <= n <= 27,
            r == pow(5, k as nat),
            r * pow(5, (27 - k) as nat) == 7450580596923828125,
        decreases n - k,
    {
        proof {
            reveal(pow);
            let t = pow(5, (26 - k) as nat);
            assert(pow(5, (27 - k) as nat) == 5 * t);
            assert(pow(5, (k + 1) as nat) == 5 * pow(5, k as nat));
            vstd::arithmetic::power::lemma_pow_positive(5, (26 - k) as nat);
            assert(r * 5 <= r * 5 * t) by (nonlinear_arith)
                requires
                    t >= 1,
                    r >= 0,
            ;
            assert(r * (5 * t) == (r * 5) * t) by (nonlinear_arith);
        }
        r = r * 5;
        k = k + 1;
    }
    r
}

/// A `math/big`-shaped float: `mant` has exactly `prec` bits with the top
/// one set, and the value is `mant × 2^(exp − prec)`.
pub enum Fl {
    Zero,
    Inf,
    Finite { mant: BigUint, exp: i64, prec: u32 },
}

pub open spec fn fl_view(f: Fl) -> FlVal {
    match f {
        Fl::Zero => FlVal::Zero,
        Fl::Inf => FlVal::Inf,
        Fl::Finite { mant, exp, prec } => FlVal::Fin(mant.value(), exp as int, prec as nat),
    }
}

/// The shape every float keeps: a finite one has a normalized mantissa of
/// its precision and an exponent in range.
pub open spec fn fl_wf(f: Fl) -> bool {
    match f {
        Fl::Finite { mant, exp, prec } => prec > 0 && bitlen(mant.value()) == prec && MIN_EXP
            <= exp <= MAX_EXP,
        _ => true,
    }
}

impl Fl {
    /// An integer as a float of `prec` bits.
    pub fn from_u64(v: u64, prec: u32) -> (r: Fl)
        requires
            prec > 0,
        ensures
            fl_view(r) == from_u64_spec(v as nat, prec as nat),
            fl_wf(r),
            r matches Fl::Finite { prec: q, .. } ==> q == prec,
    {
        let m = BigUint::from_u64(v);
        let bits = m.bit_len();
        proof {
            lemma_bitlen(v as nat);
            lemma2_to64();
            if bitlen(v as nat) > 64 {
                lemma_pow2_strictly_increases(64, (bitlen(v as nat) - 1) as nat);
            }
        }
        Fl::round_into(m, bits as i64, prec, false)
    }

    /// The product, rounded to `prec` bits.
    pub fn mul(&self, other: &Fl, prec: u32) -> (r: Fl)
        requires
            fl_wf(*self),
            fl_wf(*other),
            prec > 0,
        ensures
            fl_view(r) == mul_spec(fl_view(*self), fl_view(*other), prec as nat),
            fl_wf(r),
            r matches Fl::Finite { prec: q, .. } ==> q == prec,
    {
        match (self, other) {
            (Fl::Zero, _) => Fl::Zero,
            (_, Fl::Zero) => Fl::Zero,
            (Fl::Inf, _) => Fl::Inf,
            (_, Fl::Inf) => Fl::Inf,
            (
                Fl::Finite { mant: xm, exp: xe, prec: xp },
                Fl::Finite { mant: ym, exp: ye, prec: yp },
            ) => {
                let product = xm.mul(ym);
                let pb = product.bit_len();
                proof {
                    lemma_bitlen_mul(xm.value(), ym.value());
                }
                let exp = *xe + *ye - (*xp as i64) - (*yp as i64) + (pb as i64);
                Fl::round_into(product, exp, prec, false)
            },
        }
    }

    /// The quotient, correctly rounded to `prec` bits.
    pub fn quo(&self, other: &Fl, prec: u32) -> (r: Fl)
        requires
            fl_wf(*self),
            fl_wf(*other),
            prec > 0,
            *other matches Fl::Finite { prec: yp, .. } ==> prec + 2 + yp <= u32::MAX,
        ensures
            fl_view(r) == quo_spec(fl_view(*self), fl_view(*other), prec as nat),
            fl_wf(r),
    {
        match (self, other) {
            (Fl::Zero, _) => Fl::Zero,
            (_, Fl::Inf) => Fl::Zero,
            (Fl::Inf, _) => Fl::Inf,
            (_, Fl::Zero) => Fl::Inf,
            (
                Fl::Finite { mant: xm, exp: xe, prec: xp },
                Fl::Finite { mant: ym, exp: ye, prec: yp },
            ) => {
                let want = (prec as i64) + 2;
                let s = want + (ym.bit_len() as i64) - (xm.bit_len() as i64);
                let (num, den) = if s >= 0 {
                    (xm.shl(s as u64), ym.duplicate())
                } else {
                    (xm.duplicate(), ym.shl((-s) as u64))
                };
                proof {
                    lemma_bitlen(ym.value());
                    lemma_pow2_pos((-s) as nat);
                    if s < 0 {
                        let a = ym.value();
                        let b = pow2((-s) as nat);
                        assert(a * b > 0) by (nonlinear_arith)
                            requires
                                a > 0,
                                b > 0,
                        ;
                    }
                }
                let (q, rem) = num.divrem(&den);
                proof {
                    lemma_bitlen_mono(q.value(), num.value());
                    vstd::arithmetic::div_mod::lemma_div_is_ordered_by_denominator(
                        num.value() as int,
                        1,
                        den.value() as int,
                    );
                    vstd::arithmetic::div_mod::lemma_div_basics(num.value() as int);
                    if s >= 0 {
                        lemma_bitlen_shl(xm.value(), s as nat);
                    }
                }
                let exp = *xe - *ye - (*xp as i64) + (*yp as i64) - s + (q.bit_len() as i64);
                Fl::round_into(q, exp, prec, !rem.is_zero())
            },
        }
    }

    /// Rounds `0.mant × 2^exp` to `prec` bits, to nearest even.
    pub fn round_into(mant: BigUint, exp: i64, prec: u32, sticky: bool) -> (r: Fl)
        requires
            prec > 0,
        ensures
            fl_view(r) == round_spec(mant.value(), exp as int, prec as nat, sticky),
            fl_wf(r),
            r matches Fl::Finite { prec: q, .. } ==> q == prec,
    {
        let ghost m = mant.value();
        if mant.is_zero() {
            return Fl::Zero;
        }
        if exp < MIN_EXP {
            return Fl::Zero;
        }
        if exp > MAX_EXP {
            return Fl::Inf;
        }
        let bits = mant.bit_len();
        let prec64 = prec as u64;
        if bits <= prec64 {
            let out = mant.shl(prec64 - bits);
            proof {
                lemma_bitlen_shl(m, (prec - bits) as nat);
            }
            return Fl::Finite { mant: out, exp, prec };
        }
        let r = bits - prec64 - 1;
        let rbit = mant.bit(r);
        let sbit = sticky || mant.any_bit_below(r);
        let mut kept = mant.shr(bits - prec64);
        let mut exp = exp;
        proof {
            lemma_bitlen_shr(m, (bits - prec) as nat);
        }
        if rbit && (sbit || kept.lsb()) {
            let ghost k0 = kept.value();
            kept.add_one();
            if kept.bit_len() > prec64 {
                if exp >= MAX_EXP {
                    return Fl::Inf;
                }
                exp = exp + 1;
                kept = kept.shr(1);
                proof {
                    lemma_pow2_unfold(1);
                    lemma_pow2_zero();
                    lemma_bitlen_carry(k0, prec as nat);
                }
            } else {
                proof {
                    lemma_bitlen_mono(k0, k0 + 1);
                }
            }
        }
        Fl::Finite { mant: kept, exp, prec }
    }
}


/// `math/big`'s `pow5(n)` at precision `prec`: exact up to `5^27`, then
/// square-and-multiply with the multiplier held at `prec + 64` bits, every
/// product rounded.
pub fn pow5(n: u64, prec: u32) -> (r: Fl)
    requires
        0 < prec,
        prec + 64 <= u32::MAX,
    ensures
        fl_view(r) == pow5_spec(n as nat, prec as nat),
        fl_wf(r),
        r matches Fl::Finite { prec: q, .. } ==> q == prec,
{
    let ghost old_n = n;
    if n <= 27 {
        return Fl::from_u64(pow5_u64(n), prec);
    }
    let mut z = Fl::from_u64(pow5_u64(27), prec);
    let mut n = n - 27;
    let mut f = Fl::from_u64(5, prec + 64);
    while n > 0
        invariant
            fl_wf(z),
            fl_wf(f),
            z matches Fl::Finite { prec: q, .. } ==> q == prec,
            0 < prec,
            prec + 64 <= u32::MAX,
            pow5_loop(fl_view(z), fl_view(f), n as nat, prec as nat) == pow5_spec(
                old_n as nat,
                prec as nat,
            ),
        decreases n,
    {
        if n % 2 == 1 {
            z = z.mul(&f, prec);
        }
        f = f.mul(&f, prec + 64);
        n = n / 2;
    }
    z
}

} // verus!

verus! {

// ---------------------------------------------------------------- parsing
/// The precision a PXF `BigFloat` literal is parsed at, in bits.
pub const BIG_FLOAT_PREC: u32 = 256;

/// A parsed `pxf.BigFloat` literal, as the wire message carries it.
#[derive(Debug, Clone, PartialEq, Eq)]
pub struct BigFloatLit {
    /// Unsigned big-endian mantissa; empty for zero. For a non-zero value it
    /// is exactly [`BIG_FLOAT_PREC`] bits with the top bit set.
    pub mantissa: Vec<u8>,
    /// Binary exponent: value = mantissa × 2^exponent.
    pub exponent: i32,
    pub prec: u32,
    pub negative: bool,
}

/// The first index in `i..end` holding an exponent marker `e` or `E`, or
/// `end`.
pub open spec fn marker_from(b: Seq<u8>, i: int, end: int) -> int
    decreases end - i,
{
    if i < end && b[i] != 101 && b[i] != 69 {
        marker_from(b, i + 1, end)
    } else {
        i
    }
}

/// The first index in `i..end` holding a `.`, or `end`.
pub open spec fn dot_from(b: Seq<u8>, i: int, end: int) -> int
    decreases end - i,
{
    if i < end && b[i] != 46 {
        dot_from(b, i + 1, end)
    } else {
        i
    }
}

/// Where a literal's parts lie: the start after an optional `-`, the
/// exponent marker (or the length), and the point (or the marker).
pub open spec fn literal_marks(b: Seq<u8>) -> (int, int, int) {
    let start: int = if b.len() > 0 && b[0] == 45 {
        1
    } else {
        0
    };
    let ei = marker_from(b, start, b.len() as int);
    (start, ei, dot_from(b, start, ei))
}

/// The signed decimal exponent after the marker at `ei`: `None` when it is
/// malformed or its magnitude is beyond `i64`.
pub open spec fn exponent_of(b: Seq<u8>, ei: int) -> Option<int> {
    if ei >= b.len() {
        Some(0)
    } else {
        let k = ei + 1;
        let ds: int = if k < b.len() && (b[k] == 43 || b[k] == 45) {
            k + 1
        } else {
            k
        };
        let digits = b.subrange(ds, b.len() as int);
        if digits.len() == 0 || !all_ascii_digits(digits) || digits_value(digits) > i64::MAX {
            None
        } else if k < b.len() && b[k] == 45 {
            Some(-digits_value(digits))
        } else {
            Some(digits_value(digits) as int)
        }
    }
}

/// The number a literal reads as, before it meets the wire; `None` when the
/// literal is malformed or its exponent is out of `math/big`'s range.
pub open spec fn literal_value(b: Seq<u8>) -> Option<FlVal> {
    let (start, ei, dot) = literal_marks(b);
    let ip = b.subrange(start, dot);
    let fp = if dot < ei {
        b.subrange(dot + 1, ei)
    } else {
        seq![]
    };
    if (ip.len() == 0 && fp.len() == 0) || !all_ascii_digits(ip) || !all_ascii_digits(fp) {
        None
    } else {
        match exponent_of(b, ei) {
            None => None,
            Some(e10) => float_of(digits_value(ip + fp), fp.len(), e10),
        }
    }
}

/// The float `d × 10^(e10 − flen)` reads as at 256 bits; `None` when its
/// binary exponent is out of range.
pub open spec fn float_of(d: nat, flen: nat, e10: int) -> Option<FlVal> {
    let exp5 = e10 - flen;
    let exp2 = bitlen(d) + exp5;
    if d == 0 {
        Some(FlVal::Zero)
    } else if exp5 < i64::MIN || exp2 < MIN_EXP || exp2 > MAX_EXP {
        None
    } else if exp5 == 0 {
        Some(round_spec(d, exp2, 256, false))
    } else if exp5 < 0 {
        Some(quo_spec(FlVal::Fin(d, exp2, bitlen(d)), pow5_spec((-exp5) as nat, 320), 256))
    } else {
        Some(mul_spec(FlVal::Fin(d, exp2, bitlen(d)), pow5_spec(exp5 as nat, 320), 256))
    }
}

/// Whether the mantissa part (before any exponent marker) has a digit other
/// than zero.
pub open spec fn nonzero_mantissa(b: Seq<u8>) -> bool {
    let (start, ei, dot) = literal_marks(b);
    exists|j: int| start <= j < ei && 49 <= #[trigger] b[j] <= 57
}

/// The literal cut to 24 characters for a message.
pub open spec fn clipped(s: Seq<char>) -> Seq<char> {
    if s.len() <= 24 {
        s
    } else {
        s.subrange(0, 24) + "…"@
    }
}

pub open spec fn invalid_big_float(s: Seq<char>) -> Seq<char> {
    "invalid big float: "@ + s
}

/// What a `pxf.BigFloat` literal parses to: the wire fields (mantissa,
/// exponent, precision, sign) or the message of the error.
pub open spec fn big_float_outcome(s: Seq<char>, b: Seq<u8>, max: nat) -> Result<
    (Seq<u8>, int, nat, bool),
    Seq<char>,
> {
    let negative = b.len() > 0 && b[0] == 45;
    if over_digit_limit(b, max) {
        Err(digit_limit_error(count_digits(b), max))
    } else {
        match literal_value(b) {
            None => Err(invalid_big_float(s)),
            Some(v) => lit_outcome(v, s, nonzero_mantissa(b), negative),
        }
    }
}

/// What a literal of value `v` becomes on the wire, or the range error.
pub open spec fn lit_outcome(v: FlVal, s: Seq<char>, nonzero: bool, negative: bool) -> Result<
    (Seq<u8>, int, nat, bool),
    Seq<char>,
> {
    match v {
        FlVal::Inf => Err("big float literal "@ + clipped(s) + " is above big.Float's range"@),
        FlVal::Zero => if nonzero {
            Err("big float literal "@ + clipped(s) + " is below big.Float's range"@)
        } else {
            Ok((seq![], -256, 256, negative))
        },
        FlVal::Fin(m, e, p) => if e - p < MIN_EXP {
            Err("big float literal "@ + clipped(s) + " is below the wire's exponent range"@)
        } else {
            Ok((canonical_be(m), e - p, p, negative))
        },
    }
}



/// Digits stand for less than `2^(4n)`, `n` their count.
proof fn lemma_digits_bits(x: Seq<u8>)
    requires
        all_ascii_digits(x),
    ensures
        digits_value(x) < pow2(4 * x.len()),
    decreases x.len(),
{
    if x.len() == 0 {
        lemma_pow2_zero();
    } else {
        let y = x.drop_last();
        assert(all_ascii_digits(y)) by {
            assert forall|i: int| 0 <= i < y.len() implies crate::pxf::bignum::is_ascii_digit(
                #[trigger] y[i],
            ) by {
                assert(y[i] == x[i]);
            }
        }
        lemma_digits_bits(y);
        assert(crate::pxf::bignum::is_ascii_digit(x[x.len() - 1]));
        lemma_pow2_adds(4 * y.len(), 4);
        assert(pow2(4) == 16) by {
            lemma2_to64();
        }
        assert(4 * y.len() + 4 == 4 * x.len());
    }
}

/// Digit prefixes do not spell more than the whole.
proof fn lemma_digits_prefix(x: Seq<u8>, k: int)
    requires
        0 <= k <= x.len(),
    ensures
        digits_value(x.subrange(0, k)) <= digits_value(x),
    decreases x.len() - k,
{
    if k < x.len() {
        lemma_digits_prefix(x, k + 1);
        assert(x.subrange(0, k + 1).drop_last() =~= x.subrange(0, k));
    } else {
        assert(x.subrange(0, k) =~= x);
    }
}

fn scan_marker(b: &[u8], i: usize, end: usize) -> (r: usize)
    requires
        i <= end <= b@.len(),
    ensures
        r == marker_from(b@, i as int, end as int),
        i <= r <= end,
{
    let mut k = i;
    while k < end && b[k] != 101 && b[k] != 69
        invariant
            i <= k <= end <= b@.len(),
            marker_from(b@, k as int, end as int) == marker_from(b@, i as int, end as int),
        decreases end - k,
    {
        k = k + 1;
    }
    k
}

fn scan_dot(b: &[u8], i: usize, end: usize) -> (r: usize)
    requires
        i <= end <= b@.len(),
    ensures
        r == dot_from(b@, i as int, end as int),
        i <= r <= end,
{
    let mut k = i;
    while k < end && b[k] != 46
        invariant
            i <= k <= end <= b@.len(),
            dot_from(b@, k as int, end as int) == dot_from(b@, i as int, end as int),
        decreases end - k,
    {
        k = k + 1;
    }
    k
}

/// The exponent after the marker at `ei`, as [`exponent_of`] reads it.
fn parse_exponent(b: &[u8], ei: usize) -> (r: Option<i64>)
    requires
        ei <= b@.len(),
    ensures
        match exponent_of(b@, ei as int) {
            Some(e) => r == Some(e as i64) && i64::MIN <= e <= i64::MAX,
            None => r is None,
        },
{
    let n = b.len();
    if ei >= n {
        return Some(0);
    }
    let k = ei + 1;
    let negative = k < n && b[k] == 45;
    let ds = if k < n && (b[k] == 43 || b[k] == 45) {
        k + 1
    } else {
        k
    };
    if ds == n || !digits_in(b, ds, n) {
        return None;
    }
    let ghost digits = b@.subrange(ds as int, n as int);
    assert(exponent_of(b@, ei as int) == if digits_value(digits) > i64::MAX {
        None
    } else if negative {
        Some(-digits_value(digits))
    } else {
        Some(digits_value(digits) as int)
    });
    let mut v: i64 = 0;
    let mut j = ds;
    assert(digits.subrange(0, 0) =~= Seq::<u8>::empty());
    while j < n
        invariant
            ds <= j <= n,
            n == b@.len(),
            digits == b@.subrange(ds as int, n as int),
            all_ascii_digits(digits),
            v == digits_value(digits.subrange(0, j - ds)),
            digits_value(digits) > i64::MAX ==> exponent_of(b@, ei as int) is None,
        decreases n - j,
    {
        assert(crate::pxf::bignum::is_ascii_digit(digits[j - ds]));
        let dgt = (b[j] - 48) as i64;
        proof {
            assert(digits.subrange(0, j - ds + 1).drop_last() =~= digits.subrange(0, j - ds));
            assert(digits.subrange(0, j - ds + 1).last() == b@[j as int]);
            lemma_digits_prefix(digits, j - ds + 1);
            assert(digits_value(digits.subrange(0, j - ds + 1)) == v * 10 + dgt);
        }
        match v.checked_mul(10) {
            None => {
                assert(digits_value(digits) > i64::MAX);
                return None;
            },
            Some(t) => match t.checked_add(dgt) {
                None => {
                    assert(digits_value(digits) > i64::MAX);
                    return None;
                },
                Some(u) => {
                    v = u;
                },
            },
        }
        j = j + 1;
    }
    assert(digits.subrange(0, n - ds) =~= digits);
    if negative {
        Some(-v)
    } else {
        Some(v)
    }
}

/// The literal cut to 24 characters for a message.
fn clip_literal(s: &str) -> (r: String)
    ensures
        r@ == clipped(s@),
{
    let t = crate::text::chars_of(s);
    if t.len() <= 24 {
        return crate::text::owned(s);
    }
    let mut r = String::new();
    let mut k: usize = 0;
    while k < 24
        invariant
            k <= 24 < t@.len(),
            t@ == s@,
            r@ == s@.subrange(0, k as int),
        decreases 24 - k,
    {
        crate::text::push_char(&mut r, t[k]);
        k = k + 1;
        assert(r@ =~= s@.subrange(0, k as int));
    }
    crate::text::push_str(&mut r, "…");
    r
}

fn range_message(s: &str, tail: &str) -> (r: String)
    ensures
        r@ == "big float literal "@ + clipped(s@) + tail@,
{
    let mut m = crate::text::owned("big float literal ");
    crate::text::push_str(&mut m, clip_literal(s).as_str());
    crate::text::push_str(&mut m, tail);
    m
}

/// Whether a digit 1 to 9 stands in `start..ei`.
fn has_nonzero_digit(b: &[u8], start: usize, ei: usize) -> (r: bool)
    requires
        start <= ei <= b@.len(),
    ensures
        r == exists|j: int| start <= j < ei && 49 <= #[trigger] b@[j] <= 57,
{
    let mut k = start;
    while k < ei
        invariant
            start <= k <= ei <= b@.len(),
            forall|j: int| start <= j < k ==> !(49 <= #[trigger] b@[j] <= 57),
        decreases ei - k,
    {
        if b[k] >= 49 && b[k] <= 57 {
            return true;
        }
        k = k + 1;
    }
    false
}

/// The float `d × 10^(exp10 − frac_len)` reads as at 256 bits: `d` times or
/// divided by a power of five rounded to 320 bits, then rounded to 256;
/// `None` when the binary exponent is out of range.
fn literal_float(d: BigUint, frac_len: usize, exp10: i64) -> (r: Option<Fl>)
    requires
        d.value() < pow2(4 * 0x3fff_ffff),
        frac_len <= 0x3fff_ffff,
    ensures
        match float_of(d.value(), frac_len as nat, exp10 as int) {
            Some(v) => r matches Some(f) && fl_view(f) == v,
            None => r is None,
        },
        r matches Some(f) ==> fl_wf(f),
{
    let ghost dv = d.value();
    if d.is_zero() {
        return Some(Fl::Zero);
    }
    let fcount: i64 = -(frac_len as i64);
    let exp5 = match fcount.checked_add(exp10) {
        None => {
            return None;
        },
        Some(e) => e,
    };
    let bits = d.bit_len();
    proof {
        lemma_bitlen(dv);
        if bitlen(dv) > 4 * 0x3fff_ffff {
            lemma_pow2_strictly_increases(4 * 0x3fff_ffff, (bitlen(dv) - 1) as nat);
        }
    }
    let exp2 = match (bits as i64).checked_add(exp5) {
        None => {
            return None;
        },
        Some(e) => e,
    };
    if exp2 < MIN_EXP || exp2 > MAX_EXP {
        return None;
    }
    if exp5 == 0 {
        return Some(Fl::round_into(d, exp2, BIG_FLOAT_PREC, false));
    }
    let exact = Fl::Finite { mant: d.duplicate(), exp: exp2, prec: bits as u32 };
    if exp5 < 0 {
        let p = pow5((-exp5) as u64, BIG_FLOAT_PREC + 64);
        Some(exact.quo(&p, BIG_FLOAT_PREC))
    } else {
        let p = pow5(exp5 as u64, BIG_FLOAT_PREC + 64);
        Some(exact.mul(&p, BIG_FLOAT_PREC))
    }
}


/// The wire fields of a literal of value `value`, or the range error.
fn wire_literal(value: Fl, s: &str, nonzero: bool, negative: bool) -> (r: Result<
    BigFloatLit,
    String,
>)
    requires
        fl_wf(value),
    ensures
        match lit_outcome(fl_view(value), s@, nonzero, negative) {
            Ok((m, e, p, neg)) => r matches Ok(l) && l.mantissa@ == m && l.exponent == e && l.prec
                == p && l.negative == neg,
            Err(msg) => r matches Err(x) && x@ == msg,
        },
{
    match value {
        Fl::Inf => Err(range_message(s, " is above big.Float's range")),
        Fl::Zero => {
            if nonzero {
                Err(range_message(s, " is below big.Float's range"))
            } else {
                Ok(
                    BigFloatLit {
                        mantissa: Vec::new(),
                        exponent: -256,
                        prec: BIG_FLOAT_PREC,
                        negative,
                    },
                )
            }
        },
        Fl::Finite { mant, exp, prec } => {
            let wire_exp = exp - (prec as i64);
            if wire_exp < MIN_EXP {
                return Err(range_message(s, " is below the wire's exponent range"));
            }
            Ok(
                BigFloatLit {
                    mantissa: mant.to_be_bytes(),
                    exponent: wire_exp as i32,
                    prec,
                    negative,
                },
            )
        },
    }
}

/// Parses a `pxf.BigFloat` literal — an optional `-`, decimal digits with an
/// optional `.` fraction, and an optional `e` / `E` exponent — into the wire
/// message's fields, as `math/big` reads it at 256 bits. Literals longer
/// than `0x3fff_ffff` bytes are out: their bit count would not fit the
/// 32-bit precision field.
pub fn parse_big_float(s: &str, max_digits: usize) -> (r: Result<BigFloatLit, String>)
    requires
        s.spec_bytes().len() <= 0x3fff_ffff,
    ensures
        match big_float_outcome(s@, s.spec_bytes(), max_digits as nat) {
            Ok((m, e, p, neg)) => r matches Ok(l) && l.mantissa@ == m && l.exponent == e && l.prec
                == p && l.negative == neg,
            Err(msg) => r matches Err(x) && x@ == msg,
        },
{
    match check_literal_digits(s, max_digits) {
        Err(e) => {
            return Err(e);
        },
        Ok(()) => {},
    }
    let b = s.as_bytes();
    let n = b.len();
    let negative = n > 0 && b[0] == 45;
    let start: usize = if negative {
        1
    } else {
        0
    };
    let ei = scan_marker(b, start, n);
    let dot = scan_dot(b, start, ei);
    let frac_start = if dot < ei {
        dot + 1
    } else {
        ei
    };
    let ghost ip = b@.subrange(start as int, dot as int);
    let ghost fp = if dot < ei {
        b@.subrange(dot + 1, ei as int)
    } else {
        seq![]
    };
    assert(b@.subrange(frac_start as int, ei as int) == fp);
    if (dot == start && frac_start == ei) || !digits_in(b, start, dot) || !digits_in(
        b,
        frac_start,
        ei,
    ) {
        let mut m = crate::text::owned("invalid big float: ");
        crate::text::push_str(&mut m, s);
        return Err(m);
    }
    let exp10 = match parse_exponent(b, ei) {
        None => {
            let mut m = crate::text::owned("invalid big float: ");
            crate::text::push_str(&mut m, s);
            return Err(m);
        },
        Some(e) => e,
    };
    let mut digits = crate::text::bytes_range(b, start, dot);
    let mut fr = crate::text::bytes_range(b, frac_start, ei);
    let frac_len = fr.len();
    digits.append(&mut fr);
    proof {
        assert(digits@ == ip + fp);
        assert(all_ascii_digits(ip + fp)) by {
            assert forall|i: int| 0 <= i < (ip + fp).len() implies crate::pxf::bignum::is_ascii_digit(
                #[trigger] (ip + fp)[i],
            ) by {
                if i < ip.len() {
                    assert((ip + fp)[i] == ip[i]);
                } else {
                    assert((ip + fp)[i] == fp[i - ip.len()]);
                }
            }
        }
        lemma_digits_bits(ip + fp);
    }
    let d = BigUint::from_decimal_digits(digits.as_slice());
    proof {
        if 4 * digits@.len() < 4 * 0x3fff_ffff {
            lemma_pow2_strictly_increases(4 * digits@.len(), 4 * 0x3fff_ffff);
        }
    }
    let value = match literal_float(d, frac_len, exp10) {
        None => {
            let mut m = crate::text::owned("invalid big float: ");
            crate::text::push_str(&mut m, s);
            return Err(m);
        },
        Some(v) => v,
    };
    let nonzero = has_nonzero_digit(b, start, ei);
    wire_literal(value, s, nonzero, negative)
}

} // verus!

verus! {

// ---------------------------------------------------------------- text
pub open spec fn is_dchar(c: char) -> bool {
    48 <= (c as u32) <= 57
}

pub open spec fn all_dchars(d: Seq<char>) -> bool {
    forall|i: int| 0 <= i < d.len() ==> is_dchar(#[trigger] d[i])
}

/// The digits without their trailing zeros.
pub open spec fn trim_zeros(d: Seq<char>) -> Seq<char>
    decreases d.len(),
{
    if d.len() > 0 && d.last() == '0' {
        trim_zeros(d.drop_last())
    } else {
        d
    }
}

/// The decimal exponent that goes with trimmed digits: zero when none are
/// left.
pub open spec fn trimmed_exp(d: Seq<char>, dexp: int) -> int {
    if trim_zeros(d).len() == 0 {
        0
    } else {
        dexp
    }
}

/// Where a carry into digit `i - 1` stops: below the run of nines.
pub open spec fn carry_end(d: Seq<char>, i: int) -> int
    decreases i,
{
    if i > 0 && (d[i - 1] as u32) >= 57 {
        carry_end(d, i - 1)
    } else {
        i
    }
}

/// Whether cutting the digits to `n` rounds up: above half, or exactly half
/// with an odd digit before it.
pub open spec fn rounds_up(d: Seq<char>, n: int) -> bool {
    if d[n] == '5' && n + 1 == d.len() {
        n > 0 && ((d[n - 1] as u32) - 48) % 2 != 0
    } else {
        (d[n] as u32) >= 53
    }
}

/// The digits rounded to `n` significant digits, half to even, with their
/// decimal exponent.
pub open spec fn round_to(d: Seq<char>, dexp: int, n: int) -> (Seq<char>, int) {
    if n < d.len() {
        if rounds_up(d, n) {
            let i = carry_end(d, n);
            if i <= 0 {
                (seq!['1'], dexp + 1)
            } else {
                (d.subrange(0, i - 1).push(((d[i - 1] as u32) + 1) as char), dexp)
            }
        } else {
            (trim_zeros(d.subrange(0, n)), trimmed_exp(d.subrange(0, n), dexp))
        }
    } else {
        (d, dexp)
    }
}

pub open spec fn zero_chars(n: int) -> Seq<char> {
    Seq::new(if n > 0 {
        n as nat
    } else {
        0
    }, |i: int| '0')
}

/// The digits part of `%e` with `prec` digits after the point.
pub open spec fn e_head(prec: int, d: Seq<char>) -> Seq<char> {
    let first = if d.len() > 0 {
        d[0]
    } else {
        '0'
    };
    let m = if d.len() < prec + 1 {
        d.len() as int
    } else {
        prec + 1
    };
    let frac = if prec > 0 {
        seq!['.'] + (if m > 1 {
            d.subrange(1, m)
        } else {
            seq![]
        }) + zero_chars(prec + 1 - (if m > 1 {
            m
        } else {
            1
        }))
    } else {
        seq![]
    };
    seq![first] + frac
}

/// The exponent part of `%e`: at least two digits.
pub open spec fn e_tail(d: Seq<char>, dexp: int) -> Seq<char> {
    let exp = if d.len() == 0 {
        0
    } else {
        dexp - 1
    };
    let a = if exp < 0 {
        -exp
    } else {
        exp
    };
    seq!['e'] + (if exp < 0 {
        seq!['-']
    } else {
        seq!['+']
    }) + (if a < 10 {
        seq!['0']
    } else {
        seq![]
    }) + decimal_chars(a as nat)
}

/// `%e` with `prec` digits after the point.
pub open spec fn fmt_e_text(prec: int, d: Seq<char>, dexp: int) -> Seq<char> {
    e_head(prec, d) + e_tail(d, dexp)
}

/// The integer part of `%f`.
pub open spec fn f_head(d: Seq<char>, dexp: int) -> Seq<char> {
    if dexp > 0 {
        let m = if d.len() < dexp {
            d.len() as int
        } else {
            dexp
        };
        d.subrange(0, m) + zero_chars(dexp - m)
    } else {
        seq!['0']
    }
}

/// Digit `i` after the point.
pub open spec fn f_digit(d: Seq<char>, dexp: int, i: int) -> char {
    if 0 <= dexp + i < d.len() {
        d[dexp + i]
    } else {
        '0'
    }
}

/// The fraction part of `%f` with `prec` digits after the point.
pub open spec fn f_tail(prec: int, d: Seq<char>, dexp: int) -> Seq<char> {
    if prec > 0 {
        seq!['.'] + Seq::new(prec as nat, |i: int| f_digit(d, dexp, i))
    } else {
        seq![]
    }
}

/// `%f` with `prec` digits after the point.
pub open spec fn fmt_f_text(prec: int, d: Seq<char>, dexp: int) -> Seq<char> {
    f_head(d, dexp) + f_tail(prec, d, dexp)
}

/// `%g` with `digits` significant digits: `%e` when the decimal exponent is
/// below −4 or at least the digit count, else `%f`, trailing zeros left out.
pub open spec fn g_text(d: Seq<char>, dexp: int, digits: int) -> Seq<char> {
    let eprec = if digits > d.len() && d.len() >= dexp {
        d.len() as int
    } else {
        digits
    };
    let exp10 = dexp - 1;
    if exp10 < -4 || exp10 >= eprec {
        fmt_e_text(
            (if digits > d.len() {
                d.len() as int
            } else {
                digits
            }) - 1,
            d,
            dexp,
        )
    } else {
        let pg = if digits > dexp {
            d.len() as int
        } else {
            digits
        };
        fmt_f_text(
            if pg - dexp > 0 {
                pg - dexp
            } else {
                0
            },
            d,
            dexp,
        )
    }
}

/// How many significant digits a precision of `prec` bits renders to:
/// `⌊prec × 0.30103⌋ + 1`, the factor read as the exact decimal.
pub open spec fn dec_digits_of(prec: nat) -> nat {
    prec * 30103 / 100000 + 1
}

/// The exact decimal digits of `mant × 2^e2` and their decimal exponent.
pub open spec fn exact_digits(mant: nat, e2: int) -> (Seq<char>, int) {
    if e2 >= 0 {
        let s = decimal_chars(mant * pow2(e2 as nat));
        (s, s.len() as int)
    } else {
        let s = decimal_chars(mant * (pow(5, (-e2) as nat) as nat));
        (s, s.len() + e2)
    }
}

pub open spec fn count_dchars(s: Seq<char>) -> nat
    decreases s.len(),
{
    if s.len() == 0 {
        0
    } else {
        count_dchars(s.drop_last()) + if is_dchar(s.last()) {
            1nat
        } else {
            0nat
        }
    }
}

/// The exact digits `s` with decimal exponent `dexp0`, rounded to `n`
/// significant digits and written in `%g` after `sign`; an error when the
/// text holds more digits than the literal limit.
pub open spec fn digits_outcome(s: Seq<char>, dexp0: int, n: nat, sign: Seq<char>) -> Result<
    Seq<char>,
    Seq<char>,
> {
    let (d, dexp) = round_to(trim_zeros(s), trimmed_exp(s, dexp0), n as int);
    let out = sign + g_text(d, dexp, n as int);
    if count_dchars(out) > 4096 {
        Err(
            "pxf.BigFloat renders to "@ + decimal_chars(count_dchars(out))
                + " digits; MaxNumericLiteralDigits=4096"@,
        )
    } else {
        Ok(out)
    }
}

/// The text a `pxf.BigFloat` message is written as, or the error.
pub open spec fn big_float_text(m: nat, exponent: int, prec: nat, negative: bool) -> Result<
    Seq<char>,
    Seq<char>,
> {
    let sign = if negative {
        "-"@
    } else {
        ""@
    };
    let inf = (if negative {
        "-"@
    } else {
        "+"@
    }) + "Inf"@;
    let n = dec_digits_of(prec);
    if prec == 0 {
        Ok("0"@)
    } else if n > 4096 {
        Err(
            "pxf.BigFloat prec "@ + decimal_chars(prec) + " bits renders to "@ + decimal_chars(n)
                + " digits; MaxNumericLiteralDigits=4096"@,
        )
    } else if m == 0 {
        Ok(sign + "0"@)
    } else {
        match round_spec(m, bitlen(m) as int, prec, false) {
            FlVal::Fin(mt, e, p) => {
                let ex = e + exponent;
                if ex > MAX_EXP {
                    Ok(inf)
                } else if ex < MIN_EXP {
                    Ok(sign + "0"@)
                } else {
                    let (s, dexp0) = exact_digits(mt, ex - p);
                    digits_outcome(s, dexp0, n, sign)
                }
            },
            _ => Ok(inf),
        }
    }
}


pub proof fn lemma_decimal_chars_shape(n: nat)
    ensures
        all_dchars(decimal_chars(n)),
        decimal_chars(n).len() >= 1,
        n > 0 ==> decimal_chars(n)[0] != '0',
    decreases n,
{
    if n >= 10 {
        lemma_decimal_chars_shape(n / 10);
        let p = decimal_chars(n / 10);
        let c = crate::text::digit_char(n % 10);
        assert(decimal_chars(n) == p.push(c));
        assert forall|i: int| 0 <= i < p.push(c).len() implies is_dchar(#[trigger] p.push(c)[i]) by {
            if i < p.len() {
                assert(p.push(c)[i] == p[i]);
            }
        }
        assert(p.push(c)[0] == p[0]);
    }
}

proof fn lemma_trim_zeros(d: Seq<char>)
    ensures
        trim_zeros(d).len() <= d.len(),
        trim_zeros(d) == d.subrange(0, trim_zeros(d).len() as int),
        d.len() > 0 && d[0] != '0' ==> trim_zeros(d).len() > 0,
        trim_zeros(d).len() > 0 ==> trim_zeros(d).last() != '0',
    decreases d.len(),
{
    if d.len() > 0 && d.last() == '0' {
        lemma_trim_zeros(d.drop_last());
        let t = trim_zeros(d.drop_last());
        assert(t =~= d.subrange(0, t.len() as int));
        if d.len() > 0 && d[0] != '0' {
            if d.len() == 1 {
                assert(d[0] == d.last());
            } else {
                assert(d.drop_last()[0] == d[0]);
            }
        }
    } else {
        assert(d.subrange(0, d.len() as int) =~= d);
    }
}

/// Drops trailing zero digits.
pub fn trim_trailing_zeros(d: &mut Vec<char>)
    ensures
        final(d)@ == trim_zeros(old(d)@),
{
    let ghost orig = d@;
    while d.len() > 0 && d[d.len() - 1] == '0'
        invariant
            trim_zeros(d@) == trim_zeros(orig),
        decreases d@.len(),
    {
        d.pop();
    }
}

/// The characters `a..b` of `d`.
fn chars_range(d: &Vec<char>, a: usize, b: usize) -> (r: Vec<char>)
    requires
        a <= b <= d@.len(),
    ensures
        r@ == d@.subrange(a as int, b as int),
{
    let mut r: Vec<char> = Vec::new();
    let mut k = a;
    while k < b
        invariant
            a <= k <= b <= d@.len(),
            r@ == d@.subrange(a as int, k as int),
        decreases b - k,
    {
        r.push(d[k]);
        k = k + 1;
        assert(r@ =~= d@.subrange(a as int, k as int));
    }
    r
}

/// Rounds the digits to `n` significant digits, half to even.
fn round_digits(d: Vec<char>, dexp: i128, n: usize) -> (r: (Vec<char>, i128))
    requires
        all_dchars(d@),
        dexp < i128::MAX,
    ensures
        (r.0@, r.1 as int) == round_to(d@, dexp as int, n as int),
{
    if n >= d.len() {
        return (d, dexp);
    }
    let c = d[n];
    let up = if c == '5' && n + 1 == d.len() {
        n > 0 && ((d[n - 1] as u32) - 48) % 2 != 0
    } else {
        (c as u32) >= 53
    };
    if up {
        let mut i = n;
        while i > 0 && (d[i - 1] as u32) >= 57
            invariant
                i <= n < d@.len(),
                carry_end(d@, i as int) == carry_end(d@, n as int),
            decreases i,
        {
            i = i - 1;
        }
        if i == 0 {
            let one = vec!['1'];
            assert(one@ =~= seq!['1']);
            return (one, dexp + 1);
        }
        let mut out = chars_range(&d, 0, i - 1);
        let last = d[i - 1];
        assert(is_dchar(d@[i - 1]));
        let next = (((last as u32) + 1) as u8) as char;
        out.push(next);
        (out, dexp)
    } else {
        let mut out = chars_range(&d, 0, n);
        trim_trailing_zeros(&mut out);
        let e = if out.len() == 0 {
            0
        } else {
            dexp
        };
        (out, e)
    }
}

/// Appends the digits part of `%e`.
fn fmt_e_head(out: &mut String, prec: usize, d: &Vec<char>)
    requires
        prec < 8192,
    ensures
        final(out)@ == old(out)@ + e_head(prec as int, d@),
{
    let ghost start = out@;
    if d.len() > 0 {
        crate::text::push_char(out, d[0]);
    } else {
        crate::text::push_char(out, '0');
    }
    let ghost first = out@;
    let m = if d.len() < prec + 1 {
        d.len()
    } else {
        prec + 1
    };
    if prec > 0 {
        crate::text::push_char(out, '.');
        let mut i: usize = 1;
        if i < m {
            let mut j: usize = 1;
            while j < m
                invariant
                    1 <= j <= m <= d@.len(),
                    out@ == first + seq!['.'] + d@.subrange(1, j as int),
                decreases m - j,
            {
                crate::text::push_char(out, d[j]);
                j = j + 1;
                assert(out@ =~= first + seq!['.'] + d@.subrange(1, j as int));
            }
            i = m;
        }
        let ghost mid = out@;
        let ghost i0 = i;
        assert(mid == first + seq!['.'] + (if m > 1 {
            d@.subrange(1, m as int)
        } else {
            seq![]
        }));
        while i <= prec
            invariant
                i0 <= i <= prec + 1,
                prec < 8192,
                i0 == (if m > 1 {
                    m
                } else {
                    1
                }),
                out@ == mid + zero_chars(i - i0),
            decreases prec + 1 - i,
        {
            crate::text::push_char(out, '0');
            i = i + 1;
            assert(out@ =~= mid + zero_chars(i - i0));
        }
        assert(out@ =~= start + e_head(prec as int, d@));
    } else {
        assert(out@ =~= start + e_head(prec as int, d@));
    }
}

/// Appends the exponent part of `%e`.
fn fmt_e_tail(out: &mut String, d: &Vec<char>, dexp: i128)
    requires
        -0x1_0000_0000_0000 <= dexp <= 0x1_0000_0000_0000_0000,
    ensures
        final(out)@ == old(out)@ + e_tail(d@, dexp as int),
{
    let ghost start = out@;
    crate::text::push_char(out, 'e');
    let exp: i128 = if d.len() == 0 {
        0
    } else {
        dexp - 1
    };
    if exp < 0 {
        crate::text::push_char(out, '-');
    } else {
        crate::text::push_char(out, '+');
    }
    let a: i128 = if exp < 0 {
        -exp
    } else {
        exp
    };
    if a < 10 {
        crate::text::push_char(out, '0');
    }
    crate::text::push_decimal(out, a as u64);
    assert(out@ =~= start + e_tail(d@, dexp as int));
}

/// Appends `%e` with `prec` digits after the point.
fn fmt_e(out: &mut String, prec: usize, d: &Vec<char>, dexp: i128)
    requires
        prec < 8192,
        -0x1_0000_0000_0000 <= dexp <= 0x1_0000_0000_0000_0000,
    ensures
        final(out)@ == old(out)@ + fmt_e_text(prec as int, d@, dexp as int),
{
    let ghost start = out@;
    fmt_e_head(out, prec, d);
    fmt_e_tail(out, d, dexp);
    assert(out@ =~= start + fmt_e_text(prec as int, d@, dexp as int));
}



/// Appends the integer part of `%f`.
fn fmt_f_head(out: &mut String, d: &Vec<char>, dexp: i128)
    requires
        -8192 <= dexp <= 8192,
    ensures
        final(out)@ == old(out)@ + f_head(d@, dexp as int),
{
    let ghost start = out@;
    if dexp > 0 {
        let m: usize = if (d.len() as i128) < dexp {
            d.len()
        } else {
            dexp as usize
        };
        let mut j: usize = 0;
        while j < m
            invariant
                j <= m <= d@.len(),
                out@ == start + d@.subrange(0, j as int),
            decreases m - j,
        {
            crate::text::push_char(out, d[j]);
            j = j + 1;
            assert(out@ =~= start + d@.subrange(0, j as int));
        }
        let ghost mid = out@;
        let mut z: i128 = m as i128;
        while z < dexp
            invariant
                m <= z <= dexp <= 8192,
                out@ == mid + zero_chars(z - m),
            decreases dexp - z,
        {
            crate::text::push_char(out, '0');
            z = z + 1;
            assert(out@ =~= mid + zero_chars(z - m));
        }
        assert(out@ =~= start + f_head(d@, dexp as int));
    } else {
        crate::text::push_char(out, '0');
        assert(out@ =~= start + f_head(d@, dexp as int));
    }
}

/// Appends the fraction part of `%f`.
fn fmt_f_tail(out: &mut String, prec: usize, d: &Vec<char>, dexp: i128)
    requires
        prec < 8192,
        -8192 <= dexp <= 8192,
    ensures
        final(out)@ == old(out)@ + f_tail(prec as int, d@, dexp as int),
{
    let ghost start = out@;
    if prec == 0 {
        assert(out@ =~= start + f_tail(prec as int, d@, dexp as int));
        return;
    }
    crate::text::push_char(out, '.');
    let ghost dot = out@;
    let mut i: usize = 0;
    while i < prec
        invariant
            i <= prec < 8192,
            -8192 <= dexp <= 8192,
            out@ == dot + Seq::new(i as nat, |x: int| f_digit(d@, dexp as int, x)),
        decreases prec - i,
    {
        let j: i128 = dexp + (i as i128);
        let c = if 0 <= j && j < (d.len() as i128) {
            d[j as usize]
        } else {
            '0'
        };
        crate::text::push_char(out, c);
        i = i + 1;
        assert(out@ =~= dot + Seq::new(i as nat, |x: int| f_digit(d@, dexp as int, x)));
    }
    assert(out@ =~= start + f_tail(prec as int, d@, dexp as int));
}

/// Appends `%f` with `prec` digits after the point.
fn fmt_f(out: &mut String, prec: usize, d: &Vec<char>, dexp: i128)
    requires
        prec < 8192,
        -8192 <= dexp <= 8192,
    ensures
        final(out)@ == old(out)@ + fmt_f_text(prec as int, d@, dexp as int),
{
    let ghost start = out@;
    fmt_f_head(out, d, dexp);
    fmt_f_tail(out, prec, d, dexp);
    assert(out@ =~= start + fmt_f_text(prec as int, d@, dexp as int));
}

/// Rounded digits are no more than asked for, and some are left.
proof fn lemma_round_to_shape(d: Seq<char>, dexp: int, n: int)
    requires
        n >= 1,
        d.len() >= 1,
        d[0] != '0',
    ensures
        round_to(d, dexp, n).0.len() >= 1,
        round_to(d, dexp, n).0.len() <= if d.len() < n {
            d.len() as int
        } else {
            n
        },
        round_to(d, dexp, n).1 == dexp || round_to(d, dexp, n).1 == dexp + 1 || round_to(
            d,
            dexp,
            n,
        ).1 == 0,
{
    if n < d.len() {
        if rounds_up(d, n) {
            lemma_carry_end(d, n);
        } else {
            let c = d.subrange(0, n);
            assert(c[0] == d[0]);
            lemma_trim_zeros(c);
        }
    }
}

proof fn lemma_carry_end(d: Seq<char>, i: int)
    requires
        0 <= i <= d.len(),
    ensures
        0 <= carry_end(d, i) <= i,
    decreases i,
{
    if i > 0 && (d[i - 1] as u32) >= 57 {
        lemma_carry_end(d, i - 1);
    }
}

/// Counts the ASCII digits of the text.
fn count_digit_chars(s: &String) -> (r: usize)
    ensures
        r == count_dchars(s@),
{
    let t = crate::text::chars_of(s.as_str());
    let mut n: usize = 0;
    let mut k: usize = 0;
    while k < t.len()
        invariant
            k <= t@.len(),
            t@ == s@,
            n <= k,
            n == count_dchars(t@.subrange(0, k as int)),
        decreases t@.len() - k,
    {
        let u = t[k] as u32;
        if 48 <= u && u <= 57 {
            n = n + 1;
        }
        k = k + 1;
        assert(t@.subrange(0, k as int).drop_last() =~= t@.subrange(0, k - 1));
    }
    assert(t@.subrange(0, k as int) =~= t@);
    n
}

/// Rounds the exact digits to `n` significant digits and writes them in
/// `%g` after `sign`.
fn render_digits(s: &String, dexp0: i128, n: usize, sign: &str) -> (r: Result<String, String>)
    requires
        1 <= n <= 4096,
        s@.len() >= 1,
        all_dchars(s@),
        s@[0] != '0',
        s@.len() <= usize::MAX,
        -0x2_0000_0000 <= dexp0 <= s@.len(),
    ensures
        match digits_outcome(s@, dexp0 as int, n as nat, sign@) {
            Ok(t) => r matches Ok(x) && x@ == t,
            Err(t) => r matches Err(x) && x@ == t,
        },
{
    let mut d = crate::text::chars_of(s.as_str());
    trim_trailing_zeros(&mut d);
    proof {
        lemma_trim_zeros(s@);
        assert forall|i: int| 0 <= i < d@.len() implies is_dchar(#[trigger] d@[i]) by {
            assert(d@[i] == s@[i]);
        }
        assert(d@[0] == s@[0]);
    }
    let dexp1: i128 = if d.len() == 0 {
        0
    } else {
        dexp0
    };
    let (d2, dexp2) = round_digits(d, dexp1, n);
    proof {
        lemma_round_to_shape(trim_zeros(s@), dexp1 as int, n as int);
    }
    let mut out = crate::text::owned(sign);
    let ghost start = out@;
    let nn = n as i128;
    let dl = d2.len() as i128;
    let eprec = if nn > dl && dl >= dexp2 {
        dl
    } else {
        nn
    };
    let exp10 = dexp2 - 1;
    if exp10 < -4 || exp10 >= eprec {
        let pg = if nn > dl {
            dl
        } else {
            nn
        };
        fmt_e(&mut out, (pg - 1) as usize, &d2, dexp2);
    } else {
        let pg = if nn > dexp2 {
            dl
        } else {
            nn
        };
        let pr = if pg - dexp2 > 0 {
            pg - dexp2
        } else {
            0
        };
        fmt_f(&mut out, pr as usize, &d2, dexp2);
    }
    assert(out@ == sign@ + g_text(d2@, dexp2 as int, n as int));
    let cnt = count_digit_chars(&out);
    if cnt > 4096 {
        let mut m = crate::text::owned("pxf.BigFloat renders to ");
        crate::text::push_decimal(&mut m, cnt as u64);
        crate::text::push_str(&mut m, " digits; MaxNumericLiteralDigits=4096");
        return Err(m);
    }
    Ok(out)
}

/// Writes a `pxf.BigFloat` message as the literal `math/big` writes it:
/// `Text('g', digits)` with `digits = ⌊prec × 0.30103⌋ + 1` (78 at 256
/// bits) — the value's exact decimal expansion rounded to that many
/// significant digits, trailing zeros left out, in `%e` form when the
/// decimal exponent is below −4 or at least the digit count, else `%f`. An
/// empty mantissa is `0` (or `-0`); a `prec` that would render to more
/// digits than the literal limit is an error, and so is a text with more
/// digits than that.
pub fn format_big_float(mantissa: &[u8], exponent: i32, prec: u32, negative: bool) -> (r: Result<
    String,
    String,
>)
    ensures
        match big_float_text(be_value(mantissa@), exponent as int, prec as nat, negative) {
            Ok(t) => r matches Ok(x) && x@ == t,
            Err(t) => r matches Err(x) && x@ == t,
        },
{
    if prec == 0 {
        return Ok(crate::text::owned("0"));
    }
    let dec_digits: u64 = (prec as u64) * 30103 / 100000 + 1;
    if dec_digits > 4096 {
        let mut m = crate::text::owned("pxf.BigFloat prec ");
        crate::text::push_decimal(&mut m, prec as u64);
        crate::text::push_str(&mut m, " bits renders to ");
        crate::text::push_decimal(&mut m, dec_digits);
        crate::text::push_str(&mut m, " digits; MaxNumericLiteralDigits=4096");
        return Err(m);
    }
    let sign = if negative {
        "-"
    } else {
        ""
    };
    let m = BigUint::from_be_bytes(mantissa);
    if m.is_zero() {
        return Ok(crate::text::concat(sign, "0"));
    }
    let inf = if negative {
        "-Inf"
    } else {
        "+Inf"
    };
    proof {
        reveal_strlit("-Inf");
        reveal_strlit("+Inf");
        reveal_strlit("-");
        reveal_strlit("+");
        reveal_strlit("Inf");
        assert(inf@ == (if negative {
            "-"@
        } else {
            "+"@
        }) + "Inf"@);
    }
    let bits = m.bit_len();
    let at: i64 = if bits > 2147483648 {
        2147483648
    } else {
        bits as i64
    };
    let value = Fl::round_into(m, at, prec, false);
    match value {
        Fl::Finite { mant, exp, prec: p } => {
            let ex = exp + (exponent as i64);
            if ex > MAX_EXP {
                return Ok(crate::text::owned(inf));
            }
            if ex < MIN_EXP {
                return Ok(crate::text::concat(sign, "0"));
            }
            let e2 = ex - (p as i64);
            proof {
                lemma_bitlen(mant.value());
            }
            if e2 >= 0 {
                let n = mant.shl(e2 as u64);
                let text = n.to_decimal_string();
                proof {
                    lemma_pow2_pos(e2 as nat);
                    let a = mant.value();
                    let b = pow2(e2 as nat);
                    assert(a * b > 0) by (nonlinear_arith)
                        requires
                            a > 0,
                            b > 0,
                    ;
                    lemma_decimal_chars_shape(n.value());
                }
                let len = crate::text::chars_of(text.as_str()).len();
                render_digits(&text, len as i128, dec_digits as usize, sign)
            } else {
                let k = (-e2) as u64;
                let n = mant.mul(&BigUint::pow5_exact(k));
                let text = n.to_decimal_string();
                proof {
                    vstd::arithmetic::power::lemma_pow_positive(5, k as nat);
                    let a = mant.value();
                    let b = pow(5, k as nat);
                    assert(a * b > 0) by (nonlinear_arith)
                        requires
                            a > 0,
                            b > 0,
                    ;
                    lemma_decimal_chars_shape(n.value());
                }
                let len = crate::text::chars_of(text.as_str()).len();
                render_digits(&text, (len as i128) - (k as i128), dec_digits as usize, sign)
            }
        },
        _ => Ok(crate::text::owned(inf)),
    }
}

} // verus!
