//! Arbitrary-precision literal forms: `pxf.BigInt` and `pxf.Decimal`.
//!
//! A `pxf.BigInt` field takes a bare integer literal and a `pxf.Decimal`
//! field a decimal literal keeping its exact scale (`1.00` has scale 2). On
//! the wire both carry an unsigned big-endian magnitude and a sign flag, so
//! the codec needs two conversions, decimal digits to a big-endian
//! magnitude and back, and no arithmetic. Both are quadratic in the digit
//! count, which the numeric-literal limit bounds before they run.
use vstd::prelude::*;
use vstd::string::StringSliceAdditionalSpecFns;

use crate::text::{decimal_chars, digit_char, owned, push_char, push_decimal, push_str};

verus! {

// ---------------------------------------------------------------- values
pub open spec fn is_ascii_digit(c: u8) -> bool {
    48 <= c <= 57
}

pub open spec fn all_ascii_digits(b: Seq<u8>) -> bool {
    forall|i: int| 0 <= i < b.len() ==> is_ascii_digit(#[trigger] b[i])
}

/// The number ASCII decimal digits spell.
pub open spec fn digits_value(b: Seq<u8>) -> nat
    decreases b.len(),
{
    if b.len() == 0 {
        0
    } else {
        digits_value(b.drop_last()) * 10 + (b.last() - 48) as nat
    }
}

/// The number a big-endian magnitude stands for.
pub open spec fn be_value(b: Seq<u8>) -> nat
    decreases b.len(),
{
    if b.len() == 0 {
        0
    } else {
        be_value(b.drop_last()) * 256 + b.last() as nat
    }
}

/// The big-endian magnitude of `v` without leading zero bytes; empty for
/// zero.
pub open spec fn canonical_be(v: nat) -> Seq<u8>
    decreases v,
{
    if v == 0 {
        seq![]
    } else {
        canonical_be(v / 256).push((v % 256) as u8)
    }
}

/// The decimal digits of a positive number, none for zero.
pub open spec fn digit_chars(v: nat) -> Seq<char>
    decreases v,
{
    if v == 0 {
        seq![]
    } else {
        digit_chars(v / 10).push(digit_char(v % 10))
    }
}

/// How many bytes of `b` are ASCII digits.
pub open spec fn count_digits(b: Seq<u8>) -> nat
    decreases b.len(),
{
    if b.len() == 0 {
        0
    } else {
        count_digits(b.drop_last()) + if is_ascii_digit(b.last()) {
            1nat
        } else {
            0nat
        }
    }
}

/// `n` zero characters.
pub open spec fn zeros(n: nat) -> Seq<char>
    decreases n,
{
    if n == 0 {
        seq![]
    } else {
        zeros((n - 1) as nat).push('0')
    }
}

pub proof fn lemma_be_leading_zero(b: Seq<u8>)
    requires
        b.len() > 0,
        b[0] == 0,
    ensures
        be_value(b) == be_value(b.drop_first()),
    decreases b.len(),
{
    if b.len() > 1 {
        assert(b.drop_last()[0] == 0);
        lemma_be_leading_zero(b.drop_last());
        assert(b.drop_last().drop_first() == b.drop_first().drop_last());
        assert(b.drop_first().last() == b.last());
        assert(be_value(b) == be_value(b.drop_last()) * 256 + b.last());
        assert(be_value(b.drop_first()) == be_value(b.drop_first().drop_last()) * 256
            + b.drop_first().last());
    } else {
        assert(b.drop_first().len() == 0);
        assert(b.drop_last().len() == 0);
        assert(b.last() == 0);
        assert(be_value(b.drop_last()) == 0);
        assert(be_value(b) == be_value(b.drop_last()) * 256 + b.last());
        assert(be_value(b.drop_first()) == 0);
    }
}

pub proof fn lemma_digits_leading_zero(b: Seq<u8>)
    requires
        b.len() > 0,
        b[0] == 48,
    ensures
        digits_value(b) == digits_value(b.drop_first()),
    decreases b.len(),
{
    if b.len() > 1 {
        assert(b.drop_last()[0] == 48);
        lemma_digits_leading_zero(b.drop_last());
        assert(b.drop_last().drop_first() == b.drop_first().drop_last());
        assert(b.drop_first().last() == b.last());
        assert(digits_value(b) == digits_value(b.drop_last()) * 10 + (b.last() - 48) as nat);
        assert(digits_value(b.drop_first()) == digits_value(b.drop_first().drop_last()) * 10 + (
        b.drop_first().last() - 48) as nat);
    } else {
        assert(b.drop_first().len() == 0);
        assert(b.drop_last().len() == 0);
        assert(b.last() == 48);
        assert(digits_value(b.drop_last()) == 0);
        assert(digits_value(b) == digits_value(b.drop_last()) * 10 + (b.last() - 48) as nat);
        assert(digits_value(b.drop_first()) == 0);
    }
}

/// A magnitude is zero exactly when all its bytes are.
pub proof fn lemma_be_zero(b: Seq<u8>)
    ensures
        (be_value(b) == 0) == (forall|i: int| 0 <= i < b.len() ==> b[i] == 0),
    decreases b.len(),
{
    if b.len() > 0 {
        lemma_be_zero(b.drop_last());
        if be_value(b) == 0 {
            assert forall|i: int| 0 <= i < b.len() implies b[i] == 0 by {
                if i < b.len() - 1 {
                    assert(b[i] == b.drop_last()[i]);
                }
            }
        } else if forall|i: int| 0 <= i < b.len() ==> b[i] == 0 {
            assert forall|i: int| 0 <= i < b.drop_last().len() implies b.drop_last()[i] == 0 by {
                assert(b.drop_last()[i] == b[i]);
            }
            assert(b.last() == b[b.len() - 1]);
        }
    }
}

/// The value of canonical bytes is the number they were made from.
pub proof fn lemma_canonical_be_value(v: nat)
    ensures
        be_value(canonical_be(v)) == v,
        canonical_be(v).len() == 0 || canonical_be(v)[0] != 0,
    decreases v,
{
    if v > 0 {
        lemma_canonical_be_value(v / 256);
        let c = canonical_be(v / 256);
        assert(canonical_be(v).drop_last() == c);
        if c.len() == 0 {
            assert(v / 256 == 0) by {
                lemma_be_zero(c);
            }
            assert(canonical_be(v)[0] == (v % 256) as u8);
        } else {
            assert(canonical_be(v)[0] == c[0]);
        }
    }
}

/// Digits read back from their characters give the number.
pub proof fn lemma_digit_chars_len(v: nat)
    ensures
        v > 0 ==> digit_chars(v).len() > 0,
    decreases v,
{
}

/// `decimal_chars` is `digit_chars` with `0` for zero.
pub proof fn lemma_decimal_chars(v: nat)
    ensures
        decimal_chars(v) == if v == 0 {
            seq!['0']
        } else {
            digit_chars(v)
        },
    decreases v,
{
    if v >= 10 {
        lemma_decimal_chars(v / 10);
    } else if v > 0 {
        assert(digit_chars(v / 10) == Seq::<char>::empty());
    }
}

// ---------------------------------------------------------------- literals
/// A parsed `pxf.BigInt` literal: unsigned big-endian magnitude with no
/// leading zero bytes (empty for zero), and the sign. Zero is never
/// negative.
#[derive(Debug, Clone, PartialEq, Eq)]
pub struct BigIntLit {
    pub abs: Vec<u8>,
    pub negative: bool,
}

/// A parsed `pxf.Decimal` literal: value = (-1)^negative × unscaled ×
/// 10^(−scale). `unscaled` is the big-endian magnitude of the digits with
/// the point removed (empty for zero); `scale` is the number of digits
/// after the point. `negative` is the sign as written, so `-0.0` keeps it.
#[derive(Debug, Clone, PartialEq, Eq)]
pub struct DecimalLit {
    pub unscaled: Vec<u8>,
    pub scale: i32,
    pub negative: bool,
}

/// The message for a literal past the digit limit.
pub open spec fn digit_limit_error(n: nat, max: nat) -> Seq<char> {
    "numeric literal has "@ + decimal_chars(n) + " digits; MaxNumericLiteralDigits="@
        + decimal_chars(max)
}

/// Whether a literal of these bytes is over the digit limit: longer than it,
/// and with more ASCII digits than it.
pub open spec fn over_digit_limit(b: Seq<u8>, max: nat) -> bool {
    b.len() > max && count_digits(b) > max
}

/// The sign and the rest of a literal.
pub open spec fn split_sign(b: Seq<u8>) -> (bool, Seq<u8>) {
    if b.len() > 0 && b[0] == 45 {
        (true, b.drop_first())
    } else {
        (false, b)
    }
}

/// The index of the first `.`, or the length.
pub open spec fn first_dot(b: Seq<u8>, i: int) -> int
    decreases b.len() - i,
{
    if 0 <= i < b.len() && b[i] != 46 {
        first_dot(b, i + 1)
    } else {
        i
    }
}

/// Enforces the digit limit on a literal: the ASCII digits are counted, so
/// the sign and the point do not count, and a literal of exactly
/// `max_digits` digits passes.
pub fn check_literal_digits(s: &str, max_digits: usize) -> (r: Result<(), String>)
    ensures
        over_digit_limit(s.spec_bytes(), max_digits as nat) ==> (r matches Err(m) && m@
            == digit_limit_error(count_digits(s.spec_bytes()), max_digits as nat)),
        !over_digit_limit(s.spec_bytes(), max_digits as nat) ==> r is Ok,
{
    let b = s.as_bytes();
    if b.len() <= max_digits {
        return Ok(());
    }
    let mut n: usize = 0;
    let mut k: usize = 0;
    while k < b.len()
        invariant
            k <= b@.len(),
            n <= k,
            n == count_digits(b@.subrange(0, k as int)),
        decreases b@.len() - k,
    {
        if b[k] >= 48 && b[k] <= 57 {
            n = n + 1;
        }
        k = k + 1;
        assert(b@.subrange(0, k as int).drop_last() == b@.subrange(0, k - 1));
    }
    assert(b@.subrange(0, b@.len() as int) == b@);
    if n > max_digits {
        let mut m = owned("numeric literal has ");
        push_decimal(&mut m, n as u64);
        push_str(&mut m, " digits; MaxNumericLiteralDigits=");
        push_decimal(&mut m, max_digits as u64);
        return Err(m);
    }
    Ok(())
}

/// The value of ASCII digits, as base-ten digit values, divided by 256:
/// the quotient's digits (with leading zeros) and the remainder.
fn divide_by_256(d: &Vec<u8>) -> (r: (Vec<u8>, u32))
    requires
        all_ascii_digits(d@),
    ensures
        all_ascii_digits(r.0@),
        r.0@.len() == d@.len(),
        digits_value(d@) == 256 * digits_value(r.0@) + r.1,
        r.1 < 256,
{
    let mut q: Vec<u8> = Vec::with_capacity(d.len());
    let mut rem: u32 = 0;
    let mut k: usize = 0;
    while k < d.len()
        invariant
            k <= d@.len(),
            q@.len() == k,
            all_ascii_digits(d@),
            all_ascii_digits(q@),
            rem < 256,
            digits_value(d@.subrange(0, k as int)) == 256 * digits_value(q@) + rem,
        decreases d@.len() - k,
    {
        assert(is_ascii_digit(d@[k as int]));
        let dk = (d[k] - 48) as u32;
        let cur = rem * 10 + dk;
        let qd = cur / 256;
        let nrem = cur % 256;
        assert(cur == 256 * qd + nrem) by (nonlinear_arith)
            requires
                qd == cur / 256,
                nrem == cur % 256,
        ;
        assert(qd < 10);
        let ghost oq = q@;
        q.push((qd + 48) as u8);
        rem = nrem;
        proof {
            let p = d@.subrange(0, k + 1);
            assert(p.drop_last() == d@.subrange(0, k as int));
            assert(p.last() == d@[k as int]);
            assert(q@.drop_last() == oq);
            assert(q@.last() == (qd + 48) as u8);
            assert(digits_value(p) == digits_value(d@.subrange(0, k as int)) * 10 + dk);
            assert(digits_value(q@) == digits_value(oq) * 10 + qd);
        }
        k = k + 1;
    }
    assert(d@.subrange(0, d@.len() as int) == d@);
    (q, rem)
}

/// Drops leading `0` digits.
fn strip_zero_digits(d: Vec<u8>) -> (r: Vec<u8>)
    requires
        all_ascii_digits(d@),
    ensures
        all_ascii_digits(r@),
        digits_value(r@) == digits_value(d@),
        r@.len() == 0 || r@[0] != 48,
        r@.len() <= d@.len(),
{
    let mut k: usize = 0;
    assert(d@.subrange(0, d@.len() as int) == d@);
    while k < d.len() && d[k] == 48
        invariant
            k <= d@.len(),
            all_ascii_digits(d@),
            digits_value(d@.subrange(k as int, d@.len() as int)) == digits_value(d@),
        decreases d@.len() - k,
    {
        proof {
            let t = d@.subrange(k as int, d@.len() as int);
            lemma_digits_leading_zero(t);
            assert(t.drop_first() == d@.subrange(k + 1, d@.len() as int));
        }
        k = k + 1;
    }
    let r = crate::text::bytes_range(d.as_slice(), k, d.len());
    r
}

/// The big-endian magnitude of ASCII decimal digits, without leading zero
/// bytes; zero is empty. Quadratic in the digit count: bound it first.
pub fn decimal_digits_to_be_bytes(digits: &[u8]) -> (out: Vec<u8>)
    requires
        all_ascii_digits(digits@),
    ensures
        out@ == canonical_be(digits_value(digits@)),
{
    let ghost total = digits_value(digits@);
    let mut cur = strip_zero_digits(crate::text::bytes_to_vec(digits));
    let mut acc: Vec<u8> = Vec::new();
    while cur.len() > 0
        invariant
            all_ascii_digits(cur@),
            cur@.len() == 0 || cur@[0] != 48,
            canonical_be(total) == canonical_be(digits_value(cur@)) + acc@,
        decreases digits_value(cur@),
    {
        let ghost v = digits_value(cur@);
        proof {
            assert(v > 0) by {
                lemma_digits_nonzero(cur@);
            }
        }
        let (q, r) = divide_by_256(&cur);
        acc.insert(0, r as u8);
        proof {
            assert(canonical_be(v) == canonical_be(v / 256).push((v % 256) as u8));
            assert(canonical_be(v / 256).push((v % 256) as u8) + acc@.drop_first()
                == canonical_be(v / 256) + acc@);
        }
        cur = strip_zero_digits(q);
    }
    assert(canonical_be(0) == Seq::<u8>::empty());
    assert(Seq::<u8>::empty() + acc@ == acc@);
    acc
}

/// Digits without a leading zero spell zero only when there are none.
proof fn lemma_digits_nonzero(b: Seq<u8>)
    requires
        all_ascii_digits(b),
        b.len() > 0,
        b[0] != 48,
    ensures
        digits_value(b) > 0,
    decreases b.len(),
{
    if b.len() > 1 {
        assert(b.drop_last()[0] == b[0]);
        assert(all_ascii_digits(b.drop_last()));
        lemma_digits_nonzero(b.drop_last());
    }
}

/// A big-endian magnitude divided by ten: the quotient's bytes (with
/// leading zeros) and the remainder.
fn divide_by_10(m: &Vec<u8>) -> (r: (Vec<u8>, u32))
    ensures
        r.0@.len() == m@.len(),
        be_value(m@) == 10 * be_value(r.0@) + r.1,
        r.1 < 10,
{
    let mut q: Vec<u8> = Vec::with_capacity(m.len());
    let mut rem: u32 = 0;
    let mut k: usize = 0;
    while k < m.len()
        invariant
            k <= m@.len(),
            q@.len() == k,
            rem < 10,
            be_value(m@.subrange(0, k as int)) == 10 * be_value(q@) + rem,
        decreases m@.len() - k,
    {
        let cur = rem * 256 + m[k] as u32;
        let qd = cur / 10;
        let nrem = cur % 10;
        assert(cur == 10 * qd + nrem) by (nonlinear_arith)
            requires
                qd == cur / 10,
                nrem == cur % 10,
        ;
        assert(qd < 256);
        let ghost oq = q@;
        q.push(qd as u8);
        rem = nrem;
        proof {
            let p = m@.subrange(0, k + 1);
            assert(p.drop_last() == m@.subrange(0, k as int));
            assert(p.last() == m@[k as int]);
            assert(q@.drop_last() == oq);
            assert(q@.last() == qd as u8);
            assert(be_value(p) == be_value(m@.subrange(0, k as int)) * 256 + m@[k as int]);
            assert(be_value(q@) == be_value(oq) * 256 + qd);
        }
        k = k + 1;
    }
    assert(m@.subrange(0, m@.len() as int) == m@);
    (q, rem)
}

/// Drops leading zero bytes.
fn strip_zero_bytes(m: &[u8]) -> (r: Vec<u8>)
    ensures
        be_value(r@) == be_value(m@),
        r@.len() == 0 || r@[0] != 0,
{
    let mut k: usize = 0;
    assert(m@.subrange(0, m@.len() as int) == m@);
    while k < m.len() && m[k] == 0
        invariant
            k <= m@.len(),
            be_value(m@.subrange(k as int, m@.len() as int)) == be_value(m@),
        decreases m@.len() - k,
    {
        proof {
            let t = m@.subrange(k as int, m@.len() as int);
            lemma_be_leading_zero(t);
            assert(t.drop_first() == m@.subrange(k + 1, m@.len() as int));
        }
        k = k + 1;
    }
    assert(m@.subrange(0, m@.len() as int) == m@);
    crate::text::bytes_range(m, k, m.len())
}

/// The decimal digits of a big-endian magnitude; the empty magnitude is
/// `0`. Quadratic in the byte count.
pub fn be_bytes_to_decimal(bytes: &[u8]) -> (s: String)
    ensures
        s@ == decimal_chars(be_value(bytes@)),
{
    let ghost total = be_value(bytes@);
    let mut mag = strip_zero_bytes(bytes);
    let mut acc: Vec<char> = Vec::new();
    while mag.len() > 0
        invariant
            mag@.len() == 0 || mag@[0] != 0,
            digit_chars(total) == digit_chars(be_value(mag@)) + acc@,
        decreases be_value(mag@),
    {
        let ghost v = be_value(mag@);
        proof {
            lemma_be_zero(mag@);
            assert(mag@[0] != 0);
        }
        let (q, r) = divide_by_10(&mag);
        acc.insert(0, ((r + 48) as u8) as char);
        proof {
            assert(digit_chars(v) == digit_chars(v / 10).push(digit_char(v % 10)));
            assert(digit_chars(v / 10).push(digit_char(v % 10)) + acc@.drop_first()
                == digit_chars(v / 10) + acc@);
        }
        mag = strip_zero_bytes(q.as_slice());
    }
    proof {
        lemma_be_zero(mag@);
        lemma_decimal_chars(total);
        assert(Seq::<char>::empty() + acc@ == acc@);
    }
    let mut s = String::new();
    if acc.len() == 0 {
        push_char(&mut s, '0');
        return s;
    }
    let mut k: usize = 0;
    while k < acc.len()
        invariant
            k <= acc@.len(),
            s@ == acc@.subrange(0, k as int),
        decreases acc@.len() - k,
    {
        push_char(&mut s, acc[k]);
        k = k + 1;
        assert(acc@.subrange(0, k as int) == acc@.subrange(0, k - 1).push(acc@[k - 1]));
    }
    assert(acc@.subrange(0, acc@.len() as int) == acc@);
    s
}

/// The text a `pxf.Decimal` is written as: the digits of `v` with the point
/// `scale` places from the right, padded to one digit before it; a scale of
/// zero or less writes that many trailing zeros instead.
pub open spec fn decimal_text(v: nat, scale: int, negative: bool) -> Seq<char> {
    let digits = decimal_chars(v);
    (if negative {
        seq!['-']
    } else {
        seq![]
    }) + if scale <= 0 {
        digits + zeros((-scale) as nat)
    } else {
        let padded = if digits.len() <= scale {
            zeros((scale + 1 - digits.len()) as nat) + digits
        } else {
            digits
        };
        padded.subrange(0, padded.len() - scale) + seq!['.'] + padded.subrange(
            padded.len() - scale,
            padded.len() as int,
        )
    }
}

/// The text a `pxf.BigInt` is written as: a `-` only before a non-zero
/// magnitude.
pub open spec fn big_int_text(v: nat, negative: bool) -> Seq<char> {
    (if negative && v != 0 {
        seq!['-']
    } else {
        seq![]
    }) + decimal_chars(v)
}

/// Whether bytes `a..b` are all ASCII digits.
pub fn digits_in(b: &[u8], a: usize, e: usize) -> (r: bool)
    requires
        a <= e <= b@.len(),
    ensures
        r == all_ascii_digits(b@.subrange(a as int, e as int)),
{
    let mut k = a;
    while k < e
        invariant
            a <= k <= e,
            e <= b@.len(),
            all_ascii_digits(b@.subrange(a as int, k as int)),
        decreases e - k,
    {
        if !(b[k] >= 48 && b[k] <= 57) {
            assert(!is_ascii_digit(b@.subrange(a as int, e as int)[k - a]));
            return false;
        }
        k = k + 1;
        assert forall|i: int| 0 <= i < k - a implies is_ascii_digit(
            #[trigger] b@.subrange(a as int, k as int)[i],
        ) by {
            if i < k - 1 - a {
                assert(b@.subrange(a as int, k as int)[i] == b@.subrange(a as int, k - 1)[i]);
            }
        }
    }
    true
}

/// Parses a `pxf.BigInt` literal: an optional `-` and one or more decimal
/// digits, within `max_digits` digits.
pub fn parse_big_int(s: &str, max_digits: usize) -> (r: Result<BigIntLit, String>)
    ensures
        over_digit_limit(s.spec_bytes(), max_digits as nat) ==> (r matches Err(m) && m@
            == digit_limit_error(count_digits(s.spec_bytes()), max_digits as nat)),
        !over_digit_limit(s.spec_bytes(), max_digits as nat) ==> ({
            let (neg, d) = split_sign(s.spec_bytes());
            if d.len() > 0 && all_ascii_digits(d) {
                r matches Ok(lit) && lit.abs@ == canonical_be(digits_value(d)) && lit.negative == (
                neg && digits_value(d) != 0)
            } else {
                r matches Err(m) && m@ == "invalid big integer: "@ + s@
            }
        }),
{
    check_literal_digits(s, max_digits)?;
    let b = s.as_bytes();
    let n = b.len();
    let neg = n > 0 && b[0] == 45;
    let start: usize = if neg {
        1
    } else {
        0
    };
    proof {
        if neg {
            assert(b@.subrange(1, n as int) == b@.drop_first());
        } else {
            assert(b@.subrange(0, n as int) == b@);
        }
    }
    if start == n || !digits_in(b, start, n) {
        return Err(crate::text::concat("invalid big integer: ", s));
    }
    let d = crate::text::bytes_range(b, start, n);
    let abs = decimal_digits_to_be_bytes(d.as_slice());
    let negative = neg && abs.len() != 0;
    proof {
        lemma_canonical_be_value(digits_value(d@));
        if digits_value(d@) == 0 {
            assert(canonical_be(0).len() == 0);
        }
    }
    Ok(BigIntLit { abs, negative })
}

/// Parses a `pxf.Decimal` literal: an optional `-`, decimal digits, and an
/// optional `.` followed by decimal digits; no exponent. The scale is the
/// number of digits after the point, at most `i32::MAX`.
pub fn parse_decimal(s: &str, max_digits: usize) -> (r: Result<DecimalLit, String>)
    ensures
        over_digit_limit(s.spec_bytes(), max_digits as nat) ==> (r matches Err(m) && m@
            == digit_limit_error(count_digits(s.spec_bytes()), max_digits as nat)),
        !over_digit_limit(s.spec_bytes(), max_digits as nat) ==> ({
            let (neg, int_part, frac) = decimal_parts(s.spec_bytes());
            let digits = int_part + frac;
            if digits.len() > 0 && all_ascii_digits(digits) {
                r matches Ok(lit) && lit.unscaled@ == canonical_be(digits_value(digits))
                    && lit.negative == neg && lit.scale == if frac.len() > i32::MAX {
                    i32::MAX as int
                } else {
                    frac.len() as int
                }
            } else {
                r matches Err(m) && m@ == "invalid decimal: "@ + s@
            }
        }),
{
    check_literal_digits(s, max_digits)?;
    let b = s.as_bytes();
    let n = b.len();
    let neg = n > 0 && b[0] == 45;
    let start: usize = if neg {
        1
    } else {
        0
    };
    let body = crate::text::bytes_range(b, start, n);
    proof {
        if neg {
            assert(body@ == b@.drop_first());
        } else {
            assert(body@ == b@);
        }
    }
    let m = body.len();
    let mut dot: usize = 0;
    while dot < m && body[dot] != 46
        invariant
            dot <= m,
            m == body@.len(),
            first_dot(body@, 0) == first_dot(body@, dot as int),
        decreases m - dot,
    {
        dot = dot + 1;
    }
    let mut digits = crate::text::bytes_range(body.as_slice(), 0, dot);
    let frac_start = if dot < m {
        dot + 1
    } else {
        m
    };
    let mut frac = crate::text::bytes_range(body.as_slice(), frac_start, m);
    proof {
        if dot >= m {
            assert(frac@ == Seq::<u8>::empty());
        }
    }
    let frac_len = frac.len();
    let ghost int_part = digits@;
    let ghost frac_view = frac@;
    digits.append(&mut frac);
    assert(digits@ == int_part + frac_view);
    if digits.len() == 0 || !digits_in(digits.as_slice(), 0, digits.len()) {
        assert(digits@.subrange(0, digits@.len() as int) == digits@);
        return Err(crate::text::concat("invalid decimal: ", s));
    }
    assert(digits@.subrange(0, digits@.len() as int) == digits@);
    let scale: i32 = if frac_len > 2147483647 {
        2147483647
    } else {
        frac_len as i32
    };
    let unscaled = decimal_digits_to_be_bytes(digits.as_slice());
    Ok(DecimalLit { unscaled, scale, negative: neg })
}

/// The literal of a `pxf.BigInt`: the magnitude in decimal, with a leading
/// `-` when negative; an empty magnitude is `0`, never signed.
pub fn format_big_int(abs: &[u8], negative: bool) -> (r: String)
    ensures
        r@ == big_int_text(be_value(abs@), negative),
{
    let digits = be_bytes_to_decimal(abs);
    proof {
        lemma_decimal_chars(be_value(abs@));
        lemma_digit_chars_len(be_value(abs@));
        if be_value(abs@) != 0 {
            lemma_digit_chars_zero_free(be_value(abs@));
        }
    }
    if negative && !str_is_zero(&digits) {
        let mut r = owned("-");
        push_str(&mut r, digits.as_str());
        proof {
            reveal_strlit("-");
        }
        r
    } else {
        assert(seq![] + digits@ == digits@);
        digits
    }
}

/// The digits of a positive number do not read `0`.
proof fn lemma_digit_chars_zero_free(v: nat)
    requires
        v > 0,
    ensures
        digit_chars(v) != seq!['0'],
    decreases v,
{
    assert(seq!['0'].len() == 1);
    if v / 10 > 0 {
        lemma_digit_chars_len(v / 10);
        assert(digit_chars(v).len() >= 2);
    } else {
        assert(digit_chars(v / 10) == Seq::<char>::empty());
        assert(digit_chars(v) =~= seq![digit_char(v % 10)]);
        assert(digit_char(v % 10) != '0');
        assert(seq![digit_char(v % 10)][0] != seq!['0'][0]);
    }
}

/// Whether the text is exactly `0`.
fn str_is_zero(s: &String) -> (r: bool)
    ensures
        r == (s@ == seq!['0']),
{
    let z = crate::text::str_is(s, "0");
    proof {
        reveal_strlit("0");
        assert("0"@ =~= seq!['0']);
    }
    z
}

/// The literal of a `pxf.Decimal`, keeping the scale: unscaled 5 with scale
/// 2 is `0.05`, unscaled 100 with scale 2 is `1.00`; a negative scale
/// writes the trailing zeros out (unscaled 5, scale -2 is `500`).
#[verifier::rlimit(40)]
pub fn format_decimal(unscaled: &[u8], scale: i32, negative: bool) -> (r: String)
    ensures
        r@ == decimal_text(be_value(unscaled@), scale as int, negative),
{
    let digits_s = be_bytes_to_decimal(unscaled);
    let digits = crate::text::chars_of(digits_s.as_str());
    let mut out = String::new();
    if negative {
        push_char(&mut out, '-');
    }
    let ghost head = out@;
    if scale <= 0 {
        push_str(&mut out, digits_s.as_str());
        let count: u32 = if scale == -2147483648 {
            2147483648
        } else {
            (-scale) as u32
        };
        let mut k: u32 = 0;
        while k < count
            invariant
                k <= count,
                count == -(scale as int),
                out@ == head + digits@ + zeros(k as nat),
            decreases count - k,
        {
            push_char(&mut out, '0');
            k = k + 1;
        }
        return out;
    }
    let sc = scale as usize;
    let mut padded: Vec<char> = Vec::new();
    if digits.len() <= sc {
        let pad = sc + 1 - digits.len();
        let mut k: usize = 0;
        while k < pad
            invariant
                k <= pad,
                padded@ == zeros(k as nat),
                padded@.len() == k,
            decreases pad - k,
        {
            padded.push('0');
            k = k + 1;
        }
    }
    let ghost z = padded@;
    assert(z.len() == if digits@.len() <= sc {
        sc + 1 - digits@.len()
    } else {
        0
    });
    let mut k: usize = 0;
    while k < digits.len()
        invariant
            k <= digits@.len(),
            padded@ == z + digits@.subrange(0, k as int),
        decreases digits@.len() - k,
    {
        padded.push(digits[k]);
        k = k + 1;
        assert(digits@.subrange(0, k as int) == digits@.subrange(0, k - 1).push(digits@[k - 1]));
    }
    assert(digits@.subrange(0, digits@.len() as int) == digits@);
    assert(padded@.len() > sc);
    let split = padded.len() - sc;
    let mut k: usize = 0;
    while k < split
        invariant
            k <= split,
            split <= padded@.len(),
            out@ == head + padded@.subrange(0, k as int),
        decreases split - k,
    {
        push_char(&mut out, padded[k]);
        k = k + 1;
        assert(padded@.subrange(0, k as int) == padded@.subrange(0, k - 1).push(padded@[k - 1]));
    }
    push_char(&mut out, '.');
    let ghost mid = out@;
    let mut k: usize = split;
    while k < padded.len()
        invariant
            split <= k <= padded@.len(),
            out@ == mid + padded@.subrange(split as int, k as int),
        decreases padded@.len() - k,
    {
        push_char(&mut out, padded[k]);
        k = k + 1;
        assert(padded@.subrange(split as int, k as int) == padded@.subrange(split as int, k - 1).push(
            padded@[k - 1],
        ));
    }
    out
}

/// Text to bytes and back: the canonical magnitude of a digit string reads
/// back as the same number, written without leading zeros; digits that
/// have none (or are a single `0`) come back character for character.
pub proof fn lemma_big_int_round_trip(d: Seq<u8>)
    requires
        all_ascii_digits(d),
    ensures
        be_value(canonical_be(digits_value(d))) == digits_value(d),
        decimal_chars(be_value(canonical_be(digits_value(d)))) == decimal_chars(digits_value(d)),
        d.len() > 0 && (d.len() == 1 || d[0] != 48) ==> decimal_chars(
            be_value(canonical_be(digits_value(d))),
        ) == ascii_chars(d),
{
    lemma_canonical_be_value(digits_value(d));
    if d.len() > 0 && (d.len() == 1 || d[0] != 48) {
        lemma_canonical_digits(d);
    }
}

/// Bytes to text and back: the digits of a magnitude convert to its
/// canonical form, the magnitude without its leading zero bytes.
pub proof fn lemma_be_bytes_round_trip(b: Seq<u8>)
    ensures
        canonical_be(be_value(b)) == strip_leading_zero_bytes(b),
    decreases b.len(),
{
    lemma_strip_value(b);
    lemma_canonical_unique(strip_leading_zero_bytes(b));
}

/// `b` without its leading zero bytes.
pub open spec fn strip_leading_zero_bytes(b: Seq<u8>) -> Seq<u8>
    decreases b.len(),
{
    if b.len() > 0 && b[0] == 0 {
        strip_leading_zero_bytes(b.drop_first())
    } else {
        b
    }
}

proof fn lemma_strip_value(b: Seq<u8>)
    ensures
        be_value(strip_leading_zero_bytes(b)) == be_value(b),
        strip_leading_zero_bytes(b).len() == 0 || strip_leading_zero_bytes(b)[0] != 0,
    decreases b.len(),
{
    if b.len() > 0 && b[0] == 0 {
        lemma_be_leading_zero(b);
        lemma_strip_value(b.drop_first());
    }
}

/// Bytes without a leading zero are the canonical bytes of their value.
proof fn lemma_canonical_unique(b: Seq<u8>)
    requires
        b.len() == 0 || b[0] != 0,
    ensures
        canonical_be(be_value(b)) == b,
    decreases b.len(),
{
    if b.len() > 0 {
        let p = b.drop_last();
        if p.len() > 0 {
            assert(p[0] == b[0]);
        }
        lemma_canonical_unique(p);
        let v = be_value(b);
        assert(v == be_value(p) * 256 + b.last());
        assert(v / 256 == be_value(p)) by (nonlinear_arith)
            requires
                v == be_value(p) * 256 + b.last(),
                b.last() < 256,
        ;
        assert(v % 256 == b.last()) by (nonlinear_arith)
            requires
                v == be_value(p) * 256 + b.last(),
                b.last() < 256,
        ;
        if v == 0 {
            lemma_be_zero(b);
            assert(b[0] == 0);
        }
        assert(canonical_be(v) == canonical_be(v / 256).push((v % 256) as u8));
        assert(b == p.push(b.last()));
    }
}

// ---------------------------------------------------------------- decimal text round trip
/// ASCII bytes as characters.
pub open spec fn ascii_chars(b: Seq<u8>) -> Seq<char> {
    Seq::new(b.len(), |i: int| b[i] as char)
}

proof fn lemma_zeros_front(n: nat)
    ensures
        zeros(n + 1) == seq!['0'] + zeros(n),
    decreases n,
{
    if n > 0 {
        lemma_zeros_front((n - 1) as nat);
        assert(zeros(n + 1) == zeros(n).push('0'));
        assert(zeros(n) == zeros((n - 1) as nat).push('0'));
        assert(seq!['0'] + zeros(n) =~= (seq!['0'] + zeros((n - 1) as nat)).push('0'));
    } else {
        assert(zeros(1) == zeros(0).push('0'));
        assert(seq!['0'] + zeros(0) =~= seq!['0']);
    }
}

proof fn lemma_zeros_len(n: nat)
    ensures
        zeros(n).len() == n,
        forall|i: int| 0 <= i < n ==> #[trigger] zeros(n)[i] == '0',
    decreases n,
{
    if n > 0 {
        lemma_zeros_len((n - 1) as nat);
    }
}

/// Digits with a non-zero first one spell a positive number.
proof fn lemma_leading_digit_positive(d: Seq<u8>)
    requires
        d.len() > 0,
        all_ascii_digits(d),
        d[0] != 48,
    ensures
        digits_value(d) > 0,
    decreases d.len(),
{
    if d.len() > 1 {
        let p = d.drop_last();
        assert(p[0] == d[0]);
        lemma_leading_digit_positive(p);
    }
}

/// Digits without a leading zero are the decimal text of their number.
proof fn lemma_canonical_digits(d: Seq<u8>)
    requires
        d.len() > 0,
        all_ascii_digits(d),
        d.len() == 1 || d[0] != 48,
    ensures
        decimal_chars(digits_value(d)) == ascii_chars(d),
    decreases d.len(),
{
    let v = digits_value(d);
    let x = (d.last() - 48) as nat;
    assert(is_ascii_digit(d[d.len() - 1]));
    if d.len() == 1 {
        assert(d.drop_last().len() == 0);
        assert(digits_value(d.drop_last()) == 0);
        assert(v == digits_value(d.drop_last()) * 10 + x);
        assert(v == x);
        assert(decimal_chars(v) == seq![digit_char(v)]);
        assert(digit_char(v) == d[0] as char);
        assert(decimal_chars(v) =~= ascii_chars(d));
    } else {
        let p = d.drop_last();
        assert(p[0] == d[0]);
        lemma_canonical_digits(p);
        lemma_leading_digit_positive(p);
        let w = digits_value(p);
        assert(v == w * 10 + x);
        assert(v >= 10);
        assert(v / 10 == w && v % 10 == x) by (nonlinear_arith)
            requires
                v == w * 10 + x,
                x < 10,
        ;
        assert(decimal_chars(v) == decimal_chars(v / 10).push(digit_char(v % 10)));
        assert(digit_char(x) == d.last() as char);
        assert(ascii_chars(d) =~= ascii_chars(p).push(d.last() as char));
    }
}

/// Any digits are leading zeros before the decimal text of their number,
/// or all zeros when it is zero.
proof fn lemma_digits_shape(d: Seq<u8>)
    requires
        all_ascii_digits(d),
    ensures
        digits_value(d) == 0 ==> ascii_chars(d) == zeros(d.len()),
        digits_value(d) > 0 ==> decimal_chars(digits_value(d)).len() <= d.len() && ascii_chars(d)
            == zeros((d.len() - decimal_chars(digits_value(d)).len()) as nat) + decimal_chars(
            digits_value(d),
        ),
    decreases d.len(),
{
    if d.len() == 0 {
        assert(ascii_chars(d) =~= zeros(0));
    } else if d[0] == 48 {
        let t = d.drop_first();
        lemma_digits_leading_zero(d);
        lemma_digits_shape(t);
        assert(ascii_chars(d) =~= seq!['0'] + ascii_chars(t));
        if digits_value(d) == 0 {
            lemma_zeros_front(t.len());
        } else {
            let k = (t.len() - decimal_chars(digits_value(d)).len()) as nat;
            lemma_zeros_front(k);
            assert(seq!['0'] + (zeros(k) + decimal_chars(digits_value(d))) =~= (seq!['0'] + zeros(
                k,
            )) + decimal_chars(digits_value(d)));
        }
    } else {
        lemma_canonical_digits(d);
        lemma_leading_digit_positive(d);
        assert(zeros(0) + decimal_chars(digits_value(d)) =~= decimal_chars(digits_value(d)));
    }
}

/// A decimal literal written canonically reads back as itself: the integer
/// part without leading zeros (or a single `0`), an optional fraction kept
/// digit for digit, and the sign as written. Parsing gives the magnitude
/// of the digits with the point removed and the fraction's length as the
/// scale; formatting that gives the text back.
pub proof fn lemma_decimal_round_trip(negative: bool, int_part: Seq<u8>, frac: Seq<u8>)
    requires
        int_part.len() > 0,
        all_ascii_digits(int_part),
        all_ascii_digits(frac),
        int_part.len() == 1 || int_part[0] != 48,
        frac.len() <= i32::MAX,
    ensures
        decimal_text(be_value(canonical_be(digits_value(int_part + frac))), frac.len() as int, negative)
            == (if negative {
            seq!['-']
        } else {
            seq![]
        }) + ascii_chars(int_part) + if frac.len() > 0 {
            seq!['.'] + ascii_chars(frac)
        } else {
            seq![]
        },
{
    let digits = int_part + frac;
    assert(all_ascii_digits(digits)) by {
        assert forall|i: int| 0 <= i < digits.len() implies is_ascii_digit(#[trigger] digits[i]) by {
            if i < int_part.len() {
                assert(digits[i] == int_part[i]);
            } else {
                assert(digits[i] == frac[i - int_part.len()]);
            }
        }
    }
    let v = digits_value(digits);
    lemma_canonical_be_value(v);
    lemma_digits_shape(digits);
    lemma_decimal_chars(v);
    let dc = decimal_chars(v);
    let f = frac.len() as int;
    let sign: Seq<char> = if negative {
        seq!['-']
    } else {
        seq![]
    };
    assert(ascii_chars(digits) =~= ascii_chars(int_part) + ascii_chars(frac));
    if int_part[0] != 48 {
        lemma_leading_digit_positive(digits);
        lemma_canonical_digits(digits);
    }
    if f == 0 {
        assert(frac.len() == 0);
        assert(digits =~= int_part);
        if int_part[0] == 48 {
            assert(int_part.len() == 1);
            lemma_digits_leading_zero(int_part);
            assert(int_part.drop_first().len() == 0);
            assert(v == 0);
            assert(dc == seq![digit_char(0)]);
            assert(ascii_chars(int_part) =~= seq!['0']);
        }
        assert(dc + zeros(0) =~= dc);
        assert(ascii_chars(frac) =~= Seq::<char>::empty());
        assert(sign + ascii_chars(int_part) + Seq::<char>::empty() =~= sign + ascii_chars(int_part));
    } else {
        let padded = if dc.len() <= f {
            zeros((f + 1 - dc.len()) as nat) + dc
        } else {
            dc
        };
        assert(padded == ascii_chars(digits)) by {
            if v == 0 {
                assert(dc == seq!['0']);
                assert(ascii_chars(digits) == zeros(digits.len()));
                assert(int_part.len() == 1) by {
                    if int_part.len() > 1 {
                        lemma_zeros_len(digits.len());
                        assert(ascii_chars(digits)[0] == '0');
                        assert(digits[0] == int_part[0]);
                    }
                }
                assert(zeros((f + 1 - 1) as nat) + seq!['0'] =~= zeros((f + 1) as nat));
            } else if int_part[0] != 48 {
                assert(dc == ascii_chars(digits));
            } else {
                assert(int_part.len() == 1);
                let k = (digits.len() - dc.len()) as nat;
                assert(ascii_chars(digits) == zeros(k) + dc);
                assert(k >= 1) by {
                    if k == 0 {
                        assert(zeros(0) + dc =~= dc);
                        assert(digits[0] == int_part[0]);
                        assert(ascii_chars(digits)[0] == '0');
                        assert(dc[0] != '0') by {
                            lemma_canonical_nonzero_first(v);
                        }
                    }
                }
            }
        }
        assert(padded.len() == digits.len());
        assert(padded.subrange(0, padded.len() - f) =~= ascii_chars(int_part));
        assert(padded.subrange(padded.len() - f, padded.len() as int) =~= ascii_chars(frac));
    }
}

/// The decimal text of a positive number does not start with `0`.
proof fn lemma_canonical_nonzero_first(v: nat)
    requires
        v > 0,
    ensures
        decimal_chars(v)[0] != '0',
    decreases v,
{
    if v >= 10 {
        lemma_canonical_nonzero_first(v / 10);
        assert(decimal_chars(v) == decimal_chars(v / 10).push(digit_char(v % 10)));
    } else {
        assert(decimal_chars(v) == seq![digit_char(v)]);
    }
}

proof fn lemma_first_dot(b: Seq<u8>, i: int)
    requires
        0 <= i <= b.len(),
    ensures
        i <= first_dot(b, i) <= b.len(),
        first_dot(b, i) < b.len() ==> b[first_dot(b, i)] == 46,
    decreases b.len() - i,
{
    if i < b.len() && b[i] != 46 {
        lemma_first_dot(b, i + 1);
    }
}

/// The parts `parse_decimal` reads a literal into: the sign, the digits
/// before the point, and those after it (none without a point).
pub open spec fn decimal_parts(t: Seq<u8>) -> (bool, Seq<u8>, Seq<u8>) {
    let (neg, body) = split_sign(t);
    let dot = first_dot(body, 0);
    let frac = if dot < body.len() {
        body.subrange(dot + 1, body.len() as int)
    } else {
        seq![]
    };
    (neg, body.subrange(0, dot), frac)
}

/// A decimal literal written canonically: `-?(0|[1-9][0-9]*)(\.[0-9]+)?`.
pub open spec fn canonical_decimal(t: Seq<u8>) -> bool {
    let (neg, int_part, frac) = decimal_parts(t);
    let (_, body) = split_sign(t);
    &&& int_part.len() > 0
    &&& all_ascii_digits(int_part)
    &&& (int_part.len() == 1 || int_part[0] != 48)
    &&& all_ascii_digits(frac)
    &&& (first_dot(body, 0) < body.len() ==> frac.len() > 0)
    &&& frac.len() <= i32::MAX
}

/// Formatting what `parse_decimal` reads from a canonical literal gives the
/// literal back, scale and sign included: the magnitude of the digits with
/// the point removed, the fraction's length as the scale, and the sign.
pub proof fn lemma_decimal_literal_round_trip(t: Seq<u8>)
    requires
        canonical_decimal(t),
    ensures
        ({
            let (neg, int_part, frac) = decimal_parts(t);
            decimal_text(
                be_value(canonical_be(digits_value(int_part + frac))),
                frac.len() as int,
                neg,
            ) == ascii_chars(t)
        }),
{
    let (neg, int_part, frac) = decimal_parts(t);
    let (_, body) = split_sign(t);
    let dot = first_dot(body, 0);
    lemma_first_dot(body, 0);
    lemma_decimal_round_trip(neg, int_part, frac);
    let sign: Seq<char> = if neg {
        seq!['-']
    } else {
        seq![]
    };
    if dot < body.len() {
        assert(body =~= int_part + seq![46u8] + frac);
        assert(ascii_chars(body) =~= ascii_chars(int_part) + seq!['.'] + ascii_chars(frac));
    } else {
        assert(body =~= int_part);
        assert(frac.len() == 0);
    }
    if neg {
        assert(t =~= seq![45u8] + body);
        assert(ascii_chars(t) =~= seq!['-'] + ascii_chars(body));
    } else {
        assert(t =~= body);
    }
    let tail: Seq<char> = if frac.len() > 0 {
        seq!['.'] + ascii_chars(frac)
    } else {
        seq![]
    };
    assert(ascii_chars(t) =~= sign + ascii_chars(int_part) + tail);
}

} // verus!
