//! The text forms of the two well-known types a PXF literal can denote:
//! RFC 3339 timestamps and Go-style durations, read into and written from
//! seconds and nanoseconds, plus the proleptic Gregorian calendar
//! arithmetic they rest on.
use vstd::arithmetic::power::pow;
use vstd::prelude::*;
use vstd::string::StringSliceAdditionalSpecFns;

use crate::pxf::lexer::{
    byte_at, decimal_value, digits_at, is_digit, lemma_scan, scan, unit_len, valid_go_duration,
    ByteClass,
};
use crate::pxf::bigfloat::trim_zeros;
use crate::text::{bytes_range, decimal_chars, push_char, push_decimal, push_str};

verus! {

// ---------------------------------------------------------------- calendar
/// The year of a 400-year era (starting on March 1st) that day `doe` of
/// the era falls in.
pub open spec fn year_of_era(doe: int) -> int {
    (doe - doe / 1460 + doe / 36524 - doe / 146096) / 365
}

/// The days of an era before year `yoe` of it.
pub open spec fn era_days_before(yoe: int) -> int {
    365 * yoe + yoe / 4 - yoe / 100
}

/// The day of its year (counted from March 1st) that day `doe` of an era
/// is.
pub open spec fn day_of_year(doe: int) -> int {
    doe - era_days_before(year_of_era(doe))
}

/// Days since 1970-01-01 of the proleptic Gregorian date `y-m-d`.
pub open spec fn days_from_civil_spec(y: int, m: int, d: int) -> int {
    let y2 = if m <= 2 {
        y - 1
    } else {
        y
    };
    let era = y2 / 400;
    let yoe = y2 - era * 400;
    let ms = if m > 2 {
        m - 3
    } else {
        m + 9
    };
    let doy = (153 * ms + 2) / 5 + d - 1;
    era * 146097 + era_days_before(yoe) + doy - 719468
}

/// The proleptic Gregorian date `(year, month, day)` of day `z` since
/// 1970-01-01.
pub open spec fn civil_from_days_spec(z: int) -> (int, int, int) {
    let z2 = z + 719468;
    let era = z2 / 146097;
    let doe = z2 - era * 146097;
    let yoe = year_of_era(doe);
    let doy = day_of_year(doe);
    let mp = (5 * doy + 2) / 153;
    let d = doy - (153 * mp + 2) / 5 + 1;
    let m = if mp < 10 {
        mp + 3
    } else {
        mp - 9
    };
    let y = yoe + era * 400;
    (
        if m <= 2 {
            y + 1
        } else {
            y
        },
        m,
        d,
    )
}

#[verifier::rlimit(50)]
proof fn lemma_doy_range(doe: int)
    requires
        0 <= doe <= 146096,
    ensures
        0 <= year_of_era(doe) <= 399,
        0 <= day_of_year(doe) <= 365,
{
}

/// A month index counted from March and a day of it give back their day of
/// the year, and the day of the year gives back both.
proof fn lemma_month_split(doy: int)
    requires
        0 <= doy <= 365,
    ensures
        0 <= (5 * doy + 2) / 153 <= 11,
        1 <= doy - (153 * ((5 * doy + 2) / 153) + 2) / 5 + 1 <= 31,
{
}

/// Days since the epoch and back: the date of a day gives the day again.
#[verifier::spinoff_prover]
#[verifier::rlimit(80)]
pub proof fn lemma_civil_round_trip(z: int)
    requires
        -0x2000_0000 <= z <= 0x2000_0000,
    ensures
        ({
            let (y, m, d) = civil_from_days_spec(z);
            &&& 1 <= m <= 12
            &&& 1 <= d <= 31
            &&& days_from_civil_spec(y, m, d) == z
        }),
{
    let z2 = z + 719468;
    let era = z2 / 146097;
    let doe = z2 - era * 146097;
    lemma_doy_range(doe);
    let doy = day_of_year(doe);
    lemma_month_split(doy);
    let yoe = year_of_era(doe);
    let mp = (5 * doy + 2) / 153;
    let d = doy - (153 * mp + 2) / 5 + 1;
    let m = if mp < 10 {
        mp + 3
    } else {
        mp - 9
    };
    let ms = if m > 2 {
        m - 3
    } else {
        m + 9
    };
    assert(ms == mp);
    assert((153 * ms + 2) / 5 + d - 1 == doy);
    let y = yoe + era * 400;
    let yy = if m <= 2 {
        y + 1
    } else {
        y
    };
    let y2 = if m <= 2 {
        yy - 1
    } else {
        yy
    };
    assert(y2 == y);
    assert(y2 / 400 == era);
    assert(y2 - era * 400 == yoe);
}

/// Whether `y` is a leap year of the proleptic Gregorian calendar.
pub open spec fn leap(y: int) -> bool {
    (y % 4 == 0 && y % 100 != 0) || y % 400 == 0
}

/// The days of month `m` of year `y`.
pub open spec fn days_in_month(y: int, m: int) -> int {
    if m == 2 {
        if leap(y) {
            29
        } else {
            28
        }
    } else if m == 4 || m == 6 || m == 9 || m == 11 {
        30
    } else {
        31
    }
}

/// The days of year `yoe` of an era: its last year ends on the era's
/// leap day.
pub open spec fn era_year_len(yoe: int) -> int {
    era_days_before(yoe + 1) - era_days_before(yoe) + if yoe == 399 {
        1int
    } else {
        0int
    }
}

/// A day of an era read back: its year of the era and day of that year.
#[verifier::spinoff_prover]
#[verifier::rlimit(80)]
proof fn lemma_era_split(yoe: int, doy: int)
    requires
        0 <= yoe <= 399,
        0 <= doy < era_year_len(yoe),
    ensures
        year_of_era(era_days_before(yoe) + doy) == yoe,
        day_of_year(era_days_before(yoe) + doy) == doy,
{
}

/// A day of a month counted from March gives back its month index.
proof fn lemma_month_inverse(ms: int, d: int)
    requires
        0 <= ms <= 11,
        1 <= d <= 31,
        ms == 11 ==> d <= 29,
        (ms == 1 || ms == 3 || ms == 6 || ms == 8) ==> d <= 30,
    ensures
        (5 * ((153 * ms + 2) / 5 + d - 1) + 2) / 153 == ms,
        (153 * ms + 2) / 5 + d - 1 <= 365,
        ms < 11 ==> (153 * ms + 2) / 5 + d - 1 <= 336,
        ms == 11 && d <= 28 ==> (153 * ms + 2) / 5 + d - 1 <= 364,
{
}

/// A date to its day since the epoch and back gives the date again.
#[verifier::spinoff_prover]
#[verifier::rlimit(80)]
pub proof fn lemma_days_round_trip(y: int, m: int, d: int)
    requires
        -0x10_0000 <= y <= 0x10_0000,
        1 <= m <= 12,
        1 <= d <= days_in_month(y, m),
    ensures
        civil_from_days_spec(days_from_civil_spec(y, m, d)) == (y, m, d),
{
    let y2 = if m <= 2 {
        y - 1
    } else {
        y
    };
    let era = y2 / 400;
    let yoe = y2 - era * 400;
    let ms = if m > 2 {
        m - 3
    } else {
        m + 9
    };
    let doy = (153 * ms + 2) / 5 + d - 1;
    assert(0 <= yoe <= 399);
    lemma_month_inverse(ms, d);
    lemma_year_len(y, y2, era, yoe);
    if ms == 11 && d == 29 {
        assert(leap(y));
    }
    assert(doy < era_year_len(yoe));
    lemma_era_split(yoe, doy);
    let doe = era_days_before(yoe) + doy;
    assert(0 <= doe < 146097);
    let z = days_from_civil_spec(y, m, d);
    assert(z + 719468 == era * 146097 + doe);
    assert((z + 719468) / 146097 == era);
}

/// The length of year `yoe` of an era is that of the calendar year its
/// February falls in.
#[verifier::spinoff_prover]
proof fn lemma_year_len(y: int, y2: int, era: int, yoe: int)
    requires
        era == y2 / 400,
        yoe == y2 - era * 400,
        y2 == y - 1 || y2 == y,
    ensures
        0 <= yoe <= 399,
        era_year_len(yoe) == if leap(y2 + 1) {
            366int
        } else {
            365int
        },
{
    vstd::arithmetic::div_mod::lemma_fundamental_div_mod(y2, 400);
    let k = yoe + 1;
    assert(1 <= k <= 400);
    lemma_era_year_len(k);
    assert(y2 + 1 == era * 400 + k);
    lemma_mod_shift(era, k, 4);
    lemma_mod_shift(era, k, 100);
    lemma_mod_shift(era, k, 400);
}

/// The length of year `k - 1` of an era by the leap rule applied to `k`.
#[verifier::spinoff_prover]
proof fn lemma_era_year_len(k: int)
    requires
        1 <= k <= 400,
    ensures
        era_year_len(k - 1) == if (k % 4 == 0 && k % 100 != 0) || k % 400 == 0 {
            366int
        } else {
            365int
        },
{
}

/// Adding whole eras changes no remainder by 4, 100 or 400.
proof fn lemma_mod_shift(era: int, k: int, d: int)
    requires
        d == 4 || d == 100 || d == 400,
    ensures
        (era * 400 + k) % d == k % d,
{
    let q: int = era * (400int / d);
    assert(era * 400 == d * q) by (nonlinear_arith)
        requires
            q == era * (400int / d),
            d == 4 || d == 100 || d == 400,
    ;
    vstd::arithmetic::div_mod::lemma_mod_multiples_vanish(q, k, d);
}

/// Days since 1970-01-01 of the proleptic Gregorian date `y-m-d`
/// (Howard Hinnant's `days_from_civil`).
pub fn days_from_civil(y: i32, m: u32, d: u32) -> (r: i64)
    requires
        1 <= m <= 12,
        1 <= d <= 31,
    ensures
        r == days_from_civil_spec(y as int, m as int, d as int),
{
    let yy = y as i64;
    let y2: i64 = if m <= 2 {
        yy - 1
    } else {
        yy
    };
    let era: i64 = if y2 >= 0 {
        y2 / 400
    } else {
        let q = (399 - y2) / 400;
        proof {
            vstd::arithmetic::div_mod::lemma_fundamental_div_mod((399 - y2) as int, 400);
            vstd::arithmetic::div_mod::lemma_fundamental_div_mod_converse(
                y2 as int,
                400,
                -q as int,
                399 - (399 - y2) % 400,
            );
        }
        -q
    };
    let yoe: i64 = y2 - era * 400;
    let ms: i64 = if m > 2 {
        m as i64 - 3
    } else {
        m as i64 + 9
    };
    let doy: i64 = (153 * ms + 2) / 5 + d as i64 - 1;
    let doe: i64 = yoe * 365 + yoe / 4 - yoe / 100 + doy;
    era * 146097 + doe - 719468
}

/// The proleptic Gregorian date `(year, month, day)` of day `z` since
/// 1970-01-01 (Howard Hinnant's `civil_from_days`), for days within about
/// 1.4 million years of the epoch.
pub fn civil_from_days(z: i64) -> (r: (i32, u32, u32))
    requires
        -0x2000_0000 <= z <= 0x2000_0000,
    ensures
        (r.0 as int, r.1 as int, r.2 as int) == civil_from_days_spec(z as int),
        1 <= r.1 <= 12,
        1 <= r.2 <= 31,
{
    let z2: i64 = z + 719468;
    let era: i64 = if z2 >= 0 {
        z2 / 146097
    } else {
        let q = (146096 - z2) / 146097;
        proof {
            vstd::arithmetic::div_mod::lemma_fundamental_div_mod((146096 - z2) as int, 146097);
            vstd::arithmetic::div_mod::lemma_fundamental_div_mod_converse(
                z2 as int,
                146097,
                -q as int,
                146096 - (146096 - z2) % 146097,
            );
        }
        -q
    };
    let doe: i64 = z2 - era * 146097;
    proof {
        lemma_doy_range(doe as int);
        lemma_civil_round_trip(z as int);
    }
    let yoe: i64 = (doe - doe / 1460 + doe / 36524 - doe / 146096) / 365;
    let doy: i64 = doe - (365 * yoe + yoe / 4 - yoe / 100);
    proof {
        lemma_month_split(doy as int);
    }
    let mp: i64 = (5 * doy + 2) / 153;
    let d: i64 = doy - (153 * mp + 2) / 5 + 1;
    let m: i64 = if mp < 10 {
        mp + 3
    } else {
        mp - 9
    };
    let y: i64 = yoe + era * 400;
    let y: i64 = if m <= 2 {
        y + 1
    } else {
        y
    };
    (y as i32, m as u32, d as u32)
}

// ---------------------------------------------------------------- timestamps
proof fn lemma_decimal_value_shift(b: Seq<u8>, a: int, e: int)
    requires
        0 <= a <= e <= b.len(),
    ensures
        decimal_value(b.subrange(a, e), 0, e - a) == decimal_value(b, a, e),
    decreases e - a,
{
    if e > a {
        lemma_decimal_value_shift(b, a, e - 1);
        lemma_decimal_value_sub(b.subrange(a, e), b.subrange(a, e - 1), e - 1 - a);
    }
}

/// Digits read from two sequences that agree on them have one value.
proof fn lemma_decimal_value_sub(x: Seq<u8>, y: Seq<u8>, k: int)
    requires
        0 <= k <= x.len(),
        k <= y.len(),
        forall|i: int| 0 <= i < k ==> x[i] == y[i],
    ensures
        decimal_value(x, 0, k) == decimal_value(y, 0, k),
    decreases k,
{
    if k > 0 {
        lemma_decimal_value_sub(x, y, k - 1);
    }
}

/// The value of decimal digits; an error for anything else. At most
/// nineteen digits, so that the value fits.
pub fn parse_int_n(bytes: &[u8]) -> (r: Result<u64, String>)
    requires
        bytes@.len() <= 19,
    ensures
        digits_at(bytes@, 0, bytes@.len() as int) ==> r == Ok::<u64, String>(
            decimal_value(bytes@, 0, bytes@.len() as int) as u64,
        ),
        !digits_at(bytes@, 0, bytes@.len() as int) ==> (r matches Err(m) && m@ == "non-digit"@),
        r matches Ok(v) ==> v == decimal_value(bytes@, 0, bytes@.len() as int),
{
    let mut n: u64 = 0;
    let mut k: usize = 0;
    proof {
        vstd::arithmetic::power::lemma_pow0(10);
    }
    while k < bytes.len()
        invariant
            k <= bytes@.len() <= 19,
            digits_at(bytes@, 0, k as int),
            n == decimal_value(bytes@, 0, k as int),
            n < pow(10, k as nat),
        decreases bytes@.len() - k,
    {
        let c = bytes[k];
        if !(48 <= c && c <= 57) {
            return Err(crate::text::owned("non-digit"));
        }
        proof {
            vstd::arithmetic::power::lemma_pow_adds(10, k as nat, 1);
            vstd::arithmetic::power::lemma_pow1(10);
            vstd::arithmetic::power::lemma_pow_increases(10, (k + 1) as nat, 19);
            assert(pow(10, 19) == 10000000000000000000) by {
                reveal_with_fuel(pow, 20);
            }
            let p = pow(10, k as nat);
            assert(n * 10 + 9 < p * 10) by (nonlinear_arith)
                requires
                    n < p,
            ;
        }
        n = n * 10 + (c - 48) as u64;
        k = k + 1;
    }
    Ok(n)
}

/// Where the zone designator of a lexed timestamp starts: past the
/// fractional seconds, if any.
pub open spec fn zone_start(b: Seq<u8>) -> int {
    if b[19] == 46 {
        scan(b, 20, ByteClass::Digit)
    } else {
        19
    }
}

/// The nanoseconds of a lexed timestamp: its first nine fractional digits,
/// the missing ones read as zeros.
pub open spec fn rfc3339_nanos(b: Seq<u8>) -> int {
    if b[19] == 46 {
        let e = scan(b, 20, ByteClass::Digit);
        let n = if e - 20 > 9 {
            9
        } else {
            e - 20
        };
        decimal_value(b, 20, 20 + n) * pow(10, (9 - n) as nat)
    } else {
        0
    }
}

/// The zone offset of a lexed timestamp, in seconds east of UTC.
pub open spec fn rfc3339_offset(b: Seq<u8>) -> int {
    let i = zone_start(b);
    if b[i] == 90 || b[i] == 122 {
        0
    } else {
        let o = (decimal_value(b, i + 1, i + 3) * 3600 + decimal_value(b, i + 4, i + 6) * 60) as int;
        if b[i] == 45 {
            -o
        } else {
            o
        }
    }
}

/// The seconds since the epoch of a lexed timestamp.
pub open spec fn rfc3339_seconds(b: Seq<u8>) -> int {
    days_from_civil_spec(
        decimal_value(b, 0, 4) as int,
        decimal_value(b, 5, 7) as int,
        decimal_value(b, 8, 10) as int,
    ) * 86400 + decimal_value(b, 11, 13) * 3600 + decimal_value(b, 14, 16) * 60 + decimal_value(
        b,
        17,
        19,
    ) - rfc3339_offset(b)
}

/// The decimal field `b[a..e]`.
fn field(b: &[u8], a: usize, e: usize) -> (r: Result<u64, String>)
    requires
        a <= e <= b@.len(),
        e - a <= 19,
    ensures
        digits_at(b@, a as int, e as int) ==> r == Ok::<u64, String>(
            decimal_value(b@, a as int, e as int) as u64,
        ),
        !digits_at(b@, a as int, e as int) ==> (r matches Err(m) && m@ == "non-digit"@),
        r matches Ok(v) ==> v == decimal_value(b@, a as int, e as int),
{
    let part = bytes_range(b, a, e);
    proof {
        lemma_decimal_value_shift(b@, a as int, e as int);
        if digits_at(b@, a as int, e as int) {
            assert forall|k: int| 0 <= k < part@.len() implies is_digit(#[trigger] part@[k]) by {
                assert(part@[k] == b@[a + k]);
            }
        } else {
            let k = choose|k: int| a <= k < e && !is_digit(#[trigger] b@[k]);
            assert(part@[k - a] == b@[k]);
            assert(!digits_at(part@, 0, part@.len() as int));
        }
    }
    parse_int_n(part.as_slice())
}

proof fn lemma_decimal_value_bound(b: Seq<u8>, a: int, e: int)
    requires
        0 <= a <= e <= b.len(),
        digits_at(b, a, e),
    ensures
        decimal_value(b, a, e) < pow(10, (e - a) as nat),
    decreases e - a,
{
    if e > a {
        lemma_decimal_value_bound(b, a, e - 1);
        vstd::arithmetic::power::lemma_pow_adds(10, (e - 1 - a) as nat, 1);
        vstd::arithmetic::power::lemma_pow1(10);
        let p = pow(10, (e - 1 - a) as nat);
        let v = decimal_value(b, a, e - 1);
        assert(is_digit(b[e - 1]));
        assert(v * 10 + 9 < p * 10) by (nonlinear_arith)
            requires
                v < p,
        ;
    } else {
        vstd::arithmetic::power::lemma_pow0(10);
    }
}

/// Whether the date and time fields of a timestamp text are all digits.
pub open spec fn rfc3339_fields_ok(b: Seq<u8>) -> bool {
    &&& digits_at(b, 0, 4)
    &&& digits_at(b, 5, 7)
    &&& digits_at(b, 8, 10)
    &&& digits_at(b, 11, 13)
    &&& digits_at(b, 14, 16)
    &&& digits_at(b, 17, 19)
}

/// What reading a timestamp text gives: seconds since the epoch and
/// nanoseconds, or the message of the error. The fields are read at their
/// fixed places without looking at the separators between them; the zone
/// is `Z`, or an offset `±hh:mm` read at its places.
pub open spec fn rfc3339_outcome(b: Seq<u8>) -> Result<(int, int), Seq<char>> {
    if b.len() < 20 {
        Err("too short"@)
    } else if !rfc3339_fields_ok(b) {
        Err("non-digit"@)
    } else {
        let i = zone_start(b);
        if i >= b.len() {
            Err("missing zone"@)
        } else if b[i] == 90 || b[i] == 122 {
            Ok((rfc3339_seconds(b), rfc3339_nanos(b)))
        } else if b[i] == 43 || b[i] == 45 {
            if b.len() < i + 6 {
                Err("malformed offset"@)
            } else if !(digits_at(b, i + 1, i + 3) && digits_at(b, i + 4, i + 6)) {
                Err("non-digit"@)
            } else {
                Ok((rfc3339_seconds(b), rfc3339_nanos(b)))
            }
        } else {
            Err("unexpected zone"@)
        }
    }
}

/// Reads an RFC 3339 timestamp into seconds since the epoch and a
/// nanosecond remainder: the date and time less the zone offset, and the
/// first nine fractional digits. A text that reads has its month and day in
/// the calendar's range.
pub fn parse_rfc3339(s: &str) -> (r: Result<(i64, i32), String>)
    requires
        rfc3339_outcome(s.spec_bytes()) is Ok ==> 1 <= decimal_value(s.spec_bytes(), 5, 7) <= 12
            && 1 <= decimal_value(s.spec_bytes(), 8, 10) <= 31,
    ensures
        match rfc3339_outcome(s.spec_bytes()) {
            Ok((secs, nanos)) => r == Ok::<(i64, i32), String>((secs as i64, nanos as i32)),
            Err(m) => r matches Err(e) && e@ == m,
        },
{
    let b = s.as_bytes();
    let n = b.len();
    if n < 20 {
        return Err(crate::text::owned("too short"));
    }
    let year = match field(b, 0, 4) {
        Ok(v) => v,
        Err(e) => {
            return Err(e);
        },
    };
    let month = match field(b, 5, 7) {
        Ok(v) => v,
        Err(e) => {
            return Err(e);
        },
    };
    let day = match field(b, 8, 10) {
        Ok(v) => v,
        Err(e) => {
            return Err(e);
        },
    };
    let hour = match field(b, 11, 13) {
        Ok(v) => v,
        Err(e) => {
            return Err(e);
        },
    };
    let minute = match field(b, 14, 16) {
        Ok(v) => v,
        Err(e) => {
            return Err(e);
        },
    };
    let second = match field(b, 17, 19) {
        Ok(v) => v,
        Err(e) => {
            return Err(e);
        },
    };
    proof {
        lemma_decimal_value_bound(b@, 0, 4);
        lemma_decimal_value_bound(b@, 11, 13);
        lemma_decimal_value_bound(b@, 14, 16);
        lemma_decimal_value_bound(b@, 17, 19);
        assert(pow(10, 4) == 10000 && pow(10, 2) == 100) by {
            reveal_with_fuel(pow, 5);
        }
    }
    let mut i: usize = 19;
    let mut nanos: i32 = 0;
    if b[19] == 46 {
        i = 20;
        while i < n && b[i] >= 48 && b[i] <= 57
            invariant
                20 <= i <= n,
                n == b@.len(),
                scan(b@, i as int, ByteClass::Digit) == scan(b@, 20, ByteClass::Digit),
                digits_at(b@, 20, i as int),
            decreases n - i,
        {
            i = i + 1;
        }
        let take = if i - 20 > 9 {
            9
        } else {
            i - 20
        };
        let v = match field(b, 20, 20 + take) {
            Ok(v) => v,
            Err(e) => {
                return Err(e);
            },
        };
        proof {
            lemma_decimal_value_bound(b@, 20, (20 + take) as int);
            vstd::arithmetic::power::lemma_pow_increases(10, take as nat, 9);
            assert(pow(10, 9) == 1000000000) by {
                reveal_with_fuel(pow, 10);
            }
        }
        let mut acc: u64 = v;
        let mut k: usize = take;
        proof {
            vstd::arithmetic::power::lemma_pow0(10);
            assert(pow(10, 0) == 1);
            let vv = v as int;
            assert(vv * 1 == vv);
        }
        while k < 9
            invariant
                take <= k <= 9,
                acc == decimal_value(b@, 20, (20 + take) as int) * pow(10, (k - take) as nat),
                acc < pow(10, k as nat),
                pow(10, 9) == 1000000000,
            decreases 9 - k,
        {
            proof {
                vstd::arithmetic::power::lemma_pow_adds(10, (k - take) as nat, 1);
                vstd::arithmetic::power::lemma_pow_adds(10, k as nat, 1);
                vstd::arithmetic::power::lemma_pow1(10);
                vstd::arithmetic::power::lemma_pow_increases(10, (k + 1) as nat, 9);
            }
            let ghost a0 = acc;
            acc = acc * 10;
            k = k + 1;
            proof {
                let dv = decimal_value(b@, 20, (20 + take) as int);
                let p = pow(10, (k - 1 - take) as nat);
                assert(dv * p * 10 == dv * (p * 10)) by (nonlinear_arith);
            }
        }
        nanos = acc as i32;
    }
    proof {
        vstd::arithmetic::power::lemma_pow0(10);
    }
    let mut offset: i64 = 0;
    if i >= n {
        return Err(crate::text::owned("missing zone"));
    }
    let z = b[i];
    if z == 43 || z == 45 {
        if n - i < 6 {
            return Err(crate::text::owned("malformed offset"));
        }
        let oh = match field(b, i + 1, i + 3) {
            Ok(v) => v,
            Err(e) => {
                return Err(e);
            },
        };
        let om = match field(b, i + 4, i + 6) {
            Ok(v) => v,
            Err(e) => {
                return Err(e);
            },
        };
        proof {
            lemma_decimal_value_bound(b@, i + 1, i + 3);
            lemma_decimal_value_bound(b@, i + 4, i + 6);
        }
        offset = (oh as i64) * 3600 + (om as i64) * 60;
        if z == 45 {
            offset = -offset;
        }
    } else if !(z == 90 || z == 122) {
        return Err(crate::text::owned("unexpected zone"));
    }
    let days = days_from_civil(year as i32, month as u32, day as u32);
    let secs = days * 86400 + (hour as i64) * 3600 + (minute as i64) * 60 + (second as i64)
        - offset;
    Ok((secs, nanos))
}

// ---------------------------------------------------------------- writing
/// `v` in decimal, zero-padded on the left to `w` digits.
pub open spec fn zero_pad(v: nat, w: nat) -> Seq<char> {
    let d = decimal_chars(v);
    if d.len() < w {
        Seq::new((w - d.len()) as nat, |i: int| '0') + d
    } else {
        d
    }
}

/// `v` zero-padded to `w` characters with its sign counted among them.
pub open spec fn signed_pad(v: int, w: nat) -> Seq<char> {
    if v < 0 {
        seq!['-'] + zero_pad((-v) as nat, (w - 1) as nat)
    } else {
        zero_pad(v as nat, w)
    }
}

/// Appends `v` zero-padded to `w` digits.
fn push_padded(out: &mut String, v: u64, w: usize)
    ensures
        final(out)@ == old(out)@ + zero_pad(v as nat, w as nat),
{
    let mut t = String::new();
    push_decimal(&mut t, v);
    let n = crate::text::chars_of(t.as_str()).len();
    let ghost start = out@;
    if n < w {
        let mut k: usize = n;
        while k < w
            invariant
                n <= k <= w,
                out@ == start + Seq::new((k - n) as nat, |i: int| '0'),
            decreases w - k,
        {
            push_char(out, '0');
            k = k + 1;
            assert(out@ =~= start + Seq::new((k - n) as nat, |i: int| '0'));
        }
    }
    push_str(out, t.as_str());
    assert(out@ =~= start + zero_pad(v as nat, w as nat));
}

/// `YYYY-MM-DD`.
pub open spec fn ymd_text(y: int, m: int, d: int) -> Seq<char> {
    signed_pad(y, 4) + seq!['-'] + zero_pad(m as nat, 2) + seq!['-'] + zero_pad(d as nat, 2)
}

/// `HH:MM:SS` of a second of the day.
pub open spec fn hms_text(sid: int) -> Seq<char> {
    zero_pad((sid / 3600) as nat, 2) + seq![':'] + zero_pad(((sid % 3600) / 60) as nat, 2) + seq![
        ':',
    ] + zero_pad((sid % 60) as nat, 2)
}

/// The `YYYY-MM-DDTHH:MM:SS` part of a timestamp's RFC 3339 text, in UTC.
pub open spec fn rfc3339_date(seconds: int) -> Seq<char> {
    let (y, m, d) = civil_from_days_spec(seconds / 86400);
    ymd_text(y, m, d) + seq!['T'] + hms_text(seconds % 86400)
}

/// The fractional seconds and zone of a timestamp's RFC 3339 text: `Z`
/// alone without nanoseconds, else `.` and the nine-digit nanoseconds
/// without trailing zeros.
pub open spec fn rfc3339_frac(nanos: int) -> Seq<char> {
    let a = if nanos < 0 {
        -nanos
    } else {
        nanos
    };
    if nanos == 0 {
        seq!['Z']
    } else {
        seq!['.'] + trim_zeros(zero_pad(a as nat, 9)) + seq!['Z']
    }
}

/// The RFC 3339 text of a timestamp.
pub open spec fn rfc3339_text(seconds: int, nanos: int) -> Seq<char> {
    rfc3339_date(seconds) + rfc3339_frac(nanos)
}

/// The day since the epoch and the second of that day.
fn split_day(seconds: i64) -> (r: (i64, i64))
    requires
        -0x2000_0000 * 86400 <= seconds,
    ensures
        r.0 == seconds / 86400,
        r.1 == seconds % 86400,
{
    let days: i64 = if seconds >= 0 {
        seconds / 86400
    } else {
        let q = (86399 - seconds) / 86400;
        proof {
            vstd::arithmetic::div_mod::lemma_fundamental_div_mod((86399 - seconds) as int, 86400);
            vstd::arithmetic::div_mod::lemma_fundamental_div_mod_converse(
                seconds as int,
                86400,
                -q as int,
                86399 - (86399 - seconds) % 86400,
            );
        }
        -q
    };
    proof {
        vstd::arithmetic::div_mod::lemma_fundamental_div_mod(seconds as int, 86400);
    }
    (days, seconds - days * 86400)
}

fn push_ymd(out: &mut String, y: i32, m: u32, d: u32)
    ensures
        final(out)@ == old(out)@ + ymd_text(y as int, m as int, d as int),
{
    let ghost start = out@;
    if y < 0 {
        push_char(out, '-');
        push_padded(out, (-(y as i64)) as u64, 3);
    } else {
        push_padded(out, y as u64, 4);
    }
    push_char(out, '-');
    push_padded(out, m as u64, 2);
    push_char(out, '-');
    push_padded(out, d as u64, 2);
    assert(out@ =~= start + ymd_text(y as int, m as int, d as int));
}

fn push_hms(out: &mut String, sid: i64)
    requires
        0 <= sid < 86400,
    ensures
        final(out)@ == old(out)@ + hms_text(sid as int),
{
    let ghost start = out@;
    push_padded(out, (sid / 3600) as u64, 2);
    push_char(out, ':');
    push_padded(out, ((sid % 3600) / 60) as u64, 2);
    push_char(out, ':');
    push_padded(out, (sid % 60) as u64, 2);
    assert(out@ =~= start + hms_text(sid as int));
}

fn push_date(out: &mut String, seconds: i64)
    requires
        -0x2000_0000 * 86400 <= seconds <= 0x2000_0000 * 86400,
    ensures
        final(out)@ == old(out)@ + rfc3339_date(seconds as int),
{
    let ghost start = out@;
    let (days, sid) = split_day(seconds);
    let (y, m, d) = civil_from_days(days);
    push_ymd(out, y, m, d);
    push_char(out, 'T');
    push_hms(out, sid);
    assert(out@ =~= start + rfc3339_date(seconds as int));
}

fn push_frac(out: &mut String, nanos: i32)
    ensures
        final(out)@ == old(out)@ + rfc3339_frac(nanos as int),
{
    let ghost start = out@;
    if nanos == 0 {
        push_char(out, 'Z');
        return ;
    }
    let a: u64 = if nanos < 0 {
        (-(nanos as i64)) as u64
    } else {
        nanos as u64
    };
    let mut frac = String::new();
    push_padded(&mut frac, a, 9);
    let mut fc = crate::text::chars_of(frac.as_str());
    crate::pxf::bigfloat::trim_trailing_zeros(&mut fc);
    push_char(out, '.');
    let mut k: usize = 0;
    let ghost dot = out@;
    while k < fc.len()
        invariant
            k <= fc@.len(),
            out@ == dot + fc@.subrange(0, k as int),
        decreases fc@.len() - k,
    {
        push_char(out, fc[k]);
        k = k + 1;
        assert(out@ =~= dot + fc@.subrange(0, k as int));
    }
    push_char(out, 'Z');
    assert(fc@.subrange(0, k as int) =~= fc@);
    assert(out@ =~= start + rfc3339_frac(nanos as int));
}

/// Writes a timestamp as RFC 3339 with optional fractional seconds (no
/// trailing zeros), as Go's `time.Format(time.RFC3339Nano)` does, for
/// timestamps within about 1.4 million years of the epoch.
pub fn format_rfc3339_nano(seconds: i64, nanos: i32) -> (r: String)
    requires
        -0x2000_0000 * 86400 <= seconds <= 0x2000_0000 * 86400,
    ensures
        r@ == rfc3339_text(seconds as int, nanos as int),
{
    let mut out = String::new();
    push_date(&mut out, seconds);
    push_frac(&mut out, nanos);
    out
}

// ---------------------------------------------------------------- durations
/// The nanoseconds the unit at `f` stands for: `ns`, `us`, `ms`, `s`, `m`,
/// `h`.
pub open spec fn unit_nanos(b: Seq<u8>, f: int) -> int {
    let c = b[f];
    let n = byte_at(b, f + 1);
    if c == 110 && n == 115 {
        1
    } else if c == 117 && n == 115 {
        1000
    } else if c == 109 && n == 115 {
        1000000
    } else if c == 115 {
        1000000000
    } else if c == 109 {
        60000000000
    } else if c == 104 {
        3600000000000
    } else {
        0
    }
}

/// Where the unit of the duration group at `i` starts: past its digits and
/// its fraction, if any.
pub open spec fn unit_at(b: Seq<u8>, i: int) -> int {
    let d = scan(b, i, ByteClass::Digit);
    if d < b.len() && b[d] == 46 {
        scan(b, d + 1, ByteClass::Digit)
    } else {
        d
    }
}

/// The fraction digits' value times the unit, before it is divided down.
pub open spec fn frac_product(b: Seq<u8>, i: int) -> int {
    let d = scan(b, i, ByteClass::Digit);
    let f = unit_at(b, i);
    if f > d + 1 {
        decimal_value(b, d + 1, f) * unit_nanos(b, f)
    } else {
        0
    }
}

/// The nanoseconds of the duration group at `i`: its whole part times its
/// unit, plus its fraction times the unit, truncated.
pub open spec fn group_nanos(b: Seq<u8>, i: int) -> int {
    let d = scan(b, i, ByteClass::Digit);
    let f = unit_at(b, i);
    decimal_value(b, i, d) * unit_nanos(b, f) + if f > d + 1 {
        frac_product(b, i) / pow(10, (f - d - 1) as nat)
    } else {
        0
    }
}

/// The nanoseconds of the duration groups from `i` on.
pub open spec fn duration_nanos(b: Seq<u8>, i: int) -> int
    decreases b.len() - i,
{
    if 0 <= i < b.len() {
        let f = unit_at(b, i);
        proof {
            lemma_scan(b, i, ByteClass::Digit);
            let d = scan(b, i, ByteClass::Digit);
            if d < b.len() && b[d] == 46 {
                lemma_scan(b, d + 1, ByteClass::Digit);
            }
        }
        if f < b.len() && unit_len(b, f) > 0 {
            group_nanos(b, i) + duration_nanos(b, f + unit_len(b, f))
        } else {
            0
        }
    } else {
        0
    }
}

/// The duration's arithmetic stays within `i128`: no fraction of more than
/// 38 digits, and no fraction times its unit beyond the range.
pub open spec fn duration_fits(b: Seq<u8>, i: int) -> bool
    decreases b.len() - i,
{
    if 0 <= i < b.len() {
        let d = scan(b, i, ByteClass::Digit);
        let f = unit_at(b, i);
        proof {
            lemma_scan(b, i, ByteClass::Digit);
            if d < b.len() && b[d] == 46 {
                lemma_scan(b, d + 1, ByteClass::Digit);
            }
        }
        if f < b.len() && unit_len(b, f) > 0 {
            &&& f - d - 1 <= 38
            &&& frac_product(b, i) <= i128::MAX
            &&& duration_fits(b, f + unit_len(b, f))
        } else {
            true
        }
    } else {
        true
    }
}

/// Where the groups of a duration start: past its sign.
pub open spec fn duration_start(b: Seq<u8>) -> int {
    if b.len() > 0 && (b[0] == 45 || b[0] == 43) {
        1
    } else {
        0
    }
}

/// The seconds and nanoseconds of a duration, both carrying its sign.
pub open spec fn duration_parts(b: Seq<u8>) -> (int, int) {
    let t = duration_nanos(b, duration_start(b));
    let s = t / 1000000000;
    let n = t % 1000000000;
    if b.len() > 0 && b[0] == 45 && t != 0 {
        (-s, -n)
    } else {
        (s, n)
    }
}

proof fn lemma_decimal_value_mono(b: Seq<u8>, a: int, k: int, e: int)
    requires
        0 <= a <= k <= e <= b.len(),
        digits_at(b, a, e),
    ensures
        decimal_value(b, a, k) <= decimal_value(b, a, e),
    decreases e - k,
{
    if k < e {
        lemma_decimal_value_mono(b, a, k, e - 1);
    }
}

/// The value of the digits `b[a..e]` as an `i128`.
fn read_i128(b: &[u8], a: usize, e: usize) -> (r: i128)
    requires
        a <= e <= b@.len(),
        digits_at(b@, a as int, e as int),
        decimal_value(b@, a as int, e as int) <= i128::MAX,
    ensures
        r == decimal_value(b@, a as int, e as int),
{
    let mut v: i128 = 0;
    let mut k = a;
    while k < e
        invariant
            a <= k <= e <= b@.len(),
            digits_at(b@, a as int, e as int),
            decimal_value(b@, a as int, e as int) <= i128::MAX,
            v == decimal_value(b@, a as int, k as int),
        decreases e - k,
    {
        proof {
            lemma_decimal_value_mono(b@, a as int, (k + 1) as int, e as int);
            assert(is_digit(b@[k as int]));
        }
        v = v * 10 + (b[k] - 48) as i128;
        k = k + 1;
    }
    v
}

/// `10^k` for the exponents whose power fits an `i128`.
fn pow10_i128(k: usize) -> (r: i128)
    requires
        k <= 38,
    ensures
        r == pow(10, k as nat),
        r > 0,
{
    proof {
        vstd::arithmetic::power::lemma_pow0(10);
        assert(pow(10, 38) == 100000000000000000000000000000000000000) by {
            reveal_with_fuel(pow, 39);
        }
    }
    let mut r: i128 = 1;
    let mut j: usize = 0;
    while j < k
        invariant
            j <= k <= 38,
            r == pow(10, j as nat),
            r >= 1,
            pow(10, 38) == 100000000000000000000000000000000000000,
        decreases k - j,
    {
        proof {
            vstd::arithmetic::power::lemma_pow_adds(10, j as nat, 1);
            vstd::arithmetic::power::lemma_pow1(10);
            vstd::arithmetic::power::lemma_pow_increases(10, (j + 1) as nat, 38);
            assert(pow(10, (j + 1) as nat) == r * 10);
            assert(pow(10, (j + 1) as nat) <= pow(10, 38));
            assert(r * 10 <= 100000000000000000000000000000000000000int);
        }
        r = r * 10;
        j = j + 1;
    }
    proof {
        vstd::arithmetic::power::lemma_pow_positive(10, k as nat);
    }
    r
}

/// Reads a Go-style duration (`1h30m`, `-2.5s`, `100ms`, ...) into seconds
/// and nanoseconds, both carrying the overall sign; fractions are
/// truncated to the nanosecond per group. The text is `0` or a duration
/// the lexer accepted, and its arithmetic stays within `i128`.
pub fn parse_go_duration(s: &str) -> (r: Result<(i64, i32), String>)
    requires
        valid_go_duration(s.spec_bytes()) || s.spec_bytes() == seq![48u8],
        duration_fits(s.spec_bytes(), duration_start(s.spec_bytes())),
        duration_nanos(s.spec_bytes(), duration_start(s.spec_bytes())) <= i128::MAX,
    ensures
        r matches Ok((secs, nanos)) && secs == duration_parts(s.spec_bytes()).0 as i64 && nanos
            == duration_parts(s.spec_bytes()).1 as i32,
{
    let b = s.as_bytes();
    let n = b.len();
    let ghost bs = b@;
    let st: usize = if n > 0 && (b[0] == 45 || b[0] == 43) {
        1
    } else {
        0
    };
    let neg = n > 0 && b[0] == 45;
    let mut total: i128 = 0;
    let mut i = st;
    while i < n
        invariant
            st <= i <= n,
            n == bs.len(),
            bs == b@,
            st == duration_start(bs),
            total >= 0,
            total + duration_nanos(bs, i as int) == duration_nanos(bs, st as int),
            duration_nanos(bs, st as int) <= i128::MAX,
            duration_fits(bs, i as int),
            i == n || valid_go_duration(bs) || bs == seq![48u8],
        ensures
            total == duration_nanos(bs, st as int),
            total >= 0,
        decreases n - i,
    {
        let int_start = i;
        let mut j = i;
        while j < n && b[j] >= 48 && b[j] <= 57
            invariant
                int_start <= j <= n,
                n == bs.len(),
                bs == b@,
                scan(bs, j as int, ByteClass::Digit) == scan(bs, int_start as int, ByteClass::Digit),
                digits_at(bs, int_start as int, j as int),
            decreases n - j,
        {
            j = j + 1;
        }
        let d = j;
        let mut f = d;
        if d < n && b[d] == 46 {
            f = d + 1;
            while f < n && b[f] >= 48 && b[f] <= 57
                invariant
                    d + 1 <= f <= n,
                    n == bs.len(),
                    bs == b@,
                    scan(bs, f as int, ByteClass::Digit) == scan(bs, d + 1, ByteClass::Digit),
                    digits_at(bs, d + 1, f as int),
                decreases n - f,
            {
                f = f + 1;
            }
        }
        proof {
            lemma_scan(bs, int_start as int, ByteClass::Digit);
            if d < n && bs[d as int] == 46 {
                lemma_scan(bs, d + 1, ByteClass::Digit);
            }
        }
        if f >= n {
            proof {
                assert(duration_nanos(bs, i as int) == 0);
            }
            break;
        }
        let c = b[f];
        let next: u8 = if f + 1 < n {
            b[f + 1]
        } else {
            0
        };
        let (unit, ul): (i128, usize) = if c == 110 && next == 115 {
            (1, 2)
        } else if c == 117 && next == 115 {
            (1000, 2)
        } else if c == 109 && next == 115 {
            (1000000, 2)
        } else if c == 115 {
            (1000000000, 1)
        } else if c == 109 {
            (60000000000, 1)
        } else if c == 104 {
            (3600000000000, 1)
        } else {
            (0, 0)
        };
        if ul == 0 {
            proof {
                assert(duration_nanos(bs, int_start as int) == 0);
            }
            break;
        }
        let ghost g = group_nanos(bs, int_start as int);
        proof {
            assert(unit == unit_nanos(bs, f as int));
            assert(ul == unit_len(bs, f as int));
            assert(duration_nanos(bs, int_start as int) == g + duration_nanos(bs, (f + ul) as int));
            lemma_duration_nonneg(bs, (f + ul) as int);
            lemma_group_nonneg(bs, int_start as int);
            let ip = decimal_value(bs, int_start as int, d as int);
            let u = unit as int;
            assert(ip * u <= g);
            assert(ip <= ip * u) by (nonlinear_arith)
                requires
                    u >= 1,
                    ip >= 0,
            ;
        }
        let ip = read_i128(b, int_start, d);
        total = total + ip * unit;
        if f > d + 1 {
            proof {
                let fr = decimal_value(bs, d + 1, f as int);
                let u = unit as int;
                assert(fr <= fr * u) by (nonlinear_arith)
                    requires
                        u >= 1,
                        fr >= 0,
                ;
            }
            let fr = read_i128(b, d + 1, f);
            let denom = pow10_i128(f - d - 1);
            proof {
                let p = fr * unit;
                vstd::arithmetic::div_mod::lemma_div_pos_is_pos(p as int, denom as int);
            }
            total = total + (fr * unit) / denom;
        }
        i = f + ul;
    }
    let t = total;
    let sign: i128 = if neg && t != 0 {
        -1
    } else {
        1
    };
    let secs = t / 1000000000;
    let nanos = t % 1000000000;
    if sign < 0 {
        Ok(((-secs) as i64, (-nanos) as i32))
    } else {
        Ok((secs as i64, nanos as i32))
    }
}

proof fn lemma_group_nonneg(b: Seq<u8>, i: int)
    requires
        0 <= i < b.len(),
    ensures
        group_nanos(b, i) >= decimal_value(b, i, scan(b, i, ByteClass::Digit)) * unit_nanos(
            b,
            unit_at(b, i),
        ),
{
    let d = scan(b, i, ByteClass::Digit);
    let f = unit_at(b, i);
    if f > d + 1 {
        vstd::arithmetic::power::lemma_pow_positive(10, (f - d - 1) as nat);
        let p = frac_product(b, i);
        assert(p >= 0) by {
            assert(unit_nanos(b, f) >= 0);
            let fr = decimal_value(b, d + 1, f);
            let u = unit_nanos(b, f);
            assert(fr * u >= 0) by (nonlinear_arith)
                requires
                    fr >= 0,
                    u >= 0,
            ;
        }
        vstd::arithmetic::div_mod::lemma_div_pos_is_pos(p, pow(10, (f - d - 1) as nat));
    }
}

proof fn lemma_duration_nonneg(b: Seq<u8>, i: int)
    ensures
        duration_nanos(b, i) >= 0,
    decreases b.len() - i,
{
    if 0 <= i < b.len() {
        lemma_scan(b, i, ByteClass::Digit);
        let d = scan(b, i, ByteClass::Digit);
        if d < b.len() && b[d] == 46 {
            lemma_scan(b, d + 1, ByteClass::Digit);
        }
        let f = unit_at(b, i);
        if f < b.len() && unit_len(b, f) > 0 {
            lemma_duration_nonneg(b, f + unit_len(b, f));
            lemma_group_nonneg(b, i);
            let ip = decimal_value(b, i, d);
            let u = unit_nanos(b, f);
            assert(ip * u >= 0) by (nonlinear_arith)
                requires
                    ip >= 0,
                    u >= 0,
            ;
        }
    }
}

/// `value / unit` with the remainder as a fraction of as many digits as
/// `unit` has zeros, trailing zeros trimmed: `5` rather than `5.000`.
pub open spec fn fraction_text(value: int, unit: int) -> Seq<char> {
    let whole = value / unit;
    let rem = value % unit;
    if rem == 0 {
        decimal_chars(whole as nat)
    } else {
        decimal_chars(whole as nat) + seq!['.'] + trim_zeros(
            zero_pad(rem as nat, (decimal_chars(unit as nat).len() - 1) as nat),
        )
    }
}

/// Writes `value / unit` with up to as many fractional places as `unit`
/// has zeros, trailing zeros trimmed.
pub fn trim_fraction(value: i128, unit: i128) -> (r: String)
    requires
        value >= 0,
        unit == 1000 || unit == 1000000 || unit == 1000000000,
        value / unit <= u64::MAX,
    ensures
        r@ == fraction_text(value as int, unit as int),
{
    let whole = value / unit;
    let remainder = value % unit;
    let mut out = String::new();
    push_decimal(&mut out, whole as u64);
    if remainder == 0 {
        return out;
    }
    let mut unit_str = String::new();
    push_decimal(&mut unit_str, unit as u64);
    let width = crate::text::chars_of(unit_str.as_str()).len();
    proof {
        crate::pxf::bigfloat::lemma_decimal_chars_shape(unit as nat);
    }
    let mut rem_str = String::new();
    push_padded(&mut rem_str, remainder as u64, width - 1);
    let mut rc = crate::text::chars_of(rem_str.as_str());
    crate::pxf::bigfloat::trim_trailing_zeros(&mut rc);
    push_char(&mut out, '.');
    let ghost dot = out@;
    let mut k: usize = 0;
    while k < rc.len()
        invariant
            k <= rc@.len(),
            out@ == dot + rc@.subrange(0, k as int),
        decreases rc@.len() - k,
    {
        push_char(&mut out, rc[k]);
        k = k + 1;
        assert(out@ =~= dot + rc@.subrange(0, k as int));
    }
    assert(rc@.subrange(0, k as int) =~= rc@);
    out
}

/// A Go-style duration of `total` nanoseconds, `total` positive: the
/// smallest unit of `ns`, `µs`, `ms` under a second, else hours, minutes
/// and seconds with the larger units left out while zero.
pub open spec fn duration_body(t: int) -> Seq<char> {
    if t < 1000000000 {
        if t < 1000 {
            decimal_chars(t as nat) + "ns"@
        } else if t < 1000000 {
            fraction_text(t, 1000) + "µs"@
        } else {
            fraction_text(t, 1000000) + "ms"@
        }
    } else {
        let secs = t / 1000000000;
        let frac = t % 1000000000;
        let sec = secs % 60;
        let min_total = secs / 60;
        let minute = min_total % 60;
        let hour = min_total / 60;
        let sec_str = fraction_text(sec * 1000000000 + frac, 1000000000);
        if hour > 0 {
            decimal_chars(hour as nat) + "h"@ + decimal_chars(minute as nat) + "m"@ + sec_str
                + "s"@
        } else if minute > 0 {
            decimal_chars(minute as nat) + "m"@ + sec_str + "s"@
        } else {
            sec_str + "s"@
        }
    }
}

/// The Go-style text of a duration: `0s` for zero, a `-` before a negative
/// one.
pub open spec fn go_duration_text(seconds: int, nanos: int) -> Seq<char> {
    let total = seconds * 1000000000 + nanos;
    if total == 0 {
        "0s"@
    } else if total < 0 {
        "-"@ + duration_body(-total)
    } else {
        duration_body(total)
    }
}

fn duration_body_text(t: i128) -> (r: String)
    requires
        0 < t <= 0x1_0000_0000_0000_0000 * 1000000000,
    ensures
        r@ == duration_body(t as int),
{
    if t < 1000000000 {
        if t < 1000 {
            let mut out = String::new();
            push_decimal(&mut out, t as u64);
            push_str(&mut out, "ns");
            return out;
        } else if t < 1000000 {
            let mut out = trim_fraction(t, 1000);
            push_str(&mut out, "µs");
            return out;
        } else {
            let mut out = trim_fraction(t, 1000000);
            push_str(&mut out, "ms");
            return out;
        }
    }
    let secs = t / 1000000000;
    let frac = t % 1000000000;
    let sec = secs % 60;
    let min_total = secs / 60;
    let minute = min_total % 60;
    let hour = min_total / 60;
    let sec_str = trim_fraction(sec * 1000000000 + frac, 1000000000);
    let mut out = String::new();
    if hour > 0 {
        push_decimal(&mut out, hour as u64);
        push_str(&mut out, "h");
        push_decimal(&mut out, minute as u64);
        push_str(&mut out, "m");
        push_str(&mut out, sec_str.as_str());
        push_str(&mut out, "s");
    } else if minute > 0 {
        push_decimal(&mut out, minute as u64);
        push_str(&mut out, "m");
        push_str(&mut out, sec_str.as_str());
        push_str(&mut out, "s");
    } else {
        push_str(&mut out, sec_str.as_str());
        push_str(&mut out, "s");
    }
    out
}

/// Writes a duration as Go's `time.Duration.String()` does: larger units
/// left out while zero, a sub-second duration in the smallest unit of
/// `ns`, `µs`, `ms` that gives a non-zero leading digit, and `0s` for zero.
pub fn format_go_duration(seconds: i64, nanos: i32) -> (r: String)
    ensures
        r@ == go_duration_text(seconds as int, nanos as int),
{
    let mut total: i128 = (seconds as i128) * 1000000000 + (nanos as i128);
    if total == 0 {
        return crate::text::owned("0s");
    }
    let neg = total < 0;
    if neg {
        total = -total;
    }
    let body = duration_body_text(total);
    if neg {
        let mut out = crate::text::owned("-");
        push_str(&mut out, body.as_str());
        out
    } else {
        body
    }
}

// ---------------------------------------------------------------- names
/// The nine `google.protobuf.*Value` wrapper messages.
pub open spec fn wrapper_name(full: Seq<char>) -> bool {
    ||| full == "google.protobuf.DoubleValue"@
    ||| full == "google.protobuf.FloatValue"@
    ||| full == "google.protobuf.Int64Value"@
    ||| full == "google.protobuf.UInt64Value"@
    ||| full == "google.protobuf.Int32Value"@
    ||| full == "google.protobuf.UInt32Value"@
    ||| full == "google.protobuf.BoolValue"@
    ||| full == "google.protobuf.StringValue"@
    ||| full == "google.protobuf.BytesValue"@
}

/// Whether `full` names one of the nine wrapper messages.
pub fn is_wrapper_full_name(full: &str) -> (r: bool)
    ensures
        r == wrapper_name(full@),
{
    let n = crate::text::owned(full);
    crate::text::str_is(&n, "google.protobuf.DoubleValue") || crate::text::str_is(
        &n,
        "google.protobuf.FloatValue",
    ) || crate::text::str_is(&n, "google.protobuf.Int64Value") || crate::text::str_is(
        &n,
        "google.protobuf.UInt64Value",
    ) || crate::text::str_is(&n, "google.protobuf.Int32Value") || crate::text::str_is(
        &n,
        "google.protobuf.UInt32Value",
    ) || crate::text::str_is(&n, "google.protobuf.BoolValue") || crate::text::str_is(
        &n,
        "google.protobuf.StringValue",
    ) || crate::text::str_is(&n, "google.protobuf.BytesValue")
}

/// Whether `full` names `google.protobuf.Any`.
pub fn is_any_full_name(full: &str) -> (r: bool)
    ensures
        r == (full@ == "google.protobuf.Any"@),
{
    let n = crate::text::owned(full);
    crate::text::str_is(&n, "google.protobuf.Any")
}

/// The well-known messages a decoder does not descend into when it applies
/// defaults and checks required fields: timestamps, durations, `Any` and
/// the wrappers, which a literal sets whole.
pub open spec fn wkt_skip_recursion(full: Seq<char>) -> bool {
    full == "google.protobuf.Timestamp"@ || full == "google.protobuf.Duration"@ || full
        == "google.protobuf.Any"@ || wrapper_name(full)
}

/// Whether a decoder leaves messages of type `full` alone when it walks
/// for defaults and required fields.
pub fn is_wkt_skip_recursion(full: &str) -> (r: bool)
    ensures
        r == wkt_skip_recursion(full@),
{
    let n = crate::text::owned(full);
    crate::text::str_is(&n, "google.protobuf.Timestamp") || crate::text::str_is(
        &n,
        "google.protobuf.Duration",
    ) || is_any_full_name(full) || is_wrapper_full_name(full)
}

} // verus!
