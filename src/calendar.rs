use vstd::prelude::*;
use vstd::arithmetic::div_mod::{lemma_fundamental_div_mod, lemma_fundamental_div_mod_converse};

verus! {

/// Integer division rounding toward zero, as SQLite divides integers.
pub open spec fn trunc_div(a: int, b: int) -> int {
    if a >= 0 {
        a / b
    } else {
        -((-a) / b)
    }
}

/// The proleptic Gregorian (year, month) of a day number counted from
/// 1970-01-01, by the civil-from-days method.
pub open spec fn civil_year_month(days: int) -> (int, int) {
    let z = days + 719468;
    let era = z / 146097;
    let doe = z - era * 146097;
    let yoe = (doe - doe / 1460 + doe / 36524 - doe / 146096) / 365;
    let y = yoe + era * 400;
    let doy = doe - (365 * yoe + yoe / 4 - yoe / 100);
    let mp = (5 * doy + 2) / 153;
    let m = if mp < 10 { mp + 3 } else { mp - 9 };
    (if m <= 2 { y + 1 } else { y }, m)
}

/// The UTC (year, month) of a millisecond timestamp: whole seconds by
/// truncation, then the day that second falls in.
pub open spec fn year_month_of(timestamp_ms: int) -> (int, int) {
    civil_year_month(trunc_div(timestamp_ms, 1000) / 86400)
}

pub open spec fn digit_char(n: int) -> char {
    ((48 + n) as u8) as char
}

/// The `YYYY-MM` key of a year and month.
pub open spec fn month_key_text(y: int, m: int) -> Seq<char> {
    seq![
        digit_char(y / 1000),
        digit_char((y / 100) % 10),
        digit_char((y / 10) % 10),
        digit_char(y % 10),
        '-',
        digit_char(m / 10),
        digit_char(m % 10),
    ]
}

/// The `YYYY-MM` bucket of a timestamp; none outside the years 0000 to 9999.
pub open spec fn month_key_of(timestamp_ms: int) -> Option<Seq<char>> {
    let (y, m) = year_month_of(timestamp_ms);
    if 0 <= y <= 9999 {
        Some(month_key_text(y, m))
    } else {
        None
    }
}

proof fn lemma_floor_div_negative(a: int, b: int)
    requires
        a < 0,
        b > 0,
    ensures
        a / b == -(((-a) + b - 1) / b),
{
    let x = (-a) + b - 1;
    let q = x / b;
    let r = x % b;
    lemma_fundamental_div_mod(x, b);
    assert(x == b * q + r);
    assert(0 <= r < b);
    assert(a == (-q) * b + (b - 1 - r)) by (nonlinear_arith)
        requires
            x == b * q + r,
            x == (-a) + b - 1,
    ;
    lemma_fundamental_div_mod_converse(a, b, -q, b - 1 - r);
}

proof fn lemma_div_bounds(x: int, b: int)
    requires
        b > 0,
    ensures
        0 <= x - (x / b) * b < b,
{
    lemma_fundamental_div_mod(x, b);
    assert(x - (x / b) * b == x % b) by (nonlinear_arith)
        requires
            x == b * (x / b) + x % b,
    ;
}

fn floor_div(a: i128, b: i128) -> (r: i128)
    requires
        b > 0,
        -1_000_000_000_000_000_000_000 <= a <= 1_000_000_000_000_000_000_000,
        b <= 1_000_000_000,
    ensures
        r == a as int / b as int,
{
    if a >= 0 {
        a / b
    } else {
        proof {
            lemma_floor_div_negative(a as int, b as int);
        }
        let x = (0 - a) + b - 1;
        0 - x / b
    }
}

/// Month and year-of-era of a day of era in `0..146097`.
fn month_in_era(doe: i128) -> (r: (i128, i128))
    requires
        0 <= doe < 146097,
    ensures
        ({
            let yoe = (doe - doe / 1460 + doe / 36524 - doe / 146096) / 365;
            let doy = doe - (365 * yoe + yoe / 4 - yoe / 100);
            let mp = (5 * doy + 2) / 153;
            &&& r.0 == yoe
            &&& r.1 == if mp < 10 { mp + 3 } else { mp - 9 }
            &&& 0 <= yoe <= 400
            &&& -1_000_000 <= r.1 <= 1_000_000
        }),
{
    let a = doe / 1460;
    let b = doe / 36524;
    let c = doe / 146096;
    assert(0 <= a <= 100 && 0 <= b <= 4 && 0 <= c <= 1);
    let yoe = (doe - a + b - c) / 365;
    assert(0 <= yoe <= 400);
    let doy = doe - (365 * yoe + yoe / 4 - yoe / 100);
    assert(-1000000 <= doy <= 1000000) by (nonlinear_arith)
        requires
            0 <= doe < 146097,
            0 <= yoe <= 400,
            doy == doe - (365 * yoe + yoe / 4 - yoe / 100),
    ;
    let mp = (5 * doy + 2) / 153;
    let m = if mp < 10 { mp + 3 } else { mp - 9 };
    assert(-1_000_000 <= m <= 1_000_000);
    (yoe, m)
}

/// The proleptic Gregorian year and month of a day number from 1970-01-01.
fn civil_from_days(days: i128) -> (r: (i128, i128))
    requires
        -1_000_000_000_000 <= days <= 1_000_000_000_000,
    ensures
        (r.0 as int, r.1 as int) == civil_year_month(days as int),
        -10_000_000_000 <= r.0 <= 10_000_000_000,
        -1_000_000 <= r.1 <= 1_000_000,
{
    let z = days + 719468;
    let era = floor_div(z, 146097);
    proof {
        lemma_div_bounds(z as int, 146097);
    }
    assert(-10_000_000 <= era <= 10_000_000) by (nonlinear_arith)
        requires
            -1_000_000_000_000 + 719468 <= z <= 1_000_000_000_000 + 719468,
            0 <= z - era * 146097 < 146097,
    ;
    let doe = z - era * 146097;
    let (yoe, m) = month_in_era(doe);
    let y = yoe + era * 400;
    let year = if m <= 2 { y + 1 } else { y };
    (year, m)
}

/// The UTC year and month of a millisecond timestamp.
pub fn year_month(timestamp_ms: i64) -> (r: (i64, i64))
    ensures
        (r.0 as int, r.1 as int) == year_month_of(timestamp_ms as int),
{
    let ts = timestamp_ms as i128;
    let secs: i128 = if ts >= 0 { ts / 1000 } else { 0 - ((0 - ts) / 1000) };
    assert(secs == trunc_div(ts as int, 1000));
    let days = floor_div(secs, 86400);
    assert(-1_000_000_000_000 <= days <= 1_000_000_000_000) by {
        lemma_div_bounds(secs as int, 86400);
    }
    let (year, m) = civil_from_days(days);
    (year as i64, m as i64)
}

/// Relies on `String`'s `FromIterator<char>`: the string holds the
/// characters in order.
#[verifier::external_body]
pub(crate) fn string_from_chars(chars: Vec<char>) -> (r: String)
    ensures
        r@ == chars@,
{
    chars.into_iter().collect()
}

fn digit(n: i64) -> (c: char)
    requires
        0 <= n <= 9,
    ensures
        c == digit_char(n as int),
{
    ((48 + n) as u8) as char
}

/// The `YYYY-MM` bucket of a timestamp, or `None` outside the years 0000 to 9999.
pub fn month_key(timestamp_ms: i64) -> (r: Option<String>)
    ensures
        r is Some <==> month_key_of(timestamp_ms as int) is Some,
        r is Some ==> r->Some_0@ == month_key_of(timestamp_ms as int)->Some_0,
{
    let (y, m) = year_month(timestamp_ms);
    if y < 0 || y > 9999 {
        return None;
    }
    if m < 0 || m > 99 {
        // not reached: a month is 1 to 12
        return None;
    }
    let chars = vec![digit(y / 1000), digit((y / 100) % 10), digit((y / 10) % 10), digit(y % 10), '-', digit(m / 10), digit(m % 10)];
    assert(chars@ =~= month_key_text(y as int, m as int));
    Some(string_from_chars(chars))
}

} // verus!
