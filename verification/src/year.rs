//! The year facet: deriving the UTC calendar year of a timestamp and its
//! canonical digit string.

use vstd::prelude::*;
use vstd::arithmetic::div_mod::{lemma_fundamental_div_mod, lemma_fundamental_div_mod_converse};

verus! {

/// Whether `y` is a leap year of the proleptic Gregorian calendar.
pub open spec fn is_leap(y: int) -> bool {
    (y % 4 == 0 && y % 100 != 0) || y % 400 == 0
}

/// Leap years strictly before year `y`.
pub open spec fn leaps_before(y: int) -> int {
    (y - 1) / 4 - (y - 1) / 100 + (y - 1) / 400
}

/// Days from 1970-01-01 to January 1st of year `y` (negative for earlier
/// years).
pub open spec fn jan1(y: int) -> int {
    365 * (y - 1970) + leaps_before(y) - leaps_before(1970)
}

/// The calendar year that day `days` (counted from 1970-01-01) falls in:
/// the `y` with `jan1(y) <= days < jan1(y + 1)`.
pub open spec fn year_scan(days: int, y: int, fuel: nat) -> int
    decreases fuel,
{
    if fuel == 0 {
        y
    } else if jan1(y + 1) <= days {
        year_scan(days, y + 1, (fuel - 1) as nat)
    } else {
        y
    }
}

pub open spec fn year_of_days(days: int) -> int {
    year_scan(days, 400 * ((days + 719468) / 146097), 401)
}

/// Days since the epoch of the day holding second `ts`.
pub open spec fn day_of(ts: int) -> int {
    ts / 86400
}

/// One year has 365 days, a leap year 366.
proof fn lemma_jan1_step(y: int)
    ensures
        jan1(y + 1) == jan1(y) + if is_leap(y) {
            366int
        } else {
            365int
        },
{
    lemma_fundamental_div_mod(y, 4);
    lemma_fundamental_div_mod(y, 100);
    lemma_fundamental_div_mod(y, 400);
    lemma_fundamental_div_mod(y - 1, 4);
    lemma_fundamental_div_mod(y - 1, 100);
    lemma_fundamental_div_mod(y - 1, 400);
    if y % 4 == 0 {
        lemma_fundamental_div_mod_converse(y - 1, 4, y / 4 - 1, 3);
    } else {
        lemma_fundamental_div_mod_converse(y - 1, 4, y / 4, y % 4 - 1);
    }
    if y % 100 == 0 {
        lemma_fundamental_div_mod_converse(y - 1, 100, y / 100 - 1, 99);
    } else {
        lemma_fundamental_div_mod_converse(y - 1, 100, y / 100, y % 100 - 1);
    }
    if y % 400 == 0 {
        lemma_fundamental_div_mod_converse(y - 1, 400, y / 400 - 1, 399);
    } else {
        lemma_fundamental_div_mod_converse(y - 1, 400, y / 400, y % 400 - 1);
    }
}

proof fn lemma_jan1_mono(y1: int, y2: int)
    requires
        y1 <= y2,
    ensures
        jan1(y1) <= jan1(y2),
        jan1(y1) + 365 * (y2 - y1) <= jan1(y2),
    decreases y2 - y1,
{
    if y1 < y2 {
        lemma_jan1_step(y2 - 1);
        lemma_jan1_mono(y1, y2 - 1);
    }
}

/// January 1st of year `400k` in days: the 400-year cycle has 146097 days.
proof fn lemma_jan1_era(k: int)
    ensures
        jan1(400 * k) == 146097 * k - 719528,
{
    let y = 400 * k;
    lemma_fundamental_div_mod_converse(y - 1, 4, 100 * k - 1, 3);
    lemma_fundamental_div_mod_converse(y - 1, 100, 4 * k - 1, 99);
    lemma_fundamental_div_mod_converse(y - 1, 400, k - 1, 399);
    assert(leaps_before(1970) == 477);
}

/// Euclidean division by a positive divisor: quotient below, remainder in
/// `[0, b)`.
pub fn floor_div(a: i64, b: i64) -> (r: i64)
    requires
        0 < b <= 1000000000,
    ensures
        r == a as int / b as int,
        b * r <= a < b * r + b,
{
    let q: i64 = if a >= 0 {
        ((a as u64) / (b as u64)) as i64
    } else {
        let n: u64 = (-(a + 1)) as u64;
        let qn: u64 = n / (b as u64);
        -(qn as i64) - 1
    };
    proof {
        let bi = b as int;
        let ai = a as int;
        if a >= 0 {
            lemma_fundamental_div_mod(ai, bi);
        } else {
            let n = -(ai + 1);
            lemma_fundamental_div_mod(n, bi);
            let qn = n / bi;
            let rn = n % bi;
            assert(ai == (-qn - 1) * bi + (bi - rn - 1)) by (nonlinear_arith)
                requires
                    n == bi * qn + rn,
                    ai == -n - 1,
            ;
            lemma_fundamental_div_mod_converse(ai, bi, -qn - 1, bi - rn - 1);
            lemma_fundamental_div_mod(ai, bi);
        }
    }
    q
}

/// January 1st of year `y`, in days since the epoch.
pub fn jan1_days(y: i64) -> (r: i64)
    requires
        -400000000000 <= y <= 400000000000,
    ensures
        r == jan1(y as int),
{
    let lb = floor_div(y - 1, 4) - floor_div(y - 1, 100) + floor_div(y - 1, 400);
    365 * (y - 1970) + lb - 477
}

/// The UTC calendar year holding second `ts`: the unique `y` with
/// `jan1(y) <= day_of(ts) < jan1(y + 1)`.
pub fn year_of_timestamp(ts: i64) -> (r: i64)
    ensures
        r == year_of_days(day_of(ts as int)),
        jan1(r as int) <= day_of(ts as int) < jan1(r as int + 1),
        -300000000000 <= r <= 300000000000,
{
    let days = floor_div(ts, 86400);
    let era = floor_div(days + 719468, 146097);
    proof {
        assert(-106751991167301 <= days <= 106751991167300);
        assert(146097 * era <= days + 719468 < 146097 * era + 146097);
        assert(-730700000 <= era <= 730700000) by (nonlinear_arith)
            requires
                146097 * era <= days + 719468 < 146097 * era + 146097,
                -106751991167301 <= days <= 106751991167300,
        ;
        lemma_jan1_era(era as int);
        lemma_jan1_era(era as int + 1);
        assert(jan1(400 * (era as int)) <= days);
        lemma_jan1_mono(400 * (era as int) + 401, 400 * (era as int) + 400 + 400);
        assert(jan1(400 * (era as int) + 401) >= jan1(400 * (era as int + 1)) - 365 * 399);
        assert(days < jan1(400 * (era as int) + 401));
    }
    let mut y: i64 = 400 * era;
    let mut steps: u64 = 0;
    while steps < 401 && jan1_days(y + 1) <= days
        invariant
            y == 400 * era + steps,
            steps <= 401,
            -106751991167301 <= days <= 106751991167300,
            -730700000 <= era <= 730700000,
            jan1(y as int) <= days,
            days < jan1(400 * (era as int) + 401),
            year_scan(days as int, 400 * (era as int), 401) == year_scan(
                days as int,
                y as int,
                (401 - steps) as nat,
            ),
        decreases 401 - steps,
    {
        proof {
            if y as int + 1 > 400 * (era as int) + 401 {
                lemma_jan1_mono(400 * (era as int) + 401, y as int + 1);
                assert(false);
            }
        }
        y = y + 1;
        steps = steps + 1;
    }
    proof {
        if steps == 401 {
            lemma_jan1_mono(400 * (era as int) + 401, y as int + 1);
            assert(false);
        }
        assert(year_scan(days as int, y as int, (401 - steps) as nat) == y as int);
    }
    y
}

/// The decimal digits of `n`, most significant first.
pub open spec fn dec_digits(n: nat) -> Seq<u8>
    decreases n,
{
    if n < 10 {
        seq![(48 + n) as u8]
    } else {
        dec_digits(n / 10).push((48 + n % 10) as u8)
    }
}

/// Digits padded with zeroes to at least four places.
pub open spec fn pad4(d: Seq<u8>) -> Seq<u8> {
    if d.len() == 1 {
        seq![48u8, 48u8, 48u8] + d
    } else if d.len() == 2 {
        seq![48u8, 48u8] + d
    } else if d.len() == 3 {
        seq![48u8] + d
    } else {
        d
    }
}

/// The canonical text of year `y`: four or more digits, `-` for years
/// before year zero.
pub open spec fn year_text(y: int) -> Seq<u8> {
    if y >= 0 {
        pad4(dec_digits(y as nat))
    } else {
        seq![45u8] + pad4(dec_digits((-y) as nat))
    }
}

/// The year facet value of timestamp `ts`.
pub open spec fn year_facet_of(ts: int) -> Seq<u8> {
    year_text(year_of_days(day_of(ts)))
}

/// Format a year as its canonical text.
pub fn format_year(y: i64) -> (r: Vec<u8>)
    requires
        -400000000000 <= y <= 400000000000,
    ensures
        r@ == year_text(y as int),
{
    let neg = y < 0;
    let mut n: u64 = if neg {
        (-y) as u64
    } else {
        y as u64
    };
    let ghost n0 = n as nat;
    let mut digs: Vec<u8> = Vec::new();
    proof {
        assert(dec_digits(n0) =~= dec_digits(n as nat) + digs@);
    }
    loop
        invariant_except_break
            dec_digits(n0) == dec_digits(n as nat) + digs@,
        ensures
            dec_digits(n0) == digs@,
        decreases n,
    {
        let d: u8 = (n % 10) as u8;
        let ghost before = digs@;
        digs.insert(0, 48 + d);
        proof {
            assert(digs@ =~= seq![(48 + d) as u8] + before);
        }
        if n < 10 {
            proof {
                assert(dec_digits(n as nat) == seq![(48 + n as nat) as u8]);
                assert(dec_digits(n0) =~= digs@);
            }
            break ;
        }
        proof {
            assert(dec_digits(n as nat) == dec_digits(n as nat / 10).push(
                (48 + n as nat % 10) as u8,
            ));
            assert(dec_digits(n as nat / 10) + digs@ =~= dec_digits(n as nat) + before);
        }
        n = n / 10;
    }
    let ghost plain = digs@;
    if digs.len() == 1 {
        digs.insert(0, 48);
        digs.insert(0, 48);
        digs.insert(0, 48);
    } else if digs.len() == 2 {
        digs.insert(0, 48);
        digs.insert(0, 48);
    } else if digs.len() == 3 {
        digs.insert(0, 48);
    }
    proof {
        assert(digs@ =~= pad4(plain));
    }
    if neg {
        let ghost padded = digs@;
        digs.insert(0, 45);
        proof {
            assert(digs@ =~= seq![45u8] + padded);
        }
    }
    digs
}

/// The year facet value of `ts`, as bytes.
pub fn year_facet_bytes(ts: i64) -> (r: Vec<u8>)
    ensures
        r@ == year_facet_of(ts as int),
{
    format_year(year_of_timestamp(ts))
}

} // verus!
