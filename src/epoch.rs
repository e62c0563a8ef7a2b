//! Spreadsheet serial date-times as Unix timestamps and RFC 3339 text.
use crate::double::{clamp_i64, lemma_negated_div_mod, lemma_pow2_mono, pow2_u128, Double, HIDDEN_BIT, SIGN_BIT};
use vstd::arithmetic::div_mod::lemma_fundamental_div_mod_converse;
use vstd::arithmetic::power2::{lemma_pow2_pos, pow2};
use chrono::TimeZone;
use vstd::prelude::*;

verus! {

/// Day number of 1970-01-01 in the spreadsheet serial-day system.
pub const EXCEL_DATE_SINCE_1970: i64 = 25569;

/// Seconds in a day.
pub const UNIX_24H_SECOND: i64 = 86400;

/// The Unix time of serial day zero, midnight.
pub const SERIAL_ZERO_UNIX: i64 = -2209161600;

/// The Unix timestamp of a serial date-time: whole days since the spreadsheet
/// epoch times a day's seconds, plus the fraction of the day in seconds,
/// rounded to the nearest second (halves up), held to the range of `i64`.
/// A NaN counts as serial zero; an infinity gives the bound of its sign.
pub open spec fn unix_time_of(serial: Double) -> int {
    if serial.nan() {
        SERIAL_ZERO_UNIX as int
    } else if !serial.finite() {
        if serial.sign_set() {
            i64::MIN as int
        } else {
            i64::MAX as int
        }
    } else {
        clamp_i64(
            (serial.floor() - EXCEL_DATE_SINCE_1970) * UNIX_24H_SECOND
                + serial.rounded_fraction_times(UNIX_24H_SECOND as int),
        )
    }
}

/// Seconds from the Unix epoch within which every timestamp is an instant
/// that chrono can render (about 253,000 years either way).
pub const MAX_CALENDAR_SECONDS: i64 = 8_000_000_000_000;

/// What `chrono` renders for a Unix timestamp read as a UTC instant with no
/// sub-second part, or `None` where it has no such instant.
pub uninterp spec fn rfc3339_utc(unix_time: int) -> Option<Seq<char>>;

/// Relies on chrono's `Utc.timestamp_opt(t, 0).single()` and
/// `DateTime::to_rfc3339`: the RFC 3339 text of that instant, where one exists.
/// `DateTime::from_timestamp` gives an instant for every timestamp whose day
/// falls in chrono's years -262143 to 262142, which the bound below lies well
/// within.
#[verifier::external_body]
fn utc_rfc3339(unix_time: i64) -> (r: Option<String>)
    ensures
        match r {
            Some(s) => rfc3339_utc(unix_time as int) == Some(s@),
            None => rfc3339_utc(unix_time as int) is None,
        },
        -MAX_CALENDAR_SECONDS <= unix_time <= MAX_CALENDAR_SECONDS ==> r is Some,
{
    chrono::Utc.timestamp_opt(unix_time, 0).single().map(|t| t.to_rfc3339())
}

/// The ISO 8601 text of a Unix timestamp in UTC, or `"Invalid"` where no
/// single instant corresponds to it.
pub open spec fn iso_text_of(unix_time: int) -> Seq<char> {
    match rfc3339_utc(unix_time) {
        Some(s) => s,
        None => "Invalid"@,
    }
}

pub fn unix_to_iso(unix_time: i64) -> (r: String)
    ensures
        r@ == iso_text_of(unix_time as int),
        -MAX_CALENDAR_SECONDS <= unix_time <= MAX_CALENDAR_SECONDS ==> rfc3339_utc(
            unix_time as int,
        ) is Some,
{
    match utc_rfc3339(unix_time) {
        Some(s) => s,
        None => String::from_str("Invalid"),
    }
}

fn clamp_to_i64(v: i128) -> (r: i64)
    ensures
        r == clamp_i64(v as int),
{
    if v < i64::MIN as i128 {
        i64::MIN
    } else if v > i64::MAX as i128 {
        i64::MAX
    } else {
        v as i64
    }
}

/// Converts a spreadsheet serial date-time to a Unix timestamp.
pub fn excel_time_to_unix_time(excel_time: Double) -> (r: i64)
    ensures
        r == unix_time_of(excel_time),
{
    let e = (excel_time.bits / HIDDEN_BIT) % 2048;
    let f = excel_time.bits % HIDDEN_BIT;
    let neg = excel_time.bits >= SIGN_BIT;
    if e == 2047 {
        if f != 0 {
            return SERIAL_ZERO_UNIX;
        }
        return if neg {
            i64::MIN
        } else {
            i64::MAX
        };
    }
    let m: u64 = if e == 0 {
        f
    } else {
        f + HIDDEN_BIT
    };
    assert(m as int == excel_time.significand());
    let ghost x = excel_time;
    if e >= 1075 {
        let k: u64 = e - 1075;
        proof {
            lemma_pow2_pos(k as nat);
            assert(x.denominator() == 1);
            assert(x.numerator() % 1 == 0);
            assert(x.floor() == x.numerator());
            assert(x.rounded_fraction_times(86400) == 0);
        }
        if k >= 11 {
            proof {
                lemma_pow2_mono(11, k as nat);
                vstd::arithmetic::power2::lemma2_to64();
                let pk = pow2(k as nat) as int;
                let sm: int = if neg { -(m as int) } else { m as int };
                assert(x.numerator() == sm * pk);
                assert(m * pk >= HIDDEN_BIT * 2048) by (nonlinear_arith)
                    requires
                        m >= HIDDEN_BIT,
                        pk >= 2048,
                ;
                assert(sm * pk == if neg { -(m * pk) } else { m * pk }) by (nonlinear_arith)
                    requires
                        sm == (if neg { -(m as int) } else { m as int }),
                ;
                let fl = x.floor();
                if neg {
                    assert((fl - 25569) * 86400 < i64::MIN) by (nonlinear_arith)
                        requires
                            fl <= -(HIDDEN_BIT * 2048),
                    ;
                } else {
                    assert((fl - 25569) * 86400 > i64::MAX) by (nonlinear_arith)
                        requires
                            fl >= HIDDEN_BIT * 2048,
                    ;
                }
            }
            return if neg {
                i64::MIN
            } else {
                i64::MAX
            };
        }
        let p = pow2_u128(k as u32);
        proof {
            lemma_pow2_mono(k as nat, 10);
            vstd::arithmetic::power2::lemma2_to64();
            assert(m * p <= (HIDDEN_BIT * 2 - 1) * 1024) by (nonlinear_arith)
                requires
                    m < HIDDEN_BIT * 2,
                    p <= 1024,
            ;
        }
        let v: i128 = (m as u128 * p) as i128;
        let fl: i128 = if neg {
            -v
        } else {
            v
        };
        proof {
            assert(x.numerator() == fl) by (nonlinear_arith)
                requires
                    x.numerator() == (if neg { -(m as int) } else { m as int }) * pow2(k as nat),
                    v == m * p,
                    p == pow2(k as nat),
                    fl == (if neg { -(v as int) } else { v as int }),
            ;
        }
        return clamp_to_i64((fl - 25569) * 86400);
    }
    let s: u64 = if e == 0 {
        1074
    } else {
        1075 - e
    };
    assert(-x.scale() == s);
    proof {
        lemma_pow2_pos(s as nat);
        lemma_negated_div_mod(m as int, pow2(s as nat) as int);
    }
    let ghost d = pow2(s as nat) as int;
    assert(x.denominator() == d);
    assert(x.numerator() == if neg { -(m as int) } else { m as int });
    if s >= 72 {
        proof {
            lemma_pow2_mono(72, s as nat);
            lemma_pow2_72();
            assert(m * 172800 < d) by (nonlinear_arith)
                requires
                    m < HIDDEN_BIT * 2,
                    d >= 0x100_0000_0000_0000_0000,
            ;
            if m == 0 {
                lemma_fundamental_div_mod_converse(0, d, 0, 0);
                lemma_fundamental_div_mod_converse(d, 2 * d, 0, d);
                assert(x.numerator() == 0);
            } else if !neg {
                lemma_fundamental_div_mod_converse(m as int, d, 0, m as int);
                lemma_fundamental_div_mod_converse(2 * m * 86400 + d, 2 * d, 0, 2 * m * 86400 + d);
            } else {
                lemma_fundamental_div_mod_converse(m as int, d, 0, m as int);
                assert(x.floor() == -1);
                assert(x.numerator() % d == d - m);
                assert(2 * (d - m) * 86400 + d == 86400 * (2 * d) + (d - m * 172800))
                    by (nonlinear_arith);
                lemma_fundamental_div_mod_converse(
                    2 * (d - m) * 86400 + d,
                    2 * d,
                    86400,
                    d - m * 172800,
                );
            }
        }
        return SERIAL_ZERO_UNIX;
    }
    let p = pow2_u128(s as u32);
    proof {
        lemma_pow2_mono(s as nat, 72);
        lemma_pow2_72();
    }
    let q = m as u128 / p;
    let rem = m as u128 % p;
    proof {
        assert(q <= m) by (nonlinear_arith)
            requires
                q == m as int / p as int,
                p >= 1,
                m >= 0,
        ;
    }
    let fl: i128;
    let r: u128;
    if !neg {
        fl = q as i128;
        r = rem;
    } else if rem == 0 {
        fl = -(q as i128);
        r = 0;
    } else {
        fl = -(q as i128) - 1;
        r = p - rem;
    }
    assert(x.floor() == fl);
    assert(x.numerator() % d == r);
    proof {
        assert(2 * r * 86400 + p <= 2 * p * 86400 + p) by (nonlinear_arith)
            requires
                r < p,
        ;
    }
    let sec: u128 = (2 * r * 86400 + p) / (2 * p);
    proof {
        assert(sec <= 86400) by (nonlinear_arith)
            requires
                sec == (2 * r * 86400 + p) / (2 * p),
                r < p,
                p >= 1,
        ;
    }
    clamp_to_i64((fl - 25569) * 86400 + sec as i128)
}

proof fn lemma_pow2_72()
    ensures
        pow2(72) == 0x100_0000_0000_0000_0000,
{
    vstd::arithmetic::power2::lemma2_to64();
    vstd::arithmetic::power2::lemma_pow2_adds(64, 8);
}

} // verus!
