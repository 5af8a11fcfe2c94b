//! Calendar dates as plain values, and their `YYYY-MM-DD` rendering.
//!
//! The clock hands the library a date as year, month and day; everything
//! the service does with it — the stamp in the log, the chart window —
//! is computed and proved here over those plain values.

use vstd::prelude::*;

use crate::bytes::{is_digit, is_ws};
use crate::decimal::{dec_bytes, lemma_dec_bytes_digits, push_dec_u64};
use crate::log::wf_date_token;

verus! {

/// A calendar date.  The bounds are those of the clock behind it: years
/// within ±9999, the month and day as their usual 1-based numbers.
pub struct Date {
    pub year: i32,
    pub month: u8,
    pub day: u8,
}

impl Date {
    pub open spec fn wf(&self) -> bool {
        &&& -9999 <= self.year <= 9999
        &&& 1 <= self.month <= 12
        &&& 1 <= self.day <= 31
    }
}

/// The Gregorian day number of a date: a count that rises by exactly one
/// per calendar day.  For years at or after zero (all this service meets)
/// every intermediate term is non-negative and the count is the Julian
/// day number, so `day_number(e) - day_number(d)` is the number of
/// calendar days from `d` to `e`.
pub open spec fn day_number(d: Date) -> int {
    let a = (14 - d.month as int) / 12;
    let y = d.year + 4800 - a;
    let m = d.month + 12 * a - 3;
    d.day + (153 * m + 2) / 5 + 365 * y + y / 4 - y / 100 + y / 400 - 32045
}

/// A month or day number, padded to two digits.
pub open spec fn two_digit_bytes(n: int) -> Seq<u8> {
    if n < 10 {
        seq![48u8, (48 + n) as u8]
    } else {
        dec_bytes(n as nat)
    }
}

/// The `YYYY-MM-DD` rendering of a date: the year as written (a minus
/// sign ahead of an ancient year), month and day padded to two digits.
pub open spec fn date_bytes(d: Date) -> Seq<u8> {
    (if d.year < 0 {
        seq![45u8] + dec_bytes((-d.year) as nat)
    } else {
        dec_bytes(d.year as nat)
    }) + seq![45u8] + two_digit_bytes(d.month as int) + seq![45u8] + two_digit_bytes(d.day as int)
}

/// Appends a two-digit month or day number.
fn push_two_digits(out: &mut Vec<u8>, n: u8)
    requires
        n <= 99,
    ensures
        final(out)@ == old(out)@ + two_digit_bytes(n as int),
{
    if n < 10 {
        out.push(48);
        out.push(48 + n);
        proof {
            assert(old(out)@ + two_digit_bytes(n as int) =~= old(out)@.push(48u8).push(
                (48 + n) as u8,
            ));
        }
    } else {
        push_dec_u64(out, n as u64);
    }
}

/// Renders a date as `YYYY-MM-DD`.
pub fn format_date(d: &Date) -> (r: Vec<u8>)
    requires
        d.wf(),
    ensures
        r@ == date_bytes(*d),
{
    let mut out: Vec<u8> = Vec::new();
    if d.year < 0 {
        out.push(45);
        push_dec_u64(&mut out, (-(d.year as i64)) as u64);
    } else {
        push_dec_u64(&mut out, d.year as u64);
    }
    out.push(45);
    push_two_digits(&mut out, d.month);
    out.push(45);
    push_two_digits(&mut out, d.day);
    proof {
        assert(out@ =~= date_bytes(*d));
    }
    out
}

/// A rendered date is a single non-empty token without whitespace, so it
/// survives the log's token splitting whole.
pub proof fn lemma_date_bytes_token(d: Date)
    requires
        d.wf(),
    ensures
        wf_date_token(date_bytes(d)),
{
    let t = date_bytes(d);
    let ybytes = if d.year < 0 {
        seq![45u8] + dec_bytes((-d.year) as nat)
    } else {
        dec_bytes(d.year as nat)
    };
    let mb = two_digit_bytes(d.month as int);
    let db = two_digit_bytes(d.day as int);
    lemma_dec_bytes_digits((if d.year < 0 {
        -d.year
    } else {
        d.year as int
    }) as nat);
    lemma_dec_bytes_digits(d.month as nat);
    lemma_dec_bytes_digits(d.day as nat);
    assert forall|i: int| 0 <= i < t.len() implies !is_ws(#[trigger] t[i]) by {
        if i < ybytes.len() {
            if d.year < 0 {
                if i > 0 {
                    assert(is_digit(dec_bytes((-d.year) as nat)[i - 1]));
                }
            } else {
                assert(is_digit(dec_bytes(d.year as nat)[i]));
            }
        } else if i == ybytes.len() {
        } else if i < ybytes.len() + 1 + mb.len() {
            let j = i - ybytes.len() - 1;
            assert(t[i] == mb[j]);
            if d.month >= 10 {
                assert(is_digit(dec_bytes(d.month as nat)[j]));
            }
        } else if i == ybytes.len() + 1 + mb.len() {
        } else {
            let j = i - ybytes.len() - 1 - mb.len() - 1;
            assert(t[i] == db[j]);
            if d.day >= 10 {
                assert(is_digit(dec_bytes(d.day as nat)[j]));
            }
        }
    }
}

} // verus!
