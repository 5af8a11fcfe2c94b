//! Fixed-point weights, counted in tenths of a unit.
//!
//! A weight travels through the system as decimal text: it arrives in a
//! query string, is written to the log with exactly one fractional digit,
//! and is read back on every reload.  This module gives that text an exact
//! meaning: `weight_val` is the value in tenths of a well-formed decimal
//! token (rounded to the nearest tenth, ties away from zero), and
//! `tenths_bytes` is the canonical one-fractional-digit rendering.

use vstd::prelude::*;

use crate::bytes::{find_byte, is_digit, is_ws, lemma_find_byte, lemma_find_byte_unique};

verus! {

/// Largest magnitude, in tenths, that the service accepts or stores.
pub const WEIGHT_LIMIT: i64 = 100_000_000_000_000_000;

/// Every byte of `s` is an ASCII decimal digit.
pub open spec fn all_digits(s: Seq<u8>) -> bool {
    forall|i: int| 0 <= i < s.len() ==> is_digit(#[trigger] s[i])
}

/// The decimal rendering of `n`, most significant digit first.
pub open spec fn dec_bytes(n: nat) -> Seq<u8>
    decreases n,
{
    if n < 10 {
        seq![(48 + n) as u8]
    } else {
        dec_bytes(n / 10) + seq![(48 + n % 10) as u8]
    }
}

/// The value of a digit string, most significant digit first.
pub open spec fn digits_val(s: Seq<u8>) -> int
    decreases s.len(),
{
    if s.len() == 0 {
        0
    } else {
        digits_val(s.drop_last()) * 10 + (s.last() - 48)
    }
}

pub proof fn lemma_dec_bytes_digits(n: nat)
    ensures
        dec_bytes(n).len() >= 1,
        all_digits(dec_bytes(n)),
    decreases n,
{
    if n >= 10 {
        lemma_dec_bytes_digits(n / 10);
    }
}

/// Rendering a number and reading the digits back returns the number.
pub proof fn lemma_dec_bytes_val(n: nat)
    ensures
        digits_val(dec_bytes(n)) == n,
    decreases n,
{
    if n < 10 {
        assert(dec_bytes(n).drop_last() =~= Seq::<u8>::empty());
        assert(dec_bytes(n).last() == (48 + n) as u8);
        assert(digits_val(Seq::<u8>::empty()) == 0);
        assert(digits_val(dec_bytes(n)) == digits_val(dec_bytes(n).drop_last()) * 10 + (dec_bytes(
            n,
        ).last() - 48));
    } else {
        lemma_dec_bytes_val(n / 10);
        assert(dec_bytes(n).drop_last() =~= dec_bytes(n / 10));
        assert(dec_bytes(n).last() == (48 + n % 10) as u8);
        assert(digits_val(dec_bytes(n)) == (n / 10) * 10 + (n % 10));
        assert(n == (n / 10) * 10 + (n % 10)) by (nonlinear_arith);
    }
}

pub proof fn lemma_digits_val_bounds(s: Seq<u8>)
    requires
        all_digits(s),
    ensures
        digits_val(s) >= 0,
    decreases s.len(),
{
    if s.len() > 0 {
        assert(all_digits(s.drop_last()));
        lemma_digits_val_bounds(s.drop_last());
    }
}

/// Extending a digit string multiplies its value by ten and adds the digit.
pub proof fn lemma_digits_val_push(s: Seq<u8>, b: u8)
    ensures
        digits_val(s.push(b)) == digits_val(s) * 10 + (b - 48),
{
    assert(s.push(b).drop_last() =~= s);
}

/// The token with any leading sign removed.
pub open spec fn weight_body(t: Seq<u8>) -> Seq<u8> {
    if t.len() > 0 && (t[0] == 43 || t[0] == 45) {
        t.drop_first()
    } else {
        t
    }
}

/// Whether the token carries a minus sign.
pub open spec fn weight_neg(t: Seq<u8>) -> bool {
    t.len() > 0 && t[0] == 45
}

/// The digits before the decimal point.
pub open spec fn int_part(body: Seq<u8>) -> Seq<u8> {
    body.take(find_byte(body, 46))
}

/// The digits after the decimal point, empty when there is none.
pub open spec fn frac_part(body: Seq<u8>) -> Seq<u8> {
    if find_byte(body, 46) < body.len() {
        body.skip(find_byte(body, 46) + 1)
    } else {
        Seq::<u8>::empty()
    }
}

/// A decimal token: an optional sign, then digits with at most one point
/// somewhere among them, and at least one digit in all.
pub open spec fn wf_weight(t: Seq<u8>) -> bool {
    let body = weight_body(t);
    &&& all_digits(int_part(body))
    &&& all_digits(frac_part(body))
    &&& int_part(body).len() + frac_part(body).len() >= 1
}

/// The first fractional digit, zero when there is none.
pub open spec fn frac_tenths(fp: Seq<u8>) -> int {
    if fp.len() >= 1 {
        fp[0] - 48
    } else {
        0
    }
}

/// One extra tenth when the digits beyond the first fractional digit are
/// worth half a tenth or more (ties round away from zero).
pub open spec fn frac_round(fp: Seq<u8>) -> int {
    if fp.len() >= 2 && fp[1] >= 53 {
        1
    } else {
        0
    }
}

/// The magnitude of a well-formed token, in tenths.
pub open spec fn weight_mag(t: Seq<u8>) -> int {
    let body = weight_body(t);
    digits_val(int_part(body)) * 10 + frac_tenths(frac_part(body)) + frac_round(frac_part(body))
}

/// The signed value of a well-formed token, in tenths.
pub open spec fn weight_val(t: Seq<u8>) -> int {
    if weight_neg(t) {
        -weight_mag(t)
    } else {
        weight_mag(t)
    }
}

/// Whether the token is a decimal number the service accepts.
pub open spec fn weight_ok(t: Seq<u8>) -> bool {
    wf_weight(t) && weight_mag(t) <= WEIGHT_LIMIT
}

/// Largest whole part: a token is within `WEIGHT_LIMIT` only if the digits
/// before the point are worth at most this much.
const WHOLE_CAP: u64 = 10_000_000_000_000_000;

/// The canonical rendering of `w` tenths: optional minus sign, the whole
/// part, a point, and exactly one fractional digit.
pub open spec fn tenths_bytes(w: int) -> Seq<u8> {
    let a = if w < 0 {
        -w
    } else {
        w
    };
    (if w < 0 {
        seq![45u8]
    } else {
        Seq::<u8>::empty()
    }) + dec_bytes((a / 10) as nat) + seq![46u8, (48 + a % 10) as u8]
}

/// The canonical rendering of any storable value is itself a well-formed
/// token that reads back as the same value: formatting loses nothing.
pub proof fn lemma_tenths_round_trip(w: int)
    requires
        -WEIGHT_LIMIT <= w <= WEIGHT_LIMIT,
    ensures
        weight_ok(tenths_bytes(w)),
        weight_val(tenths_bytes(w)) == w,
{
    let a = if w < 0 {
        -w
    } else {
        w
    };
    let t = tenths_bytes(w);
    let digits = dec_bytes((a / 10) as nat);
    lemma_dec_bytes_digits((a / 10) as nat);
    let body = digits + seq![46u8, (48 + a % 10) as u8];
    if w < 0 {
        assert(t[0] == 45);
        assert(weight_body(t) =~= body);
        assert(weight_neg(t));
    } else {
        assert(is_digit(t[0]));
        assert(weight_body(t) =~= body);
        assert(!weight_neg(t));
    }
    assert forall|i: int| 0 <= i < digits.len() implies body[i] != 46 by {
        assert(is_digit(digits[i]));
    }
    lemma_find_byte_unique(body, 46, digits.len() as int);
    assert(int_part(body) =~= digits);
    assert(frac_part(body) =~= seq![(48 + a % 10) as u8]);
    lemma_dec_bytes_val((a / 10) as nat);
    assert(frac_tenths(frac_part(body)) == a % 10);
    assert(frac_round(frac_part(body)) == 0);
    assert(weight_mag(t) == (a / 10) * 10 + a % 10);
    assert(a == (a / 10) * 10 + a % 10) by (nonlinear_arith)
        requires
            a >= 0,
    ;
}

/// A rendered weight is a single whitespace-free token and does not end in
/// a carriage return, so it survives the log's line and token splitting.
pub proof fn lemma_tenths_bytes_token(w: int)
    ensures
        tenths_bytes(w).len() > 0,
        forall|i: int| 0 <= i < tenths_bytes(w).len() ==> !is_ws(#[trigger] tenths_bytes(w)[i]),
{
    let a = if w < 0 {
        -w
    } else {
        w
    };
    let digits = dec_bytes((a / 10) as nat);
    lemma_dec_bytes_digits((a / 10) as nat);
    let t = tenths_bytes(w);
    assert forall|i: int| 0 <= i < t.len() implies !is_ws(#[trigger] t[i]) by {
        let sign: int = if w < 0 {
            1
        } else {
            0
        };
        if i >= sign && i < sign + digits.len() {
            assert(is_digit(digits[i - sign]));
        }
    }
}

/// Appends the decimal rendering of `n` to a byte buffer.
pub fn push_dec_u64(out: &mut Vec<u8>, n: u64)
    ensures
        final(out)@ == old(out)@ + dec_bytes(n as nat),
    decreases n,
{
    if n < 10 {
        out.push(48 + n as u8);
        proof {
            assert(old(out)@ + dec_bytes(n as nat) =~= old(out)@.push((48 + n as nat) as u8));
        }
    } else {
        push_dec_u64(out, n / 10);
        out.push(48 + (n % 10) as u8);
        proof {
            assert(old(out)@ + dec_bytes(n as nat) =~= (old(out)@ + dec_bytes(
                (n as nat) / 10,
            )).push((48 + (n as nat) % 10) as u8));
        }
    }
}

/// Renders `w` tenths with exactly one fractional digit.
pub fn format_tenths(w: i64) -> (r: Vec<u8>)
    ensures
        r@ == tenths_bytes(w as int),
{
    let mut out: Vec<u8> = Vec::new();
    let a: u64 = if w < 0 {
        out.push(45);
        proof {
            assert(0 < -(w as i128) <= u64::MAX);
        }
        (-(w as i128)) as u64
    } else {
        w as u64
    };
    push_dec_u64(&mut out, a / 10);
    out.push(46);
    out.push(48 + (a % 10) as u8);
    proof {
        assert(out@ =~= tenths_bytes(w as int));
    }
    out
}

/// Parses a decimal token into tenths, or `None` when the token is not a
/// decimal number within `WEIGHT_LIMIT`.
pub fn parse_weight(t: &Vec<u8>) -> (r: Option<i64>)
    ensures
        r is Some <==> weight_ok(t@),
        r is Some ==> r->0 == weight_val(t@),
        r matches Some(v) ==> -WEIGHT_LIMIT <= v <= WEIGHT_LIMIT,
{
    let n = t.len();
    let (neg, st): (bool, usize) = if n > 0 && (t[0] == 43 || t[0] == 45) {
        (t[0] == 45, 1)
    } else {
        (false, 0)
    };
    let ghost body = weight_body(t@);
    proof {
        assert(body =~= t@.skip(st as int));
        assert(neg == weight_neg(t@));
    }
    let mut di: usize = st;
    while di < n && t[di] != 46
        invariant
            st <= di <= n,
            n == t@.len(),
            forall|j: int| st <= j < di ==> t@[j] != 46,
        decreases n - di,
    {
        di = di + 1;
    }
    proof {
        assert forall|i: int| 0 <= i < di - st implies body[i] != 46 by {
            assert(t@[st + i] != 46);
        }
        lemma_find_byte_unique(body, 46, di - st);
        assert(int_part(body) =~= t@.subrange(st as int, di as int));
        if di < n {
            assert(frac_part(body) =~= t@.subrange(di + 1, n as int));
        }
    }
    let ghost ip = int_part(body);
    let ghost fp = frac_part(body);
    // Scan the whole part: every byte must be a digit; track its value,
    // or only the fact that it is already too large.
    let mut acc: u64 = 0;
    let mut over = false;
    let mut i: usize = st;
    while i < di
        invariant
            n == t@.len(),
            st <= i <= di <= n,
            ip == t@.subrange(st as int, di as int),
            ip == int_part(weight_body(t@)),
            forall|j: int| st <= j < i ==> is_digit(#[trigger] t@[j]),
            !over ==> acc <= WHOLE_CAP && acc == digits_val(t@.subrange(st as int, i as int)),
            over ==> digits_val(t@.subrange(st as int, i as int)) > WHOLE_CAP,
        decreases di - i,
    {
        let b = t[i];
        if b < 48 || b > 57 {
            proof {
                assert(!is_digit(ip[i - st]));
                assert(!all_digits(ip));
            }
            return None;
        }
        proof {
            let bi = t@[i as int];
            assert(t@.subrange(st as int, i + 1) =~= t@.subrange(st as int, i as int).push(bi));
            lemma_digits_val_push(t@.subrange(st as int, i as int), t@[i as int]);
        }
        if over {
            proof {
                assert(digits_val(t@.subrange(st as int, i + 1)) > WHOLE_CAP);
            }
        } else {
            acc = acc * 10 + ((b - 48) as u64);
            if acc > WHOLE_CAP {
                over = true;
            }
        }
        i = i + 1;
    }
    proof {
        assert(t@.subrange(st as int, di as int) =~= ip);
        assert(all_digits(ip)) by {
            assert forall|k: int| 0 <= k < ip.len() implies is_digit(#[trigger] ip[k]) by {
                assert(is_digit(t@[st + k]));
            }
        }
    }
    // Scan the fractional part: every byte must be a digit; keep the first
    // digit and whether the rest rounds the value up.
    let mut f0: u64 = 0;
    let mut ru: u64 = 0;
    let mut fl: usize = 0;
    if di < n {
        fl = n - di - 1;
        let mut j: usize = di + 1;
        while j < n
            invariant
                n == t@.len(),
                di + 1 <= j <= n,
                fp == t@.subrange(di + 1, n as int),
                fp == frac_part(weight_body(t@)),
                forall|k: int| di + 1 <= k < j ==> is_digit(#[trigger] t@[k]),
            decreases n - j,
        {
            let b = t[j];
            if b < 48 || b > 57 {
                proof {
                    assert(!is_digit(fp[j - (di + 1)]));
                    assert(!all_digits(fp));
                }
                return None;
            }
            j = j + 1;
        }
        proof {
            assert(all_digits(fp)) by {
                assert forall|k: int| 0 <= k < fp.len() implies is_digit(#[trigger] fp[k]) by {
                    assert(is_digit(t@[di + 1 + k]));
                }
            }
        }
        if di + 1 < n {
            f0 = (t[di + 1] - 48) as u64;
            proof {
                assert(f0 == frac_tenths(fp));
            }
        }
        if n - di > 2 && t[di + 2] >= 53 {
            ru = 1;
        }
        proof {
            assert(ru == frac_round(fp));
        }
    } else {
        proof {
            assert(fp =~= Seq::<u8>::empty());
        }
    }
    if di - st == 0 && fl == 0 {
        proof {
            assert(ip.len() + fp.len() == 0);
        }
        return None;
    }
    proof {
        assert(wf_weight(t@));
        lemma_digits_val_bounds(ip);
    }
    if over {
        proof {
            assert(weight_mag(t@) > WEIGHT_LIMIT);
        }
        return None;
    }
    let mag: u64 = acc * 10 + f0 + ru;
    proof {
        assert(mag == weight_mag(t@));
    }
    if mag > (WEIGHT_LIMIT as u64) {
        return None;
    }
    if neg {
        Some(-(mag as i64))
    } else {
        Some(mag as i64)
    }
}

} // verus!
