//! Byte-level building blocks shared by the parsers and serializers:
//! ASCII classification, whitespace tokenization, line splitting, and
//! helpers that append known-ASCII text to a byte buffer.

use vstd::prelude::*;
use vstd::string::{StrSliceExecFns, StringSliceAdditionalSpecFns};

verus! {

/// ASCII whitespace, as `u8::is_ascii_whitespace` classifies it.
pub open spec fn is_ws(b: u8) -> bool {
    b == 32 || b == 9 || b == 10 || b == 13 || b == 12
}

/// An ASCII decimal digit.
pub open spec fn is_digit(b: u8) -> bool {
    48 <= b <= 57
}

/// The index of the first occurrence of `b` in `s`, or `s.len()` if absent.
pub open spec fn find_byte(s: Seq<u8>, b: u8) -> int
    decreases s.len(),
{
    if s.len() == 0 {
        0
    } else if s[0] == b {
        0
    } else {
        1 + find_byte(s.drop_first(), b)
    }
}

pub proof fn lemma_find_byte(s: Seq<u8>, b: u8)
    ensures
        0 <= find_byte(s, b) <= s.len(),
        find_byte(s, b) < s.len() ==> s[find_byte(s, b)] == b,
        forall|i: int| 0 <= i < find_byte(s, b) ==> s[i] != b,
    decreases s.len(),
{
    if s.len() > 0 && s[0] != b {
        lemma_find_byte(s.drop_first(), b);
        assert forall|i: int| 0 <= i < find_byte(s, b) implies s[i] != b by {
            if i > 0 {
                assert(s.drop_first()[i - 1] != b);
            }
        }
    }
}

/// `find_byte` is pinned down by its characteristic properties, so an
/// executable scan that establishes them has computed it.
pub proof fn lemma_find_byte_unique(s: Seq<u8>, b: u8, k: int)
    requires
        0 <= k <= s.len(),
        forall|i: int| 0 <= i < k ==> s[i] != b,
        k < s.len() ==> s[k] == b,
    ensures
        find_byte(s, b) == k,
    decreases s.len(),
{
    if s.len() > 0 && s[0] != b {
        lemma_find_byte_unique(s.drop_first(), b, k - 1);
    }
}

/// The length of the leading run of non-whitespace bytes.
pub open spec fn nonws_run(s: Seq<u8>) -> nat
    decreases s.len(),
{
    if s.len() == 0 || is_ws(s[0]) {
        0
    } else {
        1 + nonws_run(s.drop_first())
    }
}

pub proof fn lemma_nonws_run(s: Seq<u8>)
    ensures
        nonws_run(s) <= s.len(),
        forall|i: int| 0 <= i < nonws_run(s) ==> !is_ws(#[trigger] s[i]),
        nonws_run(s) < s.len() ==> is_ws(s[nonws_run(s) as int]),
    decreases s.len(),
{
    if s.len() > 0 && !is_ws(s[0]) {
        lemma_nonws_run(s.drop_first());
        assert forall|i: int| 0 <= i < nonws_run(s) implies !is_ws(#[trigger] s[i]) by {
            if i > 0 {
                assert(!is_ws(s.drop_first()[i - 1]));
            }
        }
    }
}

/// The whitespace-separated tokens of `s`, in order: what
/// `split_ascii_whitespace` yields.
pub open spec fn tokens(s: Seq<u8>) -> Seq<Seq<u8>>
    decreases s.len(),
    via tokens_decreases
{
    if s.len() == 0 {
        Seq::empty()
    } else if is_ws(s[0]) {
        tokens(s.drop_first())
    } else {
        seq![s.take(nonws_run(s) as int)] + tokens(s.skip(nonws_run(s) as int))
    }
}

#[via_fn]
proof fn tokens_decreases(s: Seq<u8>) {
    if s.len() > 0 && !is_ws(s[0]) {
        lemma_nonws_run(s);
    }
}

/// The leading non-whitespace run of a token followed by anything that
/// starts at a boundary is the token itself.
pub proof fn lemma_nonws_run_concat(a: Seq<u8>, rest: Seq<u8>)
    requires
        forall|i: int| 0 <= i < a.len() ==> !is_ws(#[trigger] a[i]),
        rest.len() == 0 || is_ws(rest[0]),
    ensures
        nonws_run(a + rest) == a.len(),
    decreases a.len(),
{
    if a.len() == 0 {
        assert(a + rest =~= rest);
    } else {
        lemma_nonws_run_concat(a.drop_first(), rest);
        assert((a + rest).drop_first() =~= a.drop_first() + rest);
    }
}

/// Tokenizing a token at a boundary peels it off whole.
pub proof fn lemma_tokens_head(a: Seq<u8>, rest: Seq<u8>)
    requires
        a.len() > 0,
        forall|i: int| 0 <= i < a.len() ==> !is_ws(#[trigger] a[i]),
        rest.len() == 0 || is_ws(rest[0]),
    ensures
        tokens(a + rest) == seq![a] + tokens(rest),
{
    let s = a + rest;
    lemma_nonws_run_concat(a, rest);
    assert(s.take(a.len() as int) =~= a);
    assert(s.skip(a.len() as int) =~= rest);
}

/// Leading whitespace never changes the tokens.
pub proof fn lemma_tokens_ws(s: Seq<u8>)
    requires
        s.len() > 0,
        is_ws(s[0]),
    ensures
        tokens(s) == tokens(s.drop_first()),
{
}

/// Exactly the tokens that `split_ascii_whitespace` yields, as vectors.
pub fn split_ws(s: &Vec<u8>) -> (r: Vec<Vec<u8>>)
    ensures
        r.deep_view() == tokens(s@),
{
    let n = s.len();
    let mut out: Vec<Vec<u8>> = Vec::new();
    let mut i: usize = 0;
    proof {
        assert(s@.skip(0) =~= s@);
        assert(out.deep_view() =~= Seq::<Seq<u8>>::empty());
        assert(Seq::<Seq<u8>>::empty() + tokens(s@) =~= tokens(s@));
    }
    while i < n
        invariant
            i <= n,
            n == s@.len(),
            out.deep_view() + tokens(s@.skip(i as int)) == tokens(s@),
        decreases n - i,
    {
        let b = s[i];
        if b == 32 || b == 9 || b == 10 || b == 13 || b == 12 {
            proof {
                assert(s@.skip(i as int).drop_first() =~= s@.skip(i + 1));
                lemma_tokens_ws(s@.skip(i as int));
            }
            i = i + 1;
        } else {
            let start = i;
            let mut j = i + 1;
            while j < n
                invariant
                    start < j <= n,
                    n == s@.len(),
                    forall|k: int| start <= k < j ==> !is_ws(#[trigger] s@[k]),
                ensures
                    start < j <= n,
                    forall|k: int| start <= k < j ==> !is_ws(#[trigger] s@[k]),
                    j == n || is_ws(s@[j as int]),
                decreases n - j,
            {
                let c = s[j];
                if c == 32 || c == 9 || c == 10 || c == 13 || c == 12 {
                    break;
                }
                j = j + 1;
            }
            let mut tok: Vec<u8> = Vec::new();
            let mut k = start;
            while k < j
                invariant
                    start <= k <= j <= n,
                    n == s@.len(),
                    tok@ == s@.subrange(start as int, k as int),
                decreases j - k,
            {
                tok.push(s[k]);
                proof {
                    assert(s@.subrange(start as int, k + 1) =~= s@.subrange(
                        start as int,
                        k as int,
                    ).push(s@[k as int]));
                }
                k = k + 1;
            }
            proof {
                let a = s@.subrange(start as int, j as int);
                let rest = s@.skip(j as int);
                assert(s@.skip(start as int) =~= a + rest);
                lemma_tokens_head(a, rest);
            }
            let ghost odv = out.deep_view();
            let ghost tv = tok@;
            out.push(tok);
            proof {
                assert(out.deep_view() =~~= odv.push(tv));
                let rest = s@.skip(j as int);
                assert(odv.push(tv) + tokens(rest) =~= odv + (seq![tv] + tokens(rest)));
            }
            i = j;
        }
    }
    proof {
        assert(s@.skip(n as int) =~= Seq::<u8>::empty());
        assert(out.deep_view() + tokens(Seq::<u8>::empty()) =~= out.deep_view());
    }
    out
}

/// A line segment with a trailing carriage return removed.
pub open spec fn strip_cr(l: Seq<u8>) -> Seq<u8> {
    if l.len() > 0 && l.last() == 13 {
        l.drop_last()
    } else {
        l
    }
}

/// The lines of `s`, as `str::lines` yields them: split at every newline,
/// a carriage return just before a newline removed, and a final segment
/// without a newline kept as it stands.
pub open spec fn lines(s: Seq<u8>) -> Seq<Seq<u8>>
    decreases s.len(),
    via lines_decreases
{
    if s.len() == 0 {
        Seq::empty()
    } else {
        let k = find_byte(s, 10);
        if k < s.len() {
            seq![strip_cr(s.take(k))] + lines(s.skip(k + 1))
        } else {
            seq![s]
        }
    }
}

#[via_fn]
proof fn lines_decreases(s: Seq<u8>) {
    lemma_find_byte(s, 10);
}

/// Appending one newline-terminated, newline-free segment to contents
/// that end at a line boundary appends exactly one line.
pub proof fn lemma_lines_append(c: Seq<u8>, body: Seq<u8>)
    requires
        c.len() == 0 || c.last() == 10,
        forall|i: int| 0 <= i < body.len() ==> #[trigger] body[i] != 10,
        body.len() == 0 || body.last() != 13,
    ensures
        lines(c + body + seq![10u8]) == lines(c) + seq![body],
    decreases c.len(),
{
    let s = c + body + seq![10u8];
    if c.len() == 0 {
        assert(s =~= body + seq![10u8]);
        assert forall|i: int| 0 <= i < body.len() implies s[i] != 10 by {
            assert(body[i] != 10);
        }
        assert(s[body.len() as int] == 10);
        lemma_find_byte_unique(s, 10, body.len() as int);
        assert(find_byte(s, 10) == body.len());
        assert(s.take(body.len() as int) =~= body);
        assert(strip_cr(body) == body);
        assert(s.skip(body.len() as int + 1) =~= Seq::<u8>::empty());
        assert(lines(s.skip(body.len() as int + 1)) =~= Seq::<Seq<u8>>::empty());
        assert(lines(s) == seq![strip_cr(s.take(body.len() as int))] + lines(
            s.skip(body.len() as int + 1),
        ));
        assert(lines(s) =~= seq![body]);
        assert(lines(c) + seq![body] =~= seq![body]);
    } else {
        lemma_find_byte(c, 10);
        let k = find_byte(c, 10);
        assert(k < c.len()) by {
            if k == c.len() {
                assert(c[c.len() - 1] != 10);
            }
        }
        assert forall|i: int| 0 <= i < k implies s[i] != 10 by {
            assert(c[i] != 10);
        }
        lemma_find_byte_unique(s, 10, k);
        assert(s.take(k) =~= c.take(k));
        assert(s.skip(k + 1) =~= c.skip(k + 1) + body + seq![10u8]);
        lemma_lines_append(c.skip(k + 1), body);
        assert(lines(c) + seq![body] =~= seq![strip_cr(c.take(k))] + (lines(c.skip(k + 1))
            + seq![body]));
    }
}

/// The lines of `s`, as vectors.
pub fn split_lines(s: &Vec<u8>) -> (r: Vec<Vec<u8>>)
    ensures
        r.deep_view() == lines(s@),
{
    let n = s.len();
    let mut out: Vec<Vec<u8>> = Vec::new();
    let mut i: usize = 0;
    proof {
        assert(s@.skip(0) =~= s@);
        assert(out.deep_view() =~= Seq::<Seq<u8>>::empty());
        assert(Seq::<Seq<u8>>::empty() + lines(s@) =~= lines(s@));
    }
    while i < n
        invariant
            i <= n,
            n == s@.len(),
            out.deep_view() + lines(s@.skip(i as int)) == lines(s@),
        decreases n - i,
    {
        let start = i;
        let mut j = i;
        while j < n
            invariant
                start <= j <= n,
                n == s@.len(),
                forall|k: int| start <= k < j ==> s@[k] != 10,
            ensures
                start <= j <= n,
                forall|k: int| start <= k < j ==> s@[k] != 10,
                j == n || s@[j as int] == 10,
            decreases n - j,
        {
            if s[j] == 10 {
                break;
            }
            j = j + 1;
        }
        // The segment runs from start to j; drop a trailing carriage
        // return only when a newline follows.
        let end = if j < n && j > start && s[j - 1] == 13 {
            j - 1
        } else {
            j
        };
        let mut line: Vec<u8> = Vec::new();
        let mut k = start;
        while k < end
            invariant
                start <= k <= end <= n,
                n == s@.len(),
                line@ == s@.subrange(start as int, k as int),
            decreases end - k,
        {
            line.push(s[k]);
            proof {
                assert(s@.subrange(start as int, k + 1) =~= s@.subrange(
                    start as int,
                    k as int,
                ).push(s@[k as int]));
            }
            k = k + 1;
        }
        proof {
            let rem = s@.skip(start as int);
            assert forall|q: int| 0 <= q < j - start implies rem[q] != 10 by {
                assert(s@[start + q] != 10);
            }
            if j < n {
                lemma_find_byte_unique(rem, 10, j - start);
                assert(rem.take(j - start) =~= s@.subrange(start as int, j as int));
                assert(strip_cr(s@.subrange(start as int, j as int)) =~= s@.subrange(
                    start as int,
                    end as int,
                ));
                assert(rem.skip(j - start + 1) =~= s@.skip(j + 1));
            } else {
                lemma_find_byte_unique(rem, 10, rem.len() as int);
                assert(rem =~= s@.subrange(start as int, end as int));
                assert(s@.skip(n as int) =~= Seq::<u8>::empty());
            }
        }
        let ghost odv = out.deep_view();
        let ghost lv = line@;
        out.push(line);
        proof {
            assert(out.deep_view() =~~= odv.push(lv));
            let rest = if j < n {
                s@.skip(j + 1)
            } else {
                Seq::<u8>::empty()
            };
            assert(odv.push(lv) + lines(rest) =~= odv + (seq![lv] + lines(rest)));
        }
        if j < n {
            i = j + 1;
        } else {
            i = n;
        }
    }
    proof {
        assert(s@.skip(n as int) =~= Seq::<u8>::empty());
        assert(out.deep_view() + lines(Seq::<u8>::empty()) =~= out.deep_view());
    }
    out
}

/// Appends the UTF-8 bytes of a string slice to a byte buffer.
pub fn append_str(out: &mut Vec<u8>, s: &str)
    ensures
        final(out)@ == old(out)@ + s.spec_bytes(),
{
    let b = s.as_bytes_vec();
    append_bytes(out, &b);
}

/// Appends one byte vector to another.
pub fn append_bytes(out: &mut Vec<u8>, more: &Vec<u8>)
    ensures
        final(out)@ == old(out)@ + more@,
{
    let mut i: usize = 0;
    while i < more.len()
        invariant
            i <= more.len(),
            out@ == old(out)@ + more@.take(i as int),
        decreases more.len() - i,
    {
        out.push(more[i]);
        proof {
            assert(more@.take(i + 1) =~= more@.take(i as int).push(more@[i as int]));
        }
        i = i + 1;
    }
    proof {
        assert(more@.take(more@.len() as int) =~= more@);
    }
}

/// Whether two byte vectors hold the same bytes.
pub fn bytes_eq(a: &Vec<u8>, b: &Vec<u8>) -> (r: bool)
    ensures
        r == (a@ == b@),
{
    if a.len() != b.len() {
        proof {
            assert(a@ != b@);
        }
        return false;
    }
    let n = a.len();
    let mut i: usize = 0;
    while i < n
        invariant
            a@.len() == n,
            b@.len() == n,
            i <= n,
            forall|j: int| 0 <= j < i ==> a@[j] == b@[j],
        decreases n - i,
    {
        if a[i] != b[i] {
            return false;
        }
        i = i + 1;
    }
    proof {
        assert(a@ =~= b@);
    }
    true
}

/// Whether a byte vector holds exactly the UTF-8 bytes of a string slice.
pub fn bytes_eq_str(v: &Vec<u8>, s: &str) -> (r: bool)
    ensures
        r == (v@ == s.spec_bytes()),
{
    let b = s.as_bytes_vec();
    bytes_eq(v, &b)
}

} // verus!
