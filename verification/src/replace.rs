//! Placeholder substitution: the left-to-right, non-overlapping
//! replacement of every occurrence of a pattern, exactly as
//! `str::replace` performs it on the page and script templates.

use vstd::prelude::*;

use crate::bytes::append_bytes;

verus! {

/// Whether the pattern occurs in `s` at position `i`.
pub open spec fn match_at(s: Seq<u8>, pat: Seq<u8>, i: int) -> bool {
    0 <= i && i + pat.len() <= s.len() && s.subrange(i, i + pat.len()) == pat
}

/// The position of the leftmost occurrence of a non-empty `pat` in `s`,
/// or `-1` when there is none.
pub open spec fn find_match(s: Seq<u8>, pat: Seq<u8>) -> int
    decreases s.len(),
{
    if s.len() < pat.len() || pat.len() == 0 {
        -1
    } else if s.subrange(0, pat.len() as int) == pat {
        0
    } else {
        let r = find_match(s.drop_first(), pat);
        if r < 0 {
            -1
        } else {
            1 + r
        }
    }
}

pub proof fn lemma_find_match(s: Seq<u8>, pat: Seq<u8>)
    requires
        pat.len() >= 1,
    ensures
        find_match(s, pat) == -1 ==> forall|j: int| !match_at(s, pat, j),
        find_match(s, pat) >= 0 ==> match_at(s, pat, find_match(s, pat)),
        find_match(s, pat) >= 0 ==> forall|j: int| 0 <= j < find_match(s, pat) ==> !match_at(
            s,
            pat,
            j,
        ),
    decreases s.len(),
{
    if s.len() < pat.len() {
        assert forall|j: int| !match_at(s, pat, j) by {}
    } else if s.subrange(0, pat.len() as int) == pat {
    } else {
        lemma_find_match(s.drop_first(), pat);
        assert forall|j: int| 0 <= j && match_at(s, pat, j) implies j >= 1 && match_at(
            s.drop_first(),
            pat,
            j - 1,
        ) by {
            if j == 0 {
                assert(s.subrange(0, pat.len() as int) == pat);
            } else {
                assert(s.drop_first().subrange(j - 1, j - 1 + pat.len()) =~= s.subrange(
                    j,
                    j + pat.len(),
                ));
            }
        }
        if find_match(s.drop_first(), pat) >= 0 {
            let r = find_match(s.drop_first(), pat);
            assert(match_at(s.drop_first(), pat, r));
            assert forall|q: int| 0 <= q < pat.len() implies #[trigger] s.subrange(
                1 + r,
                1 + r + pat.len(),
            )[q] == s.drop_first().subrange(r, r + pat.len())[q] by {
                assert(s.drop_first()[r + q] == s[1 + r + q]);
            }
            assert(s.subrange(1 + r, 1 + r + pat.len()) =~= s.drop_first().subrange(
                r,
                r + pat.len(),
            ));
        }
    }
}

/// `find_match` is pinned down by the properties an executable scan
/// establishes.
pub proof fn lemma_find_match_unique(s: Seq<u8>, pat: Seq<u8>, k: int)
    requires
        pat.len() >= 1,
        0 <= k,
        k + pat.len() <= s.len(),
        match_at(s, pat, k),
        forall|j: int| 0 <= j < k ==> !match_at(s, pat, j),
    ensures
        find_match(s, pat) == k,
    decreases s.len(),
{
    if s.subrange(0, pat.len() as int) == pat {
        assert(match_at(s, pat, 0));
    } else {
        assert(k >= 1) by {
            if k == 0 {
                assert(s.subrange(0, pat.len() as int) == pat);
            }
        }
        assert(s.drop_first().subrange(k - 1, k - 1 + pat.len()) =~= s.subrange(k, k + pat.len()));
        assert forall|j: int| 0 <= j < k - 1 implies !match_at(s.drop_first(), pat, j) by {
            if match_at(s.drop_first(), pat, j) {
                assert(s.subrange(j + 1, j + 1 + pat.len()) =~= s.drop_first().subrange(
                    j,
                    j + pat.len(),
                ));
                assert(match_at(s, pat, j + 1));
            }
        }
        lemma_find_match_unique(s.drop_first(), pat, k - 1);
    }
}

/// `s` with every occurrence of `pat` replaced by `rep`, scanning from the
/// left and never rescanning a replacement.  An empty pattern replaces
/// nothing.
pub open spec fn replace_bytes(s: Seq<u8>, pat: Seq<u8>, rep: Seq<u8>) -> Seq<u8>
    decreases s.len(),
    via replace_bytes_decreases
{
    if pat.len() == 0 {
        s
    } else {
        let m = find_match(s, pat);
        if m < 0 {
            s
        } else {
            s.take(m) + rep + replace_bytes(s.skip(m + pat.len()), pat, rep)
        }
    }
}

#[via_fn]
proof fn replace_bytes_decreases(s: Seq<u8>, pat: Seq<u8>, rep: Seq<u8>) {
    if pat.len() >= 1 {
        lemma_find_match(s, pat);
    }
}

/// Replacing in a string that starts with a match prepends the
/// replacement.
pub proof fn lemma_replace_head(s: Seq<u8>, pat: Seq<u8>, rep: Seq<u8>)
    requires
        pat.len() >= 1,
        match_at(s, pat, 0),
    ensures
        replace_bytes(s, pat, rep) == rep + replace_bytes(s.skip(pat.len() as int), pat, rep),
{
    lemma_find_match_unique(s, pat, 0);
    assert(s.take(0) =~= Seq::<u8>::empty());
    assert(s.take(0) + rep =~= rep);
}

/// Replacing in a string that does not start with a match keeps its first
/// byte.
pub proof fn lemma_replace_step(s: Seq<u8>, pat: Seq<u8>, rep: Seq<u8>)
    requires
        pat.len() >= 1,
        s.len() >= 1,
        !match_at(s, pat, 0),
    ensures
        replace_bytes(s, pat, rep) == seq![s[0]] + replace_bytes(s.drop_first(), pat, rep),
{
    if s.len() < pat.len() {
        assert(find_match(s, pat) == -1);
        assert(find_match(s.drop_first(), pat) == -1);
        assert(s =~= seq![s[0]] + s.drop_first());
    } else {
        assert(s.subrange(0, pat.len() as int) != pat);
        let r = find_match(s.drop_first(), pat);
        if r < 0 {
            assert(s =~= seq![s[0]] + s.drop_first());
        } else {
            let m = 1 + r;
            assert(find_match(s, pat) == m);
            lemma_find_match(s.drop_first(), pat);
            assert(match_at(s.drop_first(), pat, r));
            assert forall|q: int| 0 <= q < m implies s.take(m)[q] == (seq![s[0]]
                + s.drop_first().take(r))[q] by {
                if q > 0 {
                    assert(s.drop_first().take(r)[q - 1] == s[q]);
                }
            }
            assert(s.take(m) =~= seq![s[0]] + s.drop_first().take(r));
            assert forall|q: int| 0 <= q < s.len() - m - pat.len() implies #[trigger] s.skip(
                m + pat.len(),
            )[q] == s.drop_first().skip(r + pat.len())[q] by {
                assert(s.drop_first()[r + pat.len() + q] == s[m + pat.len() + q]);
            }
            assert(s.skip(m + pat.len()) =~= s.drop_first().skip(r + pat.len()));
            assert(s.take(m) + rep + replace_bytes(s.skip(m + pat.len()), pat, rep) =~= seq![s[0]]
                + (s.drop_first().take(r) + rep + replace_bytes(
                s.drop_first().skip(r + pat.len()),
                pat,
                rep,
            )));
        }
    }
}

/// `s` with every occurrence of `pat` replaced by `rep`.
pub fn replace(s: &Vec<u8>, pat: &Vec<u8>, rep: &Vec<u8>) -> (r: Vec<u8>)
    ensures
        r@ == replace_bytes(s@, pat@, rep@),
{
    let n = s.len();
    let p = pat.len();
    if p == 0 {
        let r = s.clone();
        proof {
            assert(r@ == s@);
        }
        return r;
    }
    let mut out: Vec<u8> = Vec::new();
    let mut i: usize = 0;
    proof {
        assert(s@.skip(0) =~= s@);
        assert(Seq::<u8>::empty() + replace_bytes(s@, pat@, rep@) =~= replace_bytes(
            s@,
            pat@,
            rep@,
        ));
    }
    while i < n
        invariant
            i <= n,
            n == s@.len(),
            p == pat@.len(),
            p >= 1,
            out@ + replace_bytes(s@.skip(i as int), pat@, rep@) == replace_bytes(s@, pat@, rep@),
        decreases n - i,
    {
        let rem = n - i;
        let mut is_match = false;
        let mut k: usize = 0;
        if rem >= p {
            is_match = true;
            while k < p
                invariant_except_break
                    is_match,
                invariant
                    k <= p,
                    p == pat@.len(),
                    i + p <= n,
                    n == s@.len(),
                    forall|q: int| 0 <= q < k ==> s@[i + q] == #[trigger] pat@[q],
                ensures
                    k <= p,
                    is_match ==> k == p && forall|q: int| 0 <= q < k ==> s@[i + q]
                        == #[trigger] pat@[q],
                    !is_match ==> k < p && s@[i + k] != pat@[k as int],
                decreases p - k,
            {
                if s[i + k] != pat[k] {
                    is_match = false;
                    break;
                }
                k = k + 1;
            }
        }
        let ghost rems = s@.skip(i as int);
        if is_match {
            proof {
                assert(rems.subrange(0, p as int) =~= pat@) by {
                    assert forall|q: int| 0 <= q < p implies rems.subrange(0, p as int)[q]
                        == pat@[q] by {
                        assert(s@[i + q] == pat@[q]);
                    }
                }
                assert(match_at(rems, pat@, 0));
                lemma_replace_head(rems, pat@, rep@);
                assert(rems.skip(p as int) =~= s@.skip(i + p));
            }
            append_bytes(&mut out, rep);
            i = i + p;
        } else {
            proof {
                assert(!match_at(rems, pat@, 0)) by {
                    if rem >= p && rems.subrange(0, p as int) == pat@ {
                        assert(rems.subrange(0, p as int)[k as int] == pat@[k as int]);
                        assert(rems[k as int] == s@[i + k]);
                    }
                }
                lemma_replace_step(rems, pat@, rep@);
                assert(rems.drop_first() =~= s@.skip(i + 1));
                assert(out@.push(s@[i as int]) + replace_bytes(s@.skip(i + 1), pat@, rep@) =~= out@
                    + (seq![s@[i as int]] + replace_bytes(s@.skip(i + 1), pat@, rep@)));
            }
            let b = s[i];
            out.push(b);
            i = i + 1;
        }
    }
    proof {
        assert(s@.skip(n as int) =~= Seq::<u8>::empty());
        assert(out@ + replace_bytes(Seq::<u8>::empty(), pat@, rep@) =~= out@);
    }
    out
}

} // verus!
