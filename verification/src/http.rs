//! The request-line parser and the router.
//!
//! Only the first line of a connection is interpreted.  It must split
//! into exactly three whitespace-separated fields; the second field is
//! split on the first `?` into a path and an optional query, and more
//! than one `?` is a parse failure.  Method and protocol version are
//! discarded unread, so any verb dispatches identically.

use vstd::prelude::*;

use crate::bytes::{
    bytes_eq_str, find_byte, lemma_find_byte, lemma_find_byte_unique, split_ws, tokens,
};
use vstd::string::StringSliceAdditionalSpecFns;

verus! {

/// How many times `b` occurs in `s`.
pub open spec fn count_byte(s: Seq<u8>, b: u8) -> nat
    decreases s.len(),
{
    if s.len() == 0 {
        0
    } else {
        count_byte(s.drop_first(), b) + if s[0] == b {
            1nat
        } else {
            0nat
        }
    }
}

pub proof fn lemma_count_byte_zero(s: Seq<u8>, b: u8)
    ensures
        count_byte(s, b) == 0 <==> forall|i: int| 0 <= i < s.len() ==> #[trigger] s[i] != b,
    decreases s.len(),
{
    if s.len() > 0 {
        lemma_count_byte_zero(s.drop_first(), b);
        if count_byte(s, b) == 0 {
            assert forall|i: int| 0 <= i < s.len() implies #[trigger] s[i] != b by {
                if i > 0 {
                    assert(s.drop_first()[i - 1] != b);
                }
            }
        } else {
            if s[0] != b {
                let w = choose|i: int| 0 <= i < s.drop_first().len() && s.drop_first()[i] == b;
                assert(s[w + 1] == b);
            }
        }
    }
}

/// Splitting at the first occurrence accounts for exactly one occurrence.
pub proof fn lemma_count_byte_split(s: Seq<u8>, b: u8)
    requires
        find_byte(s, b) < s.len(),
    ensures
        count_byte(s, b) == 1 + count_byte(s.skip(find_byte(s, b) + 1), b),
    decreases s.len(),
{
    lemma_find_byte(s, b);
    if s[0] == b {
        assert(s.skip(1) =~= s.drop_first());
    } else {
        lemma_count_byte_split(s.drop_first(), b);
        assert(s.skip(find_byte(s, b) + 1) =~= s.drop_first().skip(
            find_byte(s.drop_first(), b) + 1,
        ));
    }
}

/// The path–query target a well-formed request line denotes.
pub struct RequestTarget {
    pub path: Vec<u8>,
    pub query: Option<Vec<u8>>,
}

/// Why a request line was rejected.  Either failure is fatal to the
/// connection: the caller aborts it without producing a response.
#[derive(Debug, PartialEq, Eq, Structural)]
pub enum RequestError {
    /// The line does not hold exactly three whitespace-separated fields.
    BadFields,
    /// The second field holds more than one `?`.
    BadUrl,
}

/// The URL field of a request line with exactly three fields.
pub open spec fn req_url(line: Seq<u8>) -> Seq<u8> {
    tokens(line)[1]
}

/// The path part of a URL field: everything before the first `?`.
pub open spec fn req_path(url: Seq<u8>) -> Seq<u8> {
    if count_byte(url, 63) == 0 {
        url
    } else {
        url.take(find_byte(url, 63))
    }
}

/// The raw query of a URL field: everything after the first `?`, if any.
pub open spec fn req_query(url: Seq<u8>) -> Option<Seq<u8>> {
    if count_byte(url, 63) == 0 {
        None
    } else {
        Some(url.skip(find_byte(url, 63) + 1))
    }
}

/// Whether a request line is one the service accepts.
pub open spec fn wf_request_line(line: Seq<u8>) -> bool {
    tokens(line).len() == 3 && count_byte(req_url(line), 63) <= 1
}

/// Parses the first line of a request into a path and an optional raw
/// query string.  Exactly the well-formed lines are accepted; the error
/// names what was wrong.
pub fn parse_request_line(line: &Vec<u8>) -> (r: Result<RequestTarget, RequestError>)
    ensures
        r is Ok <==> wf_request_line(line@),
        r matches Ok(t) ==> {
            &&& t.path@ == req_path(req_url(line@))
            &&& (t.query is Some) == (req_query(req_url(line@)) is Some)
            &&& (t.query matches Some(q) ==> Some(q@) == req_query(req_url(line@)))
        },
        r matches Err(e) ==> if tokens(line@).len() != 3 {
            e == RequestError::BadFields
        } else {
            e == RequestError::BadUrl
        },
{
    let toks = split_ws(line);
    proof {
        assert(toks.deep_view().len() == toks@.len());
    }
    if toks.len() != 3 {
        return Err(RequestError::BadFields);
    }
    let mut toks = toks;
    let url = toks.remove(1);
    proof {
        assert(url@ == tokens(line@)[1]);
    }
    let n = url.len();
    let mut qi: usize = 0;
    while qi < n
        invariant
            qi <= n,
            n == url@.len(),
            forall|k: int| 0 <= k < qi ==> url@[k] != 63,
        ensures
            qi <= n,
            forall|k: int| 0 <= k < qi ==> url@[k] != 63,
            qi == n || url@[qi as int] == 63,
        decreases n - qi,
    {
        if url[qi] == 63 {
            break;
        }
        qi = qi + 1;
    }
    proof {
        lemma_find_byte_unique(url@, 63, qi as int);
    }
    if qi == n {
        proof {
            lemma_count_byte_zero(url@, 63);
        }
        return Ok(RequestTarget { path: url, query: None });
    }
    proof {
        lemma_count_byte_split(url@, 63);
    }
    let ghost rest = url@.skip(qi + 1);
    let mut j: usize = qi + 1;
    while j < n
        invariant
            qi + 1 <= j <= n,
            n == url@.len(),
            rest == url@.skip(qi + 1),
            tokens(line@).len() == 3,
            url@ == req_url(line@),
            count_byte(url@, 63) == 1 + count_byte(rest, 63),
            forall|k: int| qi + 1 <= k < j ==> url@[k] != 63,
        decreases n - j,
    {
        if url[j] == 63 {
            proof {
                assert(rest[j - (qi + 1)] == 63);
                lemma_count_byte_zero(rest, 63);
            }
            return Err(RequestError::BadUrl);
        }
        j = j + 1;
    }
    proof {
        assert forall|k: int| 0 <= k < rest.len() implies #[trigger] rest[k] != 63 by {
            assert(url@[qi + 1 + k] != 63);
        }
        lemma_count_byte_zero(rest, 63);
    }
    let mut path: Vec<u8> = Vec::new();
    let mut k: usize = 0;
    while k < qi
        invariant
            k <= qi <= n,
            n == url@.len(),
            path@ == url@.subrange(0, k as int),
        decreases qi - k,
    {
        path.push(url[k]);
        proof {
            assert(url@.subrange(0, k + 1) =~= url@.subrange(0, k as int).push(url@[k as int]));
        }
        k = k + 1;
    }
    let mut query: Vec<u8> = Vec::new();
    let mut m: usize = qi + 1;
    while m < n
        invariant
            qi + 1 <= m <= n,
            n == url@.len(),
            query@ == url@.subrange(qi + 1, m as int),
        decreases n - m,
    {
        query.push(url[m]);
        proof {
            let bm = url@[m as int];
            assert(url@.subrange(qi + 1, m + 1) =~= url@.subrange(qi + 1, m as int).push(bm));
        }
        m = m + 1;
    }
    proof {
        assert(path@ =~= req_path(url@));
        assert(query@ =~= url@.skip(qi + 1));
    }
    Ok(RequestTarget { path, query: Some(query) })
}

/// Where a parsed request is dispatched.
#[derive(Debug, PartialEq, Eq, Structural)]
pub enum Route {
    /// `/`: reload the log and render the index page.
    Index,
    /// `/weight` with a query: submit a weight.
    SubmitWeight,
    /// Anything else, or `/weight` without a query.
    NotFound,
}

/// The routing table: the matched path with query presence as a guard.
pub open spec fn route_of(path: Seq<u8>, has_query: bool) -> Route {
    if path == ("/").spec_bytes() {
        Route::Index
    } else if path == ("/weight").spec_bytes() && has_query {
        Route::SubmitWeight
    } else {
        Route::NotFound
    }
}

/// Dispatches a parsed request.  No method discrimination: the verb was
/// never read.
pub fn route(target: &RequestTarget) -> (r: Route)
    ensures
        r == route_of(target.path@, target.query is Some),
{
    if bytes_eq_str(&target.path, "/") {
        Route::Index
    } else if target.query.is_some() && bytes_eq_str(&target.path, "/weight") {
        Route::SubmitWeight
    } else {
        Route::NotFound
    }
}

} // verus!
