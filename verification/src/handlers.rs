//! The terminal handlers the router dispatches to.
//!
//! Each handler is a function from plain values — the reloaded file
//! contents, the query string, today's date — to a response and, for a
//! weight submission, the log line the caller must write durably before
//! the response goes out.

use vstd::prelude::*;

use crate::bytes::find_byte;
use crate::clock::today;
use crate::date::{date_bytes, format_date, lemma_date_bytes_token, Date};
use crate::decimal::{parse_weight, weight_ok, weight_val, WEIGHT_LIMIT};
use crate::http::{count_byte, lemma_count_byte_split, lemma_count_byte_zero};
use crate::log::{log_records, recent_rows, record_line_bytes, table_bytes, State};
use crate::replace::{replace, replace_bytes};
use crate::response::{body_view, Body, Response};
use vstd::string::StrSliceExecFns;
use vstd::string::StringSliceAdditionalSpecFns;

verus! {

/// The value of a query string with exactly one `=`: what follows it.
pub open spec fn query_value(query: Seq<u8>) -> Seq<u8> {
    query.skip(find_byte(query, 61) + 1)
}

/// A query the weight handler accepts: exactly one key/value pair whose
/// value is a decimal number the service can store.
pub open spec fn wf_query(query: Seq<u8>) -> bool {
    count_byte(query, 61) == 1 && weight_ok(query_value(query))
}

/// A weight submission's outcome: the response, and the log line to
/// append durably before the response is sent, when one was accepted.
pub struct WeightReply {
    pub response: Response,
    pub line: Option<Vec<u8>>,
}

/// What the weight handler does with `query` on `date`: accept exactly
/// the well-formed queries, appending the dated record and redirecting
/// home; answer anything else with a not-found response and no append.
pub open spec fn weight_spec(
    query: Seq<u8>,
    date: Date,
    rep: WeightReply,
    old_rows: Seq<(Seq<u8>, int)>,
    new_rows: Seq<(Seq<u8>, int)>,
) -> bool {
    if wf_query(query) {
        &&& rep.response.status == 303
        &&& rep.response.location matches Some(l) && l.spec_bytes() == ("/").spec_bytes()
        &&& body_view(&rep.response.body) == Seq::<u8>::empty()
        &&& rep.line matches Some(l) && l@ == record_line_bytes(
            date_bytes(date),
            weight_val(query_value(query)),
        )
        &&& new_rows == old_rows.push((date_bytes(date), weight_val(query_value(query))))
    } else {
        &&& rep.response.status == 404
        &&& rep.response.location is None
        &&& rep.response.content_type is Html
        &&& body_view(&rep.response.body) == Seq::<u8>::empty()
        &&& rep.line is None
        &&& new_rows == old_rows
    }
}

/// The round trip behind an accepted submission: writing the line the
/// handler hands back, onto contents that end at a line boundary, makes
/// the next reload yield exactly the old records plus the new one.
pub proof fn lemma_weight_append_round_trip(contents: Seq<u8>, date: Date, tenths: int)
    requires
        contents.len() == 0 || contents.last() == 10,
        date.wf(),
        -WEIGHT_LIMIT <= tenths <= WEIGHT_LIMIT,
    ensures
        log_records(contents + record_line_bytes(date_bytes(date), tenths)) == log_records(
            contents,
        ).push((date_bytes(date), tenths)),
{
    lemma_date_bytes_token(date);
    crate::log::lemma_append_round_trip(contents, date_bytes(date), tenths);
}

/// Parses the query of a weight submission: `Some` exactly on the
/// queries holding one key/value pair whose value is a storable decimal,
/// with the value in tenths.
fn parse_query(query: &Vec<u8>) -> (r: Option<i64>)
    ensures
        r is Some <==> wf_query(query@),
        r matches Some(v) ==> v == weight_val(query_value(query@)) && -WEIGHT_LIMIT <= v
            <= WEIGHT_LIMIT,
{
    let n = query.len();
    let mut ei: usize = 0;
    while ei < n
        invariant
            ei <= n,
            n == query@.len(),
            forall|k: int| 0 <= k < ei ==> query@[k] != 61,
        ensures
            ei <= n,
            forall|k: int| 0 <= k < ei ==> query@[k] != 61,
            ei == n || query@[ei as int] == 61,
        decreases n - ei,
    {
        if query[ei] == 61 {
            break;
        }
        ei = ei + 1;
    }
    proof {
        crate::bytes::lemma_find_byte_unique(query@, 61, ei as int);
    }
    if ei == n {
        proof {
            lemma_count_byte_zero(query@, 61);
        }
        return None;
    }
    proof {
        lemma_count_byte_split(query@, 61);
    }
    let ghost rest = query@.skip(ei + 1);
    let mut value: Vec<u8> = Vec::new();
    let mut j: usize = ei + 1;
    while j < n
        invariant
            ei + 1 <= j <= n,
            n == query@.len(),
            value@ == query@.subrange(ei + 1, j as int),
        decreases n - j,
    {
        let b = query[j];
        value.push(b);
        proof {
            assert(query@.subrange(ei + 1, j + 1) =~= query@.subrange(ei + 1, j as int).push(b));
        }
        j = j + 1;
    }
    proof {
        assert(value@ =~= rest);
    }
    // A second `=` means the query does not hold exactly one pair.
    let mut k: usize = 0;
    let vn = value.len();
    while k < vn
        invariant
            k <= vn,
            vn == value@.len(),
            n == query@.len(),
            rest == query@.skip(ei + 1),
            value@ == rest,
            count_byte(query@, 61) == 1 + count_byte(rest, 61),
            forall|q: int| 0 <= q < k ==> value@[q] != 61,
        ensures
            k <= vn,
            vn == value@.len(),
            rest == query@.skip(ei + 1),
            value@ == rest,
            count_byte(query@, 61) == 1 + count_byte(rest, 61),
            forall|q: int| 0 <= q < k ==> value@[q] != 61,
            k == vn || value@[k as int] == 61,
        decreases vn - k,
    {
        if value[k] == 61 {
            break;
        }
        k = k + 1;
    }
    if k < vn {
        proof {
            lemma_count_byte_zero(rest, 61);
            assert(rest[k as int] == 61);
        }
        return None;
    }
    proof {
        lemma_count_byte_zero(rest, 61);
        assert(count_byte(query@, 61) == 1);
        assert(value@ == query_value(query@));
    }
    parse_weight(&value)
}

/// Handles a weight submission for a given date.
pub fn weight_on(query: &Vec<u8>, date: &Date, state: &mut State) -> (r: WeightReply)
    requires
        date.wf(),
        old(state).wf(),
    ensures
        final(state).wf(),
        weight_spec(
            query@,
            *date,
            r,
            old(state).data.deep_view(),
            final(state).data.deep_view(),
        ),
{
    let w = match parse_query(query) {
        Some(w) => w,
        None => {
            return WeightReply { response: Response::err(), line: None };
        },
    };
    let date_b = format_date(date);
    proof {
        lemma_date_bytes_token(*date);
    }
    let line = state.append(date_b, w);
    WeightReply { response: Response::redirect("/"), line: Some(line) }
}

/// Handles a weight submission.  A query the service rejects is answered
/// at once, without consulting the clock; an acceptable one is dated by
/// the local clock, and only there does `None` — clock unavailable,
/// nothing changed — arise.
pub fn weight(query: &Vec<u8>, state: &mut State) -> (r: Option<WeightReply>)
    requires
        old(state).wf(),
    ensures
        final(state).wf(),
        !wf_query(query@) ==> r is Some,
        r is None ==> *final(state) == *old(state),
        r matches Some(rep) ==> exists|d: Date|
            #[trigger] d.wf() && weight_spec(
                query@,
                d,
                rep,
                old(state).data.deep_view(),
                final(state).data.deep_view(),
            ),
{
    if parse_query(query).is_none() {
        let rep = WeightReply { response: Response::err(), line: None };
        proof {
            let d0 = Date { year: 2000, month: 1, day: 1 };
            assert(d0.wf() && weight_spec(
                query@,
                d0,
                rep,
                old(state).data.deep_view(),
                state.data.deep_view(),
            ));
        }
        return Some(rep);
    }
    match today() {
        None => None,
        Some(d) => {
            let rep = weight_on(query, &d, state);
            proof {
                let d0 = d;
                assert(d0.wf() && weight_spec(
                    query@,
                    d0,
                    rep,
                    old(state).data.deep_view(),
                    state.data.deep_view(),
                ));
            }
            Some(rep)
        },
    }
}

/// Renders the index page: reloads the log from the given file contents
/// and substitutes the recent-history table into the page template.
pub fn index(state: &mut State, contents: &Vec<u8>, template: &Vec<u8>) -> (r: Response)
    ensures
        final(state).data.deep_view() == log_records(contents@),
        final(state).wf(),
        r.status == 200,
        r.location is None,
        r.content_type is Html,
        body_view(&r.body) == replace_bytes(
            template@,
            ("{{table}}").spec_bytes(),
            table_bytes(recent_rows(log_records(contents@))),
        ),
{
    state.update(contents);
    let table = state.html_table();
    let pat = "{{table}}".as_bytes_vec();
    let body = replace(template, &pat, &table);
    Response::ok().body(Body::Bytes(body))
}

/// The not-found response: a 404 carrying the fixed error page, whatever
/// made the route fail to match.
pub fn not_found(error_page: &Vec<u8>) -> (r: Response)
    ensures
        r.status == 404,
        r.location is None,
        r.content_type is Html,
        body_view(&r.body) == error_page@,
{
    let body = error_page.clone();
    proof {
        assert(body@ == error_page@);
    }
    Response::err().body(Body::Bytes(body))
}

} // verus!
