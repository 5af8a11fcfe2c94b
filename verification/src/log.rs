//! The persistent log of (date, weight) records.
//!
//! The backing file holds one record per line, two whitespace-separated
//! tokens: a date stamp and a weight with one fractional digit.  The file
//! is the single source of truth; the in-memory sequence is a cache that a
//! reload rebuilds in full.  A line that does not consist of exactly two
//! tokens with a decimal second token is dropped silently, never reported.

use vstd::prelude::*;

use crate::bytes::{
    append_bytes, append_str, is_digit, is_ws, lemma_lines_append, lemma_tokens_head,
    lemma_tokens_ws, lines, split_lines, split_ws, tokens,
};
use crate::decimal::{
    all_digits, format_tenths, frac_part, frac_round, frac_tenths, int_part,
    lemma_digits_val_bounds, lemma_tenths_bytes_token, lemma_tenths_round_trip, parse_weight,
    tenths_bytes, weight_body, weight_mag, weight_ok, weight_val, WEIGHT_LIMIT,
};
use vstd::string::StringSliceAdditionalSpecFns;

verus! {

/// One entry of the log: a date token and a weight in tenths.
pub struct Record {
    pub date: Vec<u8>,
    pub tenths: i64,
}

impl View for Record {
    type V = (Seq<u8>, int);

    open spec fn view(&self) -> (Seq<u8>, int) {
        (self.date@, self.tenths as int)
    }
}

impl DeepView for Record {
    type V = (Seq<u8>, int);

    open spec fn deep_view(&self) -> (Seq<u8>, int) {
        self@
    }
}

/// The record a single line yields, if it is well formed.
pub open spec fn line_record(l: Seq<u8>) -> Option<(Seq<u8>, int)> {
    let ts = tokens(l);
    if ts.len() == 2 && weight_ok(ts[1]) {
        Some((ts[0], weight_val(ts[1])))
    } else {
        None
    }
}

/// The records of a sequence of lines, in line order, malformed lines
/// dropped.
pub open spec fn records_of_lines(ls: Seq<Seq<u8>>) -> Seq<(Seq<u8>, int)>
    decreases ls.len(),
{
    if ls.len() == 0 {
        Seq::empty()
    } else {
        records_of_lines(ls.drop_last()) + match line_record(ls.last()) {
            Some(r) => seq![r],
            None => Seq::empty(),
        }
    }
}

/// The records a reload of the given file contents yields.
pub open spec fn log_records(contents: Seq<u8>) -> Seq<(Seq<u8>, int)> {
    records_of_lines(lines(contents))
}

/// Rebuilds the record sequence from the full contents of the backing
/// file.  Malformed lines are dropped, never fatal.
pub fn parse_log(contents: &Vec<u8>) -> (r: Vec<Record>)
    ensures
        r.deep_view() == log_records(contents@),
{
    let ls = split_lines(contents);
    let ghost lsv = ls.deep_view();
    let mut out: Vec<Record> = Vec::new();
    let mut i: usize = 0;
    proof {
        assert(lsv.take(0) =~= Seq::<Seq<u8>>::empty());
        assert(out.deep_view() =~= Seq::<(Seq<u8>, int)>::empty());
    }
    while i < ls.len()
        invariant
            i <= ls.len(),
            lsv == ls.deep_view(),
            lsv.len() == ls@.len(),
            forall|k: int| 0 <= k < lsv.len() ==> lsv[k] == #[trigger] ls@[k]@,
            out.deep_view() == records_of_lines(lsv.take(i as int)),
        decreases ls.len() - i,
    {
        let toks = split_ws(&ls[i]);
        proof {
            assert(lsv.take(i + 1).drop_last() =~= lsv.take(i as int));
            assert(lsv.take(i + 1).last() == lsv[i as int]);
        }
        if toks.len() == 2 {
            if let Some(w) = parse_weight(&toks[1]) {
                proof {
                    assert(toks.deep_view()[1] == toks@[1]@);
                    assert(toks.deep_view()[0] == toks@[0]@);
                }
                let mut toks = toks;
                let date = toks.remove(0);
                let rec = Record { date, tenths: w };
                let ghost odv = out.deep_view();
                let ghost rv = rec@;
                out.push(rec);
                proof {
                    assert(out.deep_view() =~~= odv.push(rv));
                    assert(records_of_lines(lsv.take(i + 1)) =~= odv.push(rv));
                }
            } else {
                proof {
                    assert(toks.deep_view()[1] == toks@[1]@);
                    assert(line_record(lsv[i as int]) is None);
                    assert(records_of_lines(lsv.take(i + 1)) =~= out.deep_view());
                }
            }
        } else {
            proof {
                assert(toks.deep_view().len() == toks@.len());
                assert(records_of_lines(lsv.take(i + 1)) =~= out.deep_view());
            }
        }
        i = i + 1;
    }
    proof {
        assert(lsv.take(lsv.len() as int) =~= lsv);
    }
    out
}

/// A date stamp as it may stand in the log: one non-empty token without
/// whitespace.
pub open spec fn wf_date_token(date: Seq<u8>) -> bool {
    date.len() > 0 && forall|i: int| 0 <= i < date.len() ==> !is_ws(#[trigger] date[i])
}

/// The line that records `(date, tenths)`: the two tokens separated by one
/// space, terminated by a newline.
pub open spec fn record_line_bytes(date: Seq<u8>, tenths: int) -> Seq<u8> {
    date + seq![32u8] + tenths_bytes(tenths) + seq![10u8]
}

/// A record line parses back to exactly the record it was written from.
pub proof fn lemma_record_line_parses(date: Seq<u8>, tenths: int)
    requires
        wf_date_token(date),
        -WEIGHT_LIMIT <= tenths <= WEIGHT_LIMIT,
    ensures
        line_record(date + seq![32u8] + tenths_bytes(tenths)) == Some((date, tenths)),
{
    let wb = tenths_bytes(tenths);
    let body = date + seq![32u8] + wb;
    lemma_tenths_bytes_token(tenths);
    lemma_tenths_round_trip(tenths);
    let rest = seq![32u8] + wb;
    assert(body =~= date + rest);
    lemma_tokens_head(date, rest);
    assert(rest.drop_first() =~= wb);
    lemma_tokens_ws(rest);
    assert(wb =~= wb + Seq::<u8>::empty());
    lemma_tokens_head(wb, Seq::<u8>::empty());
    assert(tokens(Seq::<u8>::empty()) =~= Seq::<Seq<u8>>::empty());
    assert(tokens(wb) =~= seq![wb]);
    assert(tokens(body) =~= seq![date, wb]);
}

/// Appending a record's line to contents that end at a line boundary adds
/// exactly that record at the end of a reload — the round trip between
/// `append` and a reload loses nothing and invents nothing.
pub proof fn lemma_append_round_trip(contents: Seq<u8>, date: Seq<u8>, tenths: int)
    requires
        contents.len() == 0 || contents.last() == 10,
        wf_date_token(date),
        -WEIGHT_LIMIT <= tenths <= WEIGHT_LIMIT,
    ensures
        log_records(contents + record_line_bytes(date, tenths)) == log_records(contents).push(
            (date, tenths),
        ),
{
    let wb = tenths_bytes(tenths);
    let body = date + seq![32u8] + wb;
    lemma_tenths_bytes_token(tenths);
    assert forall|i: int| 0 <= i < body.len() implies #[trigger] body[i] != 10 by {
        if i < date.len() {
            assert(!is_ws(date[i]));
        } else if i > date.len() {
            assert(!is_ws(wb[i - date.len() - 1]));
        }
    }
    assert(body.last() == wb.last());
    assert(body.len() == 0 || body.last() != 13) by {
        assert(!is_ws(wb[wb.len() - 1]));
    }
    lemma_lines_append(contents, body);
    assert(contents + record_line_bytes(date, tenths) =~= contents + body + seq![10u8]);
    let ls = lines(contents) + seq![body];
    assert(ls.drop_last() =~= lines(contents));
    assert(ls.last() == body);
    lemma_record_line_parses(date, tenths);
    assert(records_of_lines(ls) =~= records_of_lines(lines(contents)) + seq![(date, tenths)]);
    assert(log_records(contents).push((date, tenths)) =~= log_records(contents) + seq![
        (date, tenths),
    ]);
}

/// A reload is a pure function of the file contents, so reloading twice
/// without an intervening append yields identical sequences.
pub proof fn lemma_reload_idempotent(
    contents: Seq<u8>,
    first: Seq<(Seq<u8>, int)>,
    second: Seq<(Seq<u8>, int)>,
)
    requires
        first == log_records(contents),
        second == log_records(contents),
    ensures
        first == second,
{
}

/// Every weight a well-formed line yields lies within `WEIGHT_LIMIT` of
/// zero: a reload can only produce storable records.
pub proof fn lemma_log_records_bounded(ls: Seq<Seq<u8>>)
    ensures
        forall|i: int|
            0 <= i < records_of_lines(ls).len() ==> -WEIGHT_LIMIT <= (
            #[trigger] records_of_lines(ls)[i]).1 <= WEIGHT_LIMIT,
    decreases ls.len(),
{
    if ls.len() > 0 {
        lemma_log_records_bounded(ls.drop_last());
        let pre = records_of_lines(ls.drop_last());
        if line_record(ls.last()) is Some {
            let t = tokens(ls.last())[1];
            assert(weight_ok(t));
            let body = weight_body(t);
            lemma_digits_val_bounds(int_part(body));
            if frac_part(body).len() >= 1 {
                assert(is_digit(frac_part(body)[0]));
            }
            assert(weight_mag(t) >= 0);
            let rec = line_record(ls.last())->0;
            assert(-WEIGHT_LIMIT <= rec.1 <= WEIGHT_LIMIT);
        }
        assert forall|i: int| 0 <= i < records_of_lines(ls).len() implies -WEIGHT_LIMIT <= (
        #[trigger] records_of_lines(ls)[i]).1 <= WEIGHT_LIMIT by {
            if i < pre.len() {
                assert(records_of_lines(ls)[i] == pre[i]);
            }
        }
    }
}

/// The weights of a record sequence, in order.
pub open spec fn weights_of(rs: Seq<(Seq<u8>, int)>) -> Seq<int> {
    rs.map_values(|r: (Seq<u8>, int)| r.1)
}

/// The smallest element of a non-empty sequence (zero for an empty one).
pub open spec fn seq_min(s: Seq<int>) -> int
    decreases s.len(),
{
    if s.len() == 0 {
        0
    } else if s.len() == 1 {
        s[0]
    } else {
        let m = seq_min(s.drop_last());
        if s.last() < m {
            s.last()
        } else {
            m
        }
    }
}

/// The largest element of a non-empty sequence (zero for an empty one).
pub open spec fn seq_max(s: Seq<int>) -> int
    decreases s.len(),
{
    if s.len() == 0 {
        0
    } else if s.len() == 1 {
        s[0]
    } else {
        let m = seq_max(s.drop_last());
        if s.last() > m {
            s.last()
        } else {
            m
        }
    }
}

/// The in-memory cache of the log.  The backing file itself stays with the
/// caller, who reads it before a reload and writes each appended line.
pub struct State {
    pub data: Vec<Record>,
}

/// How many of the most recent records the index view shows.
pub open spec fn view_bound() -> int {
    7
}

/// The most recent records, newest first, at most `view_bound` of them.
pub open spec fn recent_rows(rs: Seq<(Seq<u8>, int)>) -> Seq<(Seq<u8>, int)> {
    let count = if rs.len() < view_bound() {
        rs.len() as int
    } else {
        view_bound()
    };
    Seq::new(count as nat, |i: int| rs[rs.len() - 1 - i])
}

/// The index view is bounded and reverse-chronological: it has one row
/// per record up to `view_bound` of them, and row `i` is the `i`-th most
/// recent record.
pub proof fn lemma_recent_rows(rs: Seq<(Seq<u8>, int)>)
    ensures
        recent_rows(rs).len() == if rs.len() < view_bound() {
            rs.len() as int
        } else {
            view_bound()
        },
        forall|i: int|
            0 <= i < recent_rows(rs).len() ==> #[trigger] recent_rows(rs)[i] == rs[rs.len() - 1
                - i],
{
}

/// One table row: the date and the weight, one fractional digit.
pub open spec fn row_bytes(r: (Seq<u8>, int)) -> Seq<u8> {
    ("<tr><td>").spec_bytes() + r.0 + ("</td><td>").spec_bytes() + tenths_bytes(r.1)
        + ("</td></tr>").spec_bytes() + seq![10u8]
}

/// The rendered table: one row per shown record, in order.
pub open spec fn table_bytes(rs: Seq<(Seq<u8>, int)>) -> Seq<u8>
    decreases rs.len(),
{
    if rs.len() == 0 {
        Seq::empty()
    } else {
        table_bytes(rs.drop_last()) + row_bytes(rs.last())
    }
}

impl State {
    /// Every cached weight is storable: within `WEIGHT_LIMIT` of zero.
    pub open spec fn wf(&self) -> bool {
        forall|i: int|
            0 <= i < self.data@.len() ==> -WEIGHT_LIMIT <= (#[trigger] self.data@[i]).tenths
                <= WEIGHT_LIMIT
    }

    /// A cache with no records yet.
    pub fn new() -> (s: State)
        ensures
            s.data.deep_view() == Seq::<(Seq<u8>, int)>::empty(),
            s.wf(),
    {
        let s = State { data: Vec::new() };
        proof {
            assert(s.data.deep_view() =~= Seq::<(Seq<u8>, int)>::empty());
        }
        s
    }

    /// Discards the cache and rebuilds it from the full file contents.
    pub fn update(&mut self, contents: &Vec<u8>)
        ensures
            final(self).data.deep_view() == log_records(contents@),
            final(self).wf(),
    {
        self.data = parse_log(contents);
        proof {
            lemma_log_records_bounded(lines(contents@));
            assert forall|i: int| 0 <= i < self.data@.len() implies -WEIGHT_LIMIT <= (
            #[trigger] self.data@[i]).tenths <= WEIGHT_LIMIT by {
                assert(self.data.deep_view()[i] == self.data@[i]@);
            }
        }
    }

    /// Accepts a record into the cache and returns the line the caller
    /// must append, flushed, to the backing file before answering.  The
    /// date must be a single whitespace-free token and the weight
    /// storable, so that the written line reloads as exactly this record
    /// (`lemma_append_round_trip`).
    pub fn append(&mut self, date: Vec<u8>, tenths: i64) -> (line: Vec<u8>)
        requires
            wf_date_token(date@),
            -WEIGHT_LIMIT <= tenths <= WEIGHT_LIMIT,
        ensures
            line@ == record_line_bytes(date@, tenths as int),
            final(self).data.deep_view() == old(self).data.deep_view().push(
                (date@, tenths as int),
            ),
            old(self).wf() ==> final(self).wf(),
    {
        let mut line: Vec<u8> = Vec::new();
        append_bytes(&mut line, &date);
        line.push(32);
        let w = format_tenths(tenths);
        append_bytes(&mut line, &w);
        line.push(10);
        let ghost odv = self.data.deep_view();
        let ghost dv = date@;
        self.data.push(Record { date, tenths });
        proof {
            assert(self.data.deep_view() =~~= odv.push((dv, tenths as int)));
            assert(line@ =~= record_line_bytes(dv, tenths as int));
            if old(self).wf() {
                let ndv = self.data.deep_view();
                assert(ndv.len() == self.data@.len());
                assert(odv.len() == old(self).data@.len());
                assert forall|i: int| 0 <= i < self.data@.len() implies -WEIGHT_LIMIT <= (
                #[trigger] self.data@[i]).tenths <= WEIGHT_LIMIT by {
                    assert(ndv[i] == self.data@[i]@);
                    if i < odv.len() {
                        assert(odv[i] == old(self).data@[i]@);
                    }
                }
            }
        }
        line
    }

    /// The rows of the index view: the most recent records, newest first,
    /// at most seven of them.
    pub fn html_table(&self) -> (r: Vec<u8>)
        ensures
            r@ == table_bytes(recent_rows(self.data.deep_view())),
    {
        let ghost rows = recent_rows(self.data.deep_view());
        let len = self.data.len();
        let count = if len < 7 {
            len
        } else {
            7
        };
        let mut out: Vec<u8> = Vec::new();
        let mut i: usize = 0;
        proof {
            assert(rows.take(0) =~= Seq::<(Seq<u8>, int)>::empty());
        }
        while i < count
            invariant
                i <= count,
                count == rows.len(),
                count <= len,
                len == self.data@.len(),
                rows == recent_rows(self.data.deep_view()),
                forall|k: int| 0 <= k < rows.len() ==> #[trigger] rows[k] == self.data@[len - 1
                    - k]@,
                out@ == table_bytes(rows.take(i as int)),
            decreases count - i,
        {
            let rec = &self.data[len - 1 - i];
            append_str(&mut out, "<tr><td>");
            append_bytes(&mut out, &rec.date);
            append_str(&mut out, "</td><td>");
            let w = format_tenths(rec.tenths);
            append_bytes(&mut out, &w);
            append_str(&mut out, "</td></tr>");
            out.push(10);
            proof {
                assert(rows.take(i + 1).drop_last() =~= rows.take(i as int));
                assert(rows.take(i + 1).last() == rows[i as int]);
                assert(out@ =~= table_bytes(rows.take(i as int)) + row_bytes(rows[i as int]));
            }
            i = i + 1;
        }
        proof {
            assert(rows.take(count as int) =~= rows);
        }
        out
    }

    /// The smallest and largest stored weight, in tenths; `None` for both
    /// exactly when the log is empty.
    pub fn minmax(&self) -> (r: (Option<i64>, Option<i64>))
        ensures
            r.0 is Some <==> self.data@.len() > 0,
            r.1 is Some <==> self.data@.len() > 0,
            r.0 matches Some(mn) ==> {
                &&& mn == seq_min(weights_of(self.data.deep_view()))
                &&& exists|i: int|
                    0 <= i < self.data@.len() && (#[trigger] self.data@[i]).tenths == mn
                &&& forall|i: int|
                    0 <= i < self.data@.len() ==> mn <= (#[trigger] self.data@[i]).tenths
            },
            r.1 matches Some(mx) ==> {
                &&& mx == seq_max(weights_of(self.data.deep_view()))
                &&& exists|i: int|
                    0 <= i < self.data@.len() && (#[trigger] self.data@[i]).tenths == mx
                &&& forall|i: int|
                    0 <= i < self.data@.len() ==> (#[trigger] self.data@[i]).tenths <= mx
            },
    {
        let ghost ws = weights_of(self.data.deep_view());
        let len = self.data.len();
        if len == 0 {
            return (None, None);
        }
        let mut mn = self.data[0].tenths;
        let mut mx = self.data[0].tenths;
        let mut i: usize = 1;
        proof {
            assert(ws.len() == len);
            assert(forall|k: int|
                0 <= k < len ==> #[trigger] ws[k] == (#[trigger] self.data@[k]).tenths);
            assert(ws.take(1).len() == 1);
            assert(seq_min(ws.take(1)) == ws.take(1)[0]);
            assert(seq_max(ws.take(1)) == ws.take(1)[0]);
        }
        while i < len
            invariant
                1 <= i <= len,
                len == self.data@.len(),
                ws == weights_of(self.data.deep_view()),
                ws.len() == len,
                forall|k: int| 0 <= k < len ==> #[trigger] ws[k] == self.data@[k].tenths,
                mn == seq_min(ws.take(i as int)),
                mx == seq_max(ws.take(i as int)),
                exists|k: int| 0 <= k < i && (#[trigger] self.data@[k]).tenths == mn,
                exists|k: int| 0 <= k < i && (#[trigger] self.data@[k]).tenths == mx,
                forall|k: int| 0 <= k < i ==> mn <= (#[trigger] self.data@[k]).tenths,
                forall|k: int| 0 <= k < i ==> (#[trigger] self.data@[k]).tenths <= mx,
            decreases len - i,
        {
            let w = self.data[i].tenths;
            proof {
                assert(ws.take(i + 1).drop_last() =~= ws.take(i as int));
                assert(ws.take(i + 1).last() == ws[i as int]);
                assert(ws.take(i + 1).len() >= 2);
            }
            if w < mn {
                mn = w;
            }
            if w > mx {
                mx = w;
            }
            i = i + 1;
        }
        proof {
            assert(ws.take(len as int) =~= ws);
        }
        (Some(mn), Some(mx))
    }
}

} // verus!
