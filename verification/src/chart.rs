//! The chart render bridge: the script handed to the external renderer.
//!
//! The script is a fixed template with an output name, a 28-day-lookback
//! date window, and — only when at least one record exists — a value-axis
//! range padded a fixed amount beyond the observed minimum and maximum.
//! The caller spawns the renderer and streams the finished script to it;
//! a failure there is logged and never reaches the response.

use vstd::prelude::*;

use crate::bytes::append_str;
use crate::clock::chart_window;
use crate::date::{date_bytes, day_number, format_date, Date};
use crate::decimal::{format_tenths, tenths_bytes, WEIGHT_LIMIT};
use crate::log::{seq_max, seq_min, weights_of, State};
use crate::replace::{replace, replace_bytes};
use vstd::string::StrSliceExecFns;
use vstd::string::StringSliceAdditionalSpecFns;

verus! {

/// How far, in tenths, the value axis is padded beyond the observed
/// minimum and maximum.
pub const WEIGHT_PAD: i64 = 50;

/// The value-axis clamp for an observed range `[mn, mx]`.
pub open spec fn yrange_bytes(mn: int, mx: int) -> Seq<u8> {
    ("set yrange [").spec_bytes() + tenths_bytes(mn - WEIGHT_PAD) + (":").spec_bytes()
        + tenths_bytes(mx + WEIGHT_PAD) + ("]").spec_bytes()
}

/// The value-axis clamp a record sequence calls for: none at all when it
/// is empty, the padded observed range otherwise.
pub open spec fn chart_yrange(rs: Seq<(Seq<u8>, int)>) -> Seq<u8> {
    if rs.len() == 0 {
        Seq::<u8>::empty()
    } else {
        yrange_bytes(seq_min(weights_of(rs)), seq_max(weights_of(rs)))
    }
}

/// The finished script: the template with its four placeholders filled,
/// in the order the placeholders are substituted.
pub open spec fn graph_script_bytes(
    template: Seq<u8>,
    name: Seq<u8>,
    date_start: Seq<u8>,
    date_end: Seq<u8>,
    yrange: Seq<u8>,
) -> Seq<u8> {
    replace_bytes(
        replace_bytes(
            replace_bytes(
                replace_bytes(template, ("{{name}}").spec_bytes(), name),
                ("{{date_start}}").spec_bytes(),
                date_start,
            ),
            ("{{date_end}}").spec_bytes(),
            date_end,
        ),
        ("{{yrange}}").spec_bytes(),
        yrange,
    )
}

/// Builds the renderer script for the given record state and date window.
pub fn graph_script(
    state: &State,
    template: &Vec<u8>,
    name: &Vec<u8>,
    date_start: &Vec<u8>,
    date_end: &Vec<u8>,
) -> (r: Vec<u8>)
    requires
        state.wf(),
    ensures
        r@ == graph_script_bytes(
            template@,
            name@,
            date_start@,
            date_end@,
            chart_yrange(state.data.deep_view()),
        ),
{
    let pat_name = "{{name}}".as_bytes_vec();
    let pat_start = "{{date_start}}".as_bytes_vec();
    let pat_end = "{{date_end}}".as_bytes_vec();
    let pat_yrange = "{{yrange}}".as_bytes_vec();
    let s1 = replace(template, &pat_name, name);
    let s2 = replace(&s1, &pat_start, date_start);
    let s3 = replace(&s2, &pat_end, date_end);
    let mut yrange: Vec<u8> = Vec::new();
    let (mn, mx) = state.minmax();
    if let (Some(mn), Some(mx)) = (mn, mx) {
        proof {
            let ghost dv = state.data.deep_view();
            assert(dv.len() == state.data@.len());
            let w = choose|i: int|
                0 <= i < state.data@.len() && (#[trigger] state.data@[i]).tenths == mn;
            assert(-WEIGHT_LIMIT <= state.data@[w].tenths <= WEIGHT_LIMIT);
            let x = choose|i: int|
                0 <= i < state.data@.len() && (#[trigger] state.data@[i]).tenths == mx;
            assert(-WEIGHT_LIMIT <= state.data@[x].tenths <= WEIGHT_LIMIT);
        }
        append_str(&mut yrange, "set yrange [");
        let lo = format_tenths(mn - WEIGHT_PAD);
        crate::bytes::append_bytes(&mut yrange, &lo);
        append_str(&mut yrange, ":");
        let hi = format_tenths(mx + WEIGHT_PAD);
        crate::bytes::append_bytes(&mut yrange, &hi);
        append_str(&mut yrange, "]");
        proof {
            assert(state.data.deep_view().len() == state.data@.len());
            assert(yrange@ =~= chart_yrange(state.data.deep_view()));
        }
    } else {
        proof {
            assert(state.data.deep_view().len() == state.data@.len());
            assert(yrange@ =~= chart_yrange(state.data.deep_view()));
        }
    }
    let r = replace(&s3, &pat_yrange, &yrange);
    r
}

/// Builds the renderer script for the window hung off today's local date
/// `t`: its start date lies exactly 28 days before `t` and its end date
/// exactly one day after, whatever the log holds; `None` when the clock
/// is unavailable.
pub fn chart_script_now(state: &State, template: &Vec<u8>, name: &Vec<u8>) -> (r: Option<Vec<u8>>)
    requires
        state.wf(),
    ensures
        r matches Some(s) ==> exists|t: Date, start: Date, end: Date|
            {
                &&& #[trigger] t.wf()
                &&& #[trigger] start.wf()
                &&& #[trigger] end.wf()
                &&& day_number(start) == day_number(t) - 28
                &&& day_number(end) == day_number(t) + 1
                &&& s@ == graph_script_bytes(
                    template@,
                    name@,
                    date_bytes(start),
                    date_bytes(end),
                    chart_yrange(state.data.deep_view()),
                )
            },
{
    match chart_window() {
        None => None,
        Some((start, end)) => {
            let ds = format_date(&start);
            let de = format_date(&end);
            let script = graph_script(state, template, name, &ds, &de);
            proof {
                let t0 = choose|t: Date|
                    {
                        &&& #[trigger] t.wf()
                        &&& start.wf()
                        &&& end.wf()
                        &&& day_number(start) == day_number(t) - 28
                        &&& day_number(end) == day_number(t) + 1
                    };
                assert(t0.wf() && start.wf() && end.wf() && day_number(start) == day_number(t0)
                    - 28 && day_number(end) == day_number(t0) + 1 && script@ == graph_script_bytes(
                    template@,
                    name@,
                    date_bytes(start),
                    date_bytes(end),
                    chart_yrange(state.data.deep_view()),
                ));
            }
            Some(script)
        },
    }
}

} // verus!
