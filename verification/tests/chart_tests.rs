use weight_watcher::chart::{chart_script_now, graph_script};
use weight_watcher::clock::today;
use weight_watcher::log::State;
use weight_watcher::replace::replace;

#[test]
fn replace_substitutes_every_occurrence() {
    let s = b"a {{t}} b {{t}} c".to_vec();
    let out = replace(&s, &b"{{t}}".to_vec(), &b"X".to_vec());
    assert_eq!(out, b"a X b X c".to_vec());
}

#[test]
fn replace_leaves_text_without_the_pattern_alone() {
    let s = b"plain text".to_vec();
    let out = replace(&s, &b"{{t}}".to_vec(), &b"X".to_vec());
    assert_eq!(out, s);
}

#[test]
fn replace_does_not_rescan_replacements() {
    let s = b"aaa".to_vec();
    let out = replace(&s, &b"aa".to_vec(), &b"a".to_vec());
    assert_eq!(out, b"aa".to_vec());
}

fn state_with(weights: &[i64]) -> State {
    let mut state = State::new();
    for (i, w) in weights.iter().enumerate() {
        let date = format!("2024-01-{:02}", i + 1).into_bytes();
        state.append(date, *w);
    }
    state
}

#[test]
fn clamps_the_value_axis_beyond_the_observed_range() {
    let state = state_with(&[600, 655, 582]);
    let template = b"plot {{name}} from {{date_start}} to {{date_end}}\n{{yrange}}\n".to_vec();
    let script = graph_script(
        &state,
        &template,
        &b"weights.dat".to_vec(),
        &b"2024-01-01".to_vec(),
        &b"2024-01-30".to_vec(),
    );
    assert_eq!(
        String::from_utf8(script).unwrap(),
        "plot weights.dat from 2024-01-01 to 2024-01-30\nset yrange [53.2:70.5]\n"
    );
}

#[test]
fn applies_no_clamp_to_an_empty_log() {
    let state = State::new();
    let template = b"{{name}}|{{date_start}}|{{date_end}}|{{yrange}}|".to_vec();
    let script = graph_script(
        &state,
        &template,
        &b"w.dat".to_vec(),
        &b"2024-01-01".to_vec(),
        &b"2024-01-30".to_vec(),
    );
    assert_eq!(String::from_utf8(script).unwrap(), "w.dat|2024-01-01|2024-01-30||");
}

#[test]
fn the_clock_yields_calendar_dates() {
    // The local offset may be indeterminate here; when the clock does
    // answer, its parts must be a calendar date, not raw clock state.
    if let Some(d) = today() {
        assert!((1..=12).contains(&d.month));
        assert!((1..=31).contains(&d.day));
        assert!((-9999..=9999).contains(&d.year));
    }
}

#[test]
fn the_chart_window_substitutes_real_dates() {
    let state = state_with(&[600]);
    let template = b"from {{date_start}} to {{date_end}} {{yrange}}".to_vec();
    if let Some(script) = chart_script_now(&state, &template, &b"w.dat".to_vec()) {
        let text = String::from_utf8(script).unwrap();
        assert!(!text.contains("{{date_start}}"));
        assert!(!text.contains("{{date_end}}"));
        assert!(text.contains("set yrange [55.0:65.0]"));
    }
}
