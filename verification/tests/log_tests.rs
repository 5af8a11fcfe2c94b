use weight_watcher::log::{parse_log, State};

fn records(contents: &str) -> Vec<(Vec<u8>, i64)> {
    parse_log(&contents.as_bytes().to_vec())
        .into_iter()
        .map(|r| (r.date, r.tenths))
        .collect()
}

#[test]
fn reloads_well_formed_lines_in_file_order() {
    let rs = records("2024-01-01 72.3\n2024-01-02 71.9\n");
    assert_eq!(rs, vec![(b"2024-01-01".to_vec(), 723), (b"2024-01-02".to_vec(), 719)]);
}

#[test]
fn tolerates_malformed_lines() {
    // One well-formed line, one with three tokens, one with a
    // non-numeric second token: only the well-formed record survives.
    let rs = records("2024-01-01 72.3\n2024-01-02 71.9 extra\n2024-01-03 heavy\n");
    assert_eq!(rs, vec![(b"2024-01-01".to_vec(), 723)]);
}

#[test]
fn tolerates_blank_lines_and_extra_whitespace() {
    let rs = records("\n  \n2024-01-01   72.3\n");
    assert_eq!(rs, vec![(b"2024-01-01".to_vec(), 723)]);
    let rs = records("2024-01-01 72.3\r\n2024-01-02 71.9");
    assert_eq!(rs, vec![(b"2024-01-01".to_vec(), 723), (b"2024-01-02".to_vec(), 719)]);
}

#[test]
fn reload_is_idempotent() {
    let contents = b"2024-01-01 72.3\nbad line here\n2024-01-02 71.9\n".to_vec();
    let mut state = State::new();
    state.update(&contents);
    let first: Vec<(Vec<u8>, i64)> =
        state.data.iter().map(|r| (r.date.clone(), r.tenths)).collect();
    state.update(&contents);
    let second: Vec<(Vec<u8>, i64)> =
        state.data.iter().map(|r| (r.date.clone(), r.tenths)).collect();
    assert_eq!(first, second);
}

#[test]
fn append_then_reload_round_trips() {
    let mut contents = b"2024-01-01 72.3\n".to_vec();
    let mut state = State::new();
    state.update(&contents);
    let line = state.append(b"2024-01-02".to_vec(), 719);
    assert_eq!(line, b"2024-01-02 71.9\n".to_vec());
    contents.extend_from_slice(&line);
    let rs = parse_log(&contents);
    let last = rs.last().unwrap();
    assert_eq!(last.date, b"2024-01-02".to_vec());
    assert_eq!(last.tenths, 719);
    assert_eq!(rs.len(), 2);
}

#[test]
fn append_starts_from_empty_contents() {
    let mut state = State::new();
    let line = state.append(b"2024-06-30".to_vec(), -5);
    assert_eq!(line, b"2024-06-30 -0.5\n".to_vec());
    let rs = parse_log(&line);
    assert_eq!(rs.len(), 1);
    assert_eq!(rs[0].tenths, -5);
}

#[test]
fn html_table_shows_last_seven_newest_first() {
    let mut state = State::new();
    for day in 1..=10u32 {
        let date = format!("2024-01-{:02}", day).into_bytes();
        state.append(date, 700 + day as i64);
    }
    let table = String::from_utf8(state.html_table()).unwrap();
    let rows: Vec<&str> = table.lines().collect();
    assert_eq!(rows.len(), 7);
    assert_eq!(rows[0], "<tr><td>2024-01-10</td><td>71.0</td></tr>");
    assert_eq!(rows[1], "<tr><td>2024-01-09</td><td>70.9</td></tr>");
    assert_eq!(rows[6], "<tr><td>2024-01-04</td><td>70.4</td></tr>");
}

#[test]
fn html_table_shows_all_rows_when_fewer_than_seven() {
    let mut state = State::new();
    state.append(b"2024-01-01".to_vec(), 723);
    state.append(b"2024-01-02".to_vec(), 719);
    let table = String::from_utf8(state.html_table()).unwrap();
    assert_eq!(
        table,
        "<tr><td>2024-01-02</td><td>71.9</td></tr>\n<tr><td>2024-01-01</td><td>72.3</td></tr>\n"
    );
}

#[test]
fn minmax_of_records() {
    let mut state = State::new();
    for (i, w) in [600i64, 655, 582].iter().enumerate() {
        let date = format!("2024-01-{:02}", i + 1).into_bytes();
        state.append(date, *w);
    }
    assert_eq!(state.minmax(), (Some(582), Some(655)));
}

#[test]
fn minmax_of_empty_log() {
    let state = State::new();
    assert_eq!(state.minmax(), (None, None));
}
