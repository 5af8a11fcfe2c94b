use weight_watcher::date::Date;
use weight_watcher::handlers::{index, not_found, weight, weight_on};
use weight_watcher::log::State;
use weight_watcher::response::Body;

fn a_date() -> Date {
    Date { year: 2024, month: 1, day: 2 }
}

#[test]
fn rejects_a_non_numeric_amount_with_not_found() {
    let mut state = State::new();
    let rep = weight_on(&b"amount=abc".to_vec(), &a_date(), &mut state);
    assert_eq!(rep.response.status, 404);
    assert!(rep.response.location.is_none());
    assert!(rep.line.is_none());
    assert!(state.data.is_empty());
}

#[test]
fn rejects_queries_without_exactly_one_pair() {
    let mut state = State::new();
    for q in ["", "amount", "a=b=c", "72.3"] {
        let rep = weight_on(&q.as_bytes().to_vec(), &a_date(), &mut state);
        assert_eq!(rep.response.status, 404);
        assert!(rep.line.is_none());
    }
    assert!(state.data.is_empty());
}

#[test]
fn rejects_a_bad_query_without_consulting_the_clock() {
    // Even where the local offset cannot be determined, a malformed
    // query is still answered with 404.
    let mut state = State::new();
    let rep = weight(&b"amount=abc".to_vec(), &mut state)
        .expect("a rejected query is answered without the clock");
    assert_eq!(rep.response.status, 404);
    assert!(rep.line.is_none());
    assert!(state.data.is_empty());
}

#[test]
fn accepts_a_numeric_amount_and_redirects_home() {
    let mut state = State::new();
    let rep = weight_on(&b"amount=72.3".to_vec(), &a_date(), &mut state);
    assert_eq!(rep.response.status, 303);
    assert_eq!(rep.response.location, Some("/"));
    // The line handed back is what must reach the file before the
    // response does.
    assert_eq!(rep.line, Some(b"2024-01-02 72.3\n".to_vec()));
    assert_eq!(state.data.len(), 1);
    assert_eq!(state.data[0].date, b"2024-01-02".to_vec());
    assert_eq!(state.data[0].tenths, 723);
}

#[test]
fn accepts_any_key_name_and_any_sign() {
    let mut state = State::new();
    let rep = weight_on(&b"x=-1".to_vec(), &a_date(), &mut state);
    assert_eq!(rep.response.status, 303);
    assert_eq!(rep.line, Some(b"2024-01-02 -1.0\n".to_vec()));
}

#[test]
fn index_substitutes_the_table_into_the_template() {
    let mut state = State::new();
    let contents = b"2024-01-01 72.3\n".to_vec();
    let template = b"<html>{{table}}</html>".to_vec();
    let r = index(&mut state, &contents, &template);
    assert_eq!(r.status, 200);
    assert!(r.location.is_none());
    match &r.body {
        Body::Bytes(b) => {
            assert_eq!(
                String::from_utf8(b.clone()).unwrap(),
                "<html><tr><td>2024-01-01</td><td>72.3</td></tr>\n</html>"
            );
        },
        Body::String(_) => panic!("expected a byte body"),
    }
    assert_eq!(state.data.len(), 1);
}

#[test]
fn index_reload_discards_the_stale_cache() {
    let mut state = State::new();
    state.append(b"1999-01-01".to_vec(), 1);
    let contents = b"2024-01-01 72.3\n".to_vec();
    let template = b"{{table}}".to_vec();
    index(&mut state, &contents, &template);
    assert_eq!(state.data.len(), 1);
    assert_eq!(state.data[0].date, b"2024-01-01".to_vec());
}

#[test]
fn not_found_carries_the_error_page() {
    let page = b"<html>error</html>".to_vec();
    let r = not_found(&page);
    assert_eq!(r.status, 404);
    match &r.body {
        Body::Bytes(b) => assert_eq!(b, &page),
        Body::String(_) => panic!("expected a byte body"),
    }
}
