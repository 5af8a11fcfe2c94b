//! End-to-end paths through the library: request line in, wire bytes out.

use weight_watcher::date::Date;
use weight_watcher::handlers::{index, not_found, weight_on};
use weight_watcher::http::{parse_request_line, route, Route};
use weight_watcher::log::State;

fn target(line: &str) -> weight_watcher::http::RequestTarget {
    parse_request_line(&line.as_bytes().to_vec()).unwrap()
}

#[test]
fn an_unknown_path_is_answered_with_not_found_wire_bytes() {
    for line in ["GET /nope HTTP/1.1", "GET /nope?x=y HTTP/1.1"] {
        let t = target(line);
        assert_eq!(route(&t), Route::NotFound);
        let page = b"<html>missing</html>".to_vec();
        let bytes = not_found(&page).as_bytes();
        let text = String::from_utf8(bytes).unwrap();
        assert!(text.starts_with("HTTP/1.1 404 Not Found\r\n"));
        assert!(text.ends_with("\r\n\r\n<html>missing</html>"));
    }
}

#[test]
fn a_weight_submission_travels_from_request_line_to_redirect() {
    let t = target("GET /weight?amount=72.3 HTTP/1.1");
    assert_eq!(route(&t), Route::SubmitWeight);
    let mut state = State::new();
    let date = Date { year: 2024, month: 6, day: 30 };
    let rep = weight_on(&t.query.unwrap(), &date, &mut state);
    assert_eq!(rep.line, Some(b"2024-06-30 72.3\n".to_vec()));
    let bytes = rep.response.as_bytes();
    assert_eq!(bytes, b"HTTP/1.1 303 See Other\r\nLocation: /\r\n\r\n".to_vec());
}

#[test]
fn a_bad_amount_travels_from_request_line_to_not_found() {
    let t = target("GET /weight?amount=abc HTTP/1.1");
    assert_eq!(route(&t), Route::SubmitWeight);
    let mut state = State::new();
    let date = Date { year: 2024, month: 6, day: 30 };
    let rep = weight_on(&t.query.unwrap(), &date, &mut state);
    assert!(rep.line.is_none());
    let bytes = rep.response.as_bytes();
    assert_eq!(bytes, b"HTTP/1.1 404 Not Found\r\nContent-Type: text/html\r\n\r\n".to_vec());
}

#[test]
fn the_index_path_renders_the_reloaded_log() {
    let t = target("GET / HTTP/1.1");
    assert_eq!(route(&t), Route::Index);
    let mut state = State::new();
    let contents = b"2024-06-29 72.3\n2024-06-30 71.9\n".to_vec();
    let template = b"<table>{{table}}</table>".to_vec();
    let r = index(&mut state, &contents, &template);
    let text = String::from_utf8(r.as_bytes()).unwrap();
    assert!(text.starts_with("HTTP/1.1 200 OK\r\nContent-Type: text/html\r\n\r\n"));
    assert!(text.ends_with(
        "<table><tr><td>2024-06-30</td><td>71.9</td></tr>\n\
         <tr><td>2024-06-29</td><td>72.3</td></tr>\n</table>"
    ));
}
