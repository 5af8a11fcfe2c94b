use weight_watcher::http::{parse_request_line, route, RequestError, RequestTarget, Route};

fn parse(line: &str) -> Result<RequestTarget, RequestError> {
    parse_request_line(&line.as_bytes().to_vec())
}

#[test]
fn parses_a_plain_request_line() {
    let t = parse("GET / HTTP/1.1").unwrap();
    assert_eq!(t.path, b"/".to_vec());
    assert!(t.query.is_none());
}

#[test]
fn splits_path_and_query_on_the_first_question_mark() {
    let t = parse("GET /weight?amount=72.3 HTTP/1.1").unwrap();
    assert_eq!(t.path, b"/weight".to_vec());
    assert_eq!(t.query, Some(b"amount=72.3".to_vec()));
}

#[test]
fn keeps_an_empty_query_present() {
    let t = parse("GET /weight? HTTP/1.1").unwrap();
    assert_eq!(t.path, b"/weight".to_vec());
    assert_eq!(t.query, Some(b"".to_vec()));
}

#[test]
fn rejects_field_counts_other_than_three() {
    assert!(matches!(parse("GET /"), Err(RequestError::BadFields)));
    assert!(matches!(parse(""), Err(RequestError::BadFields)));
    assert!(matches!(parse("GET / HTTP/1.1 extra"), Err(RequestError::BadFields)));
}

#[test]
fn rejects_more_than_one_question_mark() {
    assert!(matches!(parse("GET /a?b?c HTTP/1.1"), Err(RequestError::BadUrl)));
}

#[test]
fn ignores_the_method_field() {
    let t = parse("BREW / HTTP/1.1").unwrap();
    assert_eq!(t.path, b"/".to_vec());
}

fn route_str(path: &str, query: Option<&str>) -> Route {
    route(
        &RequestTarget {
            path: path.as_bytes().to_vec(),
            query: query.map(|q| q.as_bytes().to_vec()),
        },
    )
}

#[test]
fn routes_the_index_path() {
    assert_eq!(route_str("/", None), Route::Index);
    assert_eq!(route_str("/", Some("x=y")), Route::Index);
}

#[test]
fn routes_weight_submissions_only_with_a_query() {
    assert_eq!(route_str("/weight", Some("amount=72.3")), Route::SubmitWeight);
    assert_eq!(route_str("/weight", None), Route::NotFound);
}

#[test]
fn routes_unknown_paths_to_not_found() {
    assert_eq!(route_str("/nope", None), Route::NotFound);
    assert_eq!(route_str("/nope", Some("x=y")), Route::NotFound);
    assert_eq!(route_str("", None), Route::NotFound);
}
