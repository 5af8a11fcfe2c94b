use weight_watcher::response::{Body, ContentType, Response};

#[test]
fn serializes_an_ok_response() {
    let bytes = Response::ok().as_bytes();
    assert_eq!(bytes, b"HTTP/1.1 200 OK\r\nContent-Type: text/html\r\n\r\n".to_vec());
}

#[test]
fn serializes_a_redirect_with_its_location() {
    let bytes = Response::redirect("/").as_bytes();
    assert_eq!(bytes, b"HTTP/1.1 303 See Other\r\nLocation: /\r\n\r\n".to_vec());
}

#[test]
fn serializes_a_not_found_response_with_a_body() {
    let bytes = Response::err().body(Body::String("gone".to_string())).as_bytes();
    assert_eq!(bytes, b"HTTP/1.1 404 Not Found\r\nContent-Type: text/html\r\n\r\ngone".to_vec());
}

#[test]
fn serializes_binary_bodies_byte_for_byte() {
    let png = vec![137u8, 80, 78, 71, 0, 255];
    let bytes = Response::ok().content_type(ContentType::Png).body(Body::Bytes(png.clone()))
        .as_bytes();
    let mut expected = b"HTTP/1.1 200 OK\r\nContent-Type: image/png\r\n\r\n".to_vec();
    expected.extend_from_slice(&png);
    assert_eq!(bytes, expected);
}

#[test]
fn reason_phrases_match_statuses() {
    assert_eq!(Response::ok().reason(), "OK");
    assert_eq!(Response::redirect("/").reason(), "See Other");
    assert_eq!(Response::err().reason(), "Not Found");
}

#[test]
fn mime_names() {
    assert_eq!(ContentType::Html.mime(), "text/html");
    assert_eq!(ContentType::Png.mime(), "image/png");
}
