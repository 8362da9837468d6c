use minimal_http_server::client::{
    body_when_unknown_request, dispatch, unknown_method_response, RequestKind,
};
use minimal_http_server::request::Request;
use minimal_http_server::response::{
    create_headers, get_content_type, response_body_when_has_error, Response, Status,
};
use minimal_http_server::storage::StorageError;

fn parsed(raw: &[u8]) -> Request {
    let buffer = raw.to_vec();
    let extra: Vec<u8> = Vec::new();
    Request::parse(&buffer, &extra).unwrap()
}

fn contains(haystack: &[u8], needle: &[u8]) -> bool {
    haystack.windows(needle.len()).any(|w| w == needle)
}

#[test]
fn status_reason_phrases() {
    assert_eq!(Status::Okay.as_str(), "200 OK");
    assert_eq!(Status::NotFound.as_str(), "404 Not Found");
    assert_eq!(Status::NotAllowed.as_str(), "405 Method Not Allowed");
}

#[test]
fn create_headers_holds_status_line_type_and_length() {
    let headers = create_headers("text/css", 6, "200 OK");
    assert_eq!(
        headers,
        vec![
            (b"HTTP/1.1 200 OK".to_vec(), Vec::new()),
            (b"Content-Type".to_vec(), b"text/css".to_vec()),
            (b"Content-Length".to_vec(), b"6".to_vec()),
        ]
    );
}

#[test]
fn create_headers_renders_length_in_decimal() {
    let headers = create_headers("text/html", 10240, "200 OK");
    assert_eq!(headers[2], (b"Content-Length".to_vec(), b"10240".to_vec()));
}

#[test]
fn content_type_table() {
    assert_eq!(get_content_type(b"/a.html"), "text/html");
    assert_eq!(get_content_type(b"/a.css"), "text/css");
    assert_eq!(get_content_type(b"/a.js"), "application/javascript");
    assert_eq!(get_content_type(b"/a.svg"), "image/svg+xml");
    assert_eq!(get_content_type(b"/a.png"), "image/png");
    assert_eq!(get_content_type(b"/a.jpg"), "image/jpeg");
    assert_eq!(get_content_type(b"/a.jpeg"), "image/jpeg");
    assert_eq!(get_content_type(b"/a.txt"), "text/html");
    assert_eq!(get_content_type(b"/nodot"), "text/html");
    assert_eq!(get_content_type(b"/multi.part.css"), "text/css");
}

#[test]
fn get_of_css_file_serializes_exactly() {
    let req = parsed(b"GET /style.css HTTP/1.1\r\n\r\n");
    let resp = Response::create_response(&req, Ok(b"body{}".to_vec()));
    let wire = resp.as_bytes();
    assert_eq!(
        wire,
        b"HTTP/1.1 200 OK\r\nContent-Type: text/css\r\nContent-Length: 6\r\n\r\nbody{}".to_vec()
    );
}

#[test]
fn get_of_missing_file_yields_not_found_page() {
    let req = parsed(b"GET /missing.html HTTP/1.1\r\n\r\n");
    let resp = Response::create_response(&req, Err(StorageError::Io));
    let wire = resp.as_bytes();
    assert!(wire.starts_with(b"HTTP/1.1 404 Not Found\r\n"));
    assert!(contains(&wire, b"Content-Type: text/html\r\n"));
    assert!(contains(&wire, b"404 Not Found"));
    assert!(contains(&wire, b"<html"));
}

#[test]
fn rejected_name_yields_not_found_page_too() {
    let req = parsed(b"GET /evil.exe HTTP/1.1\r\n\r\n");
    let resp = Response::create_response(&req, Err(StorageError::InvalidName));
    let wire = resp.as_bytes();
    assert!(wire.starts_with(b"HTTP/1.1 404 Not Found\r\n"));
    assert!(contains(&wire, b"Content-Type: text/html\r\n"));
}

#[test]
fn error_page_embeds_the_reason_phrase() {
    let page = response_body_when_has_error("404 Not Found");
    assert!(page.contains("<h2>404 Not Found</h2>"));
    assert!(page.contains("<!DOCTYPE html>"));
}

#[test]
fn serialization_always_ends_headers_with_blank_line() {
    let resp = Response::new(
        vec![(b"HTTP/1.1 200 OK".to_vec(), Vec::new())],
        Vec::new(),
    );
    assert_eq!(resp.as_bytes(), b"HTTP/1.1 200 OK\r\n\r\n".to_vec());
}

#[test]
fn empty_header_value_omits_the_separator() {
    let resp = Response::new(
        vec![
            (b"HTTP/1.1 200 OK".to_vec(), Vec::new()),
            (b"X".to_vec(), b"y".to_vec()),
        ],
        b"hi".to_vec(),
    );
    assert_eq!(resp.as_bytes(), b"HTTP/1.1 200 OK\r\nX: y\r\n\r\nhi".to_vec());
}

#[test]
fn dispatch_recognises_get_and_post_exactly() {
    assert_eq!(dispatch(b"GET"), RequestKind::Get);
    assert_eq!(dispatch(b"POST"), RequestKind::Post);
    assert_eq!(dispatch(b"get"), RequestKind::Unknown);
    assert_eq!(dispatch(b"DELETE"), RequestKind::Unknown);
    assert_eq!(dispatch(b"PUT"), RequestKind::Unknown);
    assert_eq!(dispatch(b""), RequestKind::Unknown);
}

#[test]
fn delete_method_yields_method_not_allowed() {
    let req = parsed(b"DELETE /a.html HTTP/1.1\r\n\r\n");
    assert_eq!(dispatch(&req.method), RequestKind::Unknown);
    let wire = unknown_method_response().as_bytes();
    assert!(wire.starts_with(b"HTTP/1.1 405 Method Not Allowed\r\n"));
    assert!(contains(&wire, b"Content-Type: text/html\r\n"));
    assert!(contains(&wire, b"<html"));
    assert!(contains(&wire, b"405 Method Not Allowed"));
}

#[test]
fn unknown_request_body_embeds_the_message() {
    let body = body_when_unknown_request("405 Method Not Allowed");
    assert!(contains(&body, b"<h2>405 Method Not Allowed</h2>"));
}
