use minimal_http_server::request::{
    get_content_length, get_final_position_of_headers, parse_headers, parse_request_first_line,
    split_buffer, split_lines, ParseError,
};
use minimal_http_server::text::{decimal_bytes, trim};

#[test]
fn final_position_is_just_after_the_boundary() {
    assert_eq!(get_final_position_of_headers(b"GET /\r\n\r\nbody"), Some(9));
    assert_eq!(get_final_position_of_headers(b"\r\n\r\n"), Some(4));
    assert_eq!(get_final_position_of_headers(b"GET /\r\n"), None);
    assert_eq!(get_final_position_of_headers(b""), None);
}

#[test]
fn final_position_takes_the_first_boundary() {
    assert_eq!(get_final_position_of_headers(b"a\r\n\r\nb\r\n\r\n"), Some(5));
}

#[test]
fn split_buffer_keeps_boundary_with_the_head() {
    let (head, fragment) = split_buffer(b"A: 1\r\n\r\nrest").unwrap();
    assert_eq!(head, b"A: 1\r\n\r\n".to_vec());
    assert_eq!(fragment, b"rest".to_vec());
}

#[test]
fn split_buffer_fails_without_boundary() {
    assert_eq!(split_buffer(b"A: 1\r\n"), Err(ParseError::InvalidRequest));
}

#[test]
fn split_lines_strips_carriage_returns() {
    let lines = split_lines(b"GET / HTTP/1.1\r\nHost: x\r\n\r\n");
    assert_eq!(
        lines,
        vec![b"GET / HTTP/1.1".to_vec(), b"Host: x".to_vec(), Vec::new()]
    );
}

#[test]
fn split_lines_keeps_a_lone_carriage_return() {
    let lines = split_lines(b"a\rb\nlast");
    assert_eq!(lines, vec![b"a\rb".to_vec(), b"last".to_vec()]);
}

#[test]
fn request_first_line_splits_on_any_whitespace_run() {
    let (method, path, version) = parse_request_first_line(b"GET   /a.html\tHTTP/1.1");
    assert_eq!(method, b"GET".to_vec());
    assert_eq!(path, b"/a.html".to_vec());
    assert_eq!(version, b"HTTP/1.1".to_vec());
}

#[test]
fn request_first_line_defaults_missing_fields() {
    let (method, path, version) = parse_request_first_line(b"");
    assert_eq!(method, Vec::<u8>::new());
    assert_eq!(path, Vec::<u8>::new());
    assert_eq!(version, Vec::<u8>::new());
}

#[test]
fn parse_headers_skips_the_request_line() {
    let lines = vec![
        b"GET / HTTP/1.1".to_vec(),
        b"Host: x".to_vec(),
        b"Content-Length: 2".to_vec(),
        Vec::new(),
    ];
    let headers = parse_headers(&lines);
    assert_eq!(
        headers,
        vec![
            (b"Host".to_vec(), b"x".to_vec()),
            (b"Content-Length".to_vec(), b"2".to_vec()),
        ]
    );
}

#[test]
fn parse_headers_stops_at_a_line_of_whitespace() {
    let lines = vec![
        b"GET / HTTP/1.1".to_vec(),
        b"A: 1".to_vec(),
        b"  ".to_vec(),
        b"B: 2".to_vec(),
    ];
    assert_eq!(parse_headers(&lines), vec![(b"A".to_vec(), b"1".to_vec())]);
}

#[test]
fn content_length_takes_the_first_matching_header() {
    let headers = vec![
        (b"content-LENGTH".to_vec(), b"7".to_vec()),
        (b"Content-Length".to_vec(), b"9".to_vec()),
    ];
    assert_eq!(get_content_length(&headers), 7);
}

#[test]
fn content_length_of_first_match_unparsable_is_zero() {
    let headers = vec![
        (b"Content-Length".to_vec(), b"x".to_vec()),
        (b"Content-Length".to_vec(), b"9".to_vec()),
    ];
    assert_eq!(get_content_length(&headers), 0);
}

#[test]
fn decimal_bytes_renders_exactly() {
    assert_eq!(decimal_bytes(0), b"0".to_vec());
    assert_eq!(decimal_bytes(7), b"7".to_vec());
    assert_eq!(decimal_bytes(10), b"10".to_vec());
    assert_eq!(decimal_bytes(90210), b"90210".to_vec());
}

#[test]
fn trim_removes_surrounding_ascii_whitespace_only() {
    assert_eq!(trim(b"  a b \t\r\n"), b"a b".to_vec());
    assert_eq!(trim(b"\t\n "), Vec::<u8>::new());
    assert_eq!(trim(b"x"), b"x".to_vec());
}
