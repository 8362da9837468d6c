use minimal_http_server::request::{required_body_bytes, ParseError, Request};
use minimal_http_server::text::parse_usize;

#[test]
fn parse_complete_get_request() {
    let buffer =
        b"GET /index.html HTTP/1.1\r\nHost: localhost\r\nContent-Length: 5\r\n\r\nhello".to_vec();
    let extra: Vec<u8> = Vec::new();
    assert_eq!(required_body_bytes(&buffer), Ok(0));
    let req = Request::parse(&buffer, &extra).unwrap();
    assert_eq!(req.method, b"GET".to_vec());
    assert_eq!(req.path, b"/index.html".to_vec());
    assert_eq!(req.version, b"HTTP/1.1".to_vec());
    assert_eq!(
        req.headers,
        vec![
            (b"Host".to_vec(), b"localhost".to_vec()),
            (b"Content-Length".to_vec(), b"5".to_vec()),
        ]
    );
    assert_eq!(req.body, b"hello".to_vec());
    assert_eq!(req.body.len(), 5);
}

#[test]
fn parse_body_split_across_reads() {
    let buffer = b"POST /u.png HTTP/1.1\r\nContent-Length: 10\r\n\r\n1234".to_vec();
    let need = required_body_bytes(&buffer).unwrap();
    assert_eq!(need, 6);
    let extra = b"567890".to_vec();
    let req = Request::parse(&buffer, &extra).unwrap();
    assert_eq!(req.method, b"POST".to_vec());
    assert_eq!(req.body, b"1234567890".to_vec());
}

#[test]
fn parse_fails_without_header_boundary() {
    let buffer = b"GET / HTTP/1.1\r\nHost: localhost\r\n".to_vec();
    let extra: Vec<u8> = Vec::new();
    assert_eq!(required_body_bytes(&buffer), Err(ParseError::InvalidRequest));
    assert!(Request::parse(&buffer, &extra).is_err());
}

#[test]
fn parse_fails_on_empty_stream() {
    let buffer: Vec<u8> = Vec::new();
    let extra: Vec<u8> = Vec::new();
    assert_eq!(Request::parse(&buffer, &extra).err(), Some(ParseError::InvalidRequest));
}

#[test]
fn malformed_header_lines_are_dropped() {
    let buffer =
        b"GET / HTTP/1.1\r\nNoSeparatorHere\r\nToo: many: parts\r\nGood: value\r\n\r\n".to_vec();
    let extra: Vec<u8> = Vec::new();
    let req = Request::parse(&buffer, &extra).unwrap();
    assert_eq!(req.headers, vec![(b"Good".to_vec(), b"value".to_vec())]);
}

#[test]
fn header_block_stops_at_blank_line() {
    let buffer = b"GET / HTTP/1.1\r\nA: 1\r\n\r\nB: 2\r\n\r\n".to_vec();
    let extra: Vec<u8> = Vec::new();
    let req = Request::parse(&buffer, &extra).unwrap();
    assert_eq!(req.headers, vec![(b"A".to_vec(), b"1".to_vec())]);
}

#[test]
fn content_length_key_is_case_insensitive() {
    let buffer = b"POST /a.js HTTP/1.1\r\ncOnTeNt-LeNgTh: 3\r\n\r\nabc".to_vec();
    let extra: Vec<u8> = Vec::new();
    let req = Request::parse(&buffer, &extra).unwrap();
    assert_eq!(req.body, b"abc".to_vec());
}

#[test]
fn unparsable_content_length_means_empty_body() {
    let buffer = b"POST /a.js HTTP/1.1\r\nContent-Length: abc\r\n\r\nxyz".to_vec();
    let extra: Vec<u8> = Vec::new();
    let req = Request::parse(&buffer, &extra).unwrap();
    assert_eq!(req.body, Vec::<u8>::new());
}

#[test]
fn missing_content_length_means_empty_body() {
    let buffer = b"GET /a.html HTTP/1.1\r\nHost: x\r\n\r\n".to_vec();
    let extra: Vec<u8> = Vec::new();
    let req = Request::parse(&buffer, &extra).unwrap();
    assert_eq!(req.body, Vec::<u8>::new());
}

#[test]
fn extra_bytes_beyond_content_length_are_discarded() {
    let buffer = b"POST /a.css HTTP/1.1\r\nContent-Length: 2\r\n\r\nabXTRA".to_vec();
    let extra: Vec<u8> = Vec::new();
    let req = Request::parse(&buffer, &extra).unwrap();
    assert_eq!(req.body, b"ab".to_vec());
}

#[test]
fn short_request_line_defaults_to_empty_fields() {
    let buffer = b"GET\r\n\r\n".to_vec();
    let extra: Vec<u8> = Vec::new();
    let req = Request::parse(&buffer, &extra).unwrap();
    assert_eq!(req.method, b"GET".to_vec());
    assert_eq!(req.path, Vec::<u8>::new());
    assert_eq!(req.version, Vec::<u8>::new());
}

#[test]
fn duplicate_headers_are_kept_in_order() {
    let buffer = b"GET / HTTP/1.1\r\nX: 1\r\nX: 2\r\n\r\n".to_vec();
    let extra: Vec<u8> = Vec::new();
    let req = Request::parse(&buffer, &extra).unwrap();
    assert_eq!(
        req.headers,
        vec![(b"X".to_vec(), b"1".to_vec()), (b"X".to_vec(), b"2".to_vec())]
    );
}

#[test]
fn parse_usize_accepts_digits_and_plus() {
    assert_eq!(parse_usize(b"42"), Some(42));
    assert_eq!(parse_usize(b"+42"), Some(42));
    assert_eq!(parse_usize(b"0"), Some(0));
}

#[test]
fn parse_usize_rejects_junk_and_overflow() {
    assert_eq!(parse_usize(b""), None);
    assert_eq!(parse_usize(b"+"), None);
    assert_eq!(parse_usize(b" 42"), None);
    assert_eq!(parse_usize(b"4a2"), None);
    assert_eq!(parse_usize(b"-42"), None);
    assert_eq!(parse_usize(b"99999999999999999999999999999999"), None);
}
