//! Reading requests from a byte stream.

use humphrey::http::{Method, RequestHeader};
use humphrey::request::{Request, RequestError};
use humphrey::stream::ByteSource;

struct MockStream {
    data: Vec<u8>,
    pos: usize,
}

impl MockStream {
    fn with_data(data: Vec<u8>) -> Self {
        Self { data, pos: 0 }
    }
}

impl ByteSource for MockStream {
    fn read_byte(&mut self) -> Option<u8> {
        if self.pos < self.data.len() {
            let b = self.data[self.pos];
            self.pos += 1;
            Some(b)
        } else {
            None
        }
    }
}

#[test]
fn test_request_from_stream() {
    let test_data = b"GET /testpath HTTP/1.1\r\nHost: localhost\r\n\r\n";
    let mut stream = MockStream::with_data(test_data.to_vec());
    let request = Request::from_stream(&mut stream, "1.2.3.4:5678", 65536);

    assert!(request.is_ok());

    let request = request.unwrap();
    let expected_uri: String = "/testpath".into();
    assert_eq!(request.method, Method::Get);
    assert_eq!(request.uri, expected_uri);
    assert_eq!(request.version, "HTTP/1.1");
    assert_eq!(request.content, None);
    assert_eq!(request.address.to_string(), "1.2.3.4:5678");

    let expected_headers: Vec<(RequestHeader, String)> =
        vec![(RequestHeader::Host, "localhost".to_string())];
    assert_eq!(request.headers, expected_headers);
}

#[test]
fn parse_request_with_body() {
    let data = b"POST /submit HTTP/1.1\r\nHost: x\r\nContent-Length: 5\r\n\r\nhello";
    let request = Request::parse(data, "1.2.3.4:5678").unwrap();
    assert_eq!(request.method, Method::Post);
    assert_eq!(request.uri, "/submit");
    assert_eq!(request.content, Some(b"hello".to_vec()));
}

#[test]
fn parse_request_zero_length_body() {
    let data = b"POST /x HTTP/1.1\r\nContent-Length: 0\r\n\r\n";
    let request = Request::parse(data, "a").unwrap();
    assert_eq!(request.content, None);
}

#[test]
fn parse_rejects_malformed_start_line() {
    let data = b"GET\r\n\r\n";
    assert_eq!(Request::parse(data, "a"), Err(RequestError::Request));
}

#[test]
fn parse_rejects_unknown_method() {
    let data = b"BREW /pot HTTP/1.1\r\n\r\n";
    assert_eq!(Request::parse(data, "a"), Err(RequestError::Unsupported));
}

#[test]
fn parse_reports_truncated_stream() {
    let data = b"GET /x HTTP/1.1\r\nHost: x";
    assert_eq!(Request::parse(data, "a"), Err(RequestError::Stream));
    let short_body = b"POST /x HTTP/1.1\r\nContent-Length: 9\r\n\r\nabc";
    assert_eq!(Request::parse(short_body, "a"), Err(RequestError::Stream));
}

#[test]
fn parse_rejects_bad_content_length() {
    let data = b"POST /x HTTP/1.1\r\nContent-Length: abc\r\n\r\n";
    assert_eq!(Request::parse(data, "a"), Err(RequestError::Request));
}

#[test]
fn parse_headers_are_case_insensitive_and_last_wins() {
    let data = b"GET / HTTP/1.1\r\nHOST: one\r\nhOsT: two\r\n\r\n";
    let request = Request::parse(data, "a").unwrap();
    assert_eq!(request.header(&RequestHeader::Host), Some("two".to_string()));
}

#[test]
fn roundtrip_parse_then_serialize_is_byte_identical() {
    let data: &[u8] = b"GET /a HTTP/1.1\r\nHost: x\r\nAccept: text/html\r\n\r\n";
    let request = Request::parse(data, "a").unwrap();
    assert_eq!(request.to_bytes(), data.to_vec());

    let with_body: &[u8] = b"POST /api HTTP/1.1\r\nHost: b\r\nContent-Length: 3\r\n\r\nxyz";
    let request = Request::parse(with_body, "a").unwrap();
    assert_eq!(request.to_bytes(), with_body.to_vec());
}
