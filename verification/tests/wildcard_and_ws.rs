//! The wildcard matcher against a dynamic-programming reference, the
//! response serialiser, and WebSocket framing.

use humphrey::http::{ResponseHeader, StatusCode};
use humphrey::response::Response;
use humphrey::stream::{ByteSink, ByteSource};
use humphrey::wildcard::wildcard_match;
use humphrey::ws::{Message, WebsocketStream, WebsocketError};

/// A table-filling reference for glob matching: `t[i][j]` says whether
/// the first `i` pattern characters match the first `j` input characters.
fn reference_match(pattern: &str, input: &str) -> bool {
    let p: Vec<char> = pattern.chars().collect();
    let s: Vec<char> = input.chars().collect();
    let mut t = vec![vec![false; s.len() + 1]; p.len() + 1];
    t[0][0] = true;
    for i in 1..=p.len() {
        for j in 0..=s.len() {
            t[i][j] = if p[i - 1] == '*' {
                t[i - 1][j] || (j > 0 && t[i][j - 1])
            } else {
                j > 0 && p[i - 1] == s[j - 1] && t[i - 1][j - 1]
            };
        }
    }
    t[p.len()][s.len()]
}

#[test]
fn wildcard_matches_common_route_patterns() {
    assert!(wildcard_match("/*", "/anything/at/all"));
    assert!(wildcard_match("/*", "/"));
    assert!(wildcard_match("/blog/*", "/blog/post-1"));
    assert!(!wildcard_match("/blog/*", "/about"));
    assert!(wildcard_match("/*.css", "/style/main.css"));
    assert!(!wildcard_match("/*.css", "/style/main.js"));
    assert!(wildcard_match("exact", "exact"));
    assert!(!wildcard_match("exact", "exactly"));
    assert!(wildcard_match("*", ""));
    assert!(!wildcard_match("", "x"));
}

#[test]
fn wildcard_agrees_with_the_reference_on_random_inputs() {
    let alphabet = ['a', 'b', '*', '/'];
    let mut seed: u64 = 0x9E3779B97F4A7C15;
    let mut next = move || {
        seed = seed.wrapping_mul(6364136223846793005).wrapping_add(1442695040888963407);
        seed >> 33
    };
    for _ in 0..300 {
        let plen = (next() % 7) as usize;
        let slen = (next() % 9) as usize;
        let pattern: String = (0..plen).map(|_| alphabet[(next() % 4) as usize]).collect();
        let input: String = (0..slen).map(|_| alphabet[(next() % 3) as usize]).collect();
        assert_eq!(
            wildcard_match(&pattern, &input),
            reference_match(&pattern, &input),
            "pattern {:?} input {:?}",
            pattern,
            input
        );
    }
}

#[test]
fn response_serialises_with_generated_headers() {
    let resp = Response::new(StatusCode::OK)
        .with_header(ResponseHeader::ContentType, "text/plain".to_string())
        .with_bytes(b"hi".to_vec())
        .with_generated_headers("D");
    let bytes = resp.try_to_bytes().unwrap();
    let expected = b"HTTP/1.1 200 OK\r\nContent-Type: text/plain\r\nConnection: close\r\nContent-Length: 2\r\nServer: humphrey\r\nDate: D\r\n\r\nhi";
    assert_eq!(bytes, expected.to_vec());
}

/// A transport made of two buffers: reads come from one, writes land in
/// the other.
struct Duplex {
    incoming: Vec<u8>,
    pos: usize,
    outgoing: Vec<u8>,
}

impl ByteSource for Duplex {
    fn read_byte(&mut self) -> Option<u8> {
        if self.pos < self.incoming.len() {
            let b = self.incoming[self.pos];
            self.pos += 1;
            Some(b)
        } else {
            None
        }
    }
}

impl ByteSink for Duplex {
    fn write_bytes(&mut self, bytes: &[u8]) -> bool {
        self.outgoing.extend_from_slice(bytes);
        true
    }
}

#[test]
fn message_framing_encodes_the_length() {
    let short = Message::new(b"hey".to_vec());
    assert_eq!(short.to_bytes(), vec![0x81, 3, b'h', b'e', b'y']);
    let medium = Message::new(vec![7u8; 300]);
    let bytes = medium.to_bytes();
    assert_eq!(&bytes[..4], &[0x81, 126, 1, 44]);
    assert_eq!(bytes.len(), 304);
}

#[test]
fn websocket_recv_unmasks_a_client_frame() {
    // A masked client text frame carrying "ab".
    let key = [1u8, 2, 3, 4];
    let frame = vec![0x81, 0x82, key[0], key[1], key[2], key[3], b'a' ^ key[0], b'b' ^ key[1]];
    let transport = Duplex { incoming: frame, pos: 0, outgoing: Vec::new() };
    let mut ws = WebsocketStream::new(transport);
    let msg = ws.recv().unwrap();
    assert_eq!(msg.payload, b"ab".to_vec());
}

#[test]
fn websocket_close_frame_marks_the_stream_closed() {
    let transport = Duplex { incoming: vec![0x88, 0x00], pos: 0, outgoing: Vec::new() };
    let mut ws = WebsocketStream::new(transport);
    let r = ws.recv();
    assert!(matches!(r, Err(WebsocketError::ConnectionClosed)));
    assert!(ws.closed);
}

#[test]
fn websocket_send_writes_the_frame() {
    let transport = Duplex { incoming: Vec::new(), pos: 0, outgoing: Vec::new() };
    let mut ws = WebsocketStream::new(transport);
    ws.send(Message::new(b"ok".to_vec())).unwrap();
    assert_eq!(ws.inner().outgoing, vec![0x81, 2, b'o', b'k']);
}

#[test]
fn websocket_explicit_close_writes_the_close_frame() {
    let transport = Duplex { incoming: Vec::new(), pos: 0, outgoing: Vec::new() };
    let mut ws = WebsocketStream::new(transport);
    ws.close();
    assert!(ws.closed);
    assert_eq!(ws.inner().outgoing, vec![0x88, 0x00]);
}
