use sonion_protocol::limits;
use sonion_protocol::response::parse_chunked_body;
use sonion_protocol::{ProtocolError, Response, Status};

const GOLDEN_200: &[u8] =
    b"SONION/1.0 200 ok\r\nContent-Type: text/html\r\nContent-Length: 13\r\n\r\nkonichiwa son";
const GOLDEN_404: &[u8] =
    b"SONION/1.0 404 not found\r\nContent-Length: 26\r\n\r\nidk whatchu talkin abt son";
const GOLDEN_CHUNKED: &[u8] = b"SONION/1.0 200 ok\r\nTransfer-Encoding: chunked\r\n\r\n4\r\nkoni\r\n9\r\nchiwa son\r\n0\r\n\r\n";

#[test]
fn parse_golden_200() {
    let resp = Response::parse(GOLDEN_200).unwrap();
    assert_eq!(resp.status, Status::OK);
    assert_eq!(resp.get_header("Content-Type"), Some("text/html"));
    assert_eq!(resp.body, b"konichiwa son");
}

#[test]
fn serialize_200_matches_golden() {
    let mut resp = Response::new(Status::OK, b"konichiwa son".to_vec());
    resp.set_header("Content-Type", "text/html");
    resp.headers = vec![
        ("Content-Type".into(), "text/html".into()),
        ("Content-Length".into(), "13".into()),
    ];
    assert_eq!(resp.serialize(), GOLDEN_200);
}

#[test]
fn parse_golden_404() {
    let resp = Response::parse(GOLDEN_404).unwrap();
    assert_eq!(resp.status, Status::NotFound);
    assert_eq!(resp.body, b"idk whatchu talkin abt son");
}

#[test]
fn serialize_404_matches_golden() {
    let mut resp = Response::new(Status::NotFound, b"idk whatchu talkin abt son".to_vec());
    resp.headers = vec![("Content-Length".into(), "26".into())];
    assert_eq!(resp.serialize(), GOLDEN_404);
}

#[test]
fn roundtrip_chunked() {
    let body = b"konichiwa son".to_vec();
    let mut resp = Response::new(Status::OK, body.clone());
    resp.set_header("Content-Type", "text/html");
    let bytes = resp.serialize_chunked(4);
    let parsed = Response::parse(&bytes).unwrap();
    assert!(parsed.is_chunked());
    assert_eq!(parsed.body, body);
}

#[test]
fn parse_golden_chunked() {
    let resp = Response::parse(GOLDEN_CHUNKED).unwrap();
    assert_eq!(resp.status, Status::OK);
    assert_eq!(resp.body, b"konichiwa son");
}

#[test]
fn rejects_bad_version() {
    assert!(Response::parse(b"HTTP/1.1 200 OK\r\n\r\n").is_err());
}

#[test]
fn rejects_unknown_status() {
    assert!(matches!(
        Response::parse(b"SONION/1.0 418 teapot\r\n\r\n"),
        Err(ProtocolError::InvalidStatus(418))
    ));
}

#[test]
fn rejects_truncated_body() {
    assert!(matches!(
        Response::parse(b"SONION/1.0 200 ok\r\nContent-Length: 100\r\n\r\nshort"),
        Err(ProtocolError::UnexpectedEof)
    ));
}

#[test]
fn chunked_encode_single_chunk() {
    let resp = Response::new(Status::OK, b"hello".to_vec());
    let wire = resp.serialize_chunked(1024);
    let wire_str = String::from_utf8(wire).unwrap();
    assert!(wire_str.contains("Transfer-Encoding: chunked"));
    assert!(!wire_str.contains("Content-Length"));
    assert!(wire_str.contains("5\r\nhello\r\n"));
    assert!(wire_str.ends_with("0\r\n\r\n"));
}

#[test]
fn chunked_encode_multiple_chunks() {
    let resp = Response::new(Status::OK, b"abcdefgh".to_vec());
    let wire = resp.serialize_chunked(3);
    let wire_str = String::from_utf8(wire).unwrap();
    assert!(wire_str.contains("3\r\nabc\r\n"));
    assert!(wire_str.contains("3\r\ndef\r\n"));
    assert!(wire_str.contains("2\r\ngh\r\n"));
    assert!(wire_str.ends_with("0\r\n\r\n"));
}

#[test]
fn chunked_encode_empty_body() {
    let resp = Response::new(Status::OK, Vec::new());
    let wire = resp.serialize_chunked(64);
    let wire_str = String::from_utf8(wire).unwrap();
    assert!(wire_str.ends_with("0\r\n\r\n"));
}

#[test]
fn chunked_roundtrip() {
    let sent = Response::new(Status::OK, b"the quick brown fox".to_vec());
    let wire = sent.serialize_chunked(4);
    let parsed = Response::parse(&wire).expect("should parse");
    assert_eq!(parsed.status, Status::OK);
    assert!(parsed.is_chunked());
    assert_eq!(parsed.body, b"the quick brown fox");
}

#[test]
fn parse_rejects_oversized_body() {
    let mut resp = format!(
        "SONION/1.0 200 ok\r\nContent-Length: {}\r\n\r\n",
        limits::MAX_BODY + 1
    );
    resp.push_str(&"x".repeat(100));
    assert!(Response::parse(resp.as_bytes()).is_err());
}

#[test]
fn parse_rejects_bad_chunk_size() {
    let wire =
        b"SONION/1.0 200 ok\r\nTransfer-Encoding: chunked\r\n\r\nZZ\r\nhello\r\n0\r\n\r\n";
    assert!(Response::parse(wire).is_err());
}

#[test]
fn parse_rejects_truncated_chunk() {
    let wire = b"SONION/1.0 200 ok\r\nTransfer-Encoding: chunked\r\n\r\n5\r\nhel";
    assert!(Response::parse(wire).is_err());
}

#[test]
fn binary_body_roundtrip() {
    let body: Vec<u8> = (0..=255u8).cycle().take(4096).collect();
    let mut resp = Response::new(Status::OK, body.clone());
    resp.set_header("Content-Type", "image/png");
    assert_eq!(Response::parse(&resp.serialize()).unwrap().body, body);
    assert_eq!(
        Response::parse(&resp.serialize_chunked(777)).unwrap().body,
        body
    );
}

#[test]
fn parse_head_response_ignores_content_length() {
    let wire = b"SONION/1.0 200 ok\r\nContent-Type: text/html\r\nContent-Length: 13\r\n\r\n";
    let resp = Response::parse_head(wire).unwrap();
    assert_eq!(resp.status, Status::OK);
    assert_eq!(resp.get_header("Content-Length"), Some("13"));
    assert!(resp.body.is_empty());
}

#[test]
fn status_codes_and_reasons() {
    let all = [
        (Status::OK, 200, "ok"),
        (Status::MovedPermanently, 301, "moved permanently"),
        (Status::Found, 302, "found"),
        (Status::BadRequest, 400, "bad request"),
        (Status::NotFound, 404, "not found"),
        (Status::PayloadTooLarge, 413, "payload too large"),
        (Status::InternalServerError, 500, "internal server error"),
    ];
    for (s, code, reason) in all {
        assert_eq!(s.code(), code);
        assert_eq!(s.reason(), reason);
        assert_eq!(Status::from_code(code).unwrap(), s);
    }
    assert!(matches!(
        Status::from_code(201),
        Err(ProtocolError::InvalidStatus(201))
    ));
}

#[test]
fn new_sets_content_length() {
    let resp = Response::new(Status::OK, b"hello".to_vec());
    assert_eq!(
        resp.headers,
        vec![("Content-Length".to_string(), "5".to_string())]
    );
    let empty = Response::new(Status::NotFound, Vec::new());
    assert_eq!(empty.get_header("content-length"), Some("0"));
}

#[test]
fn set_header_replaces_all_case_insensitive() {
    let mut resp = Response::new(Status::OK, b"x".to_vec());
    resp.headers.push(("x-a".into(), "1".into()));
    resp.headers.push(("Other".into(), "2".into()));
    resp.headers.push(("X-A".into(), "3".into()));
    resp.set_header("X-a", "4");
    assert_eq!(
        resp.headers,
        vec![
            ("Content-Length".to_string(), "1".to_string()),
            ("Other".to_string(), "2".to_string()),
            ("X-a".to_string(), "4".to_string()),
        ]
    );
    assert_eq!(resp.get_header("x-A"), Some("4"));
    assert_eq!(resp.get_header("other"), Some("2"));
    assert_eq!(resp.get_header("missing"), None);
}

#[test]
fn get_header_first_match_wins() {
    let resp = Response::parse(
        b"SONION/1.0 200 ok\r\nX: first\r\nx: second\r\nContent-Length: 0\r\n\r\n",
    )
    .unwrap();
    assert_eq!(resp.get_header("X"), Some("first"));
}

#[test]
fn is_chunked_uses_first_transfer_encoding() {
    let mut resp = Response::new(Status::OK, Vec::new());
    assert!(!resp.is_chunked());
    resp.headers.push(("transfer-encoding".into(), "CHUNKED".into()));
    assert!(resp.is_chunked());
    resp.headers.insert(0, ("Transfer-Encoding".into(), "gzip".into()));
    assert!(!resp.is_chunked());
}

#[test]
fn serialize_head_leaves_body_out() {
    let resp = Response::new(Status::BadRequest, b"body".to_vec());
    assert_eq!(
        resp.serialize_head(),
        b"SONION/1.0 400 bad request\r\nContent-Length: 4\r\n\r\n".to_vec()
    );
}

#[test]
fn serialize_chunked_zero_size_uses_one() {
    let resp = Response::new(Status::OK, b"ab".to_vec());
    let wire = String::from_utf8(resp.serialize_chunked(0)).unwrap();
    assert_eq!(
        wire,
        "SONION/1.0 200 ok\r\nTransfer-Encoding: chunked\r\n\r\n1\r\na\r\n1\r\nb\r\n0\r\n\r\n"
    );
}

#[test]
fn chunk_sizes_are_lowercase_hex() {
    let body = vec![7u8; 300];
    let resp = Response::new(Status::OK, body.clone());
    let wire = resp.serialize_chunked(255);
    let text = String::from_utf8_lossy(&wire).into_owned();
    assert!(text.contains("\r\nff\r\n"));
    assert!(text.contains("\r\n2d\r\n"));
    assert_eq!(Response::parse(&wire).unwrap().body, body);
}

#[test]
fn parse_errors_name_their_cause() {
    assert!(matches!(
        Response::parse(b"SONION/1.0 200 ok\r\nContent-Length: 0x10\r\n\r\n"),
        Err(ProtocolError::InvalidHeader(ref s)) if s == "Content-Length"
    ));
    assert!(matches!(
        Response::parse(b"SONION/1.0 abc ok\r\n\r\n"),
        Err(ProtocolError::MalformedLine(ref s)) if s == "SONION/1.0 abc ok"
    ));
    assert!(matches!(
        Response::parse(b"SONION/2.0 200 ok\r\n\r\n"),
        Err(ProtocolError::MalformedLine(ref s)) if s == "bad version: SONION/2.0 200 ok"
    ));
    assert!(matches!(
        Response::parse(b"SONION/1.0 200 ok\r\n\xff\r\n\r\n"),
        Err(ProtocolError::MalformedLine(ref s)) if s == "non-utf8 head"
    ));
    assert!(matches!(
        Response::parse(b"SONION/1.0 200 ok\r\nTransfer-Encoding: chunked\r\n\r\n3\r\nabcXY0\r\n\r\n"),
        Err(ProtocolError::InvalidChunk(ref s)) if s == "missing CRLF after chunk"
    ));
    assert!(matches!(
        Response::parse(b"SONION/1.0 200 ok\r\nTransfer-Encoding: chunked\r\n\r\n\xff\r\n"),
        Err(ProtocolError::InvalidChunk(ref s)) if s == "non-utf8 size"
    ));
    let mut huge = String::from("SONION/1.0 200 ok\r\n");
    huge.push_str(&format!("X: {}\r\n\r\n", "a".repeat(20000)));
    assert!(matches!(
        Response::parse(huge.as_bytes()),
        Err(ProtocolError::HeadersTooLarge { max: 16384 })
    ));
}

#[test]
fn chunked_body_over_limit_rejected() {
    let wire = format!(
        "SONION/1.0 200 ok\r\nTransfer-Encoding: chunked\r\n\r\n{:x}\r\n",
        limits::MAX_BODY + 1
    );
    assert!(matches!(
        Response::parse(wire.as_bytes()),
        Err(ProtocolError::BodyTooLarge { .. })
    ));
}

#[test]
fn parse_chunked_body_directly() {
    assert_eq!(
        parse_chunked_body(b" 3 \r\nabc\r\n0\r\n\r\n").unwrap(),
        b"abc".to_vec()
    );
    assert!(matches!(
        parse_chunked_body(b"3\r\nabc\r\n"),
        Err(ProtocolError::UnexpectedEof)
    ));
}
