use sonion_protocol::client::{chunked_complete, fetch_request};
use sonion_protocol::response::parse_chunked_body;
use sonion_protocol::server::{after_index_read, resolve_path, simple};
use sonion_protocol::{
    canonicalize_path, decode_path, encode_path, Request, Response, SonionUrl, Status,
};

#[test]
fn built_request_reads_back() {
    let req = Request::head("/a/b.html")
        .header("Host", "hello.son")
        .header("Accept", "text/html");
    assert_eq!(Request::parse(&req.serialize()).unwrap(), req);
}

#[test]
fn built_response_reads_back() {
    let mut resp = Response::new(Status::Found, b"moved".to_vec());
    resp.set_header("Location", "/elsewhere");
    assert_eq!(Response::parse(&resp.serialize()).unwrap(), resp);
}

#[test]
fn chunked_serialization_reads_back_with_chunked_framing() {
    let mut resp = Response::new(Status::OK, b"0123456789".to_vec());
    resp.set_header("X-Keep", "yes");
    resp.headers.push(("transfer-encoding".into(), "gzip".into()));
    let parsed = Response::parse(&resp.serialize_chunked(3)).unwrap();
    assert_eq!(parsed.status, Status::OK);
    assert_eq!(parsed.body, b"0123456789");
    assert_eq!(
        parsed.headers,
        vec![
            ("X-Keep".to_string(), "yes".to_string()),
            ("Transfer-Encoding".to_string(), "chunked".to_string()),
        ]
    );
}

#[test]
fn parsed_response_reserializes_to_same_value() {
    let wire = b"SONION/1.0 301 whatever\r\n  Location :  /x  \r\nContent-Length: 2\r\n\r\nokTRAILING";
    let resp = Response::parse(wire).unwrap();
    assert_eq!(Response::parse(&resp.serialize()).unwrap(), resp);
}

#[test]
fn parsed_request_reserializes_to_same_value() {
    let wire = b"  GET\t /p   SONION/1.0 extra\r\nA:b\r\n\r\n";
    let req = Request::parse(wire).unwrap();
    assert_eq!(req.path, "/p");
    assert_eq!(Request::parse(&req.serialize()).unwrap(), req);
}

#[test]
fn set_then_get_header() {
    let mut resp = Response::new(Status::OK, Vec::new());
    resp.set_header("X-Mode", "a");
    resp.set_header("x-mode", "b");
    assert_eq!(resp.get_header("X-MODE"), Some("b"));
    assert_eq!(resp.get_header("Content-Length"), Some("0"));
}

#[test]
fn status_code_roundtrip() {
    for code in 0..=u16::MAX {
        if let Ok(s) = Status::from_code(code) {
            assert_eq!(s.code(), code);
        }
    }
}

#[test]
fn decode_encode_identity() {
    let s = "/ü ber/%41?&=#";
    assert_eq!(decode_path(&encode_path(s)).unwrap(), s);
}

#[test]
fn resolved_segments_are_plain() {
    let v = resolve_path("/a/./b%2F/c%20d/").unwrap();
    assert_eq!(v, vec!["a".to_string(), "b".to_string(), "c d".to_string()]);
    for s in &v {
        assert!(!s.is_empty() && s != "." && s != ".." && !s.contains('/'));
    }
}

#[test]
fn parsable_chunked_body_is_complete() {
    let body = b"4\r\nkoni\r\n9\r\nchiwa son\r\n0\r\n\r\n";
    assert!(parse_chunked_body(body).is_ok());
    assert_eq!(chunked_complete(body).unwrap(), true);
    for end in 0..body.len() {
        assert!(parse_chunked_body(&body[..end]).is_err());
    }
}

#[test]
fn server_responses_read_back() {
    let r = simple(Status::NotFound, b"not found");
    assert_eq!(Response::parse(&r.serialize()).unwrap(), r);
    let r = after_index_read(Some(b"<h1>hi</h1>".to_vec()));
    assert_eq!(Response::parse(&r.serialize()).unwrap(), r);
}

#[test]
fn accepted_requests_have_their_shape() {
    let wire = b"HEAD  /a%20b\tSONION/1.0 x\r\nK: v\r\n\r\nrest";
    let r = Request::parse(wire).unwrap();
    assert_eq!(r.method, "HEAD");
    assert!(r.path.starts_with('/') && !r.path.chars().any(char::is_whitespace));
    assert_eq!(r.headers, vec![("K".to_string(), "v".to_string())]);
    assert!(Request::parse(b"GET a SONION/1.0\r\n\r\n").is_err());
    assert!(Request::parse(b"PUT / SONION/1.0\r\n\r\n").is_err());
}

#[test]
fn canonical_paths_have_no_empty_segments() {
    for d in ["//a///b//", "/./a/../b//c", "/", "///", "/a/b"] {
        let c = canonicalize_path(d).unwrap();
        assert!(c.starts_with('/'));
        assert!(!c.contains("//"), "{d} -> {c}");
        assert_eq!(canonicalize_path(&c).unwrap(), c);
    }
}

#[test]
fn fetch_request_reads_back() {
    let url = SonionUrl::parse("sonion://hello.son/a b/\u{e9}").unwrap();
    let req = fetch_request(&url);
    assert_eq!(Request::parse(&req.serialize()).unwrap(), req);
}
