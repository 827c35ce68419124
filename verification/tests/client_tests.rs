use sonion_protocol::client::{
    alpn_matches, body_complete, check_alpn, chunked_complete, fetch_request, head_framing,
    next_action, starts_body, Framing, RecvAction, RecvPhase,
};
use sonion_protocol::{ClientError, ProtocolError, Request, Response, SonionUrl, Status};

#[test]
fn head_framing_by_length_and_chunks() {
    let buf = b"SONION/1.0 200 ok\r\nContent-Length: 5\r\n\r\nhel";
    assert_eq!(head_framing(buf), Some((40, Framing::ContentLength(5))));
    let buf = b"SONION/1.0 200 ok\r\nTransfer-Encoding:  Chunked \r\n\r\n";
    assert_eq!(head_framing(buf), Some((51, Framing::Chunked)));
    let buf = b"SONION/1.0 200 ok\r\nX: y\r\n\r\n";
    assert_eq!(head_framing(buf), Some((27, Framing::Empty)));
}

#[test]
fn head_framing_last_header_wins() {
    let buf = b"SONION/1.0 200 ok\r\nTransfer-Encoding: chunked\r\ncontent-length: 3\r\n\r\n";
    assert_eq!(head_framing(buf), Some((68, Framing::ContentLength(3))));
    let buf = b"SONION/1.0 200 ok\r\nContent-Length: 3\r\nTransfer-Encoding: chunked\r\n\r\n";
    assert_eq!(head_framing(buf), Some((68, Framing::Chunked)));
}

#[test]
fn head_framing_refuses() {
    assert_eq!(head_framing(b"SONION/1.0 200 ok\r\n"), None);
    assert_eq!(
        head_framing(b"SONION/1.0 200 ok\r\nContent-Length: x\r\n\r\n"),
        None
    );
    assert_eq!(head_framing(b"SONION/1.0 200 ok\r\nnocolon\r\n\r\n"), None);
    assert_eq!(head_framing(b"SONION/1.0 200 ok\r\n\xff: a\r\n\r\n"), None);
}

#[test]
fn chunked_complete_steps() {
    assert_eq!(chunked_complete(b"").unwrap(), false);
    assert_eq!(chunked_complete(b"4\r\nkoni").unwrap(), false);
    assert_eq!(chunked_complete(b"4\r\nkoni\r\n0\r\n").unwrap(), false);
    assert_eq!(chunked_complete(b"4\r\nkoni\r\n0\r\n\r\n").unwrap(), true);
    assert!(matches!(
        chunked_complete(b"zz\r\n"),
        Err(ProtocolError::InvalidChunk(ref s)) if s == "zz"
    ));
    assert!(matches!(
        chunked_complete(b"\xff\r\n"),
        Err(ProtocolError::InvalidChunk(ref s)) if s == "non-utf8 size"
    ));
    assert!(matches!(
        chunked_complete(b"a00001\r\n"),
        Err(ProtocolError::BodyTooLarge { max: 10485760 })
    ));
}

#[test]
fn chunked_complete_counts_the_running_total() {
    let mut wire = Vec::new();
    for _ in 0..20 {
        wire.extend_from_slice(b"4000\r\n");
        wire.extend_from_slice(&[b'x'; 0x4000]);
        wire.extend_from_slice(b"\r\n");
    }
    wire.extend_from_slice(b"0\r\n\r\n");
    assert_eq!(chunked_complete(&wire).unwrap(), true);
}

#[test]
fn body_complete_per_framing() {
    let buf = b"0123456789";
    assert_eq!(body_complete(buf, 4, &Framing::Empty).unwrap(), true);
    assert_eq!(body_complete(buf, 4, &Framing::ContentLength(6)).unwrap(), true);
    assert_eq!(body_complete(buf, 4, &Framing::ContentLength(7)).unwrap(), false);
    assert_eq!(body_complete(buf, 11, &Framing::ContentLength(0)).unwrap(), false);
    assert_eq!(
        body_complete(b"xx0\r\n\r\n", 2, &Framing::Chunked).unwrap(),
        true
    );
}

#[test]
fn next_action_reads_until_complete() {
    let req = Request::get("/");
    let wire = {
        let mut r = Response::new(Status::OK, b"hello".to_vec());
        r.set_header("Content-Type", "text/plain");
        r.serialize()
    };
    let mut phase = RecvPhase::Head;
    let mut got = None;
    for end in 1..=wire.len() {
        match next_action(&req, &wire[..end], phase) {
            RecvAction::ReadMore(p) => phase = p,
            RecvAction::Finish(r) => {
                assert_eq!(end, wire.len());
                got = Some(r.unwrap());
                break;
            }
        }
    }
    let resp = got.expect("reply should complete");
    assert_eq!(resp.body, b"hello");
    assert_eq!(resp.get_header("content-type"), Some("text/plain"));
}

#[test]
fn next_action_head_request_ignores_body() {
    let req = Request::head("/");
    let wire = b"SONION/1.0 200 ok\r\nContent-Length: 13\r\n\r\n";
    match next_action(&req, wire, RecvPhase::Head) {
        RecvAction::Finish(Ok(resp)) => {
            assert!(resp.body.is_empty());
            assert_eq!(resp.get_header("Content-Length"), Some("13"));
        }
        other => panic!("unexpected {other:?}"),
    }
}

#[test]
fn next_action_chunked_reply() {
    let req = Request::get("/");
    let wire = Response::new(Status::OK, b"konichiwa son".to_vec()).serialize_chunked(4);
    let mut phase = RecvPhase::Head;
    let mut done = false;
    for end in 1..=wire.len() {
        match next_action(&req, &wire[..end], phase) {
            RecvAction::ReadMore(p) => phase = p,
            RecvAction::Finish(r) => {
                assert_eq!(end, wire.len());
                let resp = r.unwrap();
                assert!(resp.is_chunked());
                assert_eq!(resp.body, b"konichiwa son");
                done = true;
                break;
            }
        }
    }
    assert!(done);
}

#[test]
fn next_action_refusals() {
    let req = Request::get("/");
    let big = vec![b'a'; 64 + 16384 + 1];
    assert!(matches!(
        next_action(&req, &big, RecvPhase::Head),
        RecvAction::Finish(Err(ProtocolError::HeadersTooLarge { max: 16384 }))
    ));
    assert!(matches!(
        next_action(&req, b"SONION/1.0 200 ok\r\nbad\r\n\r\n", RecvPhase::Head),
        RecvAction::Finish(Err(ProtocolError::MalformedLine(ref m))) if m == "bad response head"
    ));
    assert!(matches!(
        next_action(&req, b"SONION/1.0 200 ok\r\n", RecvPhase::Head),
        RecvAction::ReadMore(RecvPhase::Head)
    ));
    let huge = vec![b'a'; 64 + 16384 + 10485760 + 1];
    assert!(matches!(
        next_action(&req, &huge, RecvPhase::Body(0, Framing::ContentLength(usize::MAX))),
        RecvAction::Finish(Err(ProtocolError::BodyTooLarge { .. }))
    ));
    assert!(matches!(
        next_action(&req, b"SONION/1.0 999 x\r\n\r\n", RecvPhase::Head),
        RecvAction::Finish(Err(ProtocolError::InvalidStatus(999)))
    ));
}

#[test]
fn fetch_request_shape() {
    let url = SonionUrl::parse("sonion://hello.son:7000/a b/c").unwrap();
    let req = fetch_request(&url);
    assert_eq!(req.method, "GET");
    assert_eq!(req.path, "/a%20b/c");
    assert_eq!(req.headers, vec![("Host".to_string(), "hello.son".to_string())]);
    assert_eq!(
        req.serialize(),
        b"GET /a%20b/c SONION/1.0\r\nHost: hello.son\r\n\r\n".to_vec()
    );
}

#[test]
fn alpn_checks() {
    assert!(alpn_matches(Some(b"sonion/1")));
    assert!(!alpn_matches(Some(b"sonion/2")));
    assert!(!alpn_matches(Some(b"sonion/10")));
    assert!(!alpn_matches(None));
    assert!(check_alpn(Some(b"sonion/1")).is_ok());
    match check_alpn(Some(b"http/1.1")) {
        Err(ClientError::AlpnMismatch(Some(s))) => assert_eq!(s, "http/1.1"),
        other => panic!("unexpected {other:?}"),
    }
    match check_alpn(Some(b"h\xff")) {
        Err(ClientError::AlpnMismatch(Some(s))) => assert_eq!(s, "h\u{FFFD}"),
        other => panic!("unexpected {other:?}"),
    }
    assert!(matches!(
        check_alpn(None),
        Err(ClientError::AlpnMismatch(None))
    ));
}

#[test]
fn body_phase_start() {
    let body = RecvPhase::Body(3, Framing::Empty);
    assert!(starts_body(RecvPhase::Head, body));
    assert!(!starts_body(RecvPhase::Head, RecvPhase::Head));
    assert!(!starts_body(body, body));
}
