use sonion_protocol::server::{
    after_file_read, after_index_read, conn_step, file_segments, looks_like_file,
    resolve_or_reject, resolve_path, served_file, simple, size_check, wire_bytes, AfterRead,
    ConnStep, FileRead, CHUNK_SIZE, CHUNK_THRESHOLD, MAX_REQUEST_HEAD,
};
use sonion_protocol::{Request, Response, Status};

fn segs(v: &[&str]) -> Vec<String> {
    v.iter().map(|s| s.to_string()).collect()
}

#[test]
fn resolve_path_segments() {
    assert_eq!(resolve_path("/"), Some(vec![]));
    assert_eq!(resolve_path("/a/./b//c"), Some(segs(&["a", "b", "c"])));
    assert_eq!(resolve_path("/my%20file.txt"), Some(segs(&["my file.txt"])));
    assert_eq!(resolve_path("/%252e%252e"), Some(segs(&["%2e%2e"])));
    assert_eq!(resolve_path("/a\\b.txt"), Some(segs(&["a\\b.txt"])));
    assert_eq!(resolve_path("/x/%5c..z"), Some(segs(&["x", "\\..z"])));
}

#[test]
fn resolve_path_refuses_traversal() {
    for path in [
        "/../secret.txt",
        "/%2e%2e/secret.txt",
        "/..%2fsecret.txt",
        "/..\\secret.txt",
        "/%2e%2e%5csecret.txt",
        "/a\\..\\b",
        "/..\\",
        "/a/../b",
        "/c:/x",
        "/%00index.html",
        "/%zz",
    ] {
        assert_eq!(resolve_path(path), None, "path: {path}");
        match resolve_or_reject(path) {
            Err(resp) => {
                assert_eq!(resp.status, Status::BadRequest);
                assert_eq!(resp.body, b"invalid path");
                assert_eq!(resp.get_header("Content-Type"), Some("text/plain"));
            }
            Ok(v) => panic!("{path} resolved to {v:?}"),
        }
    }
}

#[test]
fn simple_response_shape() {
    let r = simple(Status::NotFound, b"not found");
    assert_eq!(
        r.serialize(),
        b"SONION/1.0 404 not found\r\nContent-Length: 9\r\nContent-Type: text/plain\r\n\r\nnot found"
            .to_vec()
    );
}

#[test]
fn served_file_media_types() {
    let r = served_file("index.html", b"<h1>x</h1>".to_vec());
    assert_eq!(r.status, Status::OK);
    assert_eq!(r.get_header("Content-Type"), Some("text/html"));
    assert_eq!(r.get_header("Content-Length"), Some("10"));
    assert!(served_file("style.css", Vec::new())
        .get_header("Content-Type")
        .unwrap()
        .contains("css"));
    assert!(served_file("app.js", Vec::new())
        .get_header("Content-Type")
        .unwrap()
        .contains("javascript"));
    assert_eq!(
        served_file("data.json", Vec::new()).get_header("Content-Type"),
        Some("application/json")
    );
    assert_eq!(
        served_file("logo.png", Vec::new()).get_header("Content-Type"),
        Some("image/png")
    );
    assert_eq!(
        served_file("big.bin", Vec::new()).get_header("Content-Type"),
        Some("application/octet-stream")
    );
    assert_eq!(
        served_file("README", Vec::new()).get_header("Content-Type"),
        Some("application/octet-stream")
    );
}

#[test]
fn looks_like_file_checks_last_segment() {
    assert!(looks_like_file("/nope.txt"));
    assert!(looks_like_file("/a/b.c"));
    assert!(!looks_like_file("/dashboard/settings"));
    assert!(!looks_like_file("/v1.2/settings"));
    assert!(!looks_like_file("/"));
    assert!(looks_like_file("x.y"));
}

#[test]
fn file_read_outcomes() {
    match after_file_read("/a.css", "a.css", FileRead::Found(b"b{}".to_vec())) {
        AfterRead::Respond(r) => {
            assert_eq!(r.status, Status::OK);
            assert_eq!(r.body, b"b{}");
        }
        AfterRead::TryIndex => panic!("should serve"),
    }
    match after_file_read("/nope.txt", "nope.txt", FileRead::Missing) {
        AfterRead::Respond(r) => {
            assert_eq!(r.status, Status::NotFound);
            assert_eq!(r.body, b"not found");
        }
        AfterRead::TryIndex => panic!("a file path gets 404"),
    }
    assert!(matches!(
        after_file_read("/dashboard/settings", "settings", FileRead::Missing),
        AfterRead::TryIndex
    ));
    match after_file_read("/x", "x", FileRead::Failed) {
        AfterRead::Respond(r) => {
            assert_eq!(r.status, Status::InternalServerError);
            assert_eq!(r.body, b"internal server error");
        }
        AfterRead::TryIndex => panic!("failure is 500"),
    }
}

#[test]
fn index_fallback() {
    let r = after_index_read(Some(b"<h1>konichiwa</h1>".to_vec()));
    assert_eq!(r.status, Status::OK);
    assert_eq!(r.get_header("Content-Type"), Some("text/html"));
    assert_eq!(r.body, b"<h1>konichiwa</h1>");
    let r = after_index_read(None);
    assert_eq!(r.status, Status::NotFound);
}

#[test]
fn directories_serve_index() {
    assert_eq!(
        file_segments(segs(&["docs"]), true),
        segs(&["docs", "index.html"])
    );
    assert_eq!(file_segments(segs(&["a.txt"]), false), segs(&["a.txt"]));
}

#[test]
fn size_limit() {
    assert!(size_check(true, 10 * 1024 * 1024).is_none());
    let r = size_check(true, 10 * 1024 * 1024 + 1).unwrap();
    assert_eq!(r.status, Status::PayloadTooLarge);
    assert_eq!(r.body, b"payload too large");
    assert!(size_check(false, u64::MAX).is_none());
}

#[test]
fn wire_choice() {
    let get = Request::get("/");
    let head = Request::head("/");
    let small = Response::new(Status::OK, vec![1u8; 10]);
    assert_eq!(wire_bytes(&get, &small), small.serialize());
    assert_eq!(wire_bytes(&head, &small), small.serialize_head());
    let at = Response::new(Status::OK, vec![2u8; CHUNK_THRESHOLD]);
    assert_eq!(wire_bytes(&get, &at), at.serialize());
    let big = Response::new(Status::OK, vec![3u8; CHUNK_THRESHOLD + 1]);
    assert_eq!(wire_bytes(&get, &big), big.serialize_chunked(CHUNK_SIZE));
    assert_eq!(wire_bytes(&head, &big), big.serialize_head());
}

#[test]
fn connection_steps() {
    assert!(matches!(conn_step(b"GET / SONION/1.0\r\n"), ConnStep::ReadMore));
    match conn_step(b"GET /x SONION/1.0\r\nHost: h\r\n\r\n") {
        ConnStep::Serve(r) => {
            assert_eq!(r.path, "/x");
            assert_eq!(r.headers, vec![("Host".to_string(), "h".to_string())]);
        }
        _ => panic!("should serve"),
    }
    match conn_step(b"GARBAGE LINE\r\n\r\n") {
        ConnStep::Malformed(w) => {
            assert!(w.starts_with(b"SONION/1.0 400 bad request\r\n"));
            assert!(w.ends_with(b"\r\n\r\nbad request"));
        }
        _ => panic!("should refuse"),
    }
    let long = vec![b'a'; MAX_REQUEST_HEAD + 1];
    match conn_step(&long) {
        ConnStep::TooLarge(w) => assert!(w.ends_with(b"request head too large")),
        _ => panic!("should refuse"),
    }
    let at_limit = vec![b'a'; MAX_REQUEST_HEAD];
    assert!(matches!(conn_step(&at_limit), ConnStep::ReadMore));
}
