use sonion_protocol::{canonicalize_path, decode_path, encode_path, ProtocolError, SonionUrl};

#[test]
fn default_port_is_6767() {
    let u = SonionUrl::parse("sonion://hello.son/").unwrap();
    assert_eq!(u.port, 6767);
    assert_eq!(u.host, "hello.son");
    assert_eq!(u.path, "/");
}

#[test]
fn explicit_port_and_path() {
    let u = SonionUrl::parse("sonion://localhost:8080/app.js").unwrap();
    assert_eq!(u.port, 8080);
    assert_eq!(u.path, "/app.js");
}

#[test]
fn no_path_defaults_to_root() {
    assert_eq!(SonionUrl::parse("sonion://a.son").unwrap().path, "/");
}

#[test]
fn rejects_wrong_scheme() {
    assert!(SonionUrl::parse("https://a.son/").is_err());
}

#[test]
fn rejects_bad_port() {
    assert!(SonionUrl::parse("sonion://a.son:nope/").is_err());
    assert!(SonionUrl::parse("sonion://a.son:99999/").is_err());
}

#[test]
fn decodes_percent_escapes() {
    let u = SonionUrl::parse("sonion://a.son/my%20file%2Etxt").unwrap();
    assert_eq!(u.path, "/my file.txt");
}

#[test]
fn encoded_path_roundtrips() {
    let u = SonionUrl::parse("sonion://a.son/a%20b/c%25d").unwrap();
    assert_eq!(u.path, "/a b/c%d");
    assert_eq!(u.encoded_path(), "/a%20b/c%25d");
}

#[test]
fn rejects_bad_escapes() {
    assert!(decode_path("/%").is_err());
    assert!(decode_path("/%2").is_err());
    assert!(decode_path("/%zz").is_err());
    assert!(decode_path("/%ff%ff").is_err());
}

#[test]
fn resolves_dot_segments() {
    assert_eq!(canonicalize_path("/a/./b/../c").unwrap(), "/a/c");
    assert_eq!(canonicalize_path("/a/b/").unwrap(), "/a/b/");
    assert_eq!(canonicalize_path("/").unwrap(), "/");
}

#[test]
fn rejects_traversal_above_root() {
    assert!(canonicalize_path("/../etc/passwd").is_err());
    assert!(canonicalize_path("/a/../../etc/passwd").is_err());
}

#[test]
fn rejects_encoded_traversal() {
    assert!(SonionUrl::parse("sonion://a.son/%2e%2e%2fetc/passwd").is_err());
}

#[test]
fn keeps_traversal_within_root() {
    assert_eq!(canonicalize_path("/a/b/../c").unwrap(), "/a/c");
}

#[test]
fn url_error_messages() {
    assert!(matches!(
        SonionUrl::parse("http://x/"),
        Err(ProtocolError::InvalidUrl(ref m)) if m == "missing scheme: http://x/"
    ));
    assert!(matches!(
        SonionUrl::parse("sonion:///a"),
        Err(ProtocolError::InvalidUrl(ref m)) if m == "empty host"
    ));
    assert!(matches!(
        SonionUrl::parse("sonion://:80/a"),
        Err(ProtocolError::InvalidUrl(ref m)) if m == "empty host"
    ));
    assert!(matches!(
        SonionUrl::parse("sonion://h:7x/"),
        Err(ProtocolError::InvalidUrl(ref m)) if m == "bad port: 7x"
    ));
    assert!(matches!(
        decode_path("/a%"),
        Err(ProtocolError::InvalidUrl(ref m)) if m == "truncated % escape in: /a%"
    ));
    assert!(matches!(
        decode_path("/%g1"),
        Err(ProtocolError::InvalidUrl(ref m)) if m == "bad % escape %g1 in: /%g1"
    ));
    assert!(matches!(
        decode_path("/%C3"),
        Err(ProtocolError::InvalidUrl(ref m)) if m == "non-utf8 path: /%C3"
    ));
    assert!(matches!(
        canonicalize_path("a/b"),
        Err(ProtocolError::InvalidUrl(ref m)) if m == "path must start with '/': a/b"
    ));
    assert!(matches!(
        canonicalize_path("/.."),
        Err(ProtocolError::InvalidUrl(ref m)) if m == "path escapes root: /.."
    ));
}

#[test]
fn host_with_colons_splits_at_last() {
    let u = SonionUrl::parse("sonion://a:b:99/x").unwrap();
    assert_eq!(u.host, "a:b");
    assert_eq!(u.port, 99);
    assert_eq!(u.path, "/x");
}

#[test]
fn encode_path_escapes_reserved_and_multibyte() {
    assert_eq!(encode_path("/a b~c"), "/a%20b~c");
    assert_eq!(encode_path("/é"), "/%C3%A9");
    assert_eq!(encode_path("/-._~AZaz09"), "/-._~AZaz09");
    assert_eq!(encode_path("?#%"), "%3F%23%25");
}

#[test]
fn decode_of_encode_is_identity() {
    for s in ["/", "/a b/c%d", "/é/ü?x=1#y", "", "/%00", "/\u{1F600}"] {
        assert_eq!(decode_path(&encode_path(s)).unwrap(), s);
    }
}

#[test]
fn decode_keeps_plus_and_mixed_case_hex() {
    assert_eq!(decode_path("/a+b%2a%2A").unwrap(), "/a+b**");
}

#[test]
fn canonicalize_drops_empty_segments() {
    assert_eq!(canonicalize_path("//a//b").unwrap(), "/a/b");
    assert_eq!(canonicalize_path("/a/..").unwrap(), "/");
    assert_eq!(canonicalize_path("/a/../").unwrap(), "/");
    assert_eq!(canonicalize_path("/.").unwrap(), "/");
}

#[test]
fn default_url() {
    let u = SonionUrl::default();
    assert_eq!(u.host, "");
    assert_eq!(u.port, 6767);
    assert_eq!(u.path, "/");
}
