use sonion_protocol::head::{find_header_end, parse_headers};
use sonion_protocol::ProtocolError;

#[test]
fn header_end_is_first_blank_line() {
    assert_eq!(find_header_end(b"A\r\n\r\nB\r\n\r\n"), Some(1));
    assert_eq!(find_header_end(b"\r\n\r\n"), Some(0));
    assert_eq!(find_header_end(b"A\r\nB\r\n"), None);
    assert_eq!(find_header_end(b""), None);
    assert_eq!(find_header_end(b"\r\n\r"), None);
}

#[test]
fn headers_are_trimmed_and_blank_lines_skipped() {
    let h = parse_headers(&["  Host :  a.son ", "", "X:y:z", "Empty:"]).unwrap();
    assert_eq!(
        h,
        vec![
            ("Host".to_string(), "a.son".to_string()),
            ("X".to_string(), "y:z".to_string()),
            ("Empty".to_string(), "".to_string()),
        ]
    );
}

#[test]
fn header_errors() {
    assert!(matches!(
        parse_headers(&["NoColon"]),
        Err(ProtocolError::InvalidHeader(ref l)) if l == "NoColon"
    ));
    assert!(matches!(
        parse_headers(&["  : v"]),
        Err(ProtocolError::InvalidHeader(ref l)) if l == "  : v"
    ));
    assert_eq!(parse_headers(&[]).unwrap(), Vec::new());
}
