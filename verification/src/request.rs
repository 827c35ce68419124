//! Requests: building, serialization and parsing.
use crate::error::{err_v, message, ok_v, ErrorView, ProtocolError};
use crate::head::{
    find_header_end, head_end_bytes, header_end, headers_view, parse_header_lines,
    spec_parse_headers, version_chars, version_vec, HeaderView,
};
use crate::limits::{MAX_HEADERS, MAX_REQUEST_LINE};
use crate::response::{header_text, push_chars, push_crlf};
use crate::text::{
    chars_eq, crlf, lemma_find_seq, lemma_split_crlf_first, lemma_split_crlf_nonempty, lines_view,
    next_word, split_crlf, split_crlf_chars, split_ws,
};
use crate::unicode::{
    decode_chars, encode_chars, lemma_encode_split, str_chars, string_from_chars, utf8_len,
};
use vstd::prelude::*;
use vstd::utf8::{decode_utf8, decode_utf8_encode_utf8, encode_utf8, valid_utf8};

verus! {

/// The mathematical value of a request.
pub struct RequestView {
    pub method: Seq<char>,
    pub path: Seq<char>,
    pub headers: Seq<HeaderView>,
}

/// A request: method, path, and headers in order.
#[derive(Debug, Clone, PartialEq, Eq)]
pub struct Request {
    pub method: String,
    pub path: String,
    pub headers: Vec<(String, String)>,
}

impl View for Request {
    type V = RequestView;

    open spec fn view(&self) -> RequestView {
        RequestView { method: self.method@, path: self.path@, headers: headers_view(self.headers@) }
    }
}

/// `GET`.
pub open spec fn get_word() -> Seq<char> {
    seq!['G', 'E', 'T']
}

/// `HEAD`.
pub open spec fn head_word() -> Seq<char> {
    seq!['H', 'E', 'A', 'D']
}

/// The head of a request as text: request line, header lines, empty line.
pub open spec fn request_head_text(r: RequestView) -> Seq<char> {
    r.method + seq![' '] + r.path + seq![' '] + version_chars() + crlf() + header_text(r.headers)
        + crlf()
}

/// The bytes of `Request::serialize`.
pub open spec fn spec_serialize_request(r: RequestView) -> Seq<u8> {
    encode_utf8(request_head_text(r))
}

/// The request that a head given as text holds.
pub open spec fn spec_parse_request_head(h: Seq<char>) -> Result<RequestView, ErrorView> {
    let lines = split_crlf(h);
    let rl = lines[0];
    if encode_utf8(rl).len() > MAX_REQUEST_LINE {
        Err(ErrorView::RequestLineTooLarge { max: MAX_REQUEST_LINE as nat })
    } else {
        let parts = split_ws(rl);
        if parts.len() < 3 {
            Err(ErrorView::MalformedLine(rl))
        } else if parts[2] != version_chars() {
            Err(ErrorView::MalformedLine("bad version: "@ + parts[2]))
        } else if parts[0] != get_word() && parts[0] != head_word() {
            Err(ErrorView::MalformedLine("bad method: "@ + parts[0]))
        } else if !(parts[1].len() > 0 && parts[1][0] == '/') {
            Err(ErrorView::MalformedLine("path must start with '/': "@ + parts[1]))
        } else {
            match spec_parse_headers(lines.drop_first()) {
                Err(e) => Err(e),
                Ok(hs) => Ok(RequestView { method: parts[0], path: parts[1], headers: hs }),
            }
        }
    }
}

/// The request that the bytes `b` hold, as `Request::parse` reads them.
pub open spec fn spec_parse_request(b: Seq<u8>) -> Result<RequestView, ErrorView> {
    match header_end(b) {
        None => Err(ErrorView::UnexpectedEof),
        Some(he) => if he > MAX_REQUEST_LINE + MAX_HEADERS {
            Err(ErrorView::HeadersTooLarge { max: MAX_HEADERS as nat })
        } else if !valid_utf8(b.subrange(0, he)) {
            Err(ErrorView::MalformedLine("non-utf8 head"@))
        } else {
            spec_parse_request_head(decode_utf8(b.subrange(0, he)))
        },
    }
}

/// The request that a head given as chars holds.
fn parse_request_head(h: &[char]) -> (r: Result<Request, ProtocolError>)
    requires
        encode_utf8(h@).len() <= usize::MAX,
    ensures
        r matches Ok(req) ==> spec_parse_request_head(h@) == ok_v(req@),
        r matches Err(e) ==> spec_parse_request_head(h@) == err_v::<RequestView>(e@),
{
    let lines = split_crlf_chars(h);
    proof {
        lemma_split_crlf_nonempty(h@);
        lemma_split_crlf_first(h@);
        let rl = split_crlf(h@)[0];
        lemma_encode_split(h@, rl.len() as int);
    }
    assert(lines_view(lines@)[0] == lines@[0]@);
    let rl = lines[0].as_slice();
    if utf8_len(rl) > MAX_REQUEST_LINE {
        return Err(ProtocolError::RequestLineTooLarge { max: MAX_REQUEST_LINE });
    }
    assert(rl@.subrange(0, rl@.len() as int) =~= rl@);
    let w1 = next_word(rl, 0);
    let (a1, b1) = match w1 {
        None => {
            return Err(ProtocolError::MalformedLine(string_from_chars(rl)));
        },
        Some(p) => p,
    };
    let w2 = next_word(rl, b1);
    let (a2, b2) = match w2 {
        None => {
            return Err(ProtocolError::MalformedLine(string_from_chars(rl)));
        },
        Some(p) => p,
    };
    let w3 = next_word(rl, b2);
    let (a3, b3) = match w3 {
        None => {
            return Err(ProtocolError::MalformedLine(string_from_chars(rl)));
        },
        Some(p) => p,
    };
    let method = &rl[a1..b1];
    let path = &rl[a2..b2];
    let version = &rl[a3..b3];
    let ghost parts = split_ws(rl@);
    assert(parts[0] == method@);
    assert(parts[1] == path@);
    assert(parts[2] == version@);
    let v = version_vec();
    if !chars_eq(version, &v) {
        return Err(ProtocolError::MalformedLine(message("bad version: ", version)));
    }
    let get = vec!['G', 'E', 'T'];
    let head = vec!['H', 'E', 'A', 'D'];
    assert(get@ =~= get_word());
    assert(head@ =~= head_word());
    if !chars_eq(method, &get) && !chars_eq(method, &head) {
        return Err(ProtocolError::MalformedLine(message("bad method: ", method)));
    }
    if !(path.len() > 0 && path[0] == '/') {
        return Err(ProtocolError::MalformedLine(message("path must start with '/': ", path)));
    }
    let rest = &lines.as_slice()[1..lines.len()];
    assert(lines_view(rest@) =~= split_crlf(h@).drop_first());
    match parse_header_lines(rest) {
        Err(e) => Err(e),
        Ok(headers) => Ok(
            Request {
                method: string_from_chars(method),
                path: string_from_chars(path),
                headers,
            },
        ),
    }
}

impl Request {
    /// A `GET` request for `path`, without headers.
    pub fn get(path: &str) -> (r: Request)
        ensures
            r@ == (RequestView { method: get_word(), path: path@, headers: seq![] }),
    {
        let m = vec!['G', 'E', 'T'];
        assert(m@ =~= get_word());
        let r = Request {
            method: string_from_chars(&m),
            path: String::from_str(path),
            headers: Vec::new(),
        };
        assert(r@.headers =~= Seq::<HeaderView>::empty());
        r
    }

    /// A `HEAD` request for `path`, without headers.
    pub fn head(path: &str) -> (r: Request)
        ensures
            r@ == (RequestView { method: head_word(), path: path@, headers: seq![] }),
    {
        let m = vec!['H', 'E', 'A', 'D'];
        assert(m@ =~= head_word());
        let r = Request {
            method: string_from_chars(&m),
            path: String::from_str(path),
            headers: Vec::new(),
        };
        assert(r@.headers =~= Seq::<HeaderView>::empty());
        r
    }

    /// The request with the header `name: value` added at the end. A value must not
    /// hold CR or LF.
    pub fn header(self, name: &str, value: &str) -> (r: Request)
        requires
            !value@.contains('\r'),
            !value@.contains('\n'),
        ensures
            r@ == (RequestView {
                method: self@.method,
                path: self@.path,
                headers: self@.headers.push((name@, value@)),
            }),
    {
        let mut r = self;
        let ghost prev = headers_view(r.headers@);
        r.headers.push((String::from_str(name), String::from_str(value)));
        assert(headers_view(r.headers@) =~= prev.push((name@, value@)));
        r
    }

    /// `METHOD PATH SONION/1.0`, each header as `name: value`, and an empty line,
    /// each ended by `\r\n`, in UTF-8.
    pub fn serialize(&self) -> (r: Vec<u8>)
        ensures
            r@ == spec_serialize_request(self@),
    {
        let mut out: Vec<char> = Vec::new();
        let m = str_chars(self.method.as_str());
        push_chars(&mut out, &m);
        out.push(' ');
        let p = str_chars(self.path.as_str());
        push_chars(&mut out, &p);
        out.push(' ');
        let v = version_vec();
        push_chars(&mut out, &v);
        push_crlf(&mut out);
        crate::response::push_header_text(&mut out, &self.headers, false);
        push_crlf(&mut out);
        assert(out@ =~= request_head_text(self@));
        encode_chars(&out)
    }

    /// Reads a request head: the request line `METHOD PATH SONION/1.0` (words separated
    /// by whitespace, further words ignored) with method `GET` or `HEAD` and a path that
    /// starts with `/`, then header lines, up to the first `\r\n\r\n`.
    pub fn parse(bytes: &[u8]) -> (r: Result<Request, ProtocolError>)
        ensures
            r matches Ok(req) ==> spec_parse_request(bytes@) == ok_v(req@),
            r matches Err(e) ==> spec_parse_request(bytes@) == err_v::<RequestView>(e@),
    {
        let he = match find_header_end(bytes) {
            None => {
                return Err(ProtocolError::UnexpectedEof);
            },
            Some(k) => k,
        };
        proof {
            lemma_find_seq(bytes@, head_end_bytes());
        }
        if he > MAX_REQUEST_LINE + MAX_HEADERS {
            return Err(ProtocolError::HeadersTooLarge { max: MAX_HEADERS });
        }
        let head = match decode_chars(&bytes[0..he]) {
            None => {
                return Err(ProtocolError::MalformedLine(String::from_str("non-utf8 head")));
            },
            Some(v) => v,
        };
        proof {
            decode_utf8_encode_utf8(bytes@.subrange(0, he as int));
        }
        parse_request_head(&head)
    }
}

} // verus!
