//! Responses: status codes, framing of the body (by length or in chunks),
//! serialization and parsing.
use crate::error::{err_v, message, ok_v, ErrorView, ProtocolError};
use crate::head::{
    crlf_bytes, find_bytes, find_header, find_header_end, header_end, headers_view,
    parse_header_lines, spec_get_header, spec_parse_headers, version_chars, version_vec,
    without_header, eq_ignore_case, eq_ignore_case_exec, index_of, index_of_char, HeaderView,
};
use crate::limits::{MAX_BODY, MAX_HEADERS, MAX_STATUS_LINE};
use crate::num::{dec, hex, parse_unsigned, parse_unsigned_exec, push_digits};
use crate::text::{
    chars_eq, crlf, find_seq, lemma_find_in_suffix, lemma_find_seq, lemma_split_crlf_nonempty,
    lines_view, split_crlf, split_crlf_chars, trim, trim_chars,
};
use crate::unicode::{ascii_bytes, decode_chars, encode_chars, str_chars, string_from_chars};
use vstd::prelude::*;
use vstd::utf8::{decode_utf8, encode_utf8, valid_utf8};

verus! {

/// Status of a response.
#[derive(Debug, Clone, Copy, PartialEq, Eq, Structural)]
pub enum Status {
    /// 200
    OK,
    /// 301
    MovedPermanently,
    /// 302
    Found,
    /// 400
    BadRequest,
    /// 404
    NotFound,
    /// 413
    PayloadTooLarge,
    /// 500
    InternalServerError,
}

/// The numeric code of a status.
pub open spec fn status_code(s: Status) -> nat {
    match s {
        Status::OK => 200,
        Status::MovedPermanently => 301,
        Status::Found => 302,
        Status::BadRequest => 400,
        Status::NotFound => 404,
        Status::PayloadTooLarge => 413,
        Status::InternalServerError => 500,
    }
}

/// The status with code `c`, if the protocol defines one.
pub open spec fn status_from_code(c: nat) -> Option<Status> {
    if c == 200 {
        Some(Status::OK)
    } else if c == 301 {
        Some(Status::MovedPermanently)
    } else if c == 302 {
        Some(Status::Found)
    } else if c == 400 {
        Some(Status::BadRequest)
    } else if c == 404 {
        Some(Status::NotFound)
    } else if c == 413 {
        Some(Status::PayloadTooLarge)
    } else if c == 500 {
        Some(Status::InternalServerError)
    } else {
        None
    }
}

/// The reason phrase written after the code.
pub open spec fn reason_text(s: Status) -> Seq<char> {
    match s {
        Status::OK => seq!['o', 'k'],
        Status::MovedPermanently => seq![
            'm', 'o', 'v', 'e', 'd', ' ', 'p', 'e', 'r', 'm', 'a', 'n', 'e', 'n', 't', 'l', 'y',
        ],
        Status::Found => seq!['f', 'o', 'u', 'n', 'd'],
        Status::BadRequest => seq!['b', 'a', 'd', ' ', 'r', 'e', 'q', 'u', 'e', 's', 't'],
        Status::NotFound => seq!['n', 'o', 't', ' ', 'f', 'o', 'u', 'n', 'd'],
        Status::PayloadTooLarge => seq![
            'p', 'a', 'y', 'l', 'o', 'a', 'd', ' ', 't', 'o', 'o', ' ', 'l', 'a', 'r', 'g', 'e',
        ],
        Status::InternalServerError => seq![
            'i', 'n', 't', 'e', 'r', 'n', 'a', 'l', ' ', 's', 'e', 'r', 'v', 'e', 'r', ' ', 'e',
            'r', 'r', 'o', 'r',
        ],
    }
}

impl Status {
    /// The numeric code.
    pub fn code(self) -> (r: u16)
        ensures
            r as nat == status_code(self),
    {
        match self {
            Status::OK => 200,
            Status::MovedPermanently => 301,
            Status::Found => 302,
            Status::BadRequest => 400,
            Status::NotFound => 404,
            Status::PayloadTooLarge => 413,
            Status::InternalServerError => 500,
        }
    }

    /// The status with the given code; `InvalidStatus` for a code the protocol does not define.
    pub fn from_code(code: u16) -> (r: Result<Status, ProtocolError>)
        ensures
            r matches Ok(s) ==> status_from_code(code as nat) == Some(s),
            r matches Err(e) ==> status_from_code(code as nat) is None && e@
                == ErrorView::InvalidStatus(code as nat),
    {
        match code {
            200 => Ok(Status::OK),
            301 => Ok(Status::MovedPermanently),
            302 => Ok(Status::Found),
            400 => Ok(Status::BadRequest),
            404 => Ok(Status::NotFound),
            413 => Ok(Status::PayloadTooLarge),
            500 => Ok(Status::InternalServerError),
            c => Err(ProtocolError::InvalidStatus(c)),
        }
    }

    /// The reason phrase.
    pub fn reason(self) -> (r: &'static str)
        ensures
            r@ == reason_text(self),
    {
        match self {
            Status::OK => {
                let r = "ok";
                proof {
                    reveal_strlit("ok");
                }
                assert(r@ =~= reason_text(self));
                r
            },
            Status::MovedPermanently => {
                let r = "moved permanently";
                proof {
                    reveal_strlit("moved permanently");
                }
                assert(r@ =~= reason_text(self));
                r
            },
            Status::Found => {
                let r = "found";
                proof {
                    reveal_strlit("found");
                }
                assert(r@ =~= reason_text(self));
                r
            },
            Status::BadRequest => {
                let r = "bad request";
                proof {
                    reveal_strlit("bad request");
                }
                assert(r@ =~= reason_text(self));
                r
            },
            Status::NotFound => {
                let r = "not found";
                proof {
                    reveal_strlit("not found");
                }
                assert(r@ =~= reason_text(self));
                r
            },
            Status::PayloadTooLarge => {
                let r = "payload too large";
                proof {
                    reveal_strlit("payload too large");
                }
                assert(r@ =~= reason_text(self));
                r
            },
            Status::InternalServerError => {
                let r = "internal server error";
                proof {
                    reveal_strlit("internal server error");
                }
                assert(r@ =~= reason_text(self));
                r
            },
        }
    }
}

/// The mathematical value of a response.
pub struct ResponseView {
    pub status: Status,
    pub headers: Seq<HeaderView>,
    pub body: Seq<u8>,
}

/// A response: status, headers in order, and body bytes.
#[derive(Debug, Clone, PartialEq, Eq)]
pub struct Response {
    pub status: Status,
    pub headers: Vec<(String, String)>,
    pub body: Vec<u8>,
}

impl View for Response {
    type V = ResponseView;

    open spec fn view(&self) -> ResponseView {
        ResponseView { status: self.status, headers: headers_view(self.headers@), body: self.body@ }
    }
}

/// `Content-Length`.
pub open spec fn content_length_name() -> Seq<char> {
    seq!['C', 'o', 'n', 't', 'e', 'n', 't', '-', 'L', 'e', 'n', 'g', 't', 'h']
}

/// `Transfer-Encoding`.
pub open spec fn transfer_encoding_name() -> Seq<char> {
    seq!['T', 'r', 'a', 'n', 's', 'f', 'e', 'r', '-', 'E', 'n', 'c', 'o', 'd', 'i', 'n', 'g']
}

/// `chunked`.
pub open spec fn chunked_word() -> Seq<char> {
    seq!['c', 'h', 'u', 'n', 'k', 'e', 'd']
}

/// `Content-Length` as chars.
pub fn content_length_vec() -> (r: Vec<char>)
    ensures
        r@ == content_length_name(),
{
    let r = vec!['C', 'o', 'n', 't', 'e', 'n', 't', '-', 'L', 'e', 'n', 'g', 't', 'h'];
    assert(r@ =~= content_length_name());
    r
}

/// `Transfer-Encoding` as chars.
pub fn transfer_encoding_vec() -> (r: Vec<char>)
    ensures
        r@ == transfer_encoding_name(),
{
    let r = vec!['T', 'r', 'a', 'n', 's', 'f', 'e', 'r', '-', 'E', 'n', 'c', 'o', 'd', 'i', 'n', 'g'];
    assert(r@ =~= transfer_encoding_name());
    r
}

/// `chunked` as chars.
pub fn chunked_vec() -> (r: Vec<char>)
    ensures
        r@ == chunked_word(),
{
    let r = vec!['c', 'h', 'u', 'n', 'k', 'e', 'd'];
    assert(r@ =~= chunked_word());
    r
}

/// The headers say that the body is sent in chunks: the first `Transfer-Encoding`
/// header has the value `chunked`, both up to ASCII case.
pub open spec fn headers_chunked(h: Seq<HeaderView>) -> bool {
    match spec_get_header(h, transfer_encoding_name()) {
        Some(v) => eq_ignore_case(v, chunked_word()),
        None => false,
    }
}

/// The headers that say nothing about framing: all but `Content-Length` and
/// `Transfer-Encoding` (up to ASCII case), in order.
pub open spec fn framing_free(h: Seq<HeaderView>) -> Seq<HeaderView>
    decreases h.len(),
{
    if h.len() == 0 {
        seq![]
    } else if eq_ignore_case(h[0].0, content_length_name()) || eq_ignore_case(
        h[0].0,
        transfer_encoding_name(),
    ) {
        framing_free(h.drop_first())
    } else {
        seq![h[0]] + framing_free(h.drop_first())
    }
}

/// The header lines of a head, each `name: value\r\n`.
pub open spec fn header_text(h: Seq<HeaderView>) -> Seq<char>
    decreases h.len(),
{
    if h.len() == 0 {
        seq![]
    } else {
        h[0].0 + seq![':', ' '] + h[0].1 + crlf() + header_text(h.drop_first())
    }
}

/// `SONION/1.0 <code> <reason>`.
pub open spec fn status_line(s: Status) -> Seq<char> {
    version_chars() + seq![' '] + dec(status_code(s)) + seq![' '] + reason_text(s)
}

/// The head of a response as text, ending with the empty line.
pub open spec fn response_head_text(s: Status, h: Seq<HeaderView>) -> Seq<char> {
    status_line(s) + crlf() + header_text(h) + crlf()
}

/// `Transfer-Encoding: chunked\r\n`.
pub open spec fn chunked_header_line() -> Seq<char> {
    transfer_encoding_name() + seq![':', ' '] + chunked_word() + crlf()
}

/// The head that `serialize_chunked` writes.
pub open spec fn chunked_head_text(s: Status, h: Seq<HeaderView>) -> Seq<char> {
    status_line(s) + crlf() + header_text(framing_free(h)) + chunked_header_line() + crlf()
}

/// The bytes `0\r\n\r\n` that end a chunked body.
pub open spec fn last_chunk_bytes() -> Seq<u8> {
    seq![48u8, 13u8, 10u8, 13u8, 10u8]
}

/// A body cut into chunks of `n` bytes (the last one may be shorter), each written as
/// its size in lowercase hex, `\r\n`, the bytes, `\r\n`; then the last chunk `0\r\n\r\n`.
pub open spec fn chunk_stream(body: Seq<u8>, n: nat) -> Seq<u8>
    decreases body.len(),
{
    let m: nat = if n == 0 {
        1
    } else {
        n
    };
    if body.len() == 0 {
        last_chunk_bytes()
    } else {
        let k: nat = if m < body.len() {
            m
        } else {
            body.len()
        };
        ascii_bytes(hex(k)) + crlf_bytes() + body.subrange(0, k as int) + crlf_bytes()
            + chunk_stream(body.subrange(k as int, body.len() as int), n)
    }
}

/// The bytes of `serialize_head`.
pub open spec fn spec_serialize_head(r: ResponseView) -> Seq<u8> {
    encode_utf8(response_head_text(r.status, r.headers))
}

/// The bytes of `serialize`: the head, then the body as it is.
pub open spec fn spec_serialize(r: ResponseView) -> Seq<u8> {
    spec_serialize_head(r) + r.body
}

/// The bytes of `serialize_chunked`.
pub open spec fn spec_serialize_chunked(r: ResponseView, chunk_size: nat) -> Seq<u8> {
    encode_utf8(chunked_head_text(r.status, r.headers)) + chunk_stream(r.body, chunk_size)
}

/// The version and the code field of a status line, split as `splitn(3, ' ')` does.
pub open spec fn status_line_fields(sl: Seq<char>) -> (Seq<char>, Option<Seq<char>>) {
    match index_of(sl, ' ') {
        None => (sl, None),
        Some(i) => {
            let rest = sl.subrange(i + 1, sl.len() as int);
            match index_of(rest, ' ') {
                None => (sl.subrange(0, i), Some(rest)),
                Some(j) => (sl.subrange(0, i), Some(rest.subrange(0, j))),
            }
        },
    }
}

/// The status and headers of a head given as text.
pub open spec fn spec_parse_response_head(h: Seq<char>) -> Result<
    (Status, Seq<HeaderView>),
    ErrorView,
> {
    let lines = split_crlf(h);
    let sl = lines[0];
    let (version, code) = status_line_fields(sl);
    if version != version_chars() {
        Err(ErrorView::MalformedLine("bad version: "@ + sl))
    } else {
        match code {
            None => Err(ErrorView::MalformedLine(sl)),
            Some(c) => match parse_unsigned(c, 10, 0xffff) {
                None => Err(ErrorView::MalformedLine(sl)),
                Some(n) => match status_from_code(n) {
                    None => Err(ErrorView::InvalidStatus(n)),
                    Some(st) => match spec_parse_headers(lines.drop_first()) {
                        Err(e) => Err(e),
                        Ok(hs) => Ok((st, hs)),
                    },
                },
            },
        }
    }
}

/// The status, headers and head length of the bytes of a response.
pub open spec fn spec_response_head(b: Seq<u8>) -> Result<(Status, Seq<HeaderView>, int), ErrorView> {
    match header_end(b) {
        None => Err(ErrorView::UnexpectedEof),
        Some(he) => if he > MAX_STATUS_LINE + MAX_HEADERS {
            Err(ErrorView::HeadersTooLarge { max: MAX_HEADERS as nat })
        } else if !valid_utf8(b.subrange(0, he)) {
            Err(ErrorView::MalformedLine("non-utf8 head"@))
        } else {
            match spec_parse_response_head(decode_utf8(b.subrange(0, he))) {
                Err(e) => Err(e),
                Ok((st, hs)) => Ok((st, hs, he)),
            }
        },
    }
}

/// Reads a chunked body from `rest`, after the bytes `acc` read so far.
pub open spec fn spec_chunked(rest: Seq<u8>, acc: Seq<u8>) -> Result<Seq<u8>, ErrorView>
    decreases rest.len(),
{
    match find_seq(rest, crlf_bytes()) {
        None => Err(ErrorView::UnexpectedEof),
        Some(le) => {
            proof {
                lemma_find_seq(rest, crlf_bytes());
            }
            let line = rest.subrange(0, le);
            let r2 = rest.subrange(le + 2, rest.len() as int);
            if !valid_utf8(line) {
                Err(ErrorView::InvalidChunk("non-utf8 size"@))
            } else {
                match parse_unsigned(trim(decode_utf8(line)), 16, usize::MAX as nat) {
                    None => Err(ErrorView::InvalidChunk(decode_utf8(line))),
                    Some(size) => if size == 0 {
                        if r2.len() < 2 || r2.subrange(0, 2) != crlf_bytes() {
                            Err(ErrorView::UnexpectedEof)
                        } else {
                            Ok(acc)
                        }
                    } else if acc.len() + size > MAX_BODY {
                        Err(ErrorView::BodyTooLarge { max: MAX_BODY as nat })
                    } else if r2.len() < size + 2 {
                        Err(ErrorView::UnexpectedEof)
                    } else if r2.subrange(size as int, size + 2int) != crlf_bytes() {
                        Err(ErrorView::InvalidChunk("missing CRLF after chunk"@))
                    } else {
                        spec_chunked(
                            r2.subrange(size + 2int, r2.len() as int),
                            acc + r2.subrange(0, size as int),
                        )
                    },
                }
            }
        },
    }
}

/// The response that the bytes `b` hold, as `Response::parse` reads them.
pub open spec fn spec_parse_response(b: Seq<u8>) -> Result<ResponseView, ErrorView> {
    match spec_response_head(b) {
        Err(e) => Err(e),
        Ok((st, hs, he)) => {
            let body_bytes = b.subrange(he + 4, b.len() as int);
            if headers_chunked(hs) {
                match spec_chunked(body_bytes, seq![]) {
                    Err(e) => Err(e),
                    Ok(body) => Ok(ResponseView { status: st, headers: hs, body }),
                }
            } else {
                match spec_get_header(hs, content_length_name()) {
                    None => Ok(ResponseView { status: st, headers: hs, body: seq![] }),
                    Some(v) => match parse_unsigned(v, 10, usize::MAX as nat) {
                        None => Err(ErrorView::InvalidHeader("Content-Length"@)),
                        Some(len) => if len > MAX_BODY {
                            Err(ErrorView::BodyTooLarge { max: MAX_BODY as nat })
                        } else if body_bytes.len() < len {
                            Err(ErrorView::UnexpectedEof)
                        } else {
                            Ok(
                                ResponseView {
                                    status: st,
                                    headers: hs,
                                    body: body_bytes.subrange(0, len as int),
                                },
                            )
                        },
                    },
                }
            }
        },
    }
}

/// The response head that the bytes `b` hold, with an empty body, as
/// `Response::parse_head` reads it.
pub open spec fn spec_parse_response_head_only(b: Seq<u8>) -> Result<ResponseView, ErrorView> {
    match spec_response_head(b) {
        Err(e) => Err(e),
        Ok((st, hs, he)) => Ok(ResponseView { status: st, headers: hs, body: seq![] }),
    }
}

/// Appends the chars `s`.
pub fn push_chars(out: &mut Vec<char>, s: &[char])
    ensures
        final(out)@ == old(out)@ + s@,
{
    let mut i: usize = 0;
    while i < s.len()
        invariant
            i <= s@.len(),
            out@ == old(out)@ + s@.subrange(0, i as int),
        decreases s@.len() - i,
    {
        out.push(s[i]);
        i = i + 1;
        assert(out@ =~= old(out)@ + s@.subrange(0, i as int));
    }
    assert(s@.subrange(0, s@.len() as int) =~= s@);
}

/// Appends the bytes `s`.
pub fn push_bytes(out: &mut Vec<u8>, s: &[u8])
    ensures
        final(out)@ == old(out)@ + s@,
{
    let mut i: usize = 0;
    while i < s.len()
        invariant
            i <= s@.len(),
            out@ == old(out)@ + s@.subrange(0, i as int),
        decreases s@.len() - i,
    {
        out.push(s[i]);
        i = i + 1;
        assert(out@ =~= old(out)@ + s@.subrange(0, i as int));
    }
    assert(s@.subrange(0, s@.len() as int) =~= s@);
}

/// Appends `\r\n`.
pub fn push_crlf(out: &mut Vec<char>)
    ensures
        final(out)@ == old(out)@ + crlf(),
{
    out.push('\r');
    out.push('\n');
    assert(final(out)@ =~= old(out)@ + crlf());
}

/// Appends the status line.
fn push_status_line(out: &mut Vec<char>, s: Status)
    ensures
        final(out)@ == old(out)@ + status_line(s),
{
    let v = version_vec();
    push_chars(out, &v);
    out.push(' ');
    push_digits(out, s.code() as u64, 10, false);
    out.push(' ');
    let reason = str_chars(s.reason());
    push_chars(out, &reason);
    assert(final(out)@ =~= old(out)@ + status_line(s));
}

/// Appends `name: value\r\n` for each header; with `skip_framing`, only for
/// the headers that say nothing about framing.
pub fn push_header_text(out: &mut Vec<char>, h: &Vec<(String, String)>, skip_framing: bool)
    ensures
        final(out)@ == old(out)@ + header_text(
            if skip_framing {
                framing_free(headers_view(h@))
            } else {
                headers_view(h@)
            },
        ),
{
    let ghost all = headers_view(h@);
    let ghost goal = old(out)@ + header_text(
        if skip_framing {
            framing_free(all)
        } else {
            all
        },
    );
    let cl = content_length_vec();
    let te = transfer_encoding_vec();
    let mut i: usize = 0;
    assert(all.subrange(0, all.len() as int) =~= all);
    while i < h.len()
        invariant
            i <= h@.len(),
            all == headers_view(h@),
            cl@ == content_length_name(),
            te@ == transfer_encoding_name(),
            goal == out@ + header_text(
                if skip_framing {
                    framing_free(all.subrange(i as int, all.len() as int))
                } else {
                    all.subrange(i as int, all.len() as int)
                },
            ),
        decreases h@.len() - i,
    {
        let ghost tail = all.subrange(i as int, all.len() as int);
        assert(tail[0] == (h@[i as int].0@, h@[i as int].1@));
        assert(tail.drop_first() =~= all.subrange(i + 1, all.len() as int));
        let name = str_chars(h[i].0.as_str());
        let skip = skip_framing && (eq_ignore_case_exec(&name, &cl) || eq_ignore_case_exec(
            &name,
            &te,
        ));
        if !skip {
            let value = str_chars(h[i].1.as_str());
            let ghost before = out@;
            push_chars(out, &name);
            out.push(':');
            out.push(' ');
            push_chars(out, &value);
            push_crlf(out);
            proof {
                let line = tail[0].0 + seq![':', ' '] + tail[0].1 + crlf();
                assert(out@ =~= before + line);
                if skip_framing {
                    assert(framing_free(tail) == seq![tail[0]] + framing_free(tail.drop_first()));
                    assert((seq![tail[0]] + framing_free(tail.drop_first()))[0] == tail[0]);
                    assert((seq![tail[0]] + framing_free(tail.drop_first())).drop_first()
                        =~= framing_free(tail.drop_first()));
                }
                assert(before + header_text(
                    if skip_framing {
                        framing_free(tail)
                    } else {
                        tail
                    },
                ) =~= out@ + header_text(
                    if skip_framing {
                        framing_free(tail.drop_first())
                    } else {
                        tail.drop_first()
                    },
                ));
            }
        }
        i = i + 1;
    }
    assert(all.subrange(i as int, all.len() as int) =~= Seq::<HeaderView>::empty());
    assert(out@ =~= goal);
}

/// Appends the bytes `ascii_bytes(hex(n))`.
fn push_hex_bytes(out: &mut Vec<u8>, n: usize)
    ensures
        final(out)@ == old(out)@ + ascii_bytes(hex(n as nat)),
{
    let mut digits: Vec<char> = Vec::new();
    push_digits(&mut digits, n as u64, 16, false);
    assert(digits@ =~= hex(n as nat));
    let mut i: usize = 0;
    while i < digits.len()
        invariant
            i <= digits@.len(),
            digits@ == hex(n as nat),
            out@ == old(out)@ + ascii_bytes(digits@.subrange(0, i as int)),
        decreases digits@.len() - i,
    {
        out.push(digits[i] as u8);
        i = i + 1;
        assert(out@ =~= old(out)@ + ascii_bytes(digits@.subrange(0, i as int)));
    }
    assert(digits@.subrange(0, digits@.len() as int) =~= digits@);
}

/// The version and the code field of a status line.
fn status_fields(sl: &[char]) -> (r: (Vec<char>, Option<Vec<char>>))
    ensures
        (r.0@, match r.1 {
            Some(c) => Some(c@),
            None => None::<Seq<char>>,
        }) == status_line_fields(sl@),
{
    match index_of_char(sl, ' ') {
        None => (crate::text::copy_range(sl, 0, sl.len()), None),
        Some(i) => {
            assert(sl@.subrange(0, sl@.len() as int) =~= sl@);
            let n = sl.len();
            assert(i < n);
            let rest = &sl[i + 1..n];
            let version = crate::text::copy_range(sl, 0, i);
            match index_of_char(rest, ' ') {
                None => (version, Some(crate::text::copy_range(rest, 0, rest.len()))),
                Some(j) => (version, Some(crate::text::copy_range(rest, 0, j))),
            }
        },
    }
}

/// Status and headers of a head given as chars.
fn parse_response_head(h: &[char]) -> (r: Result<(Status, Vec<(String, String)>), ProtocolError>)
    ensures
        r matches Ok(p) ==> spec_parse_response_head(h@) == ok_v((p.0, headers_view(p.1@))),
        r matches Err(e) ==> spec_parse_response_head(h@) == err_v::<(Status, Seq<HeaderView>)>(
            e@,
        ),
{
    let lines = split_crlf_chars(h);
    proof {
        lemma_split_crlf_nonempty(h@);
    }
    assert(lines_view(lines@)[0] == lines@[0]@);
    let sl = lines[0].as_slice();
    let (version, code) = status_fields(sl);
    let v = version_vec();
    if !chars_eq(&version, &v) {
        return Err(ProtocolError::MalformedLine(message("bad version: ", sl)));
    }
    match code {
        None => Err(ProtocolError::MalformedLine(string_from_chars(sl))),
        Some(c) => match parse_unsigned_exec(&c, 10, 0xffff) {
            None => Err(ProtocolError::MalformedLine(string_from_chars(sl))),
            Some(n) => match Status::from_code(n as u16) {
                Err(e) => Err(e),
                Ok(st) => {
                    let rest = &lines.as_slice()[1..lines.len()];
                    assert(lines_view(rest@) =~= split_crlf(h@).drop_first());
                    match parse_header_lines(rest) {
                        Err(e) => Err(e),
                        Ok(hs) => Ok((st, hs)),
                    }
                },
            },
        },
    }
}

/// Status, headers and head length of a response's bytes.
fn read_response_head(bytes: &[u8]) -> (r: Result<(Status, Vec<(String, String)>, usize), ProtocolError>)
    ensures
        r matches Ok(p) ==> p.2 + 4 <= bytes@.len() && spec_response_head(bytes@) == ok_v(
            (p.0, headers_view(p.1@), p.2 as int),
        ),
        r matches Err(e) ==> spec_response_head(bytes@) == err_v::<(Status, Seq<HeaderView>, int)>(
            e@,
        ),
{
    let he = match find_header_end(bytes) {
        None => {
            return Err(ProtocolError::UnexpectedEof);
        },
        Some(k) => k,
    };
    proof {
        lemma_find_seq(bytes@, crate::head::head_end_bytes());
    }
    if he > MAX_STATUS_LINE + MAX_HEADERS {
        return Err(ProtocolError::HeadersTooLarge { max: MAX_HEADERS });
    }
    let head = match decode_chars(&bytes[0..he]) {
        None => {
            return Err(ProtocolError::MalformedLine(String::from_str("non-utf8 head")));
        },
        Some(v) => v,
    };
    match parse_response_head(&head) {
        Err(e) => Err(e),
        Ok((st, hs)) => Ok((st, hs, he)),
    }
}

/// Reads a body sent in chunks: each chunk is its size in hex (surrounding whitespace
/// allowed), `\r\n`, the bytes, `\r\n`; a chunk of size zero followed by `\r\n` ends it.
pub fn parse_chunked_body(bytes: &[u8]) -> (r: Result<Vec<u8>, ProtocolError>)
    ensures
        r matches Ok(b) ==> spec_chunked(bytes@, seq![]) == ok_v(b@),
        r matches Err(e) ==> spec_chunked(bytes@, seq![]) == err_v::<Seq<u8>>(e@),
{
    let mut body: Vec<u8> = Vec::new();
    let mut pos: usize = 0;
    let n = bytes.len();
    let crlf_pat: [u8; 2] = [13, 10];
    assert(crlf_pat@ =~= crlf_bytes());
    assert(bytes@.subrange(0, n as int) =~= bytes@);
    loop
        invariant
            pos <= n == bytes@.len(),
            crlf_pat@ == crlf_bytes(),
            body@.len() <= MAX_BODY,
            spec_chunked(bytes@, seq![]) == spec_chunked(bytes@.subrange(pos as int, n as int), body@),
        decreases n - pos,
    {
        let ghost rest = bytes@.subrange(pos as int, n as int);
        let f = find_bytes(bytes, &crlf_pat, pos);
        proof {
            lemma_find_in_suffix(bytes@, crlf_bytes(), pos as int, match f {
                Some(k) => Some(k as int),
                None => None,
            });
        }
        let le = match f {
            None => {
                return Err(ProtocolError::UnexpectedEof);
            },
            Some(k) => k,
        };
        assert(rest.subrange(0, le - pos) =~= bytes@.subrange(pos as int, le as int));
        assert(rest.subrange(le - pos + 2, rest.len() as int) =~= bytes@.subrange(le + 2, n as int));
        let size_chars = match decode_chars(&bytes[pos..le]) {
            None => {
                return Err(ProtocolError::InvalidChunk(String::from_str("non-utf8 size")));
            },
            Some(v) => v,
        };
        let t = trim_chars(&size_chars);
        let size = match parse_unsigned_exec(&t, 16, usize::MAX as u64) {
            None => {
                return Err(ProtocolError::InvalidChunk(string_from_chars(&size_chars)));
            },
            Some(v) => v as usize,
        };
        let p2 = le + 2;
        let ghost r2 = bytes@.subrange(p2 as int, n as int);
        if size == 0 {
            if n - p2 < 2 || bytes[p2] != 13 || bytes[p2 + 1] != 10 {
                proof {
                    if r2.len() >= 2 {
                        assert(r2.subrange(0, 2)[0] == bytes@[p2 as int]);
                        assert(r2.subrange(0, 2)[1] == bytes@[p2 + 1]);
                    }
                }
                return Err(ProtocolError::UnexpectedEof);
            }
            assert(r2.subrange(0, 2) =~= crlf_bytes());
            return Ok(body);
        }
        if size > MAX_BODY - body.len() {
            return Err(ProtocolError::BodyTooLarge { max: MAX_BODY });
        }
        if n - p2 < size + 2 {
            return Err(ProtocolError::UnexpectedEof);
        }
        if bytes[p2 + size] != 13 || bytes[p2 + size + 1] != 10 {
            proof {
                assert(r2.subrange(size as int, size + 2int)[0] == bytes@[p2 + size]);
                assert(r2.subrange(size as int, size + 2int)[1] == bytes@[p2 + size + 1]);
            }
            return Err(ProtocolError::InvalidChunk(String::from_str("missing CRLF after chunk")));
        }
        assert(r2.subrange(size as int, size + 2int) =~= crlf_bytes());
        let ghost old_body = body@;
        push_bytes(&mut body, &bytes[p2..p2 + size]);
        assert(r2.subrange(0, size as int) =~= bytes@.subrange(p2 as int, p2 + size));
        assert(r2.subrange(size + 2int, r2.len() as int) =~= bytes@.subrange(
            p2 + size + 2,
            n as int,
        ));
        pos = p2 + size + 2;
    }
}

impl Response {
    /// Reads a response: the head up to the first `\r\n\r\n`, then a body framed by
    /// `Transfer-Encoding: chunked` if present, else by `Content-Length` if present,
    /// else empty. Bytes after the body are ignored.
    pub fn parse(bytes: &[u8]) -> (r: Result<Response, ProtocolError>)
        ensures
            r matches Ok(resp) ==> spec_parse_response(bytes@) == ok_v(resp@),
            r matches Err(e) ==> spec_parse_response(bytes@) == err_v::<ResponseView>(e@),
    {
        let (status, headers, he) = match read_response_head(bytes) {
            Err(e) => {
                return Err(e);
            },
            Ok(p) => p,
        };
        let body_bytes = &bytes[he + 4..bytes.len()];
        let mut resp = Response { status, headers, body: Vec::new() };
        if resp.is_chunked() {
            match parse_chunked_body(body_bytes) {
                Err(e) => {
                    return Err(e);
                },
                Ok(b) => {
                    resp.body = b;
                },
            }
        } else {
            let cl = content_length_vec();
            match find_header(&resp.headers, &cl) {
                None => {},
                Some(k) => {
                    let v = str_chars(resp.headers[k].1.as_str());
                    let len = match parse_unsigned_exec(&v, 10, usize::MAX as u64) {
                        None => {
                            return Err(
                                ProtocolError::InvalidHeader(String::from_str("Content-Length")),
                            );
                        },
                        Some(x) => x as usize,
                    };
                    if len > MAX_BODY {
                        return Err(ProtocolError::BodyTooLarge { max: MAX_BODY });
                    }
                    if body_bytes.len() < len {
                        return Err(ProtocolError::UnexpectedEof);
                    }
                    let mut b: Vec<u8> = Vec::new();
                    push_bytes(&mut b, &body_bytes[0..len]);
                    resp.body = b;
                },
            }
        }
        Ok(resp)
    }

    /// Reads only the head of a response; the body is left empty whatever the
    /// headers say.
    pub fn parse_head(bytes: &[u8]) -> (r: Result<Response, ProtocolError>)
        ensures
            r matches Ok(resp) ==> spec_parse_response_head_only(bytes@) == ok_v(resp@),
            r matches Err(e) ==> spec_parse_response_head_only(bytes@) == err_v::<ResponseView>(
                e@,
            ),
    {
        match read_response_head(bytes) {
            Err(e) => Err(e),
            Ok((status, headers, _he)) => Ok(Response { status, headers, body: Vec::new() }),
        }
    }
}

/// Appends one chunk: its size in hex, `\r\n`, its bytes, `\r\n`.
fn push_chunk(bytes: &mut Vec<u8>, chunk: &[u8])
    ensures
        final(bytes)@ == old(bytes)@ + ascii_bytes(hex(chunk@.len())) + crlf_bytes() + chunk@
            + crlf_bytes(),
{
    push_hex_bytes(bytes, chunk.len());
    bytes.push(13);
    bytes.push(10);
    push_bytes(bytes, chunk);
    bytes.push(13);
    bytes.push(10);
    assert(final(bytes)@ =~= old(bytes)@ + ascii_bytes(hex(chunk@.len())) + crlf_bytes() + chunk@
        + crlf_bytes());
}

/// One step of `chunk_stream` at offset `i` with a chunk of `k` bytes.
proof fn lemma_chunk_stream_step(body: Seq<u8>, i: int, k: int, n: nat)
    requires
        0 <= i < body.len(),
        k == (if (if n == 0 {
            1
        } else {
            n
        }) < body.len() - i {
            (if n == 0 {
                1
            } else {
                n
            }) as int
        } else {
            body.len() - i
        }),
    ensures
        chunk_stream(body.subrange(i, body.len() as int), n) == ascii_bytes(hex(k as nat))
            + crlf_bytes() + body.subrange(i, i + k) + crlf_bytes() + chunk_stream(
            body.subrange(i + k, body.len() as int),
            n,
        ),
{
    let rest = body.subrange(i, body.len() as int);
    assert(rest.subrange(0, k) =~= body.subrange(i, i + k));
    assert(rest.subrange(k, rest.len() as int) =~= body.subrange(i + k, body.len() as int));
}

impl Response {
    /// A response with the given status and body, and the one header
    /// `Content-Length` holding the body's length in decimal.
    pub fn new(status: Status, body: Vec<u8>) -> (r: Response)
        ensures
            r@ == (ResponseView {
                status,
                headers: seq![(content_length_name(), dec(body@.len()))],
                body: body@,
            }),
    {
        let mut len: Vec<char> = Vec::new();
        push_digits(&mut len, body.len() as u64, 10, false);
        assert(len@ =~= dec(body@.len()));
        let name = string_from_chars(&content_length_vec());
        let value = string_from_chars(&len);
        let mut headers: Vec<(String, String)> = Vec::new();
        headers.push((name, value));
        let r = Response { status, headers, body };
        assert(r@.headers =~= seq![(content_length_name(), dec(r.body@.len()))]);
        r
    }

    /// Replaces every header named `name` (up to ASCII case) by one header
    /// `name: value` at the end. A value must not hold CR or LF.
    pub fn set_header(&mut self, name: &str, value: &str)
        requires
            !value@.contains('\r'),
            !value@.contains('\n'),
        ensures
            final(self)@ == (ResponseView {
                status: old(self)@.status,
                headers: without_header(old(self)@.headers, name@).push((name@, value@)),
                body: old(self)@.body,
            }),
    {
        let n = str_chars(name);
        let mut kept: Vec<(String, String)> = Vec::new();
        let ghost all = headers_view(self.headers@);
        let mut i: usize = 0;
        assert(all.subrange(0, all.len() as int) =~= all);
        assert(headers_view(kept@) =~= Seq::<HeaderView>::empty());
        while i < self.headers.len()
            invariant
                i <= self.headers@.len(),
                all == headers_view(self.headers@),
                n@ == name@,
                without_header(all, name@) == headers_view(kept@) + without_header(
                    all.subrange(i as int, all.len() as int),
                    name@,
                ),
            decreases self.headers@.len() - i,
        {
            let ghost tail = all.subrange(i as int, all.len() as int);
            assert(tail[0] == (self.headers@[i as int].0@, self.headers@[i as int].1@));
            assert(tail.drop_first() =~= all.subrange(i + 1, all.len() as int));
            let hn = str_chars(self.headers[i].0.as_str());
            if !eq_ignore_case_exec(&hn, &n) {
                let a = self.headers[i].0.clone();
                let b = self.headers[i].1.clone();
                let ghost prev = headers_view(kept@);
                kept.push((a, b));
                assert(headers_view(kept@) =~= prev + seq![tail[0]]);
                assert(without_header(tail, name@) == seq![tail[0]] + without_header(
                    tail.drop_first(),
                    name@,
                ));
                assert(prev + without_header(tail, name@) =~= headers_view(kept@) + without_header(
                    tail.drop_first(),
                    name@,
                ));
            }
            i = i + 1;
        }
        assert(all.subrange(i as int, all.len() as int) =~= Seq::<HeaderView>::empty());
        let ghost prev = headers_view(kept@);
        kept.push((String::from_str(name), String::from_str(value)));
        assert(headers_view(kept@) =~= prev.push((name@, value@)));
        assert(without_header(all, name@) =~= prev);
        self.headers = kept;
    }

    /// Value of the first header named `name`, up to ASCII case.
    pub fn get_header(&self, name: &str) -> (r: Option<&str>)
        ensures
            r matches Some(v) ==> spec_get_header(self@.headers, name@) == Some(v@),
            r is None ==> spec_get_header(self@.headers, name@) is None,
    {
        let n = str_chars(name);
        match find_header(&self.headers, &n) {
            Some(k) => Some(self.headers[k].1.as_str()),
            None => None,
        }
    }

    /// The body is sent in chunks: the first `Transfer-Encoding` header is `chunked`,
    /// up to ASCII case.
    pub fn is_chunked(&self) -> (r: bool)
        ensures
            r == headers_chunked(self@.headers),
    {
        let te = transfer_encoding_vec();
        match find_header(&self.headers, &te) {
            Some(k) => {
                let v = str_chars(self.headers[k].1.as_str());
                let c = chunked_vec();
                eq_ignore_case_exec(&v, &c)
            },
            None => false,
        }
    }

    /// The head and then the body, as they are.
    pub fn serialize(&self) -> (r: Vec<u8>)
        ensures
            r@ == spec_serialize(self@),
    {
        let mut bytes = self.serialize_head();
        push_bytes(&mut bytes, self.body.as_slice());
        bytes
    }

    /// The status line, each header as `name: value`, and an empty line, each
    /// ended by `\r\n`, in UTF-8.
    pub fn serialize_head(&self) -> (r: Vec<u8>)
        ensures
            r@ == spec_serialize_head(self@),
    {
        let mut out: Vec<char> = Vec::new();
        push_status_line(&mut out, self.status);
        push_crlf(&mut out);
        push_header_text(&mut out, &self.headers, false);
        push_crlf(&mut out);
        assert(out@ =~= response_head_text(self.status, self@.headers));
        encode_chars(&out)
    }

    #[verifier::rlimit(40)]
    /// The response with its body sent in chunks of `chunk_size` bytes (at least one):
    /// the framing headers are replaced by `Transfer-Encoding: chunked`.
    pub fn serialize_chunked(&self, chunk_size: usize) -> (r: Vec<u8>)
        ensures
            r@ == spec_serialize_chunked(self@, chunk_size as nat),
    {
        let mut out: Vec<char> = Vec::new();
        push_status_line(&mut out, self.status);
        push_crlf(&mut out);
        push_header_text(&mut out, &self.headers, true);
        let te = transfer_encoding_vec();
        push_chars(&mut out, &te);
        out.push(':');
        out.push(' ');
        let c = chunked_vec();
        push_chars(&mut out, &c);
        push_crlf(&mut out);
        push_crlf(&mut out);
        assert(out@ =~= chunked_head_text(self.status, self@.headers));
        let mut bytes = encode_chars(&out);
        let ghost head = bytes@;
        let m: usize = if chunk_size == 0 {
            1
        } else {
            chunk_size
        };
        let n = self.body.len();
        let mut i: usize = 0;
        assert(self.body@.subrange(0, n as int) =~= self.body@);
        while i < n
            invariant
                i <= n == self.body@.len(),
                m >= 1,
                m == (if chunk_size == 0 {
                    1
                } else {
                    chunk_size
                }),
                head + chunk_stream(self.body@, chunk_size as nat) == bytes@ + chunk_stream(
                    self.body@.subrange(i as int, n as int),
                    chunk_size as nat,
                ),
            decreases n - i,
        {
            let k: usize = if m < n - i {
                m
            } else {
                n - i
            };
            let ghost rest = self.body@.subrange(i as int, n as int);
            let ghost before = bytes@;
            push_chunk(&mut bytes, &self.body.as_slice()[i..i + k]);
            proof {
                lemma_chunk_stream_step(self.body@, i as int, k as int, chunk_size as nat);
            }
            i = i + k;
        }
        let ghost before = bytes@;
        bytes.push(48);
        bytes.push(13);
        bytes.push(10);
        bytes.push(13);
        bytes.push(10);
        assert(self.body@.subrange(n as int, n as int) =~= Seq::<u8>::empty());
        assert(bytes@ =~= before + last_chunk_bytes());
        bytes
    }
}

} // verus!
