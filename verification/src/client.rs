//! The client side of a fetch: what to send, how the reply is framed, and when enough
//! of it has arrived. The connection, TLS and the reads themselves belong to the caller,
//! which feeds each read into `next_action`.
use crate::error::{err_v, ok_v, ErrorView, ProtocolError};
use crate::head::{
    crlf_bytes, eq_ignore_case, eq_ignore_case_exec, find_bytes, find_header_end, head_end_bytes,
    header_end, headers_view, parse_header_lines, spec_parse_headers, HeaderView,
};
use crate::limits::{MAX_BODY, MAX_HEADERS, MAX_STATUS_LINE};
use crate::num::{parse_unsigned, parse_unsigned_exec};
use crate::request::{get_word, head_word, Request, RequestView};
use crate::response::{
    chunked_vec, chunked_word, content_length_name, content_length_vec, spec_chunked,
    spec_parse_response, spec_parse_response_head_only, transfer_encoding_name,
    transfer_encoding_vec, Response, ResponseView,
};
use crate::text::{
    chars_eq, find_seq, lemma_find_in_suffix, lemma_find_seq, lemma_split_crlf_nonempty,
    lines_view, split_crlf, split_crlf_chars, trim, trim_chars,
};
use crate::unicode::{decode_chars, str_chars, string_from_chars};
use crate::url::{encode_path, spec_encode_path, SonionUrl};
use crate::ALPN;
use vstd::prelude::*;
use vstd::utf8::{decode_utf8, encode_utf8, valid_utf8};

verus! {

/// `std::io::Error`, carried by `ClientError::Io`.
#[verifier::external_type_specification]
#[verifier::external_body]
pub struct ExIoError(std::io::Error);

/// Why a fetch failed.
#[derive(Debug)]
pub enum ClientError {
    /// The connection failed.
    Io(std::io::Error),
    /// The TLS handshake failed.
    Tls(String),
    /// The reply broke the protocol.
    Protocol(ProtocolError),
    /// The server agreed on another ALPN protocol than `sonion/1`, or on none.
    AlpnMismatch(Option<String>),
    /// The host is not a valid TLS server name.
    BadServerName(String),
    /// A step took too long: connect, tls handshake, response head or response body.
    Timeout(&'static str),
}

/// How the body of a reply is delimited.
#[derive(Debug, Clone, Copy, PartialEq, Eq, Structural)]
pub enum Framing {
    /// No body follows the head.
    Empty,
    /// The body has this many bytes.
    ContentLength(usize),
    /// The body comes in chunks.
    Chunked,
}

/// The framing that the headers `hs` select, starting from `f`: each
/// `Content-Length` sets a length (its trimmed value must be a number), each
/// `Transfer-Encoding: chunked` selects chunks; the last such header wins.
/// `None` when a `Content-Length` is not a number.
pub open spec fn framing_from(hs: Seq<HeaderView>, f: Framing) -> Option<Framing>
    decreases hs.len(),
{
    if hs.len() == 0 {
        Some(f)
    } else {
        let n = hs[0].0;
        let v = hs[0].1;
        if eq_ignore_case(n, content_length_name()) {
            match parse_unsigned(trim(v), 10, usize::MAX as nat) {
                None => None,
                Some(x) => framing_from(hs.drop_first(), Framing::ContentLength(x as usize)),
            }
        } else if eq_ignore_case(n, transfer_encoding_name()) && eq_ignore_case(
            trim(v),
            chunked_word(),
        ) {
            framing_from(hs.drop_first(), Framing::Chunked)
        } else {
            framing_from(hs.drop_first(), f)
        }
    }
}

/// Where the body of a reply starts and how it is framed, once the head is complete;
/// `None` when there is no complete head yet or it cannot be read.
pub open spec fn spec_head_framing(b: Seq<u8>) -> Option<(int, Framing)> {
    match header_end(b) {
        None => None,
        Some(he) => if !valid_utf8(b.subrange(0, he)) {
            None
        } else {
            match spec_parse_headers(split_crlf(decode_utf8(b.subrange(0, he))).drop_first()) {
                Err(_) => None,
                Ok(hs) => match framing_from(hs, Framing::Empty) {
                    None => None,
                    Some(f) => Some((he + 4, f)),
                },
            }
        },
    }
}

/// Whether the chunks in `rest` reach the final chunk, after `total` body bytes:
/// `Ok(false)` while more bytes are needed, an error when a size line is not a hex
/// number or the body grows past the limit.
pub open spec fn spec_chunked_complete(rest: Seq<u8>, total: nat) -> Result<bool, ErrorView>
    decreases rest.len(),
{
    match find_seq(rest, crlf_bytes()) {
        None => Ok(false),
        Some(le) => {
            proof {
                lemma_find_seq(rest, crlf_bytes());
            }
            let line = rest.subrange(0, le);
            let r2 = rest.subrange(le + 2, rest.len() as int);
            if !valid_utf8(line) {
                Err(ErrorView::InvalidChunk("non-utf8 size"@))
            } else {
                match parse_unsigned(trim(decode_utf8(line)), 16, usize::MAX as nat) {
                    None => Err(ErrorView::InvalidChunk(decode_utf8(line))),
                    Some(size) => if size == 0 {
                        Ok(r2.len() >= 2)
                    } else if total + size > MAX_BODY {
                        Err(ErrorView::BodyTooLarge { max: MAX_BODY as nat })
                    } else if r2.len() < size + 2 {
                        Ok(false)
                    } else {
                        spec_chunked_complete(r2.subrange(size + 2int, r2.len() as int), total + size)
                    },
                }
            }
        },
    }
}

/// Whether the whole body has arrived in `buf`, whose body starts at `body_start`.
pub open spec fn spec_body_complete(buf: Seq<u8>, body_start: int, framing: Framing) -> Result<
    bool,
    ErrorView,
> {
    match framing {
        Framing::Empty => Ok(true),
        Framing::ContentLength(n) => Ok(buf.len() >= body_start + n),
        Framing::Chunked => spec_chunked_complete(buf.subrange(body_start, buf.len() as int), 0),
    }
}

/// The body framing of the reply head in `buf`: the index where the body starts (just
/// after `\r\n\r\n`) and the framing that its headers select.
pub fn head_framing(buf: &[u8]) -> (r: Option<(usize, Framing)>)
    ensures
        r matches Some(p) ==> spec_head_framing(buf@) == Some((p.0 as int, p.1)) && p.0
            <= buf@.len(),
        r is None ==> spec_head_framing(buf@) is None,
{
    let he = match find_header_end(buf) {
        None => {
            return None;
        },
        Some(k) => k,
    };
    proof {
        lemma_find_seq(buf@, head_end_bytes());
        assert(head_end_bytes().len() == 4);
    }
    let n = buf.len();
    assert(header_end(buf@) == Some(he as int));
    assert(he + 4 <= n);
    let body_start = he + 4;
    let head = match decode_chars(&buf[0..he]) {
        None => {
            return None;
        },
        Some(v) => v,
    };
    let lines = split_crlf_chars(&head);
    proof {
        lemma_split_crlf_nonempty(head@);
    }
    let rest = &lines.as_slice()[1..lines.len()];
    assert(lines_view(rest@) =~= split_crlf(head@).drop_first());
    let hs = match parse_header_lines(rest) {
        Err(_) => {
            return None;
        },
        Ok(h) => h,
    };
    let ghost all = headers_view(hs@);
    assert(spec_head_framing(buf@) == match framing_from(all, Framing::Empty) {
        None => None,
        Some(f) => Some((body_start as int, f)),
    });
    let cl = content_length_vec();
    let te = transfer_encoding_vec();
    let ch = chunked_vec();
    let mut framing = Framing::Empty;
    let mut i: usize = 0;
    assert(all.subrange(0, all.len() as int) =~= all);
    while i < hs.len()
        invariant
            i <= hs@.len(),
            all == headers_view(hs@),
            cl@ == content_length_name(),
            te@ == transfer_encoding_name(),
            ch@ == chunked_word(),
            spec_head_framing(buf@) == match framing_from(all, Framing::Empty) {
                None => None,
                Some(f) => Some((body_start as int, f)),
            },
            framing_from(all, Framing::Empty) == framing_from(
                all.subrange(i as int, all.len() as int),
                framing,
            ),
        decreases hs@.len() - i,
    {
        let ghost tail = all.subrange(i as int, all.len() as int);
        assert(tail[0] == (hs@[i as int].0@, hs@[i as int].1@));
        assert(tail.drop_first() =~= all.subrange(i + 1, all.len() as int));
        let name = str_chars(hs[i].0.as_str());
        let value = str_chars(hs[i].1.as_str());
        assert(tail[0].0 == name@ && tail[0].1 == value@);
        if eq_ignore_case_exec(&name, &cl) {
            let t = trim_chars(&value);
            match parse_unsigned_exec(&t, 10, usize::MAX as u64) {
                None => {
                    assert(framing_from(tail, framing) is None);
                    return None;
                },
                Some(x) => {
                    framing = Framing::ContentLength(x as usize);
                },
            }
        } else {
            let t = trim_chars(&value);
            if eq_ignore_case_exec(&name, &te) && eq_ignore_case_exec(&t, &ch) {
                framing = Framing::Chunked;
            }
        }
        i = i + 1;
    }
    assert(all.subrange(i as int, all.len() as int) =~= Seq::<HeaderView>::empty());
    Some((body_start, framing))
}

/// Whether the chunked body in `rest` is complete: size lines are read as
/// `parse_chunked_body` reads them, and the final chunk of size zero must be followed by
/// two more bytes.
pub fn chunked_complete(rest: &[u8]) -> (r: Result<bool, ProtocolError>)
    ensures
        r matches Ok(b) ==> spec_chunked_complete(rest@, 0) == ok_v(b),
        r matches Err(e) ==> spec_chunked_complete(rest@, 0) == err_v::<bool>(e@),
{
    let n = rest.len();
    let mut pos: usize = 0;
    let mut total: usize = 0;
    let crlf_pat: [u8; 2] = [13, 10];
    assert(crlf_pat@ =~= crlf_bytes());
    assert(rest@.subrange(0, n as int) =~= rest@);
    loop
        invariant
            pos <= n == rest@.len(),
            crlf_pat@ == crlf_bytes(),
            total <= MAX_BODY,
            spec_chunked_complete(rest@, 0) == spec_chunked_complete(
                rest@.subrange(pos as int, n as int),
                total as nat,
            ),
        decreases n - pos,
    {
        let ghost cur = rest@.subrange(pos as int, n as int);
        let f = find_bytes(rest, &crlf_pat, pos);
        proof {
            lemma_find_in_suffix(rest@, crlf_bytes(), pos as int, match f {
                Some(k) => Some(k as int),
                None => None,
            });
        }
        let le = match f {
            None => {
                return Ok(false);
            },
            Some(k) => k,
        };
        assert(cur.subrange(0, le - pos) =~= rest@.subrange(pos as int, le as int));
        assert(cur.subrange(le - pos + 2, cur.len() as int) =~= rest@.subrange(le + 2, n as int));
        let size_chars = match decode_chars(&rest[pos..le]) {
            None => {
                return Err(ProtocolError::InvalidChunk(String::from_str("non-utf8 size")));
            },
            Some(v) => v,
        };
        let t = trim_chars(&size_chars);
        let size = match parse_unsigned_exec(&t, 16, usize::MAX as u64) {
            None => {
                return Err(ProtocolError::InvalidChunk(string_from_chars(&size_chars)));
            },
            Some(v) => v as usize,
        };
        let p2 = le + 2;
        let ghost r2 = rest@.subrange(p2 as int, n as int);
        if size == 0 {
            return Ok(n - p2 >= 2);
        }
        if size > MAX_BODY - total {
            return Err(ProtocolError::BodyTooLarge { max: MAX_BODY });
        }
        if n - p2 < size + 2 {
            return Ok(false);
        }
        assert(r2.subrange(size + 2int, r2.len() as int) =~= rest@.subrange(
            p2 + size + 2,
            n as int,
        ));
        total = total + size;
        pos = p2 + size + 2;
    }
}

/// Whether the body in `buf` from `body_start` on is complete under `framing`.
pub fn body_complete(buf: &[u8], body_start: usize, framing: &Framing) -> (r: Result<
    bool,
    ProtocolError,
>)
    requires
        *framing is Chunked ==> body_start <= buf@.len(),
    ensures
        r matches Ok(b) ==> spec_body_complete(buf@, body_start as int, *framing) == ok_v(b),
        r matches Err(e) ==> spec_body_complete(buf@, body_start as int, *framing) == err_v::<
            bool,
        >(e@),
{
    match framing {
        Framing::Empty => Ok(true),
        Framing::ContentLength(len) => {
            let n = buf.len();
            Ok(body_start <= n && n - body_start >= *len)
        },
        Framing::Chunked => chunked_complete(&buf[body_start..buf.len()]),
    }
}

/// A chunked body that `parse_chunked_body` reads in full, after `acc` bytes, is one
/// that `chunked_complete` counts as complete: the client stops reading no later than
/// the body can be parsed.
pub proof fn law_chunked_complete_when_parsable(rest: Seq<u8>, acc: Seq<u8>)
    requires
        spec_chunked(rest, acc) is Ok,
    ensures
        spec_chunked_complete(rest, acc.len()) == Ok::<bool, ErrorView>(true),
    decreases rest.len(),
{
    lemma_find_seq(rest, crlf_bytes());
    let le = find_seq(rest, crlf_bytes())->0;
    let r2 = rest.subrange(le + 2, rest.len() as int);
    let line = rest.subrange(0, le);
    let size = parse_unsigned(trim(decode_utf8(line)), 16, usize::MAX as nat)->0;
    if size != 0 {
        let next = r2.subrange(size + 2int, r2.len() as int);
        let acc2 = acc + r2.subrange(0, size as int);
        law_chunked_complete_when_parsable(next, acc2);
        assert(acc2.len() == acc.len() + size);
    }
}

/// Where a fetch stands: still reading the head, or reading a body that starts at the
/// given index and is framed as given.
#[derive(Debug, Clone, Copy, PartialEq, Eq, Structural)]
pub enum RecvPhase {
    Head,
    Body(usize, Framing),
}

/// What the reader does next: read more bytes and stay in the given phase, or finish
/// with this outcome.
#[derive(Debug)]
pub enum RecvAction {
    ReadMore(RecvPhase),
    Finish(Result<Response, ProtocolError>),
}

/// The mathematical value of a `RecvAction`.
pub enum ActionView {
    ReadMore(RecvPhase),
    Finish(Result<ResponseView, ErrorView>),
}

impl View for RecvAction {
    type V = ActionView;

    open spec fn view(&self) -> ActionView {
        match self {
            RecvAction::ReadMore(p) => ActionView::ReadMore(*p),
            RecvAction::Finish(Ok(r)) => ActionView::Finish(Ok(r@)),
            RecvAction::Finish(Err(e)) => ActionView::Finish(Err(e@)),
        }
    }
}

/// Largest reply head the client accepts, in bytes.
pub open spec fn max_reply_head() -> nat {
    (MAX_STATUS_LINE + MAX_HEADERS) as nat
}

/// The step once the head is in: when the body is complete the reply is parsed (as a
/// head alone for a `HEAD` request); a buffer that outgrows head and body limits is
/// refused; otherwise more bytes are read.
pub open spec fn spec_body_step(buf: Seq<u8>, head_req: bool, bs: usize, f: Framing) -> ActionView {
    match spec_body_complete(buf, bs as int, f) {
        Err(e) => ActionView::Finish(Err(e)),
        Ok(true) => ActionView::Finish(
            if head_req {
                spec_parse_response_head_only(buf)
            } else {
                spec_parse_response(buf)
            },
        ),
        Ok(false) => if buf.len() > max_reply_head() + MAX_BODY {
            ActionView::Finish(Err(ErrorView::BodyTooLarge { max: MAX_BODY as nat }))
        } else {
            ActionView::ReadMore(RecvPhase::Body(bs, f))
        },
    }
}

/// What the reader does with the bytes `buf` read so far in `phase`. While the head is
/// incomplete, a buffer over the head limit is refused; once it is complete, its framing
/// is taken (none for a `HEAD` request) and the body step follows at once.
pub open spec fn spec_next_action(buf: Seq<u8>, head_req: bool, phase: RecvPhase) -> ActionView {
    match phase {
        RecvPhase::Head => if header_end(buf) is Some {
            match spec_head_framing(buf) {
                None => ActionView::Finish(Err(ErrorView::MalformedLine("bad response head"@))),
                Some((bs, f)) => spec_body_step(
                    buf,
                    head_req,
                    bs as usize,
                    if head_req {
                        Framing::Empty
                    } else {
                        f
                    },
                ),
            }
        } else if buf.len() > max_reply_head() {
            ActionView::Finish(Err(ErrorView::HeadersTooLarge { max: MAX_HEADERS as nat }))
        } else {
            ActionView::ReadMore(RecvPhase::Head)
        },
        RecvPhase::Body(bs, f) => spec_body_step(buf, head_req, bs, f),
    }
}

fn body_step(buf: &[u8], is_head: bool, bs: usize, f: Framing) -> (r: RecvAction)
    requires
        f is Chunked ==> bs <= buf@.len(),
    ensures
        r@ == spec_body_step(buf@, is_head, bs, f),
{
    match body_complete(buf, bs, &f) {
        Err(e) => RecvAction::Finish(Err(e)),
        Ok(true) => RecvAction::Finish(
            if is_head {
                Response::parse_head(buf)
            } else {
                Response::parse(buf)
            },
        ),
        Ok(false) => if buf.len() > MAX_STATUS_LINE + MAX_HEADERS + MAX_BODY {
            RecvAction::Finish(Err(ProtocolError::BodyTooLarge { max: MAX_BODY }))
        } else {
            RecvAction::ReadMore(RecvPhase::Body(bs, f))
        },
    }
}

/// The next step of reading the reply to `request`, given all bytes `buf` read so far
/// and the phase that the previous step returned (`RecvPhase::Head` at first).
pub fn next_action(request: &Request, buf: &[u8], phase: RecvPhase) -> (r: RecvAction)
    requires
        phase matches RecvPhase::Body(bs, f) ==> (f is Chunked ==> bs <= buf@.len()),
    ensures
        r@ == spec_next_action(buf@, request@.method == head_word(), phase),
{
    let m = str_chars(request.method.as_str());
    let hw = vec!['H', 'E', 'A', 'D'];
    assert(hw@ =~= head_word());
    let is_head = chars_eq(&m, &hw);
    match phase {
        RecvPhase::Head => {
            if find_header_end(buf).is_some() {
                match head_framing(buf) {
                    None => RecvAction::Finish(
                        Err(ProtocolError::MalformedLine(String::from_str("bad response head"))),
                    ),
                    Some((bs, f)) => {
                        let f2 = if is_head {
                            Framing::Empty
                        } else {
                            f
                        };
                        body_step(buf, is_head, bs, f2)
                    },
                }
            } else if buf.len() > MAX_STATUS_LINE + MAX_HEADERS {
                RecvAction::Finish(Err(ProtocolError::HeadersTooLarge { max: MAX_HEADERS }))
            } else {
                RecvAction::ReadMore(RecvPhase::Head)
            }
        },
        RecvPhase::Body(bs, f) => body_step(buf, is_head, bs, f),
    }
}

/// The reader moves from the head to the body: the body's own deadline starts here.
pub fn starts_body(before: RecvPhase, after: RecvPhase) -> (r: bool)
    ensures
        r == (before is Head && after is Body),
{
    match (before, after) {
        (RecvPhase::Head, RecvPhase::Body(..)) => true,
        _ => false,
    }
}

/// The request that `fetch` sends for `url`: `GET` of the percent-encoded path, with a
/// `Host` header holding the host. A host must not hold CR or LF.
pub fn fetch_request(url: &SonionUrl) -> (r: Request)
    requires
        !url.host@.contains('\r'),
        !url.host@.contains('\n'),
    ensures
        r@ == (RequestView {
            method: get_word(),
            path: spec_encode_path(url.path@),
            headers: seq![(seq!['H', 'o', 's', 't'], url.host@)],
        }),
{
    let p = url.encoded_path();
    let host = "Host";
    proof {
        reveal_strlit("Host");
    }
    assert(host@ =~= seq!['H', 'o', 's', 't']);
    let r = Request::get(p.as_str()).header(host, url.host.as_str());
    assert(r@.headers =~= seq![(seq!['H', 'o', 's', 't'], url.host@)]);
    r
}

/// The ALPN protocol name, `sonion/1`.
pub open spec fn alpn_name() -> Seq<char> {
    seq!['s', 'o', 'n', 'i', 'o', 'n', '/', '1']
}

/// The peer agreed on `sonion/1`.
pub fn alpn_matches(negotiated: Option<&[u8]>) -> (r: bool)
    ensures
        r == (negotiated matches Some(p) && p@ == encode_utf8(alpn_name())),
{
    proof {
        reveal_strlit("sonion/1");
    }
    let want = ALPN.as_bytes();
    assert(ALPN@ == alpn_name());
    match negotiated {
        None => false,
        Some(p) => {
            if p.len() != want.len() {
                return false;
            }
            let mut i: usize = 0;
            while i < p.len()
                invariant
                    i <= p@.len() == want@.len(),
                    negotiated == Some(p),
                    want@ == encode_utf8(alpn_name()),
                    forall|j: int| 0 <= j < i ==> p@[j] == want@[j],
                decreases p@.len() - i,
            {
                if p[i] != want[i] {
                    assert(p@[i as int] != want@[i as int]);
                    assert(p@ != want@);
                    return false;
                }
                i = i + 1;
            }
            assert(p@ =~= want@);
            true
        },
    }
}

/// What `String::from_utf8_lossy` makes of the bytes `b`.
pub uninterp spec fn lossy_utf8(b: Seq<u8>) -> Seq<char>;

/// `String::from_utf8_lossy`, owned: its result is a function of the bytes alone, and
/// for valid UTF-8 it is the decoded text. What replaces invalid sequences is left to
/// std and not stated.
#[verifier::external_body]
fn utf8_lossy(b: &[u8]) -> (r: String)
    ensures
        r@ == lossy_utf8(b@),
        valid_utf8(b@) ==> r@ == decode_utf8(b@),
{
    String::from_utf8_lossy(b).into_owned()
}

/// Accepts the agreed ALPN protocol when it is `sonion/1`; otherwise `AlpnMismatch`
/// with what was agreed, as text.
pub fn check_alpn(negotiated: Option<&[u8]>) -> (r: Result<(), ClientError>)
    ensures
        r is Ok <==> (negotiated matches Some(p) && p@ == encode_utf8(alpn_name())),
        r is Err ==> (r matches Err(ClientError::AlpnMismatch(got)) && (match negotiated {
            None => got is None,
            Some(p) => got matches Some(t) && t@ == lossy_utf8(p@),
        })),
{
    if alpn_matches(negotiated) {
        Ok(())
    } else {
        match negotiated {
            None => Err(ClientError::AlpnMismatch(None)),
            Some(p) => Err(ClientError::AlpnMismatch(Some(utf8_lossy(p)))),
        }
    }
}

} // verus!
