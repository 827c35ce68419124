//! The decisions of the static file server: when a request head is complete, which file
//! a request path names, what response each outcome of reading it gets, and how the
//! response goes on the wire. Sockets, TLS and the file system belong to the caller.
use crate::error::{ok_v, ProtocolError};
use crate::head::{find_header_end, header_end, without_header, HeaderView};
use crate::limits::{MAX_BODY, MAX_HEADERS, MAX_REQUEST_LINE};
use crate::num::dec;
use crate::response::push_bytes;
use crate::request::{head_word, spec_parse_request, Request, RequestView};
use crate::response::{
    content_length_name, spec_serialize, spec_serialize_chunked, spec_serialize_head, Response,
    ResponseView, Status,
};
use crate::text::{chars_eq, lines_view, split_on, split_on_chars};
use crate::unicode::{str_chars, string_from_chars};
use crate::url::{decode_path, last_index_of, last_index_of_char, spec_decode_path};
use vstd::utf8::encode_utf8;
use vstd::prelude::*;

verus! {

/// Why the server could not start.
#[derive(Debug)]
pub enum ServerError {
    /// Binding or reading failed.
    Io(std::io::Error),
    /// The certificate or key could not be used.
    TlsIdentity(String),
}

/// Bodies longer than this many bytes are sent in chunks.
pub const CHUNK_THRESHOLD: usize = 256 * 1024;

/// Size of each chunk of a chunked body.
pub const CHUNK_SIZE: usize = 16 * 1024;

/// Largest request head the server reads, in bytes.
pub const MAX_REQUEST_HEAD: usize = MAX_REQUEST_LINE + MAX_HEADERS + 4;

/// `Content-Type`.
pub open spec fn content_type_name() -> Seq<char> {
    seq!['C', 'o', 'n', 't', 'e', 'n', 't', '-', 'T', 'y', 'p', 'e']
}

/// The segment climbs out of its directory where `\` is a separator too: one of its
/// pieces between backslashes is `..`.
pub open spec fn climbs_by_backslash(s: Seq<char>) -> bool {
    split_on(s, seq!['\\']).contains(seq!['.', '.'])
}

/// A path segment that names an entry inside its directory: not empty, not `.` or
/// `..`, free of `/`, `:` and NUL, and without a `..` piece between backslashes.
pub open spec fn safe_segment(s: Seq<char>) -> bool {
    &&& s.len() > 0
    &&& s != seq!['.']
    &&& s != seq!['.', '.']
    &&& !s.contains('/')
    &&& !climbs_by_backslash(s)
    &&& !s.contains(':')
    &&& !s.contains('\0')
}

/// The segments of `segs` to follow below the root, after `acc`: empty and `.`
/// segments are skipped; `..`, a segment with a `..` piece between backslashes, or a
/// segment holding `:` or NUL refuses the path.
pub open spec fn fs_segments(segs: Seq<Seq<char>>, acc: Seq<Seq<char>>) -> Option<Seq<Seq<char>>>
    decreases segs.len(),
{
    if segs.len() == 0 {
        Some(acc)
    } else {
        let s = segs[0];
        if s.len() == 0 || s == seq!['.'] {
            fs_segments(segs.drop_first(), acc)
        } else if s == seq!['.', '.'] {
            None
        } else if climbs_by_backslash(s) || s.contains(':') || s.contains('\0') {
            None
        } else {
            fs_segments(segs.drop_first(), acc.push(s))
        }
    }
}

/// The segments below the root that a request path names: the path percent-decoded,
/// split at `/`; `None` when it does not decode or is refused.
pub open spec fn spec_resolve_path(p: Seq<char>) -> Option<Seq<Seq<char>>> {
    match spec_decode_path(p) {
        Err(_) => None,
        Ok(d) => fs_segments(split_on(d, seq!['/']), seq![]),
    }
}

fn contains_char(v: &[char], c: char) -> (r: bool)
    ensures
        r == v@.contains(c),
{
    let mut i: usize = 0;
    while i < v.len()
        invariant
            i <= v@.len(),
            forall|j: int| 0 <= j < i ==> v@[j] != c,
        decreases v@.len() - i,
    {
        if v[i] == c {
            assert(v@[i as int] == c);
            return true;
        }
        i = i + 1;
    }
    false
}

fn backslash_climbs(s: &[char]) -> (r: bool)
    ensures
        r == climbs_by_backslash(s@),
{
    let bs = vec!['\\'];
    assert(bs@ =~= seq!['\\']);
    let pieces = split_on_chars(s, &bs);
    let dots = vec!['.', '.'];
    assert(dots@ =~= seq!['.', '.']);
    let ghost all = lines_view(pieces@);
    let mut i: usize = 0;
    while i < pieces.len()
        invariant
            i <= pieces@.len(),
            all == lines_view(pieces@),
            all == split_on(s@, seq!['\\']),
            dots@ == seq!['.', '.'],
            forall|j: int| 0 <= j < i ==> all[j] != seq!['.', '.'],
        decreases pieces@.len() - i,
    {
        if chars_eq(pieces[i].as_slice(), &dots) {
            assert(all[i as int] == seq!['.', '.']);
            return true;
        }
        i = i + 1;
    }
    assert(!all.contains(seq!['.', '.']));
    false
}

/// The segments below the root that the request path `request_path` names, in order;
/// the caller joins them onto the root. `None` for a path that does not percent-decode,
/// that holds a `..` segment, a segment with a `..` piece between backslashes (which
/// would climb where `\` separates), or a segment with `:` or NUL.
pub fn resolve_path(request_path: &str) -> (r: Option<Vec<String>>)
    ensures
        r matches Some(v) ==> spec_resolve_path(request_path@) == Some(
            v@.map_values(|s: String| s@),
        ),
        r is None ==> spec_resolve_path(request_path@) is None,
{
    let decoded = match decode_path(request_path) {
        Err(_) => {
            return None;
        },
        Ok(d) => d,
    };
    let d = str_chars(decoded.as_str());
    let slash = vec!['/'];
    assert(slash@ =~= seq!['/']);
    let segs = split_on_chars(&d, &slash);
    let ghost all = lines_view(segs@);
    let mut out: Vec<String> = Vec::new();
    let mut i: usize = 0;
    assert(all.subrange(0, all.len() as int) =~= all);
    assert(out@.map_values(|s: String| s@) =~= Seq::<Seq<char>>::empty());
    while i < segs.len()
        invariant
            i <= segs@.len(),
            all == lines_view(segs@),
            spec_resolve_path(request_path@) == fs_segments(all, seq![]),
            fs_segments(all, seq![]) == fs_segments(
                all.subrange(i as int, all.len() as int),
                out@.map_values(|s: String| s@),
            ),
        decreases segs@.len() - i,
    {
        let ghost tail = all.subrange(i as int, all.len() as int);
        let s = segs[i].as_slice();
        assert(tail[0] == s@);
        assert(tail.drop_first() =~= all.subrange(i + 1, all.len() as int));
        let dot = vec!['.'];
        let dots = vec!['.', '.'];
        assert(dot@ =~= seq!['.']);
        assert(dots@ =~= seq!['.', '.']);
        if s.len() == 0 || chars_eq(s, &dot) {
        } else if chars_eq(s, &dots) {
            return None;
        } else if backslash_climbs(s) || contains_char(s, ':') || contains_char(s, '\0') {
            return None;
        } else {
            let ghost prev = out@.map_values(|s: String| s@);
            out.push(string_from_chars(s));
            assert(out@.map_values(|s: String| s@) =~= prev.push(s@));
        }
        i = i + 1;
    }
    assert(all.subrange(i as int, all.len() as int) =~= Seq::<Seq<char>>::empty());
    Some(out)
}

proof fn lemma_fs_segments_safe(segs: Seq<Seq<char>>, acc: Seq<Seq<char>>)
    requires
        forall|i: int| 0 <= i < segs.len() ==> !(#[trigger] segs[i]).contains('/'),
        forall|i: int| 0 <= i < acc.len() ==> safe_segment(#[trigger] acc[i]),
    ensures
        fs_segments(segs, acc) matches Some(out) ==> forall|i: int|
            0 <= i < out.len() ==> safe_segment(#[trigger] out[i]),
    decreases segs.len(),
{
    if segs.len() > 0 {
        let s = segs[0];
        assert forall|i: int| 0 <= i < segs.drop_first().len() implies !(
        #[trigger] segs.drop_first()[i]).contains('/') by {
            assert(segs.drop_first()[i] == segs[i + 1]);
        }
        if s.len() == 0 || s == seq!['.'] {
            lemma_fs_segments_safe(segs.drop_first(), acc);
        } else if s == seq!['.', '.'] {
        } else if climbs_by_backslash(s) || s.contains(':') || s.contains('\0') {
        } else {
            assert(!segs[0].contains('/'));
            let acc2 = acc.push(s);
            assert forall|i: int| 0 <= i < acc2.len() implies safe_segment(#[trigger] acc2[i]) by {
                if i < acc.len() {
                    assert(acc2[i] == acc[i]);
                }
            }
            lemma_fs_segments_safe(segs.drop_first(), acc2);
        }
    }
}

/// Every segment that a request path resolves to names an entry inside its directory,
/// so the joined path never leaves the root: no `..`, no `.`, no empty segment, and no
/// `/`, `:` or NUL inside a segment, and no `..` between backslashes.
pub proof fn law_resolved_path_stays_below_root(p: Seq<char>)
    ensures
        spec_resolve_path(p) matches Some(segs) ==> forall|i: int|
            0 <= i < segs.len() ==> safe_segment(#[trigger] segs[i]),
{
    if let Ok(d) = spec_decode_path(p) {
        crate::text::lemma_split_char_free(d, '/');
        lemma_fs_segments_safe(split_on(d, seq!['/']), seq![]);
    }
}

/// `text/plain`.
pub open spec fn text_plain() -> Seq<char> {
    seq!['t', 'e', 'x', 't', '/', 'p', 'l', 'a', 'i', 'n']
}

/// `text/html`.
pub open spec fn text_html() -> Seq<char> {
    seq!['t', 'e', 'x', 't', '/', 'h', 't', 'm', 'l']
}

/// A response with the given status and body, its `Content-Length`, and the
/// `Content-Type` `ct`.
pub open spec fn typed_view(status: Status, body: Seq<u8>, ct: Seq<char>) -> ResponseView {
    ResponseView {
        status,
        headers: seq![(content_length_name(), dec(body.len())), (content_type_name(), ct)],
        body,
    }
}

/// A response with the given status and body, its `Content-Length`, and the
/// `Content-Type` `ct`, which must not hold CR or LF.
pub fn typed_response(status: Status, body: Vec<u8>, ct: &str) -> (r: Response)
    requires
        !ct@.contains('\r'),
        !ct@.contains('\n'),
    ensures
        r@ == typed_view(status, body@, ct@),
{
    let ghost b = body@;
    let mut resp = Response::new(status, body);
    let name = "Content-Type";
    proof {
        reveal_strlit("Content-Type");
    }
    assert(name@ =~= content_type_name());
    resp.set_header(name, ct);
    proof {
        let h0: HeaderView = (content_length_name(), dec(b.len()));
        assert(!crate::head::eq_ignore_case(content_length_name(), content_type_name()));
        assert(seq![h0].drop_first() =~= Seq::<HeaderView>::empty());
        assert(seq![h0][0] == h0);
        assert(without_header(Seq::<HeaderView>::empty(), content_type_name()) =~= Seq::<
            HeaderView,
        >::empty());
        assert(without_header(seq![h0], content_type_name()) == seq![h0] + without_header(
            Seq::<HeaderView>::empty(),
            content_type_name(),
        ));
        assert(without_header(seq![h0], content_type_name()) =~= seq![h0]);
    }
    assert(resp@.headers =~= seq![
        (content_length_name(), dec(b.len())),
        (content_type_name(), ct@),
    ]);
    resp
}

/// A response with `Content-Type: text/plain`.
pub fn simple(status: Status, body: &[u8]) -> (r: Response)
    ensures
        r@ == typed_view(status, body@, text_plain()),
{
    let mut v: Vec<u8> = Vec::new();
    push_bytes(&mut v, body);
    assert(v@ =~= body@);
    let ct = "text/plain";
    proof {
        reveal_strlit("text/plain");
    }
    assert(ct@ =~= text_plain());
    typed_response(status, v, ct)
}

/// What `mime_guess` guesses from the extension of a file name.
pub uninterp spec fn mime_for(file_name: Seq<char>) -> Seq<char>;

/// `mime_guess::from_path(file_name).first_or_octet_stream()`, as text. The guess
/// depends on the name's extension alone; the crate's table holds media types without
/// line breaks, and its fallback is `application/octet-stream`. Which type each
/// extension gets is the crate's table and is not stated.
#[verifier::external_body]
fn guess_mime(file_name: &str) -> (r: String)
    ensures
        r@ == mime_for(file_name@),
        !r@.contains('\r'),
        !r@.contains('\n'),
{
    mime_guess::from_path(file_name).first_or_octet_stream().to_string()
}

/// The response for a file that was read: status OK, its bytes, and the media type
/// guessed from the file's name.
pub fn served_file(file_name: &str, body: Vec<u8>) -> (r: Response)
    ensures
        r@ == typed_view(Status::OK, body@, mime_for(file_name@)),
{
    let mime = guess_mime(file_name);
    typed_response(Status::OK, body, mime.as_str())
}

/// The last segment of a request path: what follows its last `/`.
pub open spec fn last_segment(p: Seq<char>) -> Seq<char> {
    match last_index_of(p, '/') {
        None => p,
        Some(i) => p.subrange(i + 1, p.len() as int),
    }
}

/// The request path names a file rather than a route: its last segment holds a `.`.
pub fn looks_like_file(request_path: &str) -> (r: bool)
    ensures
        r == last_segment(request_path@).contains('.'),
{
    let p = str_chars(request_path);
    let n = p.len();
    match last_index_of_char(&p, '/') {
        None => contains_char(&p, '.'),
        Some(i) => {
            let tail = &p.as_slice()[i + 1..n];
            contains_char(tail, '.')
        },
    }
}

/// The segments below the root that a request path names, or the response that refuses
/// it: `400 invalid path`.
pub fn resolve_or_reject(request_path: &str) -> (r: Result<Vec<String>, Response>)
    ensures
        r matches Ok(v) ==> spec_resolve_path(request_path@) == Some(
            v@.map_values(|s: String| s@),
        ),
        r matches Err(resp) ==> spec_resolve_path(request_path@) is None && resp@ == typed_view(
            Status::BadRequest,
            encode_utf8("invalid path"@),
            text_plain(),
        ),
{
    match resolve_path(request_path) {
        Some(v) => Ok(v),
        None => {
            let m = "invalid path";
            Err(simple(Status::BadRequest, m.as_bytes()))
        },
    }
}

/// The file to read: a directory stands for its `index.html`.
pub fn file_segments(segments: Vec<String>, is_dir: bool) -> (r: Vec<String>)
    ensures
        r@.map_values(|s: String| s@) == if is_dir {
            segments@.map_values(|s: String| s@).push(
                seq!['i', 'n', 'd', 'e', 'x', '.', 'h', 't', 'm', 'l'],
            )
        } else {
            segments@.map_values(|s: String| s@)
        },
{
    if is_dir {
        let mut v = segments;
        let ghost prev = v@.map_values(|s: String| s@);
        let idx = "index.html";
        proof {
            reveal_strlit("index.html");
        }
        assert(idx@ =~= seq!['i', 'n', 'd', 'e', 'x', '.', 'h', 't', 'm', 'l']);
        v.push(String::from_str(idx));
        assert(v@.map_values(|s: String| s@) =~= prev.push(idx@));
        v
    } else {
        segments
    }
}

/// The response before reading a file: `413 payload too large` for a regular file
/// longer than the body limit, else none.
pub fn size_check(is_file: bool, len: u64) -> (r: Option<Response>)
    ensures
        r is Some <==> (is_file && len > MAX_BODY),
        r matches Some(resp) ==> resp@ == typed_view(
            Status::PayloadTooLarge,
            encode_utf8("payload too large"@),
            text_plain(),
        ),
{
    if is_file && len > MAX_BODY as u64 {
        let m = "payload too large";
        Some(simple(Status::PayloadTooLarge, m.as_bytes()))
    } else {
        None
    }
}

/// How reading the requested file went.
pub enum FileRead {
    Found(Vec<u8>),
    Missing,
    Failed,
}

/// What follows reading the requested file: a response, or reading the root's
/// `index.html` in its place.
pub enum AfterRead {
    Respond(Response),
    TryIndex,
}

/// The step after reading the requested file `file_name` for the request path
/// `request_path`: its bytes are served; a missing file is `404 not found` when the path
/// looks like a file and falls back to the root's `index.html` otherwise; any other
/// failure is `500 internal server error`.
pub fn after_file_read(request_path: &str, file_name: &str, read: FileRead) -> (r: AfterRead)
    ensures
        match read {
            FileRead::Found(body) => r matches AfterRead::Respond(resp) && resp@ == typed_view(
                Status::OK,
                body@,
                mime_for(file_name@),
            ),
            FileRead::Missing => if last_segment(request_path@).contains('.') {
                r matches AfterRead::Respond(resp) && resp@ == typed_view(
                    Status::NotFound,
                    encode_utf8("not found"@),
                    text_plain(),
                )
            } else {
                r is TryIndex
            },
            FileRead::Failed => r matches AfterRead::Respond(resp) && resp@ == typed_view(
                Status::InternalServerError,
                encode_utf8("internal server error"@),
                text_plain(),
            ),
        },
{
    match read {
        FileRead::Found(body) => AfterRead::Respond(served_file(file_name, body)),
        FileRead::Missing => {
            if looks_like_file(request_path) {
                let m = "not found";
                AfterRead::Respond(simple(Status::NotFound, m.as_bytes()))
            } else {
                AfterRead::TryIndex
            }
        },
        FileRead::Failed => {
            let m = "internal server error";
            AfterRead::Respond(simple(Status::InternalServerError, m.as_bytes()))
        },
    }
}

/// The response once the root's `index.html` was read in place of a missing route: its
/// bytes as `text/html`, or `404 not found` when it cannot be read.
pub fn after_index_read(read: Option<Vec<u8>>) -> (r: Response)
    ensures
        match read {
            Some(body) => r@ == typed_view(Status::OK, body@, text_html()),
            None => r@ == typed_view(Status::NotFound, encode_utf8("not found"@), text_plain()),
        },
{
    match read {
        Some(body) => {
            let ct = "text/html";
            proof {
                reveal_strlit("text/html");
            }
            assert(ct@ =~= text_html());
            typed_response(Status::OK, body, ct)
        },
        None => {
            let m = "not found";
            simple(Status::NotFound, m.as_bytes())
        },
    }
}

/// The bytes sent for `response` to `request`: the head alone for `HEAD`, chunks of
/// `CHUNK_SIZE` bytes for a body over `CHUNK_THRESHOLD` bytes, else head and body.
pub fn wire_bytes(request: &Request, response: &Response) -> (r: Vec<u8>)
    ensures
        r@ == if request@.method == head_word() {
            spec_serialize_head(response@)
        } else if response@.body.len() > CHUNK_THRESHOLD {
            spec_serialize_chunked(response@, CHUNK_SIZE as nat)
        } else {
            spec_serialize(response@)
        },
{
    let m = str_chars(request.method.as_str());
    let hw = vec!['H', 'E', 'A', 'D'];
    assert(hw@ =~= head_word());
    if chars_eq(&m, &hw) {
        response.serialize_head()
    } else if response.body.len() > CHUNK_THRESHOLD {
        response.serialize_chunked(CHUNK_SIZE)
    } else {
        response.serialize()
    }
}

/// What the server does with the bytes of a connection read so far.
pub enum ConnStep {
    /// The head is not complete yet: read more.
    ReadMore,
    /// The head outgrew the limit: send these bytes and close.
    TooLarge(Vec<u8>),
    /// The head cannot be read: send these bytes and close.
    Malformed(Vec<u8>),
    /// Serve this request.
    Serve(Request),
}

/// The next step of a connection given the bytes `buf` read so far: a complete head is
/// parsed (`400 bad request` when it cannot be); an incomplete one over
/// `MAX_REQUEST_HEAD` bytes gets `400 request head too large`.
pub fn conn_step(buf: &[u8]) -> (r: ConnStep)
    ensures
        header_end(buf@) is Some ==> match spec_parse_request(buf@) {
            Ok(req) => r matches ConnStep::Serve(q) && q@ == req,
            Err(_) => r matches ConnStep::Malformed(w) && w@ == spec_serialize(
                typed_view(Status::BadRequest, encode_utf8("bad request"@), text_plain()),
            ),
        },
        header_end(buf@) is None ==> if buf@.len() > MAX_REQUEST_HEAD {
            r matches ConnStep::TooLarge(w) && w@ == spec_serialize(
                typed_view(
                    Status::BadRequest,
                    encode_utf8("request head too large"@),
                    text_plain(),
                ),
            )
        } else {
            r is ReadMore
        },
{
    if find_header_end(buf).is_some() {
        match Request::parse(buf) {
            Ok(req) => ConnStep::Serve(req),
            Err(_) => {
                let m = "bad request";
                ConnStep::Malformed(simple(Status::BadRequest, m.as_bytes()).serialize())
            },
        }
    } else if buf.len() > MAX_REQUEST_HEAD {
        let m = "request head too large";
        ConnStep::TooLarge(simple(Status::BadRequest, m.as_bytes()).serialize())
    } else {
        ConnStep::ReadMore
    }
}

/// The non-empty pieces of `segs`, in order.
pub open spec fn nonempty_pieces(segs: Seq<Seq<char>>) -> Seq<Seq<char>>
    decreases segs.len(),
{
    if segs.len() == 0 {
        seq![]
    } else if segs[0].len() == 0 {
        nonempty_pieces(segs.drop_first())
    } else {
        seq![segs[0]] + nonempty_pieces(segs.drop_first())
    }
}

/// A name that the server serves as it is: not empty, not `.` or `..`, without `:` or
/// NUL, and with no `..` between backslashes.
pub open spec fn servable_name(s: Seq<char>) -> bool {
    &&& s.len() > 0
    &&& s != seq!['.']
    &&& s != seq!['.', '.']
    &&& !s.contains(':')
    &&& !s.contains('\0')
    &&& !split_on(s, seq!['\\']).contains(seq!['.', '.'])
}

proof fn lemma_fs_segments_complete(segs: Seq<Seq<char>>, acc: Seq<Seq<char>>)
    requires
        forall|i: int|
            0 <= i < segs.len() ==> (#[trigger] segs[i]).len() == 0 || servable_name(segs[i]),
    ensures
        fs_segments(segs, acc) == Some(acc + nonempty_pieces(segs)),
    decreases segs.len(),
{
    if segs.len() == 0 {
        assert(acc + Seq::<Seq<char>>::empty() =~= acc);
    } else {
        let s = segs[0];
        let rest = segs.drop_first();
        assert forall|i: int| 0 <= i < rest.len() implies (#[trigger] rest[i]).len() == 0
            || servable_name(rest[i]) by {
            assert(rest[i] == segs[i + 1]);
        }
        if s.len() == 0 {
            lemma_fs_segments_complete(rest, acc);
        } else {
            assert(servable_name(s));
            lemma_fs_segments_complete(rest, acc.push(s));
            assert(acc.push(s) + nonempty_pieces(rest) =~= acc + (seq![s] + nonempty_pieces(rest)));
        }
    }
}

/// Every request path whose decoded pieces between `/` are all empty or servable names
/// resolves:
/// to exactly its non-empty pieces, in order. With
/// `law_resolved_path_stays_below_root`, a path resolves exactly when it decodes and
/// names only servable names (empty and `.` pieces aside).
pub proof fn law_safe_paths_resolve(p: Seq<char>)
    requires
        spec_decode_path(p) is Ok,
        forall|i: int|
            0 <= i < split_on(spec_decode_path(p)->Ok_0, seq!['/']).len() ==> (#[trigger] split_on(
                spec_decode_path(p)->Ok_0,
                seq!['/'],
            )[i]).len() == 0 || servable_name(split_on(spec_decode_path(p)->Ok_0, seq!['/'])[i]),
    ensures
        spec_resolve_path(p) == Some(
            nonempty_pieces(split_on(spec_decode_path(p)->Ok_0, seq!['/'])),
        ),
{
    let segs = split_on(spec_decode_path(p)->Ok_0, seq!['/']);
    lemma_fs_segments_complete(segs, seq![]);
    assert(Seq::<Seq<char>>::empty() + nonempty_pieces(segs) =~= nonempty_pieces(segs));
}

} // verus!
