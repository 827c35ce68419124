//! `sonion://host[:port]/path` URLs and percent-encoded paths.
use crate::error::{err_v, message, ok_v, ErrorView, ProtocolError};
use crate::head::{char_from_ascii, index_of, index_of_char};
use crate::num::{digit_char, parse_unsigned, parse_unsigned_exec};
use crate::response::push_chars;
use crate::text::{chars_eq, copy_range, lines_view, split_on, split_on_chars};
use crate::unicode::{decode_chars, str_chars, string_from_chars};
use crate::DEFAULT_PORT;
use vstd::prelude::*;
use vstd::utf8::{decode_utf8, encode_utf8, valid_utf8};

verus! {

/// Why percent-decoding stopped.
pub enum DecodeFailure {
    /// A `%` with fewer than two bytes after it.
    Truncated,
    /// The two bytes after a `%` are not UTF-8.
    NotText,
    /// The two chars after a `%` are not a hex number.
    NotHex(Seq<char>),
}

/// Percent-decodes the bytes `b` from index `i` on: `%` and two hex digits stand
/// for one byte, every other byte stands for itself.
pub open spec fn decode_bytes_from(b: Seq<u8>, i: int) -> Result<Seq<u8>, DecodeFailure>
    decreases b.len() - i,
{
    if i < 0 || i >= b.len() {
        Ok(seq![])
    } else if b[i] == 37u8 {
        if i + 2 >= b.len() {
            Err(DecodeFailure::Truncated)
        } else {
            let h = b.subrange(i + 1, i + 3);
            if !valid_utf8(h) {
                Err(DecodeFailure::NotText)
            } else {
                match parse_unsigned(decode_utf8(h), 16, 255) {
                    None => Err(DecodeFailure::NotHex(decode_utf8(h))),
                    Some(v) => match decode_bytes_from(b, i + 3) {
                        Err(e) => Err(e),
                        Ok(rest) => Ok(seq![v as u8] + rest),
                    },
                }
            }
        }
    } else {
        match decode_bytes_from(b, i + 1) {
            Err(e) => Err(e),
            Ok(rest) => Ok(seq![b[i]] + rest),
        }
    }
}

/// What `decode_path(s)` returns.
pub open spec fn spec_decode_path(s: Seq<char>) -> Result<Seq<char>, ErrorView> {
    match decode_bytes_from(encode_utf8(s), 0) {
        Err(DecodeFailure::Truncated) => Err(ErrorView::InvalidUrl("truncated % escape in: "@ + s)),
        Err(DecodeFailure::NotText) => Err(ErrorView::InvalidUrl("bad % escape in: "@ + s)),
        Err(DecodeFailure::NotHex(h)) => Err(
            ErrorView::InvalidUrl("bad % escape %"@ + h + " in: "@ + s),
        ),
        Ok(out) => if !valid_utf8(out) {
            Err(ErrorView::InvalidUrl("non-utf8 path: "@ + s))
        } else {
            Ok(decode_utf8(out))
        },
    }
}

/// Bytes that `encode_path` leaves as they are: ASCII letters, digits, `-._~/`.
pub open spec fn unreserved(x: u8) -> bool {
    (65 <= x && x <= 90) || (97 <= x && x <= 122) || (48 <= x && x <= 57) || x == 45 || x == 46
        || x == 95 || x == 126 || x == 47
}

/// One byte as `encode_path` writes it: itself, or `%` and two uppercase hex digits.
pub open spec fn encode_byte(x: u8) -> Seq<char> {
    if unreserved(x) {
        seq![x as char]
    } else {
        seq!['%', digit_char((x / 16) as nat, true), digit_char((x % 16) as nat, true)]
    }
}

/// Bytes percent-encoded one after the other.
pub open spec fn encode_bytes(b: Seq<u8>) -> Seq<char>
    decreases b.len(),
{
    if b.len() == 0 {
        seq![]
    } else {
        encode_bytes(b.drop_last()) + encode_byte(b.last())
    }
}

/// What `encode_path(s)` returns: the UTF-8 bytes of `s`, percent-encoded.
pub open spec fn spec_encode_path(s: Seq<char>) -> Seq<char> {
    encode_bytes(encode_utf8(s))
}

/// The segment `..`.
pub open spec fn dot_dot() -> Seq<char> {
    seq!['.', '.']
}

/// Resolves path segments onto `stack`: empty and `.` segments are dropped, `..` drops
/// the last segment kept; `None` when `..` finds nothing to drop.
pub open spec fn resolve_segments(segs: Seq<Seq<char>>, stack: Seq<Seq<char>>) -> Option<
    Seq<Seq<char>>,
>
    decreases segs.len(),
{
    if segs.len() == 0 {
        Some(stack)
    } else {
        let s = segs[0];
        if s.len() == 0 || s == seq!['.'] {
            resolve_segments(segs.drop_first(), stack)
        } else if s == dot_dot() {
            if stack.len() == 0 {
                None
            } else {
                resolve_segments(segs.drop_first(), stack.drop_last())
            }
        } else {
            resolve_segments(segs.drop_first(), stack.push(s))
        }
    }
}

/// Segments joined with `/`.
pub open spec fn join_slash(segs: Seq<Seq<char>>) -> Seq<char>
    decreases segs.len(),
{
    if segs.len() == 0 {
        seq![]
    } else if segs.len() == 1 {
        segs[0]
    } else {
        join_slash(segs.drop_last()) + seq!['/'] + segs.last()
    }
}

/// What `canonicalize_path(d)` returns.
pub open spec fn spec_canonicalize(d: Seq<char>) -> Result<Seq<char>, ErrorView> {
    if !(d.len() > 0 && d[0] == '/') {
        Err(ErrorView::InvalidUrl("path must start with '/': "@ + d))
    } else {
        match resolve_segments(split_on(d, seq!['/']), seq![]) {
            None => Err(ErrorView::InvalidUrl("path escapes root: "@ + d)),
            Some(st) => {
                let out = seq!['/'] + join_slash(st);
                Ok(
                    if d.last() == '/' && out.last() != '/' {
                        out.push('/')
                    } else {
                        out
                    },
                )
            },
        }
    }
}

/// Percent-decodes a path: `%XX` (two hex digits) is the byte `XX`; the bytes must
/// form UTF-8.
pub fn decode_path(s: &str) -> (r: Result<String, ProtocolError>)
    ensures
        r matches Ok(p) ==> spec_decode_path(s@) == ok_v(p@),
        r matches Err(e) ==> spec_decode_path(s@) == err_v::<Seq<char>>(e@),
{
    let bytes = s.as_bytes();
    let sc = str_chars(s);
    let n = bytes.len();
    let mut out: Vec<u8> = Vec::new();
    let mut i: usize = 0;
    let ghost b = bytes@;
    assert(b == encode_utf8(s@));
    while i < n
        invariant
            i <= n == b.len(),
            b == bytes@,
            b == encode_utf8(s@),
            sc@ == s@,
            decode_bytes_from(b, 0) == (match decode_bytes_from(b, i as int) {
                Err(e) => Err(e),
                Ok(rest) => Ok(out@ + rest),
            }),
        decreases n - i,
    {
        if bytes[i] == 37u8 {
            if n - i <= 2 {
                assert(decode_bytes_from(b, i as int) == Err::<Seq<u8>, DecodeFailure>(
                    DecodeFailure::Truncated,
                ));
                return Err(ProtocolError::InvalidUrl(message("truncated % escape in: ", &sc)));
            }
            let hb = &bytes[i + 1..i + 3];
            let h = match decode_chars(hb) {
                None => {
                    assert(decode_bytes_from(b, i as int) == Err::<Seq<u8>, DecodeFailure>(
                        DecodeFailure::NotText,
                    ));
                    return Err(ProtocolError::InvalidUrl(message("bad % escape in: ", &sc)));
                },
                Some(h) => h,
            };
            match parse_unsigned_exec(&h, 16, 255) {
                None => {
                    let mut m = str_chars("bad % escape %");
                    push_chars(&mut m, &h);
                    let tail = str_chars(" in: ");
                    push_chars(&mut m, &tail);
                    push_chars(&mut m, &sc);
                    return Err(ProtocolError::InvalidUrl(string_from_chars(&m)));
                },
                Some(v) => {
                    let ghost prev = out@;
                    out.push(v as u8);
                    assert(out@ =~= prev + seq![v as u8]);
                    assert forall|rest: Seq<u8>| #![auto] prev + (seq![v as u8] + rest) =~= out@ + rest by {}
                    i = i + 3;
                },
            }
        } else {
            let ghost prev = out@;
            out.push(bytes[i]);
            assert(out@ =~= prev + seq![b[i as int]]);
            assert forall|rest: Seq<u8>| #![auto] prev + (seq![b[i as int]] + rest) =~= out@ + rest by {}
            i = i + 1;
        }
    }
    assert(out@ + Seq::<u8>::empty() =~= out@);
    match decode_chars(&out) {
        None => Err(ProtocolError::InvalidUrl(message("non-utf8 path: ", &sc))),
        Some(v) => Ok(string_from_chars(&v)),
    }
}

/// One byte percent-encoded.
fn push_encoded_byte(out: &mut Vec<char>, x: u8)
    ensures
        final(out)@ == old(out)@ + encode_byte(x),
{
    if (65 <= x && x <= 90) || (97 <= x && x <= 122) || (48 <= x && x <= 57) || x == 45 || x == 46
        || x == 95 || x == 126 || x == 47 {
        let c = char_from_ascii(x as u32);
        out.push(c);
        assert(c == x as char);
    } else {
        out.push('%');
        let mut d: Vec<char> = Vec::new();
        crate::num::push_digits(&mut d, (x / 16) as u64, 16, true);
        crate::num::push_digits(&mut d, (x % 16) as u64, 16, true);
        assert(d@.len() == 2);
        assert(d@[0] == digit_char((x / 16) as nat, true));
        assert(d@[1] == digit_char((x % 16) as nat, true));
        push_chars(out, &d);
    }
    assert(final(out)@ =~= old(out)@ + encode_byte(x));
}

/// Percent-encodes the UTF-8 bytes of `s`: ASCII letters, digits and `-._~/` stay,
/// every other byte becomes `%` and two uppercase hex digits.
pub fn encode_path(s: &str) -> (r: String)
    ensures
        r@ == spec_encode_path(s@),
{
    let bytes = s.as_bytes();
    let mut out: Vec<char> = Vec::new();
    let mut i: usize = 0;
    assert(bytes@.subrange(0, 0) =~= Seq::<u8>::empty());
    while i < bytes.len()
        invariant
            i <= bytes@.len(),
            out@ == encode_bytes(bytes@.subrange(0, i as int)),
        decreases bytes@.len() - i,
    {
        push_encoded_byte(&mut out, bytes[i]);
        proof {
            let p = bytes@.subrange(0, i + 1);
            assert(p.drop_last() =~= bytes@.subrange(0, i as int));
            assert(p.last() == bytes@[i as int]);
        }
        i = i + 1;
    }
    assert(bytes@.subrange(0, bytes@.len() as int) =~= bytes@);
    string_from_chars(&out)
}

/// Resolves `.` and `..` segments of an absolute path; `..` must not climb above the
/// root. Empty segments vanish, and a trailing `/` is kept.
pub fn canonicalize_path(decoded: &str) -> (r: Result<String, ProtocolError>)
    ensures
        r matches Ok(p) ==> spec_canonicalize(decoded@) == ok_v(p@),
        r matches Err(e) ==> spec_canonicalize(decoded@) == err_v::<Seq<char>>(e@),
{
    let d = str_chars(decoded);
    if !(d.len() > 0 && d[0] == '/') {
        return Err(ProtocolError::InvalidUrl(message("path must start with '/': ", &d)));
    }
    let slash = vec!['/'];
    assert(slash@ =~= seq!['/']);
    let segs = split_on_chars(&d, &slash);
    let ghost all = lines_view(segs@);
    let mut stack: Vec<Vec<char>> = Vec::new();
    let mut i: usize = 0;
    assert(all.subrange(0, all.len() as int) =~= all);
    assert(lines_view(stack@) =~= Seq::<Seq<char>>::empty());
    while i < segs.len()
        invariant
            i <= segs@.len(),
            all == lines_view(segs@),
            all == split_on(d@, seq!['/']),
            d@ == decoded@,
            d@.len() > 0 && d@[0] == '/',
            resolve_segments(all, seq![]) == resolve_segments(
                all.subrange(i as int, all.len() as int),
                lines_view(stack@),
            ),
        decreases segs@.len() - i,
    {
        let ghost tail = all.subrange(i as int, all.len() as int);
        assert(tail[0] == segs@[i as int]@);
        assert(tail.drop_first() =~= all.subrange(i + 1, all.len() as int));
        let s = &segs[i];
        let dot = vec!['.'];
        let dotdot = vec!['.', '.'];
        assert(dot@ =~= seq!['.']);
        assert(dotdot@ =~= dot_dot());
        if s.len() == 0 || chars_eq(s, &dot) {
        } else if chars_eq(s, &dotdot) {
            if stack.len() == 0 {
                return Err(ProtocolError::InvalidUrl(message("path escapes root: ", &d)));
            }
            let ghost prev = lines_view(stack@);
            stack.pop();
            assert(lines_view(stack@) =~= prev.drop_last());
        } else {
            let ghost prev = lines_view(stack@);
            stack.push(copy_range(s, 0, s.len()));
            assert(s@.subrange(0, s@.len() as int) =~= s@);
            assert(lines_view(stack@) =~= prev.push(s@));
        }
        i = i + 1;
    }
    assert(all.subrange(i as int, all.len() as int) =~= Seq::<Seq<char>>::empty());
    let ghost st = lines_view(stack@);
    let mut out: Vec<char> = vec!['/'];
    let mut k: usize = 0;
    while k < stack.len()
        invariant
            k <= stack@.len(),
            st == lines_view(stack@),
            out@ == seq!['/'] + join_slash(st.subrange(0, k as int)),
        decreases stack@.len() - k,
    {
        let ghost before = out@;
        if k > 0 {
            out.push('/');
        }
        push_chars(&mut out, &stack[k]);
        proof {
            let p = st.subrange(0, k + 1);
            assert(p.drop_last() =~= st.subrange(0, k as int));
            assert(p.last() == stack@[k as int]@);
            if k == 0 {
                assert(out@ =~= seq!['/'] + join_slash(p));
            } else {
                assert(out@ =~= seq!['/'] + join_slash(p));
            }
        }
        k = k + 1;
    }
    assert(st.subrange(0, k as int) =~= st);
    if d[d.len() - 1] == '/' && out[out.len() - 1] != '/' {
        out.push('/');
    }
    Ok(string_from_chars(&out))
}

/// `sonion://`.
pub open spec fn scheme_prefix() -> Seq<char> {
    seq!['s', 'o', 'n', 'i', 'o', 'n', ':', '/', '/']
}

/// Index of the last occurrence of `c` in `s`.
pub open spec fn last_index_of(s: Seq<char>, c: char) -> Option<int>
    decreases s.len(),
{
    if s.len() == 0 {
        None
    } else if s.last() == c {
        Some(s.len() - 1)
    } else {
        last_index_of(s.drop_last(), c)
    }
}

/// The mathematical value of a URL.
pub struct UrlView {
    pub host: Seq<char>,
    pub port: u16,
    pub path: Seq<char>,
}

/// A parsed `sonion://` URL; `path` is decoded and canonical.
#[derive(Debug, Clone, PartialEq, Eq)]
pub struct SonionUrl {
    pub host: String,
    pub port: u16,
    pub path: String,
}

impl View for SonionUrl {
    type V = UrlView;

    open spec fn view(&self) -> UrlView {
        UrlView { host: self.host@, port: self.port, path: self.path@ }
    }
}

/// Host and port of an authority `host[:port]`.
pub open spec fn spec_host_port(authority: Seq<char>) -> Result<(Seq<char>, u16), ErrorView> {
    match last_index_of(authority, ':') {
        Some(j) => {
            let p = authority.subrange(j + 1, authority.len() as int);
            match parse_unsigned(p, 10, 0xffff) {
                None => Err(ErrorView::InvalidUrl("bad port: "@ + p)),
                Some(port) => Ok((authority.subrange(0, j), port as u16)),
            }
        },
        None => Ok((authority, DEFAULT_PORT)),
    }
}

/// What `SonionUrl::parse(input)` returns.
pub open spec fn spec_parse_url(input: Seq<char>) -> Result<UrlView, ErrorView> {
    if !(input.len() >= 9 && input.subrange(0, 9) == scheme_prefix()) {
        Err(ErrorView::InvalidUrl("missing scheme: "@ + input))
    } else {
        let rest = input.subrange(9, input.len() as int);
        let (authority, path) = match index_of(rest, '/') {
            Some(i) => (rest.subrange(0, i), rest.subrange(i, rest.len() as int)),
            None => (rest, seq!['/']),
        };
        if authority.len() == 0 {
            Err(ErrorView::InvalidUrl("empty host"@))
        } else {
            match spec_host_port(authority) {
                Err(e) => Err(e),
                Ok((host, port)) => if host.len() == 0 {
                    Err(ErrorView::InvalidUrl("empty host"@))
                } else {
                    match spec_decode_path(path) {
                        Err(e) => Err(e),
                        Ok(dp) => match spec_canonicalize(dp) {
                            Err(e) => Err(e),
                            Ok(cp) => Ok(UrlView { host, port, path: cp }),
                        },
                    }
                },
            }
        }
    }
}

/// Index of the last `c` in `v`.
pub(crate) fn last_index_of_char(v: &[char], c: char) -> (r: Option<usize>)
    ensures
        r matches Some(k) ==> k < v@.len() && last_index_of(v@, c) == Some(k as int),
        r is None ==> last_index_of(v@, c) is None,
{
    let mut j = v.len();
    assert(v@.subrange(0, j as int) =~= v@);
    while j > 0
        invariant
            j <= v@.len(),
            last_index_of(v@, c) == last_index_of(v@.subrange(0, j as int), c),
        decreases j,
    {
        let ghost p = v@.subrange(0, j as int);
        assert(p.last() == v@[j - 1]);
        assert(p.drop_last() =~= v@.subrange(0, j - 1));
        if v[j - 1] == c {
            return Some(j - 1);
        }
        j = j - 1;
    }
    None
}

/// Host and port of an authority.
fn host_port(authority: &[char]) -> (r: Result<(Vec<char>, u16), ProtocolError>)
    ensures
        r matches Ok(p) ==> spec_host_port(authority@) == ok_v((p.0@, p.1)),
        r matches Err(e) ==> spec_host_port(authority@) == err_v::<(Seq<char>, u16)>(e@),
{
    let n = authority.len();
    match last_index_of_char(authority, ':') {
        Some(j) => {
            let p = copy_range(authority, j + 1, n);
            match parse_unsigned_exec(&p, 10, 0xffff) {
                None => Err(ProtocolError::InvalidUrl(message("bad port: ", &p))),
                Some(port) => Ok((copy_range(authority, 0, j), port as u16)),
            }
        },
        None => {
            let a = copy_range(authority, 0, authority.len());
            assert(authority@.subrange(0, authority@.len() as int) =~= authority@);
            Ok((a, DEFAULT_PORT))
        },
    }
}

impl SonionUrl {
    /// Reads `sonion://host[:port][/path]`: the port defaults to 6767 and the path to
    /// `/`; the path is percent-decoded and then canonicalized.
    pub fn parse(input: &str) -> (r: Result<SonionUrl, ProtocolError>)
        ensures
            r matches Ok(u) ==> spec_parse_url(input@) == ok_v(u@),
            r matches Err(e) ==> spec_parse_url(input@) == err_v::<UrlView>(e@),
    {
        let v = str_chars(input);
        let prefix = vec!['s', 'o', 'n', 'i', 'o', 'n', ':', '/', '/'];
        assert(prefix@ =~= scheme_prefix());
        if !(v.len() >= 9 && chars_eq(&v.as_slice()[0..9], &prefix)) {
            return Err(ProtocolError::InvalidUrl(message("missing scheme: ", &v)));
        }
        let rest = copy_range(&v, 9, v.len());
        let (authority, path) = match index_of_char(&rest, '/') {
            Some(i) => (copy_range(&rest, 0, i), copy_range(&rest, i, rest.len())),
            None => {
                let a = copy_range(&rest, 0, rest.len());
                assert(rest@.subrange(0, rest@.len() as int) =~= rest@);
                let p = vec!['/'];
                assert(p@ =~= seq!['/']);
                (a, p)
            },
        };
        if authority.len() == 0 {
            return Err(ProtocolError::InvalidUrl(String::from_str("empty host")));
        }
        let (host, port) = match host_port(&authority) {
            Err(e) => {
                return Err(e);
            },
            Ok(p) => p,
        };
        if host.len() == 0 {
            return Err(ProtocolError::InvalidUrl(String::from_str("empty host")));
        }
        let path_str = string_from_chars(&path);
        let decoded = match decode_path(path_str.as_str()) {
            Err(e) => {
                return Err(e);
            },
            Ok(d) => d,
        };
        let canonical = match canonicalize_path(decoded.as_str()) {
            Err(e) => {
                return Err(e);
            },
            Ok(c) => c,
        };
        Ok(SonionUrl { host: string_from_chars(&host), port, path: canonical })
    }

    /// The path percent-encoded, as it is sent in a request line.
    pub fn encoded_path(&self) -> (r: String)
        ensures
            r@ == spec_encode_path(self.path@),
    {
        encode_path(self.path.as_str())
    }
}

impl Default for SonionUrl {
    /// No host, port 6767, path `/`.
    fn default() -> (r: SonionUrl)
        ensures
            r@ == (UrlView { host: seq![], port: DEFAULT_PORT, path: seq!['/'] }),
    {
        let p = vec!['/'];
        assert(p@ =~= seq!['/']);
        SonionUrl { host: String::new(), port: DEFAULT_PORT, path: string_from_chars(&p) }
    }
}

} // verus!
