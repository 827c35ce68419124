//! The head of a message: where it ends, and its header lines.
use crate::error::{err_v, ok_v, ErrorView, ProtocolError};
use crate::text::{
    find_seq, lemma_find_seq, lemma_find_seq_intro, lemma_find_seq_none, lines_view, matches_at,
    trim, trim_chars,
};
use crate::unicode::{str_chars, string_from_chars};
use vstd::prelude::*;

verus! {

/// Line terminator.
pub const CRLF: &'static str = "\r\n";

/// Protocol version written in request and status lines.
pub const VERSION: &'static str = "SONION/1.0";

/// The chars of the protocol version, `SONION/1.0`.
pub open spec fn version_chars() -> Seq<char> {
    seq!['S', 'O', 'N', 'I', 'O', 'N', '/', '1', '.', '0']
}

/// The bytes `\r\n`.
pub open spec fn crlf_bytes() -> Seq<u8> {
    seq![13u8, 10u8]
}

/// The bytes `\r\n\r\n` that end a head.
pub open spec fn head_end_bytes() -> Seq<u8> {
    seq![13u8, 10u8, 13u8, 10u8]
}

/// Index of the first `\r\n\r\n` in `b`.
pub open spec fn header_end(b: Seq<u8>) -> Option<int> {
    find_seq(b, head_end_bytes())
}

/// The protocol version as chars.
pub fn version_vec() -> (r: Vec<char>)
    ensures
        r@ == version_chars(),
{
    let r = vec!['S', 'O', 'N', 'I', 'O', 'N', '/', '1', '.', '0'];
    assert(r@ =~= version_chars());
    r
}

/// Index of the first occurrence of `pat` in `b` at or after `from`.
pub fn find_bytes(b: &[u8], pat: &[u8], from: usize) -> (r: Option<usize>)
    requires
        from <= b@.len(),
    ensures
        r matches Some(k) ==> from <= k && matches_at(b@, pat@, k as int) && forall|j: int|
            from <= j < k ==> !#[trigger] matches_at(b@, pat@, j),
        r is None ==> forall|j: int| from <= j ==> !#[trigger] matches_at(b@, pat@, j),
{
    let n = b.len();
    let m = pat.len();
    if m > n {
        return None;
    }
    let mut i = from;
    while i <= n - m
        invariant
            from <= i,
            m <= n == b@.len(),
            m == pat@.len(),
            forall|j: int| from <= j < i ==> !#[trigger] matches_at(b@, pat@, j),
        decreases n + 1 - i,
    {
        let mut k: usize = 0;
        let mut same = true;
        while k < m
            invariant
                k <= m == pat@.len(),
                i + m <= n == b@.len(),
                same <==> forall|t: int| 0 <= t < k ==> b@[i + t] == pat@[t],
            decreases m - k,
        {
            if b[i + k] != pat[k] {
                same = false;
            }
            k = k + 1;
        }
        if same {
            assert(b@.subrange(i as int, i + m) =~= pat@);
            return Some(i);
        }
        proof {
            if matches_at(b@, pat@, i as int) {
                let t = choose|t: int| 0 <= t < m && b@[i + t] != pat@[t];
                assert(b@.subrange(i as int, i + m)[t] == b@[i + t]);
            }
        }
        i = i + 1;
    }
    None
}

/// Index of the first `\r\n\r\n` in `bytes`, which ends the head of a message.
pub fn find_header_end(bytes: &[u8]) -> (r: Option<usize>)
    ensures
        r matches Some(k) ==> header_end(bytes@) == Some(k as int),
        r is None ==> header_end(bytes@) is None,
{
    let pat: [u8; 4] = [13, 10, 13, 10];
    assert(pat@ =~= head_end_bytes());
    let r = find_bytes(bytes, &pat, 0);
    proof {
        lemma_find_seq(bytes@, head_end_bytes());
        match r {
            Some(k) => lemma_find_seq_intro(bytes@, head_end_bytes(), k as int),
            None => lemma_find_seq_none(bytes@, head_end_bytes()),
        }
    }
    r
}

/// A header as a pair of char sequences.
pub type HeaderView = (Seq<char>, Seq<char>);

/// The headers of a vector of string pairs.
pub open spec fn headers_view(h: Seq<(String, String)>) -> Seq<HeaderView> {
    h.map_values(|p: (String, String)| (p.0@, p.1@))
}

/// Index of the first occurrence of `c` in `s`.
pub open spec fn index_of(s: Seq<char>, c: char) -> Option<int> {
    find_seq(s, seq![c])
}

/// One header line read: `None` for an empty line, else the trimmed name and value
/// around the first `:`; the name must not be empty.
pub open spec fn spec_header_line(line: Seq<char>) -> Result<Option<HeaderView>, ErrorView> {
    if line.len() == 0 {
        Ok(None)
    } else {
        match index_of(line, ':') {
            None => Err(ErrorView::InvalidHeader(line)),
            Some(i) => {
                let name = trim(line.subrange(0, i));
                if name.len() == 0 {
                    Err(ErrorView::InvalidHeader(line))
                } else {
                    Ok(Some((name, trim(line.subrange(i + 1, line.len() as int)))))
                }
            },
        }
    }
}

/// Header lines read in order; the first bad line decides the error.
pub open spec fn spec_parse_headers(lines: Seq<Seq<char>>) -> Result<Seq<HeaderView>, ErrorView>
    decreases lines.len(),
{
    if lines.len() == 0 {
        Ok(seq![])
    } else {
        match spec_header_line(lines[0]) {
            Err(e) => Err(e),
            Ok(h) => match spec_parse_headers(lines.drop_first()) {
                Err(e) => Err(e),
                Ok(rest) => Ok(
                    match h {
                        None => rest,
                        Some(p) => seq![p] + rest,
                    },
                ),
            },
        }
    }
}

/// Index of the first `c` in `v`.
pub fn index_of_char(v: &[char], c: char) -> (r: Option<usize>)
    ensures
        r matches Some(k) ==> k < v@.len() && v@[k as int] == c && index_of(v@, c) == Some(
            k as int,
        ),
        r is None ==> index_of(v@, c) is None,
{
    let mut i: usize = 0;
    while i < v.len()
        invariant
            i <= v@.len(),
            forall|j: int| 0 <= j < i ==> v@[j] != c,
        decreases v@.len() - i,
    {
        if v[i] == c {
            proof {
                assert(v@.subrange(i as int, i + 1) =~= seq![c]);
                assert forall|j: int| 0 <= j < i implies !#[trigger] matches_at(v@, seq![c], j) by {
                    assert(v@.subrange(j, j + 1)[0] == v@[j]);
                }
                lemma_find_seq_intro(v@, seq![c], i as int);
            }
            return Some(i);
        }
        i = i + 1;
    }
    proof {
        assert forall|j: int| 0 <= j implies !#[trigger] matches_at(v@, seq![c], j) by {
            if matches_at(v@, seq![c], j) {
                assert(v@.subrange(j, j + 1)[0] == v@[j]);
            }
        }
        lemma_find_seq_none(v@, seq![c]);
    }
    None
}

/// Reads one header line.
fn header_line(line: &[char]) -> (r: Result<Option<(String, String)>, ProtocolError>)
    ensures
        r matches Ok(h) ==> spec_header_line(line@) == ok_v(
            match h {
                None => None::<HeaderView>,
                Some(p) => Some((p.0@, p.1@)),
            },
        ),
        r matches Err(e) ==> spec_header_line(line@) == err_v::<Option<HeaderView>>(e@),
{
    if line.len() == 0 {
        return Ok(None);
    }
    match index_of_char(line, ':') {
        None => Err(ProtocolError::InvalidHeader(string_from_chars(line))),
        Some(i) => {
            let name = trim_chars(&line[0..i]);
            if name.len() == 0 {
                return Err(ProtocolError::InvalidHeader(string_from_chars(line)));
            }
            let value = trim_chars(&line[i + 1..line.len()]);
            Ok(Some((string_from_chars(&name), string_from_chars(&value))))
        },
    }
}

/// Reads header lines; empty lines are skipped, and each other line must be
/// `name: value` with a non-empty name. Names and values are trimmed.
pub fn parse_header_lines(lines: &[Vec<char>]) -> (r: Result<Vec<(String, String)>, ProtocolError>)
    ensures
        r matches Ok(h) ==> spec_parse_headers(lines_view(lines@)) == ok_v(headers_view(h@)),
        r matches Err(e) ==> spec_parse_headers(lines_view(lines@)) == err_v::<Seq<HeaderView>>(e@),
{
    let mut out: Vec<(String, String)> = Vec::new();
    let mut i: usize = 0;
    let ghost all = lines_view(lines@);
    assert(all.subrange(0, all.len() as int) =~= all);
    while i < lines.len()
        invariant
            i <= lines@.len(),
            all == lines_view(lines@),
            spec_parse_headers(all) == (match spec_parse_headers(
                all.subrange(i as int, all.len() as int),
            ) {
                Err(e) => Err(e),
                Ok(rest) => Ok(headers_view(out@) + rest),
            }),
        decreases lines@.len() - i,
    {
        let ghost tail = all.subrange(i as int, all.len() as int);
        assert(tail[0] == lines@[i as int]@);
        assert(tail.drop_first() =~= all.subrange(i + 1, all.len() as int));
        match header_line(lines[i].as_slice()) {
            Err(e) => {
                return Err(e);
            },
            Ok(h) => {
                let ghost prev = headers_view(out@);
                match h {
                    None => {},
                    Some(p) => {
                        out.push(p);
                        proof {
                            assert(headers_view(out@) =~= prev.push((p.0@, p.1@)));
                            assert forall|rest: Seq<HeaderView>|
                                #![auto]
                                headers_view(out@) + rest =~= prev + (seq![(p.0@, p.1@)] + rest) by {
                            }
                        }
                    },
                }
                i = i + 1;
                proof {
                    if h is None {
                        assert(headers_view(out@) == prev);
                    }
                }
            },
        }
    }
    proof {
        assert(all.subrange(i as int, all.len() as int) =~= Seq::<Seq<char>>::empty());
        assert(headers_view(out@) + Seq::<HeaderView>::empty() =~= headers_view(out@));
    }
    Ok(out)
}

/// Reads header lines given as strings; see [`parse_header_lines`].
pub fn parse_headers(lines: &[&str]) -> (r: Result<Vec<(String, String)>, ProtocolError>)
    ensures
        r matches Ok(h) ==> spec_parse_headers(lines@.map_values(|l: &str| l@)) == ok_v(headers_view(h@)),
        r matches Err(e) ==> spec_parse_headers(lines@.map_values(|l: &str| l@)) == err_v::<Seq<HeaderView>>(e@),
{
    let mut v: Vec<Vec<char>> = Vec::new();
    let mut i: usize = 0;
    while i < lines.len()
        invariant
            i <= lines@.len(),
            lines_view(v@) == lines@.map_values(|l: &str| l@).subrange(0, i as int),
        decreases lines@.len() - i,
    {
        let ghost prev = lines_view(v@);
        let c = str_chars(lines[i]);
        assert(c@ == lines@.map_values(|l: &str| l@)[i as int]);
        v.push(c);
        assert(lines_view(v@) =~= prev.push(c@));
        i = i + 1;
        assert(lines_view(v@) =~= lines@.map_values(|l: &str| l@).subrange(0, i as int));
    }
    assert(lines@.map_values(|l: &str| l@).subrange(0, i as int) =~= lines@.map_values(
        |l: &str| l@,
    ));
    parse_header_lines(&v)
}

/// ASCII lowercase of `c`.
pub open spec fn ascii_lower(c: char) -> char {
    if 'A' <= c && c <= 'Z' {
        ((c as u32) + 32) as char
    } else {
        c
    }
}

/// `a` and `b` are equal up to ASCII case, as `str::eq_ignore_ascii_case` decides.
pub open spec fn eq_ignore_case(a: Seq<char>, b: Seq<char>) -> bool {
    a.len() == b.len() && forall|i: int| 0 <= i < a.len() ==> ascii_lower(#[trigger] a[i]) == ascii_lower(b[i])
}

fn ascii_lower_exec(c: char) -> (r: char)
    ensures
        r == ascii_lower(c),
{
    if 'A' <= c && c <= 'Z' {
        let v = c as u32 + 32;
        let r = char_from_ascii(v);
        r
    } else {
        c
    }
}

/// The char with ASCII code `v`.
pub fn char_from_ascii(v: u32) -> (r: char)
    requires
        v < 128,
    ensures
        r == v as char,
{
    let table: [char; 128] = [
        '\u{0}', '\u{1}', '\u{2}', '\u{3}', '\u{4}', '\u{5}', '\u{6}', '\u{7}', '\u{8}', '\t',
        '\n', '\u{b}', '\u{c}', '\r', '\u{e}', '\u{f}', '\u{10}', '\u{11}', '\u{12}', '\u{13}',
        '\u{14}', '\u{15}', '\u{16}', '\u{17}', '\u{18}', '\u{19}', '\u{1a}', '\u{1b}', '\u{1c}',
        '\u{1d}', '\u{1e}', '\u{1f}', ' ', '!', '"', '#', '$', '%', '&', '\'', '(', ')', '*',
        '+', ',', '-', '.', '/', '0', '1', '2', '3', '4', '5', '6', '7', '8', '9', ':', ';',
        '<', '=', '>', '?', '@', 'A', 'B', 'C', 'D', 'E', 'F', 'G', 'H', 'I', 'J', 'K', 'L',
        'M', 'N', 'O', 'P', 'Q', 'R', 'S', 'T', 'U', 'V', 'W', 'X', 'Y', 'Z', '[', '\\', ']',
        '^', '_', '`', 'a', 'b', 'c', 'd', 'e', 'f', 'g', 'h', 'i', 'j', 'k', 'l', 'm', 'n',
        'o', 'p', 'q', 'r', 's', 't', 'u', 'v', 'w', 'x', 'y', 'z', '{', '|', '}', '~', '\u{7f}',
    ];
    let r = table[v as usize];
    assert(r == v as char) by {
        assert(table@[v as int] == v as char);
    }
    r
}

/// Equality up to ASCII case.
pub fn eq_ignore_case_exec(a: &[char], b: &[char]) -> (r: bool)
    ensures
        r == eq_ignore_case(a@, b@),
{
    if a.len() != b.len() {
        return false;
    }
    let mut i: usize = 0;
    while i < a.len()
        invariant
            i <= a@.len() == b@.len(),
            forall|j: int| 0 <= j < i ==> ascii_lower(#[trigger] a@[j]) == ascii_lower(b@[j]),
        decreases a@.len() - i,
    {
        if ascii_lower_exec(a[i]) != ascii_lower_exec(b[i]) {
            return false;
        }
        i = i + 1;
    }
    true
}

/// Value of the first header whose name equals `name` up to ASCII case.
pub open spec fn spec_get_header(h: Seq<HeaderView>, name: Seq<char>) -> Option<Seq<char>>
    decreases h.len(),
{
    if h.len() == 0 {
        None
    } else if eq_ignore_case(h[0].0, name) {
        Some(h[0].1)
    } else {
        spec_get_header(h.drop_first(), name)
    }
}

/// The headers whose name differs from `name` up to ASCII case, in order.
pub open spec fn without_header(h: Seq<HeaderView>, name: Seq<char>) -> Seq<HeaderView>
    decreases h.len(),
{
    if h.len() == 0 {
        seq![]
    } else if eq_ignore_case(h[0].0, name) {
        without_header(h.drop_first(), name)
    } else {
        seq![h[0]] + without_header(h.drop_first(), name)
    }
}

/// Index of the first header of `h` named `name` up to ASCII case.
pub fn find_header(h: &Vec<(String, String)>, name: &[char]) -> (r: Option<usize>)
    ensures
        r matches Some(k) ==> k < h@.len() && spec_get_header(headers_view(h@), name@) == Some(
            h@[k as int].1@,
        ),
        r is None ==> spec_get_header(headers_view(h@), name@) is None,
{
    let mut i: usize = 0;
    let ghost all = headers_view(h@);
    assert(all.subrange(0, all.len() as int) =~= all);
    while i < h.len()
        invariant
            i <= h@.len(),
            all == headers_view(h@),
            spec_get_header(all, name@) == spec_get_header(
                all.subrange(i as int, all.len() as int),
                name@,
            ),
        decreases h@.len() - i,
    {
        let n = str_chars(h[i].0.as_str());
        let ghost tail = all.subrange(i as int, all.len() as int);
        assert(tail[0] == (h@[i as int].0@, h@[i as int].1@));
        assert(tail.drop_first() =~= all.subrange(i + 1, all.len() as int));
        if eq_ignore_case_exec(&n, name) {
            return Some(i);
        }
        i = i + 1;
    }
    None
}

} // verus!
