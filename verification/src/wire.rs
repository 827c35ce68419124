//! Facts about the text of a head: lines joined by `\r\n`, how they split again,
//! and where the first empty line stands.
use crate::head::{index_of, spec_header_line, spec_parse_headers, HeaderView};
use crate::text::{
    crlf, find_seq, is_trimmed, is_ws, lemma_find_seq, lemma_find_seq_intro, lemma_find_seq_none,
    lemma_trim_is_trimmed, lemma_trim_subrange, lemma_trim_ws_prefix, matches_at, split_crlf,
    split_on, trim,
};
use vstd::prelude::*;

verus! {

/// `s` holds no `\r\n`.
pub open spec fn no_crlf(s: Seq<char>) -> bool {
    forall|j: int| !#[trigger] matches_at(s, crlf(), j)
}

/// A line that a head can hold: not empty, no `\r\n` inside, not ending with `\r`.
pub open spec fn good_line(l: Seq<char>) -> bool {
    l.len() > 0 && no_crlf(l) && l.last() != '\r'
}

/// Lines joined with `\r\n` between them.
pub open spec fn join_crlf(lines: Seq<Seq<char>>) -> Seq<char>
    decreases lines.len(),
{
    if lines.len() == 0 {
        seq![]
    } else if lines.len() == 1 {
        lines[0]
    } else {
        lines[0] + crlf() + join_crlf(lines.drop_first())
    }
}

/// The four chars `\r\n\r\n`.
pub open spec fn blank_line() -> Seq<char> {
    crlf() + crlf()
}

/// A sequence without any `\r` holds no `\r\n`.
pub proof fn lemma_no_cr_no_crlf(s: Seq<char>)
    requires
        forall|i: int| 0 <= i < s.len() ==> #[trigger] s[i] != '\r',
    ensures
        no_crlf(s),
{
    assert forall|j: int| !#[trigger] matches_at(s, crlf(), j) by {
        if matches_at(s, crlf(), j) {
            assert(s.subrange(j, j + 2)[0] == s[j]);
        }
    }
}

/// A part of a sequence without `\r\n` has none either.
pub proof fn lemma_no_crlf_subrange(s: Seq<char>, a: int, b: int)
    requires
        no_crlf(s),
        0 <= a <= b <= s.len(),
    ensures
        no_crlf(s.subrange(a, b)),
{
    let t = s.subrange(a, b);
    assert forall|j: int| !#[trigger] matches_at(t, crlf(), j) by {
        if matches_at(t, crlf(), j) {
            assert(t.subrange(j, j + 2) =~= s.subrange(j + a, j + a + 2));
            assert(matches_at(s, crlf(), j + a));
        }
    }
}

/// In `l + \r\n + rest` with `l` free of `\r\n`, the first `\r\n` follows `l`.
pub proof fn lemma_first_crlf_after(l: Seq<char>, rest: Seq<char>)
    requires
        no_crlf(l),
    ensures
        find_seq(l + crlf() + rest, crlf()) == Some(l.len() as int),
{
    let s = l + crlf() + rest;
    assert(s.subrange(l.len() as int, l.len() + 2int) =~= crlf());
    assert forall|j: int| 0 <= j < l.len() implies !#[trigger] matches_at(s, crlf(), j) by {
        if matches_at(s, crlf(), j) {
            if j + 2 <= l.len() {
                assert(l.subrange(j, j + 2) =~= s.subrange(j, j + 2));
                assert(matches_at(l, crlf(), j));
            } else {
                assert(s.subrange(j, j + 2)[1] == s[j + 1]);
                assert(s[j + 1] == '\r');
            }
        }
    }
    lemma_find_seq_intro(s, crlf(), l.len() as int);
}

/// Lines free of `\r\n` come back from splitting their join.
pub proof fn lemma_split_join(lines: Seq<Seq<char>>)
    requires
        lines.len() >= 1,
        forall|i: int| 0 <= i < lines.len() ==> no_crlf(#[trigger] lines[i]),
    ensures
        split_crlf(join_crlf(lines)) == lines,
    decreases lines.len(),
{
    if lines.len() == 1 {
        let l = lines[0];
        assert forall|j: int| 0 <= j implies !#[trigger] matches_at(l, crlf(), j) by {}
        lemma_find_seq_none(l, crlf());
        assert(split_on(l, crlf()) =~= seq![l]);
        assert(lines =~= seq![l]);
    } else {
        let l = lines[0];
        let rest = lines.drop_first();
        assert forall|i: int| 0 <= i < rest.len() implies no_crlf(#[trigger] rest[i]) by {
            assert(rest[i] == lines[i + 1]);
        }
        lemma_split_join(rest);
        let j = join_crlf(rest);
        let s = l + crlf() + j;
        assert(join_crlf(lines) == s);
        lemma_first_crlf_after(l, j);
        assert(s.subrange(0, l.len() as int) =~= l);
        assert(s.subrange(l.len() + 2int, s.len() as int) =~= j);
        assert(split_on(s, crlf()) == seq![l] + split_on(j, crlf()));
        assert(lines =~= seq![l] + rest);
    }
}

/// In good lines joined and followed by an empty line, the first `\r\n\r\n` is the one
/// after the last line.
pub proof fn lemma_blank_after_join(lines: Seq<Seq<char>>)
    requires
        lines.len() >= 1,
        forall|i: int| 0 <= i < lines.len() ==> good_line(#[trigger] lines[i]),
    ensures
        find_seq(join_crlf(lines) + blank_line(), blank_line()) == Some(
            join_crlf(lines).len() as int,
        ),
    decreases lines.len(),
{
    let j = join_crlf(lines);
    let s = j + blank_line();
    let bl = blank_line();
    assert(s.subrange(j.len() as int, j.len() + 4int) =~= bl);
    let l = lines[0];
    assert(good_line(l));
    if lines.len() == 1 {
        assert forall|k: int| 0 <= k < j.len() implies !#[trigger] matches_at(s, bl, k) by {
            if matches_at(s, bl, k) {
                assert(s.subrange(k, k + 4)[0] == s[k]);
                assert(s.subrange(k, k + 4)[1] == s[k + 1]);
                assert(s.subrange(k, k + 4)[2] == s[k + 2]);
                if k + 2 <= l.len() {
                    assert(l.subrange(k, k + 2) =~= crlf());
                    assert(matches_at(l, crlf(), k));
                } else if k + 1 == l.len() {
                    assert(l.last() == s[k]);
                } else {
                    assert(k + 2 <= l.len() || k + 1 == l.len());
                }
            }
        }
    } else {
        let rest = lines.drop_first();
        assert forall|i: int| 0 <= i < rest.len() implies good_line(#[trigger] rest[i]) by {
            assert(rest[i] == lines[i + 1]);
        }
        lemma_blank_after_join(rest);
        let jr = join_crlf(rest);
        let sr = jr + bl;
        assert(j == l + crlf() + jr);
        let off = l.len() + 2;
        assert(rest[0] == lines[1]);
        assert(good_line(rest[0]));
        lemma_join_starts(rest);
        assert forall|k: int| 0 <= k < j.len() implies !#[trigger] matches_at(s, bl, k) by {
            if matches_at(s, bl, k) {
                assert(s.subrange(k, k + 4)[0] == s[k]);
                assert(s.subrange(k, k + 4)[1] == s[k + 1]);
                assert(s.subrange(k, k + 4)[2] == s[k + 2]);
                assert(s.subrange(k, k + 4)[3] == s[k + 3]);
                if k + 2 <= l.len() {
                    assert(l.subrange(k, k + 2) =~= crlf());
                    assert(matches_at(l, crlf(), k));
                } else if k + 1 == l.len() {
                    assert(l.last() == s[k]);
                } else if k == l.len() {
                    assert(s[k + 2] == jr[0]);
                    assert(s[k + 3] == jr[1]);
                    let f = rest[0];
                    if f.len() >= 2 {
                        assert(f.subrange(0, 2) =~= crlf());
                        assert(matches_at(f, crlf(), 0));
                    } else {
                        assert(f.last() == f[0]);
                    }
                } else if k == l.len() + 1 {
                    assert(s[k] == '\n');
                } else {
                    assert(s.subrange(k, k + 4) =~= sr.subrange(k - off, k - off + 4));
                    assert(matches_at(sr, bl, k - off));
                    lemma_find_seq(sr, bl);
                }
            }
        }
    }
    lemma_find_seq_intro(s, bl, j.len() as int);
}

/// Joined good lines start with the first line, which has at least one char, and
/// with at least two chars when the first line has.
proof fn lemma_join_starts(lines: Seq<Seq<char>>)
    requires
        lines.len() >= 1,
        lines[0].len() >= 1,
    ensures
        join_crlf(lines).len() >= lines[0].len(),
        forall|i: int| 0 <= i < lines[0].len() ==> #[trigger] join_crlf(lines)[i] == lines[0][i],
{
    if lines.len() > 1 {
        assert(join_crlf(lines) == lines[0] + crlf() + join_crlf(lines.drop_first()));
    }
}

/// `x + \r\n + the lines of hs` written one per line, is the join of `x` and those lines,
/// then `\r\n`.
pub proof fn lemma_lines_text(x: Seq<char>, lines: Seq<Seq<char>>)
    ensures
        x + crlf() + lines_text(lines) == join_crlf(seq![x] + lines) + crlf(),
    decreases lines.len(),
{
    if lines.len() == 0 {
        assert(seq![x] + lines =~= seq![x]);
        assert(x + crlf() + lines_text(lines) =~= x + crlf());
    } else {
        let l = lines[0];
        let rest = lines.drop_first();
        lemma_lines_text(l, rest);
        assert((seq![x] + lines).drop_first() =~= seq![l] + rest);
        assert(lines_text(lines) == l + crlf() + lines_text(rest));
        assert(x + crlf() + lines_text(lines) =~= x + crlf() + (l + crlf() + lines_text(rest)));
        assert(join_crlf(seq![x] + lines) == x + crlf() + join_crlf(seq![l] + rest));
    }
}

/// Lines each followed by `\r\n`.
pub open spec fn lines_text(lines: Seq<Seq<char>>) -> Seq<char>
    decreases lines.len(),
{
    if lines.len() == 0 {
        seq![]
    } else {
        lines[0] + crlf() + lines_text(lines.drop_first())
    }
}

/// Every line that splitting at `\r\n` yields is free of `\r\n`.
pub proof fn lemma_split_no_crlf(s: Seq<char>)
    ensures
        forall|i: int| 0 <= i < split_crlf(s).len() ==> no_crlf(#[trigger] split_crlf(s)[i]),
    decreases s.len(),
{
    lemma_find_seq(s, crlf());
    match find_seq(s, crlf()) {
        None => {
            assert(split_crlf(s) =~= seq![s]);
            assert(no_crlf(s));
        },
        Some(k) => {
            let rest = s.subrange(k + 2, s.len() as int);
            lemma_split_no_crlf(rest);
            let first = s.subrange(0, k);
            assert forall|j: int| !#[trigger] matches_at(first, crlf(), j) by {
                if matches_at(first, crlf(), j) {
                    assert(first.subrange(j, j + 2) =~= s.subrange(j, j + 2));
                    assert(matches_at(s, crlf(), j));
                }
            }
            assert(split_crlf(s) == seq![first] + split_crlf(rest));
            assert forall|i: int| 0 <= i < split_crlf(s).len() implies no_crlf(
                #[trigger] split_crlf(s)[i],
            ) by {
                if i > 0 {
                    assert(split_crlf(s)[i] == split_crlf(rest)[i - 1]);
                }
            }
        },
    }
}

/// A header that can be written as a line and read back the same: a non-empty trimmed
/// name without `:`, a trimmed value, and no `\r\n` in either.
pub open spec fn wf_header(h: HeaderView) -> bool {
    &&& h.0.len() > 0
    &&& is_trimmed(h.0)
    &&& index_of(h.0, ':') is None
    &&& no_crlf(h.0)
    &&& is_trimmed(h.1)
    &&& no_crlf(h.1)
}

/// `name: value`.
pub open spec fn header_line_of(h: HeaderView) -> Seq<char> {
    h.0 + seq![':', ' '] + h.1
}

/// The lines of headers.
pub open spec fn header_lines(hs: Seq<HeaderView>) -> Seq<Seq<char>> {
    hs.map_values(|h: HeaderView| header_line_of(h))
}

/// A well-formed header makes a good line.
pub proof fn lemma_header_line_good(h: HeaderView)
    requires
        wf_header(h),
    ensures
        good_line(header_line_of(h)),
{
    let l = header_line_of(h);
    let n = h.0.len() as int;
    assert forall|j: int| !#[trigger] matches_at(l, crlf(), j) by {
        if matches_at(l, crlf(), j) {
            assert(l.subrange(j, j + 2)[0] == l[j]);
            assert(l.subrange(j, j + 2)[1] == l[j + 1]);
            if j + 2 <= n {
                assert(h.0.subrange(j, j + 2) =~= l.subrange(j, j + 2));
                assert(matches_at(h.0, crlf(), j));
            } else if j + 1 == n {
                assert(l[j + 1] == ':');
            } else if j == n || j == n + 1 {
                assert(l[j] == ':' || l[j] == ' ');
            } else {
                assert(h.1.subrange(j - n - 2, j - n) =~= l.subrange(j, j + 2));
                assert(matches_at(h.1, crlf(), j - n - 2));
            }
        }
    }
    if h.1.len() > 0 {
        assert(l.last() == h.1.last());
        assert(is_ws('\r'));
    }
}

/// A well-formed header's line reads back as the header.
pub proof fn lemma_header_line_reparse(h: HeaderView)
    requires
        wf_header(h),
    ensures
        spec_header_line(header_line_of(h)) == Ok::<Option<HeaderView>, crate::error::ErrorView>(
            Some(h),
        ),
{
    let l = header_line_of(h);
    let n = h.0.len() as int;
    crate::text::lemma_find_seq(h.0, seq![':']);
    assert(l.subrange(n, n + 1) =~= seq![':']);
    assert forall|j: int| 0 <= j < n implies !#[trigger] matches_at(l, seq![':'], j) by {
        if matches_at(l, seq![':'], j) {
            assert(h.0.subrange(j, j + 1) =~= l.subrange(j, j + 1));
            assert(matches_at(h.0, seq![':'], j));
        }
    }
    lemma_find_seq_intro(l, seq![':'], n);
    assert(l.subrange(0, n) =~= h.0);
    assert(l.subrange(n + 1, l.len() as int) =~= seq![' '] + h.1);
    lemma_trim_ws_prefix(seq![' '], h.1);
    lemma_trim_ws_prefix(Seq::<char>::empty(), h.0);
    assert(Seq::<char>::empty() + h.0 =~= h.0);
}

/// Lines of well-formed headers read back as the headers.
pub proof fn lemma_parse_header_lines(hs: Seq<HeaderView>)
    requires
        forall|i: int| 0 <= i < hs.len() ==> wf_header(#[trigger] hs[i]),
    ensures
        spec_parse_headers(header_lines(hs)) == Ok::<Seq<HeaderView>, crate::error::ErrorView>(hs),
    decreases hs.len(),
{
    if hs.len() > 0 {
        let rest = hs.drop_first();
        assert forall|i: int| 0 <= i < rest.len() implies wf_header(#[trigger] rest[i]) by {
            assert(rest[i] == hs[i + 1]);
        }
        lemma_parse_header_lines(rest);
        lemma_header_line_reparse(hs[0]);
        assert(header_lines(hs)[0] == header_line_of(hs[0]));
        assert(header_lines(hs).drop_first() =~= header_lines(rest));
        assert(seq![hs[0]] + rest =~= hs);
        let lines = header_lines(hs);
        assert(lines[0].len() > 0);
    } else {
        assert(header_lines(hs) =~= Seq::<Seq<char>>::empty());
        assert(hs =~= Seq::<HeaderView>::empty());
    }
}

/// Headers read from lines free of `\r\n` are well-formed.
pub proof fn lemma_parsed_headers_wf(lines: Seq<Seq<char>>)
    requires
        forall|i: int| 0 <= i < lines.len() ==> no_crlf(#[trigger] lines[i]),
        spec_parse_headers(lines) is Ok,
    ensures
        forall|i: int|
            0 <= i < spec_parse_headers(lines)->Ok_0.len() ==> wf_header(
                #[trigger] spec_parse_headers(lines)->Ok_0[i],
            ),
    decreases lines.len(),
{
    if lines.len() > 0 {
        let rest = lines.drop_first();
        assert forall|i: int| 0 <= i < rest.len() implies no_crlf(#[trigger] rest[i]) by {
            assert(rest[i] == lines[i + 1]);
        }
        lemma_parsed_headers_wf(rest);
        let l = lines[0];
        assert(no_crlf(l));
        let hs = spec_parse_headers(lines)->Ok_0;
        let hr = spec_parse_headers(rest)->Ok_0;
        match spec_header_line(l) {
            Ok(None) => {
                assert(hs == hr);
            },
            Ok(Some(h)) => {
                crate::text::lemma_find_seq(l, seq![':']);
                let k = index_of(l, ':')->0;
                let a = l.subrange(0, k);
                let b = l.subrange(k + 1, l.len() as int);
                lemma_trim_is_trimmed(a);
                lemma_trim_is_trimmed(b);
                lemma_trim_subrange(a);
                lemma_trim_subrange(b);
                lemma_no_crlf_subrange(l, 0, k);
                lemma_no_crlf_subrange(l, k + 1, l.len() as int);
                let (a1, a2) = choose|x: int, y: int|
                    0 <= x <= y <= a.len() && #[trigger] a.subrange(x, y) == trim(a);
                let (b1, b2) = choose|x: int, y: int|
                    0 <= x <= y <= b.len() && #[trigger] b.subrange(x, y) == trim(b);
                lemma_no_crlf_subrange(a, a1, a2);
                lemma_no_crlf_subrange(b, b1, b2);
                assert(h.0 == trim(a));
                assert(index_of(h.0, ':') is None) by {
                    crate::text::lemma_find_seq(h.0, seq![':']);
                    if index_of(h.0, ':') is Some {
                        let t = index_of(h.0, ':')->0;
                        assert(h.0.subrange(t, t + 1) =~= l.subrange(a1 + t, a1 + t + 1));
                        assert(matches_at(l, seq![':'], a1 + t));
                    }
                }
                assert(hs == seq![h] + hr);
                assert forall|i: int| 0 <= i < hs.len() implies wf_header(#[trigger] hs[i]) by {
                    if i > 0 {
                        assert(hs[i] == hr[i - 1]);
                    }
                }
            },
            Err(_) => {},
        }
    }
}

} // verus!
