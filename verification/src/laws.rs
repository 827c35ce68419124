//! What holds across the operations: what is written reads back the same.
use crate::head::{
    head_end_bytes, header_end, index_of, spec_get_header, spec_parse_headers, version_chars,
    HeaderView,
};
use crate::limits::{MAX_BODY, MAX_HEADERS, MAX_STATUS_LINE};
use crate::num::{dec, is_plain_digit_char, lemma_parse_to_digits, lemma_to_digits};
use crate::response::{
    chunk_stream, chunked_head_text, chunked_header_line, chunked_word, content_length_name,
    framing_free, headers_chunked, header_text, last_chunk_bytes, reason_text,
    response_head_text, spec_chunked, spec_parse_response, spec_parse_response_head,
    spec_parse_response_head_only, spec_response_head, spec_serialize, spec_serialize_chunked,
    spec_serialize_head, status_code,
    status_from_code, status_line, status_line_fields, transfer_encoding_name, ResponseView,
    Status,
};
use crate::head::{ascii_lower, crlf_bytes, eq_ignore_case, without_header};
use crate::num::{hex, parse_unsigned};
use crate::text::{
    find_seq, is_trimmed, is_ws, lemma_split_crlf_nonempty, lemma_split_ws_first,
    lemma_split_ws_word, lemma_trim_trimmed, split_ws, trim,
};
use crate::request::{
    get_word, head_word, request_head_text, spec_parse_request, spec_parse_request_head,
    spec_serialize_request, RequestView,
};
use crate::limits::MAX_REQUEST_LINE;
use crate::unicode::{lemma_encode_prefix_len, lemma_encode_split};
use crate::text::{crlf, lemma_find_seq, lemma_find_seq_intro, matches_at, split_crlf};
use crate::unicode::{ascii_bytes, lemma_encode_concat, lemma_encode_ascii, lemma_find_encode};
use crate::wire::{
    blank_line, good_line, header_line_of, header_lines, join_crlf, lemma_blank_after_join,
    lemma_header_line_good, lemma_lines_text, lemma_no_cr_no_crlf, lemma_parse_header_lines,
    lemma_parsed_headers_wf, lemma_split_join, lemma_split_no_crlf, lines_text, no_crlf, wf_header,
};
use crate::server::{content_type_name, typed_view};
use crate::url::spec_encode_path;
use crate::url_laws::lemma_encode_path_slash;
use vstd::prelude::*;
use vstd::utf8::{
    decode_utf8, encode_utf8, encode_utf8_decode_utf8, encode_utf8_valid_utf8, is_ascii_chars,
    valid_utf8,
};

verus! {

/// `index_of` finds `c` right after a prefix without `c`.
proof fn lemma_index_after(a: Seq<char>, c: char, b: Seq<char>)
    requires
        forall|i: int| 0 <= i < a.len() ==> #[trigger] a[i] != c,
    ensures
        index_of(a + seq![c] + b, c) == Some(a.len() as int),
{
    let s = a + seq![c] + b;
    assert(s.subrange(a.len() as int, a.len() + 1int) =~= seq![c]);
    assert forall|j: int| 0 <= j < a.len() implies !#[trigger] matches_at(s, seq![c], j) by {
        if matches_at(s, seq![c], j) {
            assert(s.subrange(j, j + 1)[0] == s[j]);
            assert(s[j] == a[j]);
        }
    }
    lemma_find_seq_intro(s, seq![c], a.len() as int);
}

/// `index_of` finds nothing in a sequence without `c`.
proof fn lemma_index_none(a: Seq<char>, c: char)
    requires
        forall|i: int| 0 <= i < a.len() ==> #[trigger] a[i] != c,
    ensures
        index_of(a, c) is None,
{
    assert forall|j: int| 0 <= j implies !#[trigger] matches_at(a, seq![c], j) by {
        if matches_at(a, seq![c], j) {
            assert(a.subrange(j, j + 1)[0] == a[j]);
        }
    }
    crate::text::lemma_find_seq_none(a, seq![c]);
}

/// Reason phrases are lowercase letters and spaces.
proof fn lemma_reason_chars(s: Status)
    ensures
        reason_text(s).len() >= 2,
        forall|i: int|
            0 <= i < reason_text(s).len() ==> ('a' <= #[trigger] reason_text(s)[i] && reason_text(
                s,
            )[i] <= 'z') || reason_text(s)[i] == ' ',
        reason_text(s).last() != ' ',
{
}

/// The status line has the fields that it is read by, and is a good line.
proof fn lemma_status_line(s: Status)
    ensures
        good_line(status_line(s)),
        status_line_fields(status_line(s)) == (version_chars(), Some(dec(status_code(s)))),
{
    let v = version_chars();
    let d = dec(status_code(s));
    let r = reason_text(s);
    lemma_to_digits(status_code(s), 10, false);
    lemma_reason_chars(s);
    let sl = status_line(s);
    assert(sl =~= v + seq![' '] + (d + seq![' '] + r));
    lemma_index_after(v, ' ', d + seq![' '] + r);
    let rest = sl.subrange(11, sl.len() as int);
    assert(rest =~= d + seq![' '] + r);
    assert forall|i: int| 0 <= i < d.len() implies #[trigger] d[i] != ' ' by {
        assert(is_plain_digit_char(d[i]));
    }
    lemma_index_after(d, ' ', r);
    assert(sl.subrange(0, 10) =~= v);
    assert(rest.subrange(0, d.len() as int) =~= d);
    assert forall|i: int| 0 <= i < sl.len() implies #[trigger] sl[i] != '\r' by {
        if i < 10 {
            assert(sl[i] == v[i]);
        } else if i == 10 {
        } else if i < 11 + d.len() {
            assert(sl[i] == d[i - 11]);
            assert(is_plain_digit_char(d[i - 11]));
        } else if i == 11 + d.len() {
        } else {
            assert(sl[i] == r[i - 12 - d.len()]);
        }
    }
    lemma_no_cr_no_crlf(sl);
    assert(sl.last() == r.last());
}

/// The header text is the header lines, each followed by `\r\n`.
proof fn lemma_header_text_lines(hs: Seq<HeaderView>)
    ensures
        header_text(hs) == lines_text(header_lines(hs)),
    decreases hs.len(),
{
    if hs.len() > 0 {
        lemma_header_text_lines(hs.drop_first());
        assert(header_lines(hs).drop_first() =~= header_lines(hs.drop_first()));
        assert(header_lines(hs)[0] == header_line_of(hs[0]));
        assert(header_text(hs) =~= lines_text(header_lines(hs)));
    } else {
        assert(header_lines(hs) =~= Seq::<Seq<char>>::empty());
    }
}

/// The lines of a response head: the status line, then one line per header.
pub open spec fn response_lines(s: Status, hs: Seq<HeaderView>) -> Seq<Seq<char>> {
    seq![status_line(s)] + header_lines(hs)
}

/// A head written from a status and well-formed headers is the join of its lines and an
/// empty line, and those lines are good.
proof fn lemma_response_head_shape(s: Status, hs: Seq<HeaderView>)
    requires
        forall|i: int| 0 <= i < hs.len() ==> wf_header(#[trigger] hs[i]),
    ensures
        response_head_text(s, hs) == join_crlf(response_lines(s, hs)) + blank_line(),
        forall|i: int|
            0 <= i < response_lines(s, hs).len() ==> good_line(#[trigger] response_lines(s, hs)[i]),
{
    lemma_header_text_lines(hs);
    lemma_lines_text(status_line(s), header_lines(hs));
    assert(response_head_text(s, hs) =~= join_crlf(response_lines(s, hs)) + blank_line());
    lemma_status_line(s);
    let ls = response_lines(s, hs);
    assert forall|i: int| 0 <= i < ls.len() implies good_line(#[trigger] ls[i]) by {
        if i > 0 {
            assert(ls[i] == header_line_of(hs[i - 1]));
            lemma_header_line_good(hs[i - 1]);
        }
    }
}

/// Reading the join of a response's lines gives back its status and headers.
proof fn lemma_response_head_reparse(s: Status, hs: Seq<HeaderView>)
    requires
        forall|i: int| 0 <= i < hs.len() ==> wf_header(#[trigger] hs[i]),
    ensures
        spec_parse_response_head(join_crlf(response_lines(s, hs))) == Ok::<
            (Status, Seq<HeaderView>),
            crate::error::ErrorView,
        >((s, hs)),
{
    let ls = response_lines(s, hs);
    lemma_response_head_shape(s, hs);
    lemma_split_join(ls);
    lemma_status_line(s);
    lemma_parse_to_digits(status_code(s), 10, false, 0xffff);
    lemma_parse_header_lines(hs);
    assert(ls.drop_first() =~= header_lines(hs));
}

/// The bytes of a head written from good lines: where it ends, and what it decodes to.
proof fn lemma_encoded_head(ls: Seq<Seq<char>>, body: Seq<u8>)
    requires
        ls.len() >= 1,
        forall|i: int| 0 <= i < ls.len() ==> good_line(#[trigger] ls[i]),
    ensures
        ({
            let j = join_crlf(ls);
            let bytes = encode_utf8(j + blank_line()) + body;
            &&& header_end(bytes) == Some(encode_utf8(j).len() as int)
            &&& encode_utf8(j + blank_line()).len() == encode_utf8(j).len() + 4
            &&& bytes.subrange(0, encode_utf8(j).len() as int) == encode_utf8(j)
            &&& bytes.subrange(encode_utf8(j).len() + 4int, bytes.len() as int) == body
        }),
{
    let j = join_crlf(ls);
    let t = j + blank_line();
    let bl = blank_line();
    lemma_blank_after_join(ls);
    assert(is_ascii_chars(bl));
    lemma_find_encode(t, bl, body);
    assert(t.subrange(0, j.len() as int) =~= j);
    assert(ascii_bytes(bl) =~= head_end_bytes());
    lemma_encode_concat(j, bl);
    lemma_encode_ascii(bl);
    let bytes = encode_utf8(t) + body;
    assert(bytes.subrange(0, encode_utf8(j).len() as int) =~= encode_utf8(j));
    assert(bytes.subrange(encode_utf8(j).len() + 4int, bytes.len() as int) =~= body);
}

/// A response read from bytes has well-formed headers.
proof fn lemma_parsed_response_headers(b: Seq<u8>)
    requires
        spec_response_head(b) is Ok,
    ensures
        forall|i: int|
            0 <= i < spec_response_head(b)->Ok_0.1.len() ==> wf_header(
                #[trigger] spec_response_head(b)->Ok_0.1[i],
            ),
{
    let he = header_end(b)->0;
    let h = decode_utf8(b.subrange(0, he));
    let lines = split_crlf(h);
    lemma_split_no_crlf(h);
    let rest = lines.drop_first();
    assert forall|i: int| 0 <= i < rest.len() implies no_crlf(#[trigger] rest[i]) by {
        assert(rest[i] == lines[i + 1]);
    }
    lemma_parsed_headers_wf(rest);
}

/// Writing a response head and reading it back gives the same status and headers, and
/// the body bytes are whatever followed it.
proof fn lemma_response_head_roundtrip(s: Status, hs: Seq<HeaderView>, body: Seq<u8>)
    requires
        forall|i: int| 0 <= i < hs.len() ==> wf_header(#[trigger] hs[i]),
        encode_utf8(response_head_text(s, hs)).len() <= MAX_STATUS_LINE + MAX_HEADERS + 4,
    ensures
        spec_response_head(encode_utf8(response_head_text(s, hs)) + body) == Ok::<
            (Status, Seq<HeaderView>, int),
            crate::error::ErrorView,
        >((s, hs, encode_utf8(response_head_text(s, hs)).len() - 4)),
        ({
            let bytes = encode_utf8(response_head_text(s, hs)) + body;
            let he = encode_utf8(response_head_text(s, hs)).len() - 4;
            bytes.subrange(he + 4, bytes.len() as int) == body
        }),
{
    let ls = response_lines(s, hs);
    lemma_response_head_shape(s, hs);
    lemma_encoded_head(ls, body);
    lemma_response_head_reparse(s, hs);
    let j = join_crlf(ls);
    encode_utf8_valid_utf8(j);
    encode_utf8_decode_utf8(j);
}

/// Reading the bytes that `serialize` writes for a response that was read from bytes and
/// is not chunked gives that response back, as long as the written head stays within
/// the size limit.
pub proof fn law_response_roundtrip(b: Seq<u8>)
    requires
        spec_parse_response(b) is Ok,
        !headers_chunked(spec_parse_response(b)->Ok_0.headers),
        spec_serialize_head(spec_parse_response(b)->Ok_0).len() <= MAX_STATUS_LINE + MAX_HEADERS
            + 4,
    ensures
        spec_parse_response(spec_serialize(spec_parse_response(b)->Ok_0)) == spec_parse_response(
            b,
        ),
{
    let r = spec_parse_response(b)->Ok_0;
    lemma_parsed_response_headers(b);
    lemma_response_head_roundtrip(r.status, r.headers, r.body);
    let (st, hs, he) = spec_response_head(b)->Ok_0;
    assert(st == r.status && hs == r.headers);
    let out = spec_serialize(r);
    assert(out == encode_utf8(response_head_text(r.status, r.headers)) + r.body);
    match spec_get_header(hs, crate::response::content_length_name()) {
        None => {},
        Some(v) => {
            assert(r.body.subrange(0, r.body.len() as int) =~= r.body);
        },
    }
}

/// A response that `parse` reads back as it is: well-formed headers, no chunked
/// framing, a `Content-Length` that gives the body's length in decimal (or none and
/// an empty body), a body within the limit, and a head within the limits.
pub open spec fn response_fits(r: ResponseView) -> bool {
    &&& forall|i: int| 0 <= i < r.headers.len() ==> wf_header(#[trigger] r.headers[i])
    &&& !headers_chunked(r.headers)
    &&& match spec_get_header(r.headers, content_length_name()) {
        None => r.body.len() == 0,
        Some(v) => v == dec(r.body.len()),
    }
    &&& r.body.len() <= MAX_BODY
    &&& spec_serialize_head(r).len() <= MAX_STATUS_LINE + MAX_HEADERS + 4
}

/// Reading the bytes that `serialize` writes for a response gives that response back,
/// for every response that `parse` can read as it is: see `response_fits`.
pub proof fn law_response_view_roundtrip(r: ResponseView)
    requires
        response_fits(r),
    ensures
        spec_parse_response(spec_serialize(r)) == Ok::<ResponseView, crate::error::ErrorView>(r),
{
    lemma_response_head_roundtrip(r.status, r.headers, r.body);
    let out = spec_serialize(r);
    assert(out == encode_utf8(response_head_text(r.status, r.headers)) + r.body);
    match spec_get_header(r.headers, content_length_name()) {
        None => {
            assert(r.body =~= Seq::<u8>::empty());
        },
        Some(v) => {
            lemma_parse_to_digits(r.body.len(), 10, false, usize::MAX as nat);
            assert(r.body.subrange(0, r.body.len() as int) =~= r.body);
        },
    }
}

/// A chunked body read from bytes is within the body limit.
proof fn lemma_chunked_len(rest: Seq<u8>, acc: Seq<u8>)
    requires
        acc.len() <= MAX_BODY,
        spec_chunked(rest, acc) is Ok,
    ensures
        spec_chunked(rest, acc)->Ok_0.len() <= MAX_BODY,
    decreases rest.len(),
{
    lemma_find_seq(rest, crlf_bytes());
    let le = find_seq(rest, crlf_bytes())->0;
    let line = rest.subrange(0, le);
    let r2 = rest.subrange(le + 2, rest.len() as int);
    let size = parse_unsigned(trim(decode_utf8(line)), 16, usize::MAX as nat)->0;
    if size != 0 {
        lemma_chunked_len(r2.subrange(size + 2int, r2.len() as int), acc + r2.subrange(0, size as int));
    }
}

/// The body of a response read from bytes is within the body limit.
proof fn lemma_parsed_body_len(b: Seq<u8>)
    requires
        spec_parse_response(b) is Ok,
    ensures
        spec_parse_response(b)->Ok_0.body.len() <= MAX_BODY,
{
    let (st, hs, he) = spec_response_head(b)->Ok_0;
    let bb = b.subrange(he + 4, b.len() as int);
    if headers_chunked(hs) {
        lemma_chunked_len(bb, seq![]);
    }
}

/// The bytes of the digits of a number hold no CR and decode to the digits.
proof fn lemma_digit_bytes(d: Seq<char>)
    requires
        forall|i: int| 0 <= i < d.len() ==> crate::num::is_plain_digit_char(#[trigger] d[i]),
    ensures
        is_ascii_chars(d),
        encode_utf8(d) == ascii_bytes(d),
        valid_utf8(ascii_bytes(d)),
        decode_utf8(ascii_bytes(d)) == d,
        forall|i: int| 0 <= i < d.len() ==> #[trigger] ascii_bytes(d)[i] != 13u8,
        is_trimmed(d),
{
    assert(is_ascii_chars(d));
    lemma_encode_ascii(d);
    encode_utf8_valid_utf8(d);
    encode_utf8_decode_utf8(d);
    assert forall|i: int| 0 <= i < d.len() implies #[trigger] ascii_bytes(d)[i] != 13u8 by {
        let c = d[i];
        assert(crate::num::is_plain_digit_char(c));
        assert(ascii_bytes(d)[i] == c as u8);
        if c as u8 == 13u8 {
            crate::unicode::lemma_ascii_char_from_byte(c, '\r');
        }
    }
    if d.len() > 0 {
        assert(crate::num::is_plain_digit_char(d[0]));
        assert(crate::num::is_plain_digit_char(d.last()));
    }
}

/// The last chunk ends a chunked body.
proof fn lemma_last_chunk(acc: Seq<u8>)
    ensures
        spec_chunked(last_chunk_bytes(), acc) == Ok::<Seq<u8>, crate::error::ErrorView>(acc),
{
    let st = last_chunk_bytes();
    assert(st.subrange(1, 3) =~= crlf_bytes());
    assert(!matches_at(st, crlf_bytes(), 0)) by {
        assert(st.subrange(0, 2)[0] == 48u8);
    }
    lemma_find_seq_intro(st, crlf_bytes(), 1);
    let line = st.subrange(0, 1);
    assert(line =~= ascii_bytes(seq!['0']));
    lemma_digit_bytes(seq!['0']);
    lemma_trim_trimmed(seq!['0']);
    lemma_parse_to_digits(0, 16, false, usize::MAX as nat);
    assert(hex(0) =~= seq!['0']);
    let r2 = st.subrange(3, 5);
    assert(r2.subrange(0, 2) =~= crlf_bytes());
}

/// The size of the next chunk of `body` cut in chunks of `n` bytes.
pub open spec fn next_chunk_len(body: Seq<u8>, n: nat) -> nat {
    let m: nat = if n == 0 {
        1
    } else {
        n
    };
    if m < body.len() {
        m
    } else {
        body.len()
    }
}

/// Reading one chunk of a chunk stream.
#[verifier::rlimit(40)]
proof fn lemma_chunk_step(body: Seq<u8>, n: nat, acc: Seq<u8>)
    requires
        body.len() > 0,
        acc.len() + body.len() <= MAX_BODY,
    ensures
        spec_chunked(chunk_stream(body, n), acc) == spec_chunked(
            chunk_stream(
                body.subrange(next_chunk_len(body, n) as int, body.len() as int),
                n,
            ),
            acc + body.subrange(0, next_chunk_len(body, n) as int),
        ),
{
    let st = chunk_stream(body, n);
    let k = next_chunk_len(body, n);
    let h = hex(k);
    crate::num::lemma_to_digits(k, 16, false);
    lemma_digit_bytes(h);
    let hb = ascii_bytes(h);
    let tail = chunk_stream(body.subrange(k as int, body.len() as int), n);
    assert(st == hb + crlf_bytes() + body.subrange(0, k as int) + crlf_bytes() + tail);
    let hl = hb.len() as int;
    assert(st.subrange(hl, hl + 2) =~= crlf_bytes());
    assert forall|j: int| 0 <= j < hl implies !#[trigger] matches_at(st, crlf_bytes(), j) by {
        if matches_at(st, crlf_bytes(), j) {
            assert(st.subrange(j, j + 2)[0] == st[j]);
            assert(st[j] == hb[j]);
        }
    }
    lemma_find_seq_intro(st, crlf_bytes(), hl);
    assert(st.subrange(0, hl) =~= hb);
    lemma_trim_trimmed(h);
    lemma_parse_to_digits(k, 16, false, usize::MAX as nat);
    let r2 = st.subrange(hl + 2, st.len() as int);
    assert(r2 =~= body.subrange(0, k as int) + crlf_bytes() + tail);
    assert(r2.subrange(k as int, k + 2int) =~= crlf_bytes());
    assert(r2.subrange(k + 2int, r2.len() as int) =~= tail);
    assert(r2.subrange(0, k as int) =~= body.subrange(0, k as int));
}

/// A body cut into chunks reads back as that body, after the bytes already read.
proof fn lemma_chunk_stream_parse(body: Seq<u8>, n: nat, acc: Seq<u8>)
    requires
        acc.len() + body.len() <= MAX_BODY,
    ensures
        spec_chunked(chunk_stream(body, n), acc) == Ok::<Seq<u8>, crate::error::ErrorView>(
            acc + body,
        ),
    decreases body.len(),
{
    if body.len() == 0 {
        assert(chunk_stream(body, n) == last_chunk_bytes());
        lemma_last_chunk(acc);
        assert(acc + body =~= acc);
    } else {
        let k = next_chunk_len(body, n);
        lemma_chunk_step(body, n, acc);
        lemma_chunk_stream_parse(
            body.subrange(k as int, body.len() as int),
            n,
            acc + body.subrange(0, k as int),
        );
        assert(acc + body.subrange(0, k as int) + body.subrange(k as int, body.len() as int)
            =~= acc + body);
    }
}

/// The header `Transfer-Encoding: chunked`.
pub open spec fn chunked_header() -> HeaderView {
    (transfer_encoding_name(), chunked_word())
}

proof fn lemma_chunked_header_wf()
    ensures
        wf_header(chunked_header()),
        header_line_of(chunked_header()) + crlf() == chunked_header_line(),
{
    let (n, v) = chunked_header();
    assert forall|i: int| 0 <= i < n.len() implies #[trigger] n[i] != '\r' && n[i] != ':' by {}
    assert forall|i: int| 0 <= i < v.len() implies #[trigger] v[i] != '\r' by {}
    lemma_no_cr_no_crlf(n);
    lemma_no_cr_no_crlf(v);
    lemma_index_none(n, ':');
    assert(header_line_of(chunked_header()) + crlf() =~= chunked_header_line());
}

/// Header text of headers with one more at the end.
proof fn lemma_header_text_push(hs: Seq<HeaderView>, h: HeaderView)
    ensures
        header_text(hs.push(h)) == header_text(hs) + header_line_of(h) + crlf(),
    decreases hs.len(),
{
    if hs.len() == 0 {
        assert(hs.push(h).drop_first() =~= Seq::<HeaderView>::empty());
        assert(header_text(hs.push(h).drop_first()) =~= Seq::<char>::empty());
        assert(header_text(hs) =~= Seq::<char>::empty());
        assert(header_text(hs.push(h)) =~= header_line_of(h) + crlf());
    } else {
        lemma_header_text_push(hs.drop_first(), h);
        assert(hs.push(h).drop_first() =~= hs.drop_first().push(h));
        assert(header_text(hs.push(h)) =~= header_text(hs) + header_line_of(h) + crlf());
    }
}

/// The framing-free headers of well-formed headers are well-formed, and none of them is
/// named `Transfer-Encoding`.
proof fn lemma_framing_free(hs: Seq<HeaderView>)
    requires
        forall|i: int| 0 <= i < hs.len() ==> wf_header(#[trigger] hs[i]),
    ensures
        forall|i: int| 0 <= i < framing_free(hs).len() ==> wf_header(#[trigger] framing_free(hs)[i]),
        spec_get_header(framing_free(hs).push(chunked_header()), transfer_encoding_name()) == Some(
            chunked_word(),
        ),
    decreases hs.len(),
{
    let ff = framing_free(hs);
    if hs.len() == 0 {
        assert(ff.push(chunked_header()) =~= seq![chunked_header()]);
        assert(eq_ignore_case(transfer_encoding_name(), transfer_encoding_name()));
    } else {
        let rest = hs.drop_first();
        assert forall|i: int| 0 <= i < rest.len() implies wf_header(#[trigger] rest[i]) by {
            assert(rest[i] == hs[i + 1]);
        }
        lemma_framing_free(rest);
        let fr = framing_free(rest);
        if eq_ignore_case(hs[0].0, content_length_name()) || eq_ignore_case(
            hs[0].0,
            transfer_encoding_name(),
        ) {
            assert(ff == fr);
        } else {
            assert(ff == seq![hs[0]] + fr);
            assert forall|i: int| 0 <= i < ff.len() implies wf_header(#[trigger] ff[i]) by {
                if i > 0 {
                    assert(ff[i] == fr[i - 1]);
                }
            }
            let p = ff.push(chunked_header());
            assert(p[0] == hs[0]);
            assert(p.drop_first() =~= fr.push(chunked_header()));
        }
    }
}

/// Reading the bytes that `serialize_chunked` writes for a response gives its status
/// and body back, with the framing headers replaced by `Transfer-Encoding: chunked`,
/// for every response with well-formed headers, a body within the limit, and a head
/// within the limits.
pub proof fn law_chunked_view_roundtrip(r: ResponseView, chunk_size: nat)
    requires
        forall|i: int| 0 <= i < r.headers.len() ==> wf_header(#[trigger] r.headers[i]),
        r.body.len() <= MAX_BODY,
        encode_utf8(chunked_head_text(r.status, r.headers)).len() <= MAX_STATUS_LINE
            + MAX_HEADERS + 4,
    ensures
        spec_parse_response(spec_serialize_chunked(r, chunk_size)) == Ok::<
            ResponseView,
            crate::error::ErrorView,
        >(
            ResponseView {
                status: r.status,
                headers: framing_free(r.headers).push(chunked_header()),
                body: r.body,
            },
        ),
{
    lemma_framing_free(r.headers);
    lemma_chunked_header_wf();
    let hs2 = framing_free(r.headers).push(chunked_header());
    lemma_header_text_push(framing_free(r.headers), chunked_header());
    assert(chunked_head_text(r.status, r.headers) =~= response_head_text(r.status, hs2));
    assert forall|i: int| 0 <= i < hs2.len() implies wf_header(#[trigger] hs2[i]) by {
        if i < hs2.len() - 1 {
            assert(hs2[i] == framing_free(r.headers)[i]);
        }
    }
    let stream = chunk_stream(r.body, chunk_size);
    lemma_response_head_roundtrip(r.status, hs2, stream);
    assert(eq_ignore_case(chunked_word(), chunked_word()));
    assert(headers_chunked(hs2));
    lemma_chunk_stream_parse(r.body, chunk_size, seq![]);
    assert(Seq::<u8>::empty() + r.body =~= r.body);
}

/// Reading the bytes that `serialize_chunked` writes for a response that was read
/// from bytes gives its status and body back, with the framing headers replaced by
/// `Transfer-Encoding: chunked`, as long as the written head stays within the limit.
pub proof fn law_chunked_roundtrip(b: Seq<u8>, chunk_size: nat)
    requires
        spec_parse_response(b) is Ok,
        encode_utf8(
            chunked_head_text(
                spec_parse_response(b)->Ok_0.status,
                spec_parse_response(b)->Ok_0.headers,
            ),
        ).len() <= MAX_STATUS_LINE + MAX_HEADERS + 4,
    ensures
        spec_parse_response(spec_serialize_chunked(spec_parse_response(b)->Ok_0, chunk_size))
            == Ok::<ResponseView, crate::error::ErrorView>(
            ResponseView {
                status: spec_parse_response(b)->Ok_0.status,
                headers: framing_free(spec_parse_response(b)->Ok_0.headers).push(
                    chunked_header(),
                ),
                body: spec_parse_response(b)->Ok_0.body,
            },
        ),
{
    lemma_parsed_response_headers(b);
    lemma_parsed_body_len(b);
    law_chunked_view_roundtrip(spec_parse_response(b)->Ok_0, chunk_size);
}

/// The encoding of `s` cut in three at `a` and `b`.
proof fn lemma_enc_len3(s: Seq<char>, a: int, b: int)
    requires
        0 <= a <= b <= s.len(),
    ensures
        encode_utf8(s).len() == encode_utf8(s.subrange(0, a)).len() + encode_utf8(
            s.subrange(a, b),
        ).len() + encode_utf8(s.subrange(b, s.len() as int)).len(),
{
    lemma_encode_split(s, a);
    let t = s.subrange(a, s.len() as int);
    lemma_encode_split(t, b - a);
    assert(t.subrange(0, b - a) =~= s.subrange(a, b));
    assert(t.subrange(b - a, t.len() as int) =~= s.subrange(b, s.len() as int));
}

/// Every char takes at least one byte.
proof fn lemma_enc_len_at_least(s: Seq<char>)
    ensures
        encode_utf8(s).len() >= s.len(),
{
    lemma_encode_prefix_len(s, 0, s.len() as int);
    assert(s.subrange(0, s.len() as int) =~= s);
}

/// The words of `s` after the first, with the length of the encoding that they stand
/// in: text before the second word and from the second word on.
proof fn lemma_word_then_rest(s: Seq<char>)
    requires
        split_ws(s).len() > 1,
    ensures
        exists|b: int|
            0 <= b <= s.len() && #[trigger] split_ws(s.subrange(b, s.len() as int))
                == split_ws(s).drop_first() && encode_utf8(s.subrange(0, b)).len()
                >= encode_utf8(split_ws(s)[0]).len() + 1,
        split_ws(s)[0].len() > 0,
        forall|j: int| 0 <= j < split_ws(s)[0].len() ==> !is_ws(#[trigger] split_ws(s)[0][j]),
{
    lemma_split_ws_first(s);
    let w = split_ws(s)[0];
    let a = choose|a: int|
        0 <= a && a + split_ws(s)[0].len() <= s.len() && (forall|j: int|
            0 <= j < a ==> is_ws(#[trigger] s[j])) && #[trigger] s.subrange(
            a,
            a + split_ws(s)[0].len(),
        ) == split_ws(s)[0] && split_ws(s).drop_first() == split_ws(
            s.subrange(a + split_ws(s)[0].len(), s.len() as int),
        ) && (split_ws(s).len() > 1 ==> a + split_ws(s)[0].len() < s.len() && is_ws(
            s[a + split_ws(s)[0].len()],
        ));
    let e = a + w.len();
    let rest = s.subrange(e, s.len() as int);
    let rest2 = s.subrange(e + 1, s.len() as int);
    assert(rest.drop_first() =~= rest2);
    assert(rest[0] == s[e]);
    lemma_split_ws_drop_ws(rest, rest2);
    let p = s.subrange(0, e + 1);
    lemma_enc_len3(p, a, e);
    assert(p.subrange(a, e) =~= w);
    assert(p.subrange(e, e + 1) =~= seq![s[e]]);
    lemma_enc_len_at_least(seq![s[e]]);
    assert(s.subrange(e + 1, s.len() as int) == rest2);
}

/// Splitting `s` and `s` without a leading whitespace char gives the same words.
proof fn lemma_split_ws_drop_ws(s: Seq<char>, t: Seq<char>)
    requires
        s.len() > 0,
        is_ws(s[0]),
        t == s.drop_first(),
    ensures
        split_ws(s) == split_ws(t),
{
    assert(crate::text::trim_start(s) == crate::text::trim_start(t));
}

/// The request line that `serialize` writes for a request is no longer in bytes than
/// any request line that it was read from.
proof fn lemma_request_line_len(rl: Seq<char>)
    requires
        split_ws(rl).len() >= 3,
    ensures
        encode_utf8(
            split_ws(rl)[0] + seq![' '] + split_ws(rl)[1] + seq![' '] + split_ws(rl)[2],
        ).len() <= encode_utf8(rl).len(),
        split_ws(rl)[1].len() > 0,
        forall|j: int| 0 <= j < split_ws(rl)[1].len() ==> !is_ws(#[trigger] split_ws(rl)[1][j]),
{
    let ws = split_ws(rl);
    lemma_word_then_rest(rl);
    let b1 = choose|b: int|
        0 <= b <= rl.len() && #[trigger] split_ws(rl.subrange(b, rl.len() as int))
            == split_ws(rl).drop_first() && encode_utf8(rl.subrange(0, b)).len()
            >= encode_utf8(split_ws(rl)[0]).len() + 1;
    let s1 = rl.subrange(b1, rl.len() as int);
    assert(split_ws(s1)[0] == ws[1]);
    assert(split_ws(s1)[1] == ws[2]);
    lemma_word_then_rest(s1);
    let b2 = choose|b: int|
        0 <= b <= s1.len() && #[trigger] split_ws(s1.subrange(b, s1.len() as int))
            == split_ws(s1).drop_first() && encode_utf8(s1.subrange(0, b)).len()
            >= encode_utf8(split_ws(s1)[0]).len() + 1;
    let s2 = s1.subrange(b2, s1.len() as int);
    assert(split_ws(s2)[0] == ws[2]);
    lemma_split_ws_first(s2);
    let a3 = choose|a: int|
        0 <= a && a + split_ws(s2)[0].len() <= s2.len() && (forall|j: int|
            0 <= j < a ==> is_ws(#[trigger] s2[j])) && #[trigger] s2.subrange(
            a,
            a + split_ws(s2)[0].len(),
        ) == split_ws(s2)[0] && split_ws(s2).drop_first() == split_ws(
            s2.subrange(a + split_ws(s2)[0].len(), s2.len() as int),
        ) && (split_ws(s2).len() > 1 ==> a + split_ws(s2)[0].len() < s2.len() && is_ws(
            s2[a + split_ws(s2)[0].len()],
        ));
    lemma_enc_len3(s2, a3, a3 + ws[2].len());
    lemma_encode_split(rl, b1);
    lemma_encode_split(s1, b2);
    let line = ws[0] + seq![' '] + ws[1] + seq![' '] + ws[2];
    lemma_encode_concat(ws[0] + seq![' '] + ws[1] + seq![' '], ws[2]);
    lemma_encode_concat(ws[0] + seq![' '] + ws[1], seq![' ']);
    lemma_encode_concat(ws[0] + seq![' '], ws[1]);
    lemma_encode_concat(ws[0], seq![' ']);
    crate::unicode::lemma_encode_single(' ');
    crate::unicode::lemma_encode_scalar_ascii(' ');
}

/// A request read from bytes: its method, path and headers have the shape that its
/// serialization needs.
proof fn lemma_parsed_request(b: Seq<u8>)
    requires
        spec_parse_request(b) is Ok,
    ensures
        ({
            let r = spec_parse_request(b)->Ok_0;
            &&& r.method == get_word() || r.method == head_word()
            &&& r.path.len() > 0 && r.path[0] == '/'
            &&& forall|j: int| 0 <= j < r.path.len() ==> !is_ws(#[trigger] r.path[j])
            &&& forall|i: int| 0 <= i < r.headers.len() ==> wf_header(#[trigger] r.headers[i])
            &&& encode_utf8(
                r.method + seq![' '] + r.path + seq![' '] + version_chars(),
            ).len() <= MAX_REQUEST_LINE
        }),
{
    let he = header_end(b)->0;
    let h = decode_utf8(b.subrange(0, he));
    let lines = split_crlf(h);
    lemma_split_crlf_nonempty(h);
    lemma_split_no_crlf(h);
    let rest = lines.drop_first();
    assert forall|i: int| 0 <= i < rest.len() implies no_crlf(#[trigger] rest[i]) by {
        assert(rest[i] == lines[i + 1]);
    }
    lemma_parsed_headers_wf(rest);
    lemma_request_line_len(lines[0]);
}

/// The lines of a request head.
pub open spec fn request_lines(r: RequestView) -> Seq<Seq<char>> {
    seq![r.method + seq![' '] + r.path + seq![' '] + version_chars()] + header_lines(r.headers)
}

/// A request that `parse` can read back: method `GET` or `HEAD`, a path that starts
/// with `/` and holds no whitespace, well-formed headers, and a head within the limits.
pub open spec fn request_fits(r: RequestView) -> bool {
    &&& r.method == get_word() || r.method == head_word()
    &&& r.path.len() > 0 && r.path[0] == '/'
    &&& forall|j: int| 0 <= j < r.path.len() ==> !is_ws(#[trigger] r.path[j])
    &&& forall|i: int| 0 <= i < r.headers.len() ==> wf_header(#[trigger] r.headers[i])
    &&& encode_utf8(r.method + seq![' '] + r.path + seq![' '] + version_chars()).len()
        <= MAX_REQUEST_LINE
    &&& spec_serialize_request(r).len() <= MAX_REQUEST_LINE + MAX_HEADERS + 4
}

/// Reading the bytes that `serialize` writes for a request gives that request back,
/// for every request that `parse` can read: see `request_fits`.
pub proof fn law_request_view_roundtrip(r: RequestView)
    requires
        request_fits(r),
    ensures
        spec_parse_request(spec_serialize_request(r)) == Ok::<RequestView, crate::error::ErrorView>(r),
{
    let m = r.method;
    let p = r.path;
    let v = version_chars();
    let rl = m + seq![' '] + p + seq![' '] + v;
    let ls = request_lines(r);
    lemma_header_text_lines(r.headers);
    lemma_lines_text(rl, header_lines(r.headers));
    assert(request_head_text(r) =~= join_crlf(ls) + blank_line());
    assert forall|i: int| 0 <= i < rl.len() implies #[trigger] rl[i] != '\r' by {
        if i < m.len() {
            assert(rl[i] == m[i]);
        } else if i == m.len() {
        } else if i < m.len() + 1 + p.len() {
            assert(rl[i] == p[i - m.len() - 1]);
            assert(!is_ws(p[i - m.len() - 1]));
        } else if i == m.len() + 1 + p.len() {
        } else {
            assert(rl[i] == v[i - m.len() - 2 - p.len()]);
        }
    }
    lemma_no_cr_no_crlf(rl);
    assert(rl.last() == '0');
    assert forall|i: int| 0 <= i < ls.len() implies good_line(#[trigger] ls[i]) by {
        if i > 0 {
            assert(ls[i] == header_line_of(r.headers[i - 1]));
            lemma_header_line_good(r.headers[i - 1]);
        }
    }
    lemma_encoded_head(ls, seq![]);
    let j = join_crlf(ls);
    assert(encode_utf8(j + blank_line()) + Seq::<u8>::empty() =~= encode_utf8(j + blank_line()));
    encode_utf8_valid_utf8(j);
    encode_utf8_decode_utf8(j);
    lemma_split_join(ls);
    assert forall|i: int| 0 <= i < m.len() implies !is_ws(#[trigger] m[i]) by {}
    assert forall|i: int| 0 <= i < v.len() implies !is_ws(#[trigger] v[i]) by {}
    lemma_split_ws_word(p, v);
    lemma_split_ws_word(v, Seq::<char>::empty());
    lemma_split_ws_word(m, p + seq![' '] + v);
    assert(rl =~= m + seq![' '] + (p + seq![' '] + v));
    assert(split_ws(rl) =~= seq![m, p, v]);
    lemma_parse_header_lines(r.headers);
    assert(ls.drop_first() =~= header_lines(r.headers));
}

/// Reading the bytes that `serialize` writes for a request that was read from bytes
/// gives that request back, as long as the written head stays within the size limit.
pub proof fn law_request_roundtrip(b: Seq<u8>)
    requires
        spec_parse_request(b) is Ok,
        spec_serialize_request(spec_parse_request(b)->Ok_0).len() <= MAX_REQUEST_LINE
            + MAX_HEADERS + 4,
    ensures
        spec_parse_request(spec_serialize_request(spec_parse_request(b)->Ok_0))
            == spec_parse_request(b),
{
    lemma_parsed_request(b);
    law_request_view_roundtrip(spec_parse_request(b)->Ok_0);
}

/// The code of a status reads back as that status.
pub proof fn law_status_code_roundtrip(s: Status)
    ensures
        status_from_code(status_code(s)) == Some(s),
{
}

/// A code that names a status is that status's code.
pub proof fn law_status_from_code_exact(c: nat)
    ensures
        status_from_code(c) matches Some(s) ==> status_code(s) == c,
{
}

proof fn lemma_eq_ignore_case_sym(a: Seq<char>, b: Seq<char>)
    requires
        eq_ignore_case(a, b),
    ensures
        eq_ignore_case(b, a),
{
    assert forall|i: int| 0 <= i < b.len() implies ascii_lower(#[trigger] b[i]) == ascii_lower(
        a[i],
    ) by {
        assert(ascii_lower(a[i]) == ascii_lower(b[i]));
    }
}

proof fn lemma_eq_ignore_case_trans(a: Seq<char>, b: Seq<char>, c: Seq<char>)
    requires
        eq_ignore_case(a, b),
        eq_ignore_case(b, c),
    ensures
        eq_ignore_case(a, c),
{
    assert forall|i: int| 0 <= i < a.len() implies ascii_lower(#[trigger] a[i]) == ascii_lower(
        c[i],
    ) by {
        assert(ascii_lower(a[i]) == ascii_lower(b[i]));
        assert(ascii_lower(b[i]) == ascii_lower(c[i]));
    }
}

/// Looking a name up after one more header was appended.
proof fn lemma_get_push(h: Seq<HeaderView>, x: HeaderView, m: Seq<char>)
    ensures
        spec_get_header(h.push(x), m) == (match spec_get_header(h, m) {
            Some(v) => Some(v),
            None => if eq_ignore_case(x.0, m) {
                Some(x.1)
            } else {
                None
            },
        }),
    decreases h.len(),
{
    if h.len() == 0 {
        assert(h.push(x).drop_first() =~= Seq::<HeaderView>::empty());
    } else {
        assert(h.push(x)[0] == h[0]);
        assert(h.push(x).drop_first() =~= h.drop_first().push(x));
        lemma_get_push(h.drop_first(), x, m);
    }
}

/// Looking a name up after the headers named `n` were taken out.
proof fn lemma_get_without(h: Seq<HeaderView>, n: Seq<char>, m: Seq<char>)
    ensures
        eq_ignore_case(m, n) ==> spec_get_header(without_header(h, n), m) is None,
        !eq_ignore_case(m, n) ==> spec_get_header(without_header(h, n), m) == spec_get_header(
            h,
            m,
        ),
    decreases h.len(),
{
    if h.len() > 0 {
        lemma_get_without(h.drop_first(), n, m);
        let w = without_header(h.drop_first(), n);
        if eq_ignore_case(h[0].0, n) {
            if eq_ignore_case(h[0].0, m) {
                lemma_eq_ignore_case_sym(h[0].0, m);
                lemma_eq_ignore_case_trans(m, h[0].0, n);
            }
        } else {
            assert((seq![h[0]] + w)[0] == h[0]);
            assert((seq![h[0]] + w).drop_first() =~= w);
            if eq_ignore_case(h[0].0, m) && eq_ignore_case(m, n) {
                lemma_eq_ignore_case_trans(h[0].0, m, n);
            }
        }
    }
}

/// After `set_header(n, v)`, looking up `n` (in any ASCII case) gives `v`, and looking
/// up any other name gives what it gave before.
pub proof fn law_set_header_then_get(h: Seq<HeaderView>, n: Seq<char>, v: Seq<char>, m: Seq<char>)
    ensures
        eq_ignore_case(m, n) ==> spec_get_header(without_header(h, n).push((n, v)), m) == Some(v),
        !eq_ignore_case(m, n) ==> spec_get_header(without_header(h, n).push((n, v)), m)
            == spec_get_header(h, m),
{
    lemma_get_without(h, n, m);
    lemma_get_push(without_header(h, n), (n, v), m);
    if eq_ignore_case(m, n) {
        lemma_eq_ignore_case_sym(m, n);
    } else if eq_ignore_case(n, m) {
        lemma_eq_ignore_case_sym(n, m);
    }
}

/// Reading a head that `serialize_head` wrote, as the reply to a `HEAD` request is
/// read, gives the status and headers back with an empty body, for well-formed headers
/// and a head within the limits.
pub proof fn law_head_view_roundtrip(r: ResponseView)
    requires
        forall|i: int| 0 <= i < r.headers.len() ==> wf_header(#[trigger] r.headers[i]),
        spec_serialize_head(r).len() <= MAX_STATUS_LINE + MAX_HEADERS + 4,
    ensures
        spec_parse_response_head_only(spec_serialize_head(r)) == Ok::<
            ResponseView,
            crate::error::ErrorView,
        >(ResponseView { status: r.status, headers: r.headers, body: seq![] }),
{
    lemma_response_head_roundtrip(r.status, r.headers, seq![]);
    assert(spec_serialize_head(r) + Seq::<u8>::empty() =~= spec_serialize_head(r));
}

/// `Content-Length: n` in decimal is a well-formed header.
proof fn lemma_length_header_wf(n: nat)
    ensures
        wf_header((content_length_name(), dec(n))),
{
    let name = content_length_name();
    assert forall|i: int| 0 <= i < name.len() implies #[trigger] name[i] != '\r' && name[i]
        != ':' by {}
    lemma_no_cr_no_crlf(name);
    lemma_index_none(name, ':');
    lemma_to_digits(n, 10, false);
    let d = dec(n);
    assert forall|i: int| 0 <= i < d.len() implies #[trigger] d[i] != '\r' && !is_ws(d[i]) by {
        assert(is_plain_digit_char(d[i]));
    }
    assert(d[0] != '\r' && !is_ws(d[0]));
    assert(!is_ws(d[d.len() - 1]));
    lemma_no_cr_no_crlf(d);
}

/// A response with a body, its `Content-Length` and a `Content-Type`, as the server
/// builds them, reads back as it was written, for a body within the limit, a media
/// type without surrounding whitespace or line breaks, and a head within the limits.
pub proof fn law_typed_response_reads_back(status: Status, body: Seq<u8>, ct: Seq<char>)
    requires
        body.len() <= MAX_BODY,
        is_trimmed(ct),
        no_crlf(ct),
        spec_serialize_head(typed_view(status, body, ct)).len() <= MAX_STATUS_LINE + MAX_HEADERS
            + 4,
    ensures
        spec_parse_response(spec_serialize(typed_view(status, body, ct))) == Ok::<
            ResponseView,
            crate::error::ErrorView,
        >(typed_view(status, body, ct)),
{
    let r = typed_view(status, body, ct);
    let cl = (content_length_name(), dec(body.len()));
    let name = content_type_name();
    lemma_length_header_wf(body.len());
    assert forall|i: int| 0 <= i < name.len() implies #[trigger] name[i] != '\r' && name[i]
        != ':' by {}
    lemma_no_cr_no_crlf(name);
    lemma_index_none(name, ':');
    assert(wf_header((name, ct)));
    assert forall|i: int| 0 <= i < r.headers.len() implies wf_header(#[trigger] r.headers[i]) by {
        if i == 0 {
            assert(r.headers[i] == cl);
        } else {
            assert(r.headers[i] == (name, ct));
        }
    }
    assert(!eq_ignore_case(content_length_name(), transfer_encoding_name()));
    assert(!eq_ignore_case(name, transfer_encoding_name()));
    assert(r.headers.drop_first() =~= seq![(name, ct)]);
    assert(seq![(name, ct)].drop_first() =~= Seq::<HeaderView>::empty());
    assert(r.headers[0].0 == content_length_name());
    assert(seq![(name, ct)][0].0 == name);
    assert(spec_get_header(Seq::<HeaderView>::empty(), transfer_encoding_name()) is None);
    assert(spec_get_header(seq![(name, ct)], transfer_encoding_name()) is None);
    assert(spec_get_header(r.headers, transfer_encoding_name()) is None);
    assert(eq_ignore_case(content_length_name(), content_length_name()));
    assert(spec_get_header(r.headers, content_length_name()) == Some(dec(body.len())));
    assert(response_fits(r));
    law_response_view_roundtrip(r);
}

/// What a request that `parse` accepts is: its head ends within the head limit and is
/// UTF-8; its request line is within the line limit, has at least three whitespace-
/// separated words, the third `SONION/1.0`; the method is the first word and is `GET`
/// or `HEAD`; the path is the second word, starts with `/` and holds no whitespace; and
/// the headers are those of the remaining lines.
pub proof fn law_request_parse_accepts(b: Seq<u8>)
    requires
        spec_parse_request(b) is Ok,
    ensures
        ({
            let r = spec_parse_request(b)->Ok_0;
            let he = header_end(b)->0;
            let lines = split_crlf(decode_utf8(b.subrange(0, he)));
            &&& header_end(b) is Some
            &&& 0 <= he && he + 4 <= b.len()
            &&& he <= MAX_REQUEST_LINE + MAX_HEADERS
            &&& valid_utf8(b.subrange(0, he))
            &&& lines.len() >= 1
            &&& encode_utf8(lines[0]).len() <= MAX_REQUEST_LINE
            &&& split_ws(lines[0]).len() >= 3
            &&& split_ws(lines[0])[2] == version_chars()
            &&& r.method == split_ws(lines[0])[0]
            &&& r.path == split_ws(lines[0])[1]
            &&& r.method == get_word() || r.method == head_word()
            &&& r.path.len() > 0 && r.path[0] == '/'
            &&& forall|j: int| 0 <= j < r.path.len() ==> !is_ws(#[trigger] r.path[j])
            &&& spec_parse_headers(lines.drop_first()) == Ok::<
                Seq<HeaderView>,
                crate::error::ErrorView,
            >(r.headers)
        }),
{
    let he = header_end(b)->0;
    lemma_find_seq(b, head_end_bytes());
    assert(head_end_bytes().len() == 4);
    lemma_split_crlf_nonempty(decode_utf8(b.subrange(0, he)));
    lemma_parsed_request(b);
}

/// The request that `fetch_request` builds for a URL with path `path` and host `host`.
pub open spec fn fetch_request_view(path: Seq<char>, host: Seq<char>) -> RequestView {
    RequestView {
        method: get_word(),
        path: spec_encode_path(path),
        headers: seq![(seq!['H', 'o', 's', 't'], host)],
    }
}

/// What a server reads of the request that `fetch` sends is that request: `GET` of the
/// percent-encoded path with the one `Host` header, for a path that starts with `/` (as
/// every parsed URL's does), a host without surrounding whitespace or line breaks, and
/// a request line and head within the limits.
pub proof fn law_fetch_request_reads_back(path: Seq<char>, host: Seq<char>)
    requires
        path.len() > 0 && path[0] == '/',
        is_trimmed(host),
        no_crlf(host),
        encode_utf8(get_word() + seq![' '] + spec_encode_path(path) + seq![' '] + version_chars()).len()
            <= MAX_REQUEST_LINE,
        spec_serialize_request(fetch_request_view(path, host)).len() <= MAX_REQUEST_LINE
            + MAX_HEADERS + 4,
    ensures
        spec_parse_request(spec_serialize_request(fetch_request_view(path, host))) == Ok::<
            RequestView,
            crate::error::ErrorView,
        >(fetch_request_view(path, host)),
{
    let r = fetch_request_view(path, host);
    lemma_encode_path_slash(path);
    let name = seq!['H', 'o', 's', 't'];
    assert forall|i: int| 0 <= i < name.len() implies #[trigger] name[i] != '\r' && name[i]
        != ':' by {}
    lemma_no_cr_no_crlf(name);
    lemma_index_none(name, ':');
    assert(wf_header((name, host)));
    assert forall|i: int| 0 <= i < r.headers.len() implies wf_header(#[trigger] r.headers[i]) by {
        assert(r.headers[i] == (name, host));
    }
    assert(request_fits(r));
    law_request_view_roundtrip(r);
}

} // verus!
