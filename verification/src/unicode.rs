//! Moving between bytes and chars: UTF-8 decoding through std, a verified
//! UTF-8 encoder, and facts relating ASCII bytes in an encoding to the chars.
use vstd::prelude::*;
use vstd::utf8::*;
use crate::text::{find_seq, lemma_find_seq, lemma_find_seq_intro, matches_at};

verus! {

/// `std::str::from_utf8`: succeeds exactly on valid UTF-8, and the string then holds
/// the decoded chars.
#[verifier::external_body]
pub(crate) fn str_from_utf8(b: &[u8]) -> (r: Option<&str>)
    ensures
        r is Some <==> valid_utf8(b@),
        r matches Some(s) ==> s@ == decode_utf8(b@),
{
    std::str::from_utf8(b).ok()
}

/// The chars of `s` in order.
pub fn str_chars(s: &str) -> (r: Vec<char>)
    ensures
        r@ == s@,
{
    broadcast use vstd::string::axiom_spec_iter;

    let mut out: Vec<char> = Vec::new();
    for c in it: s.chars()
        invariant
            it.seq() == s@,
            out@ == s@.take(it.index() as int),
    {
        assert(s@.take(it.index() + 1) =~= s@.take(it.index() as int).push(c));
        out.push(c);
    }
    assert(out@ =~= s@);
    out
}

/// The string holding exactly the chars `v`.
pub fn string_from_chars(v: &[char]) -> (r: String)
    ensures
        r@ == v@,
{
    let bytes = encode_chars(v);
    proof {
        encode_utf8_valid_utf8(v@);
        encode_utf8_decode_utf8(v@);
    }
    match str_from_utf8(bytes.as_slice()) {
        Some(t) => String::from_str(t),
        None => {
            assert(false);
            String::new()
        },
    }
}

/// Decodes `b` as UTF-8; `None` when `b` is not valid UTF-8.
pub fn decode_chars(b: &[u8]) -> (r: Option<Vec<char>>)
    ensures
        r is Some <==> valid_utf8(b@),
        r matches Some(v) ==> v@ == decode_utf8(b@),
{
    match str_from_utf8(b) {
        Some(s) => Some(str_chars(s)),
        None => None,
    }
}

/// Appends the UTF-8 encoding of `c`.
pub fn push_utf8(out: &mut Vec<u8>, c: char)
    ensures
        final(out)@ == old(out)@ + encode_scalar(c as u32),
{
    let v = c as u32;
    proof {
        char_is_scalar(c);
    }
    if v <= 0x7f {
        out.push((v & 0x7F) as u8);
    } else if v <= 0x7ff {
        out.push(0xC0 | ((v >> 6) & 0x1F) as u8);
        out.push(0x80 | (v & 0x3F) as u8);
    } else if v <= 0xffff {
        out.push(0xE0 | ((v >> 12) & 0x0F) as u8);
        out.push(0x80 | ((v >> 6) & 0x3F) as u8);
        out.push(0x80 | (v & 0x3F) as u8);
    } else {
        out.push(0xF0 | ((v >> 18) & 0x7) as u8);
        out.push(0x80 | ((v >> 12) & 0x3F) as u8);
        out.push(0x80 | ((v >> 6) & 0x3F) as u8);
        out.push(0x80 | (v & 0x3F) as u8);
    }
    assert(final(out)@ =~= old(out)@ + encode_scalar(c as u32));
}

/// `encode_utf8` distributes over concatenation.
pub proof fn lemma_encode_concat(a: Seq<char>, b: Seq<char>)
    ensures
        encode_utf8(a + b) == encode_utf8(a) + encode_utf8(b),
    decreases a.len(),
{
    if a.len() == 0 {
        assert(a + b =~= b);
        assert(encode_utf8(a) =~= Seq::<u8>::empty());
        assert(encode_utf8(a) + encode_utf8(b) =~= encode_utf8(b));
    } else {
        lemma_encode_concat(a.drop_first(), b);
        assert((a + b).drop_first() =~= a.drop_first() + b);
        assert(encode_utf8(a + b) =~= encode_utf8(a) + encode_utf8(b));
    }
}

/// The encoding of one char.
pub proof fn lemma_encode_single(c: char)
    ensures
        encode_utf8(seq![c]) == encode_scalar(c as u32),
{
    assert(seq![c].drop_first() =~= Seq::<char>::empty());
    assert(encode_utf8(Seq::<char>::empty()) =~= Seq::<u8>::empty());
    assert(encode_scalar(c as u32) + Seq::<u8>::empty() =~= encode_scalar(c as u32));
}

/// Encoding `s.push(c)` appends the encoding of `c`.
pub proof fn lemma_encode_push(s: Seq<char>, c: char)
    ensures
        encode_utf8(s.push(c)) == encode_utf8(s) + encode_scalar(c as u32),
{
    lemma_encode_concat(s, seq![c]);
    assert(s.push(c) =~= s + seq![c]);
    lemma_encode_single(c);
}

/// The UTF-8 encoding of `v`.
pub fn encode_chars(v: &[char]) -> (r: Vec<u8>)
    ensures
        r@ == encode_utf8(v@),
{
    let mut out: Vec<u8> = Vec::new();
    let mut i: usize = 0;
    assert(v@.subrange(0, 0) =~= Seq::<char>::empty());
    while i < v.len()
        invariant
            i <= v@.len(),
            out@ == encode_utf8(v@.subrange(0, i as int)),
        decreases v@.len() - i,
    {
        push_utf8(&mut out, v[i]);
        proof {
            lemma_encode_push(v@.subrange(0, i as int), v@[i as int]);
            assert(v@.subrange(0, i as int).push(v@[i as int]) =~= v@.subrange(0, i + 1));
        }
        i = i + 1;
    }
    assert(v@.subrange(0, v@.len() as int) =~= v@);
    out
}

/// The number of bytes in the UTF-8 encoding of `c`.
pub open spec fn utf8_width(c: char) -> nat {
    encode_scalar(c as u32).len()
}

/// Length of the UTF-8 encoding of a single char.
fn char_utf8_len(c: char) -> (r: usize)
    ensures
        r == utf8_width(c),
        1 <= r <= 4,
{
    let v = c as u32;
    proof {
        char_is_scalar(c);
    }
    if v <= 0x7f {
        1
    } else if v <= 0x7ff {
        2
    } else if v <= 0xffff {
        3
    } else {
        4
    }
}

/// The number of bytes in the UTF-8 encoding of `v`, as `str::len` counts them.
pub fn utf8_len(v: &[char]) -> (r: usize)
    requires
        encode_utf8(v@).len() <= usize::MAX,
    ensures
        r == encode_utf8(v@).len(),
{
    let mut n: usize = 0;
    let mut i: usize = 0;
    assert(v@.subrange(0, 0) =~= Seq::<char>::empty());
    while i < v.len()
        invariant
            i <= v@.len(),
            n == encode_utf8(v@.subrange(0, i as int)).len(),
            encode_utf8(v@).len() <= usize::MAX,
        decreases v@.len() - i,
    {
        let w = char_utf8_len(v[i]);
        proof {
            lemma_encode_push(v@.subrange(0, i as int), v@[i as int]);
            assert(v@.subrange(0, i as int).push(v@[i as int]) =~= v@.subrange(0, i + 1));
            lemma_encode_concat(v@.subrange(0, i + 1), v@.subrange(i + 1, v@.len() as int));
            assert(v@.subrange(0, i + 1) + v@.subrange(i + 1, v@.len() as int) =~= v@);
        }
        n = n + w;
        i = i + 1;
    }
    assert(v@.subrange(0, v@.len() as int) =~= v@);
    n
}

/// The bytes of an ASCII char sequence.
pub open spec fn ascii_bytes(s: Seq<char>) -> Seq<u8> {
    s.map_values(|c: char| c as u8)
}

/// All chars of `s` are ASCII.
pub open spec fn all_ascii(s: Seq<char>) -> bool {
    is_ascii_chars(s)
}

/// An ASCII sequence is encoded byte for byte.
pub proof fn lemma_encode_ascii(s: Seq<char>)
    requires
        all_ascii(s),
    ensures
        encode_utf8(s) == ascii_bytes(s),
{
    is_ascii_chars_encode_utf8(s);
    assert(encode_utf8(s) =~= ascii_bytes(s));
}

/// A non-ASCII char encodes to bytes that are all at least 0x80.
pub proof fn lemma_encode_scalar_high(c: char)
    requires
        !(c <= '\u{7f}'),
    ensures
        forall|i: int| 0 <= i < encode_scalar(c as u32).len() ==> #[trigger] encode_scalar(
            c as u32,
        )[i] >= 0x80,
        encode_scalar(c as u32).len() >= 2,
{
    let v = c as u32;
    char_is_scalar(c);
    assert((0xC0 | ((v >> 6) & 0x1F) as u8) >= 0x80) by (bit_vector);
    assert((0xE0 | ((v >> 12) & 0x0F) as u8) >= 0x80) by (bit_vector);
    assert((0xF0 | ((v >> 18) & 0x7) as u8) >= 0x80) by (bit_vector);
    assert((0x80 | (v & 0x3F) as u8) >= 0x80) by (bit_vector);
    assert((0x80 | ((v >> 6) & 0x3F) as u8) >= 0x80) by (bit_vector);
    assert((0x80 | ((v >> 12) & 0x3F) as u8) >= 0x80) by (bit_vector);
}

/// An ASCII char encodes to the single byte of its value.
pub proof fn lemma_encode_scalar_ascii(c: char)
    requires
        c <= '\u{7f}',
    ensures
        encode_scalar(c as u32) == seq![c as u8],
{
    let v = c as u32;
    assert(v <= 0x7f);
    assert((v & 0x7F) as u8 == v as u8) by (bit_vector)
        requires
            v <= 0x7f,
    ;
    assert(v as u8 == c as u8);
    assert(encode_scalar(c as u32) =~= seq![c as u8]);
}

/// A char whose byte value is known.
pub proof fn lemma_ascii_char_from_byte(c: char, d: char)
    requires
        c <= '\u{7f}',
        d <= '\u{7f}',
        c as u8 == d as u8,
    ensures
        c == d,
{
}

/// An ASCII byte of an encoding starts a char that is that byte: for every position `i`
/// of `encode_utf8(s)` holding a byte below 0x80 there is a char index `j` whose
/// encoding starts at `i` and `s[j]` is that byte.
pub proof fn lemma_ascii_byte_is_char(s: Seq<char>, i: int)
    requires
        0 <= i < encode_utf8(s).len(),
        encode_utf8(s)[i] < 0x80,
    ensures
        exists|j: int|
            0 <= j < s.len() && #[trigger] encode_utf8(s.subrange(0, j)).len() == i && s[j]
                <= '\u{7f}' && s[j] as u8 == encode_utf8(s)[i],
    decreases s.len(),
{
    assert(s.len() > 0) by {
        if s.len() == 0 {
            assert(encode_utf8(s) =~= Seq::<u8>::empty());
        }
    }
    let c = s[0];
    let rest = s.drop_first();
    assert(encode_utf8(s) == encode_scalar(c as u32) + encode_utf8(rest));
    if c <= '\u{7f}' {
        lemma_encode_scalar_ascii(c);
        if i == 0 {
            assert(s.subrange(0, 0) =~= Seq::<char>::empty());
            assert(encode_utf8(s.subrange(0, 0)).len() == 0);
            assert(s[0] as u8 == encode_utf8(s)[0]);
        } else {
            assert(encode_utf8(rest)[i - 1] == encode_utf8(s)[i]);
            lemma_ascii_byte_is_char(rest, i - 1);
            let j = choose|j: int|
                0 <= j < rest.len() && #[trigger] encode_utf8(rest.subrange(0, j)).len() == i - 1
                    && rest[j] <= '\u{7f}' && rest[j] as u8 == encode_utf8(rest)[i - 1];
            assert(s.subrange(0, j + 1) =~= seq![c] + rest.subrange(0, j));
            lemma_encode_concat(seq![c], rest.subrange(0, j));
            lemma_encode_single(c);
            assert(encode_utf8(s.subrange(0, j + 1)).len() == i);
            assert(s[j + 1] == rest[j]);
        }
    } else {
        lemma_encode_scalar_high(c);
        let w = encode_scalar(c as u32).len() as int;
        if i < w {
            assert(encode_utf8(s)[i] == encode_scalar(c as u32)[i]);
        } else {
            assert(encode_utf8(rest)[i - w] == encode_utf8(s)[i]);
            lemma_ascii_byte_is_char(rest, i - w);
            let j = choose|j: int|
                0 <= j < rest.len() && #[trigger] encode_utf8(rest.subrange(0, j)).len() == i - w
                    && rest[j] <= '\u{7f}' && rest[j] as u8 == encode_utf8(rest)[i - w];
            assert(s.subrange(0, j + 1) =~= seq![c] + rest.subrange(0, j));
            lemma_encode_concat(seq![c], rest.subrange(0, j));
            lemma_encode_single(c);
            assert(encode_utf8(s.subrange(0, j + 1)).len() == i);
            assert(s[j + 1] == rest[j]);
        }
    }
}

/// Encoded prefix lengths grow with the prefix.
pub proof fn lemma_encode_prefix_len(s: Seq<char>, j: int, k: int)
    requires
        0 <= j <= k <= s.len(),
    ensures
        encode_utf8(s.subrange(0, j)).len() + (k - j) <= encode_utf8(s.subrange(0, k)).len(),
    decreases k - j,
{
    if j < k {
        lemma_encode_prefix_len(s, j, k - 1);
        lemma_encode_push(s.subrange(0, k - 1), s[k - 1]);
        assert(s.subrange(0, k - 1).push(s[k - 1]) =~= s.subrange(0, k));
        let c = s[k - 1];
        if c <= '\u{7f}' {
            lemma_encode_scalar_ascii(c);
        } else {
            lemma_encode_scalar_high(c);
        }
    }
}

/// The encoding of `s` splits at the encoding of its prefix.
pub proof fn lemma_encode_split(s: Seq<char>, j: int)
    requires
        0 <= j <= s.len(),
    ensures
        encode_utf8(s) == encode_utf8(s.subrange(0, j)) + encode_utf8(
            s.subrange(j, s.len() as int),
        ),
{
    lemma_encode_concat(s.subrange(0, j), s.subrange(j, s.len() as int));
    assert(s.subrange(0, j) + s.subrange(j, s.len() as int) =~= s);
}

/// ASCII bytes of a pattern at a char boundary of an encoding are the pattern's chars.
pub proof fn lemma_bytes_match_chars(s: Seq<char>, j: int, p: Seq<char>)
    requires
        0 <= j <= s.len(),
        is_ascii_chars(p),
        matches_at(encode_utf8(s), ascii_bytes(p), encode_utf8(s.subrange(0, j)).len() as int),
    ensures
        matches_at(s, p, j),
    decreases p.len(),
{
    let q = encode_utf8(s.subrange(0, j)).len() as int;
    if p.len() == 0 {
        assert(s.subrange(j, j) =~= p);
    } else {
        lemma_encode_split(s, j);
        let tail = s.subrange(j, s.len() as int);
        assert(encode_utf8(s).subrange(q, q + p.len())[0] == ascii_bytes(p)[0]);
        assert(tail.len() > 0) by {
            if tail.len() == 0 {
                assert(encode_utf8(tail) =~= Seq::<u8>::empty());
            }
        }
        let c = s[j];
        assert(tail[0] == c);
        assert(encode_utf8(tail) == encode_scalar(c as u32) + encode_utf8(tail.drop_first()));
        assert(encode_utf8(s)[q] == encode_utf8(tail)[0]);
        assert(p[0] <= '\u{7f}');
        assert((p[0] as u8) < 0x80) by {
            lemma_encode_scalar_ascii(p[0]);
            assert(encode_utf8(seq![p[0]]) == seq![p[0] as u8]) by {
                lemma_encode_single(p[0]);
            }
            is_ascii_chars_encode_utf8(seq![p[0]]);
            assert(is_ascii_chars(seq![p[0]]));
            let v = p[0] as u32;
            assert(v <= 0x7f);
            assert((v as u8) < 0x80) by (bit_vector)
                requires
                    v <= 0x7f,
            ;
        }
        if !(c <= '\u{7f}') {
            lemma_encode_scalar_high(c);
            assert(encode_scalar(c as u32)[0] >= 0x80);
            assert(false);
        }
        lemma_encode_scalar_ascii(c);
        lemma_ascii_char_from_byte(c, p[0]);
        lemma_encode_push(s.subrange(0, j), c);
        assert(s.subrange(0, j).push(c) =~= s.subrange(0, j + 1));
        let p2 = p.drop_first();
        assert(is_ascii_chars(p2));
        assert(ascii_bytes(p2) =~= ascii_bytes(p).drop_first());
        assert(encode_utf8(s).subrange(q + 1, q + 1 + p2.len()) =~= encode_utf8(s).subrange(
            q,
            q + p.len(),
        ).drop_first());
        lemma_bytes_match_chars(s, j + 1, p2);
        assert(s.subrange(j, j + p.len()) =~= seq![c] + s.subrange(j + 1, j + 1 + p2.len()));
        assert(p =~= seq![p[0]] + p2);
    }
}

/// Chars of an ASCII pattern are its bytes in the encoding.
pub proof fn lemma_chars_match_bytes(s: Seq<char>, j: int, p: Seq<char>)
    requires
        is_ascii_chars(p),
        matches_at(s, p, j),
    ensures
        matches_at(encode_utf8(s), ascii_bytes(p), encode_utf8(s.subrange(0, j)).len() as int),
        encode_utf8(s.subrange(0, j + p.len())).len() == encode_utf8(s.subrange(0, j)).len()
            + p.len(),
{
    let a = s.subrange(0, j);
    let rest = s.subrange(j + p.len(), s.len() as int);
    assert(s =~= a + p + rest);
    lemma_encode_concat(a + p, rest);
    lemma_encode_concat(a, p);
    lemma_encode_ascii(p);
    assert(ascii_bytes(p).len() == p.len());
    assert(s.subrange(0, j + p.len()) =~= a + p);
    let q = encode_utf8(a).len() as int;
    assert(encode_utf8(s).subrange(q, q + p.len()) =~= ascii_bytes(p));
}

/// The first match of an ASCII pattern in the chars gives the first match of its bytes
/// in the encoding, whatever bytes follow.
pub proof fn lemma_find_encode(s: Seq<char>, p: Seq<char>, tail: Seq<u8>)
    requires
        is_ascii_chars(p),
        p.len() >= 1,
        find_seq(s, p) is Some,
    ensures
        find_seq(encode_utf8(s) + tail, ascii_bytes(p)) == Some(
            encode_utf8(s.subrange(0, find_seq(s, p)->0)).len() as int,
        ),
{
    lemma_find_seq(s, p);
    let k = find_seq(s, p)->0;
    let e = encode_utf8(s);
    let b = e + tail;
    let ap = ascii_bytes(p);
    let qk = encode_utf8(s.subrange(0, k)).len() as int;
    lemma_chars_match_bytes(s, k, p);
    lemma_encode_prefix_len(s, k + p.len(), s.len() as int);
    assert(s.subrange(0, s.len() as int) =~= s);
    assert(b.subrange(qk, qk + p.len()) =~= e.subrange(qk, qk + p.len()));
    assert forall|q: int| 0 <= q < qk implies !#[trigger] matches_at(b, ap, q) by {
        if matches_at(b, ap, q) {
            lemma_encode_prefix_len(s, k, s.len() as int);
            assert(e.subrange(q, q + p.len()) =~= b.subrange(q, q + p.len()));
            assert(e[q] == b.subrange(q, q + p.len())[0]);
            assert(ap[0] == p[0] as u8);
            let v = p[0] as u32;
            assert(p[0] <= '\u{7f}');
            assert((v as u8) < 0x80) by (bit_vector)
                requires
                    v <= 0x7f,
            ;
            assert(p[0] as u8 == v as u8);
            lemma_ascii_byte_is_char(s, q);
            let j = choose|j: int|
                0 <= j < s.len() && #[trigger] encode_utf8(s.subrange(0, j)).len() == q && s[j]
                    <= '\u{7f}' && s[j] as u8 == encode_utf8(s)[q];
            if j >= k {
                lemma_encode_prefix_len(s, k, j);
            }
            lemma_bytes_match_chars(s, j, p);
            assert(!matches_at(s, p, j));
        }
    }
    lemma_find_seq_intro(b, ap, qk);
}

} // verus!
