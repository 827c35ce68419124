//! What holds of paths across `encode_path`, `decode_path` and `canonicalize_path`.
use crate::text::is_ws;
use vstd::utf8::encode_scalar;
use crate::num::{all_digits, digit_char, digit_val, digits_value, parse_unsigned, unsigned_digits};
use crate::unicode::{ascii_bytes, lemma_encode_ascii};
use crate::text::{
    find_seq, lemma_find_seq_intro, lemma_find_seq_none, lemma_split_char_free, matches_at,
    split_on,
};
use crate::url::{
    last_index_of, UrlView,
    decode_bytes_from, dot_dot, encode_byte, encode_bytes, join_slash, resolve_segments,
    spec_canonicalize, spec_decode_path, spec_encode_path, spec_parse_url, unreserved,
};

use vstd::prelude::*;
use vstd::utf8::{
    decode_utf8, encode_utf8, encode_utf8_decode_utf8, encode_utf8_valid_utf8, is_ascii_chars,
    valid_utf8,
};

verus! {

/// Percent-encoding a byte string one byte at a time from the front.
pub proof fn lemma_encode_bytes_cons(b: Seq<u8>)
    requires
        b.len() > 0,
    ensures
        encode_bytes(b) == encode_byte(b[0]) + encode_bytes(b.drop_first()),
    decreases b.len(),
{
    if b.len() == 1 {
        assert(b.drop_last() =~= Seq::<u8>::empty());
        assert(b.drop_first() =~= Seq::<u8>::empty());
        assert(encode_bytes(b.drop_first()) =~= Seq::<char>::empty());
        assert(encode_bytes(b) =~= encode_byte(b[0]));
    } else {
        let d = b.drop_last();
        lemma_encode_bytes_cons(d);
        assert(d.drop_first() =~= b.drop_first().drop_last());
        assert(b.drop_first().last() == b.last());
        assert(encode_bytes(b) =~= encode_byte(b[0]) + encode_bytes(b.drop_first()));
    }
}

/// Every char that `encode_bytes` writes is ASCII.
proof fn lemma_encode_bytes_ascii(b: Seq<u8>)
    ensures
        is_ascii_chars(encode_bytes(b)),
    decreases b.len(),
{
    if b.len() > 0 {
        lemma_encode_bytes_ascii(b.drop_last());
        let x = b.last();
        let e = encode_bytes(b);
        let p = encode_bytes(b.drop_last());
        assert forall|i: int| 0 <= i < e.len() implies '\0' <= #[trigger] e[i] <= '\u{7f}' by {
            if i >= p.len() {
                assert(e[i] == encode_byte(x)[i - p.len()]);
            } else {
                assert(e[i] == p[i]);
            }
        }
    }
}

/// Two hex digits written by `encode_byte` read back as the byte.
proof fn lemma_hex_pair(x: u8)
    ensures
        parse_unsigned(seq![digit_char((x / 16) as nat, true), digit_char((x % 16) as nat, true)], 16, 255)
            == Some(x as nat),
{
    let c1 = digit_char((x / 16) as nat, true);
    let c2 = digit_char((x % 16) as nat, true);
    let d = seq![c1, c2];
    assert(unsigned_digits(d) == d);
    assert(digit_val(c1, 16) == Some((x / 16) as nat));
    assert(digit_val(c2, 16) == Some((x % 16) as nat));
    assert(all_digits(d, 16));
    assert(d.drop_last() =~= seq![c1]);
    assert(seq![c1].drop_last() =~= Seq::<char>::empty());
    assert(seq![c1].last() == c1);
    assert(digits_value(Seq::<char>::empty(), 16) == 0);
    assert(digits_value(seq![c1], 16) == digits_value(seq![c1].drop_last(), 16) * 16 + digit_val(
        c1,
        16,
    ).unwrap_or(0));
    assert(digits_value(seq![c1], 16) == (x / 16) as nat);
    assert(digits_value(d, 16) == x as nat);
}

/// Decoding from position `i` reads back the bytes whose encoding follows `i`.
proof fn lemma_decode_encoded(q: Seq<u8>, i: int, b: Seq<u8>)
    requires
        0 <= i <= q.len(),
        q.subrange(i, q.len() as int) == ascii_bytes(encode_bytes(b)),
    ensures
        decode_bytes_from(q, i) == Ok::<Seq<u8>, crate::url::DecodeFailure>(b),
    decreases b.len(),
{
    if b.len() == 0 {
        assert(encode_bytes(b) =~= Seq::<char>::empty());
        assert(q.subrange(i, q.len() as int).len() == 0);
        assert(b =~= Seq::<u8>::empty());
    } else {
        let x = b[0];
        let rest = b.drop_first();
        lemma_encode_bytes_cons(b);
        let e1 = encode_byte(x);
        let er = encode_bytes(rest);
        assert(ascii_bytes(e1 + er) =~= ascii_bytes(e1) + ascii_bytes(er));
        let t = q.subrange(i, q.len() as int);
        assert(t == ascii_bytes(e1) + ascii_bytes(er));
        if unreserved(x) {
            assert(e1 == seq![x as char]);
            assert(q[i] == t[0]);
            assert(t[0] == (x as char) as u8);
            assert(q[i] == x);
            assert(ascii_bytes(e1).len() == 1);
            assert forall|k: int| 0 <= k < ascii_bytes(er).len() implies #[trigger] q.subrange(
                i + 1,
                q.len() as int,
            )[k] == ascii_bytes(er)[k] by {
                assert(q[i + 1 + k] == t[1 + k]);
            }
            assert(q.subrange(i + 1, q.len() as int) =~= ascii_bytes(er));
            lemma_decode_encoded(q, i + 1, rest);
            assert(seq![x] + rest =~= b);
        } else {
            let c1 = digit_char((x / 16) as nat, true);
            let c2 = digit_char((x % 16) as nat, true);
            assert(e1 == seq!['%', c1, c2]);
            assert(q[i] == t[0]);
            assert(q[i] == 37u8);
            assert(i + 2 < q.len());
            let h = q.subrange(i + 1, i + 3);
            assert(h[0] == t[1]);
            assert(h[1] == t[2]);
            assert(is_ascii_chars(seq![c1, c2]));
            lemma_encode_ascii(seq![c1, c2]);
            assert(h =~= encode_utf8(seq![c1, c2]));
            encode_utf8_valid_utf8(seq![c1, c2]);
            encode_utf8_decode_utf8(seq![c1, c2]);
            lemma_hex_pair(x);
            assert(ascii_bytes(e1).len() == 3);
            assert forall|k: int| 0 <= k < ascii_bytes(er).len() implies #[trigger] q.subrange(
                i + 3,
                q.len() as int,
            )[k] == ascii_bytes(er)[k] by {
                assert(q[i + 3 + k] == t[3 + k]);
            }
            assert(q.subrange(i + 3, q.len() as int) =~= ascii_bytes(er));
            lemma_decode_encoded(q, i + 3, rest);
            assert(seq![(x as nat) as u8] + rest =~= b);
        }
    }
}

/// Decoding what `encode_path` wrote gives the path back: for every string `s`,
/// `decode_path(&encode_path(s)) == Ok(s)`.
pub proof fn law_decode_encode_path(s: Seq<char>)
    ensures
        spec_decode_path(spec_encode_path(s)) == Ok::<Seq<char>, crate::error::ErrorView>(s),
{
    let b = encode_utf8(s);
    let e = encode_bytes(b);
    lemma_encode_bytes_ascii(b);
    lemma_encode_ascii(e);
    let q = encode_utf8(e);
    assert(q.subrange(0, q.len() as int) =~= q);
    lemma_decode_encoded(q, 0, b);
    encode_utf8_valid_utf8(s);
    encode_utf8_decode_utf8(s);
}

/// A segment of a canonical path: not empty, not `.` or `..`, and without `/`.
pub open spec fn plain_segment(s: Seq<char>) -> bool {
    s.len() > 0 && s != seq!['.'] && s != dot_dot() && !s.contains('/')
}

/// Resolving segments without `/` onto plain segments keeps only plain segments.
proof fn lemma_resolve_plain(segs: Seq<Seq<char>>, stack: Seq<Seq<char>>)
    requires
        forall|i: int| 0 <= i < segs.len() ==> !(#[trigger] segs[i]).contains('/'),
        forall|i: int| 0 <= i < stack.len() ==> plain_segment(#[trigger] stack[i]),
    ensures
        resolve_segments(segs, stack) matches Some(st) ==> forall|i: int|
            0 <= i < st.len() ==> plain_segment(#[trigger] st[i]),
    decreases segs.len(),
{
    if segs.len() > 0 {
        let s = segs[0];
        let rest = segs.drop_first();
        assert forall|i: int| 0 <= i < rest.len() implies !(#[trigger] rest[i]).contains('/') by {
            assert(rest[i] == segs[i + 1]);
        }
        if s.len() == 0 || s == seq!['.'] {
            lemma_resolve_plain(rest, stack);
        } else if s == dot_dot() {
            if stack.len() > 0 {
                let st2 = stack.drop_last();
                assert forall|i: int| 0 <= i < st2.len() implies plain_segment(#[trigger] st2[i]) by {
                    assert(st2[i] == stack[i]);
                }
                lemma_resolve_plain(rest, st2);
            }
        } else {
            assert(!segs[0].contains('/'));
            let st2 = stack.push(s);
            assert forall|i: int| 0 <= i < st2.len() implies plain_segment(#[trigger] st2[i]) by {
                if i < stack.len() {
                    assert(st2[i] == stack[i]);
                }
            }
            lemma_resolve_plain(rest, st2);
        }
    }
}

/// Joining from the front: the first segment, `/`, the rest joined.
proof fn lemma_join_cons(st: Seq<Seq<char>>)
    requires
        st.len() >= 2,
    ensures
        join_slash(st) == st[0] + seq!['/'] + join_slash(st.drop_first()),
    decreases st.len(),
{
    if st.len() == 2 {
        assert(st.drop_last() =~= seq![st[0]]);
        assert(st.drop_first() =~= seq![st[1]]);
        assert(join_slash(seq![st[0]]) == st[0]);
        assert(join_slash(seq![st[1]]) == st[1]);
    } else {
        let d = st.drop_last();
        lemma_join_cons(d);
        assert(d.drop_first() =~= st.drop_first().drop_last());
        assert(st.drop_first().last() == st.last());
        assert(join_slash(st) =~= st[0] + seq!['/'] + join_slash(st.drop_first()));
    }
}

/// The last char of joined plain segments is the last char of the last segment.
proof fn lemma_join_last(st: Seq<Seq<char>>)
    requires
        st.len() >= 1,
        st.last().len() > 0,
    ensures
        join_slash(st).len() > 0,
        join_slash(st).last() == st.last().last(),
{
    if st.len() >= 2 {
        assert((join_slash(st.drop_last()) + seq!['/'] + st.last()).last() == st.last().last());
    }
}

/// A text without `/` splits into itself.
proof fn lemma_split_whole(a: Seq<char>)
    requires
        !a.contains('/'),
    ensures
        split_on(a, seq!['/']) == seq![a],
{
    assert forall|j: int| 0 <= j implies !#[trigger] matches_at(a, seq!['/'], j) by {
        if matches_at(a, seq!['/'], j) {
            assert(a.subrange(j, j + 1)[0] == a[j]);
            assert(a[j] == '/');
        }
    }
    lemma_find_seq_none(a, seq!['/']);
}

/// Splitting `a/rest`, where `a` holds no `/`, gives `a` and then the pieces of `rest`.
proof fn lemma_split_prefix(a: Seq<char>, rest: Seq<char>)
    requires
        !a.contains('/'),
    ensures
        split_on(a + seq!['/'] + rest, seq!['/']) == seq![a] + split_on(rest, seq!['/']),
{
    let s = a + seq!['/'] + rest;
    let k = a.len() as int;
    assert(s.subrange(k, k + 1) =~= seq!['/']);
    assert forall|j: int| 0 <= j < k implies !#[trigger] matches_at(s, seq!['/'], j) by {
        if matches_at(s, seq!['/'], j) {
            assert(s.subrange(j, j + 1)[0] == s[j]);
            assert(s[j] == a[j]);
        }
    }
    lemma_find_seq_intro(s, seq!['/'], k);
    assert(s.subrange(0, k) =~= a);
    assert(s.subrange(k + 1, s.len() as int) =~= rest);
}

/// Splitting joined plain segments, followed by nothing or by `/`, gives the segments
/// back, and an empty piece after a trailing `/`.
proof fn lemma_split_joined(st: Seq<Seq<char>>, t: Seq<char>)
    requires
        st.len() >= 1,
        forall|i: int| 0 <= i < st.len() ==> plain_segment(#[trigger] st[i]),
        t == Seq::<char>::empty() || t == seq!['/'],
    ensures
        split_on(join_slash(st) + t, seq!['/']) == st + if t.len() > 0 {
            seq![Seq::<char>::empty()]
        } else {
            Seq::<Seq<char>>::empty()
        },
    decreases st.len(),
{
    assert(plain_segment(st[0]));
    if st.len() == 1 {
        assert(join_slash(st) == st[0]);
        if t.len() > 0 {
            assert(st[0] + t =~= st[0] + seq!['/'] + Seq::<char>::empty());
            lemma_split_prefix(st[0], Seq::<char>::empty());
            assert(!Seq::<char>::empty().contains('/'));
            lemma_split_whole(Seq::<char>::empty());
        } else {
            assert(st[0] + t =~= st[0]);
            lemma_split_whole(st[0]);
        }
        assert(st =~= seq![st[0]]);
    } else {
        let rest = st.drop_first();
        lemma_join_cons(st);
        assert forall|i: int| 0 <= i < rest.len() implies plain_segment(#[trigger] rest[i]) by {
            assert(rest[i] == st[i + 1]);
        }
        lemma_split_joined(rest, t);
        assert(join_slash(st) + t =~= st[0] + seq!['/'] + (join_slash(rest) + t));
        lemma_split_prefix(st[0], join_slash(rest) + t);
        assert(seq![st[0]] + rest =~= st);
    }
}

/// Resolving plain segments, perhaps followed by one empty piece, keeps them all.
proof fn lemma_resolve_plain_all(segs: Seq<Seq<char>>, e: Seq<Seq<char>>, acc: Seq<Seq<char>>)
    requires
        forall|i: int| 0 <= i < segs.len() ==> plain_segment(#[trigger] segs[i]),
        e == Seq::<Seq<char>>::empty() || e == seq![Seq::<char>::empty()],
    ensures
        resolve_segments(segs + e, acc) == Some(acc + segs),
    decreases segs.len(),
{
    if segs.len() == 0 {
        assert(segs + e =~= e);
        assert(acc + segs =~= acc);
        if e.len() > 0 {
            assert(e[0].len() == 0);
            assert(e.drop_first() =~= Seq::<Seq<char>>::empty());
            assert(resolve_segments(e, acc) == resolve_segments(e.drop_first(), acc));
        }
    } else {
        let rest = segs.drop_first();
        assert((segs + e)[0] == segs[0]);
        assert((segs + e).drop_first() =~= rest + e);
        assert(plain_segment(segs[0]));
        assert forall|i: int| 0 <= i < rest.len() implies plain_segment(#[trigger] rest[i]) by {
            assert(rest[i] == segs[i + 1]);
        }
        lemma_resolve_plain_all(rest, e, acc.push(segs[0]));
        assert(segs[0].len() > 0 && segs[0] != seq!['.'] && segs[0] != dot_dot());
        assert(resolve_segments(segs + e, acc) == resolve_segments(rest + e, acc.push(segs[0])));
        assert(acc.push(segs[0]) + rest =~= acc + segs);
    }
}

/// The canonical root path `/` is a fixed point.
proof fn lemma_root_fixed()
    ensures
        spec_canonicalize(seq!['/']) == Ok::<Seq<char>, crate::error::ErrorView>(seq!['/']),
        split_on(seq!['/'], seq!['/']) == seq![Seq::<char>::empty(), Seq::<char>::empty()],
{
    let empty = Seq::<char>::empty();
    assert(seq!['/'] =~= empty + seq!['/'] + empty);
    lemma_split_prefix(empty, empty);
    lemma_split_whole(empty);
    assert(split_on(seq!['/'], seq!['/']) =~= seq![empty, empty]);
    lemma_resolve_plain_all(seq![], seq![empty], seq![]);
    assert(Seq::<Seq<char>>::empty() + seq![empty] =~= seq![empty]);
    assert(seq![empty, empty].drop_first() =~= seq![empty]);
    assert(seq![empty, empty][0] == empty);
    assert(Seq::<Seq<char>>::empty() + Seq::<Seq<char>>::empty() =~= Seq::<Seq<char>>::empty());
    assert(join_slash(Seq::<Seq<char>>::empty()) =~= empty);
    assert(seq!['/'] + join_slash(Seq::<Seq<char>>::empty()) =~= seq!['/']);
}

/// `/` and plain segments joined by `/`, perhaps with a trailing `/`, is a fixed point
/// whose segments are the empty first piece, the segments, and an empty last piece
/// after a trailing `/`.
#[verifier::rlimit(30)]
proof fn lemma_joined_fixed(st: Seq<Seq<char>>, t: Seq<char>)
    requires
        st.len() >= 1,
        forall|i: int| 0 <= i < st.len() ==> plain_segment(#[trigger] st[i]),
        t == Seq::<char>::empty() || t == seq!['/'],
    ensures
        spec_canonicalize(seq!['/'] + join_slash(st) + t) == Ok::<Seq<char>, crate::error::ErrorView>(
            seq!['/'] + join_slash(st) + t,
        ),
        forall|i: int|
            0 <= i < split_on(seq!['/'] + join_slash(st) + t, seq!['/']).len() ==> plain_segment(
                #[trigger] split_on(seq!['/'] + join_slash(st) + t, seq!['/'])[i],
            ) || split_on(seq!['/'] + join_slash(st) + t, seq!['/'])[i].len() == 0,
        split_on(seq!['/'] + join_slash(st) + t, seq!['/'])[0].len() == 0,
        forall|i: int|
            0 < i < split_on(seq!['/'] + join_slash(st) + t, seq!['/']).len() - 1 ==> plain_segment(
                #[trigger] split_on(seq!['/'] + join_slash(st) + t, seq!['/'])[i],
            ),
{
    let empty = Seq::<char>::empty();
    let out = seq!['/'] + join_slash(st);
    let p = out + t;
    lemma_join_last(st);
    assert(out.last() == st.last().last());
    assert(plain_segment(st[st.len() - 1]));
    assert(!st.last().contains('/'));
    assert(out.last() != '/');
    assert(p =~= empty + seq!['/'] + (join_slash(st) + t));
    lemma_split_prefix(empty, join_slash(st) + t);
    lemma_split_joined(st, t);
    let e = if t.len() > 0 {
        seq![empty]
    } else {
        Seq::<Seq<char>>::empty()
    };
    let sp = split_on(p, seq!['/']);
    assert(sp == seq![empty] + (st + e));
    assert(sp[0] == empty);
    assert(sp.drop_first() =~= st + e);
    lemma_resolve_plain_all(st, e, seq![]);
    assert(Seq::<Seq<char>>::empty() + st =~= st);
    assert(p[0] == '/');
    if t.len() > 0 {
        assert(p.last() == '/');
        assert(p =~= out.push('/'));
    } else {
        assert(p =~= out);
    }
    assert forall|i: int| 0 <= i < sp.len() implies plain_segment(#[trigger] sp[i]) || sp[i].len()
        == 0 by {
        if 1 <= i <= st.len() {
            assert(sp[i] == st[i - 1]);
        } else if i > st.len() {
            assert(sp[i] == empty);
        }
    }    assert forall|i: int| 0 < i < sp.len() - 1 implies plain_segment(#[trigger] sp[i]) by {
        assert(sp[i] == st[i - 1]);
    }
}

/// No two `/` stand next to each other in `p`.
pub open spec fn no_double_slash(p: Seq<char>) -> bool {
    forall|k: int| 0 <= k < p.len() - 1 ==> !(#[trigger] p[k] == '/' && p[k + 1] == '/')
}

/// Plain segments joined by `/` neither start nor end with `/` and hold no `//`.
proof fn lemma_join_no_double(st: Seq<Seq<char>>)
    requires
        st.len() >= 1,
        forall|i: int| 0 <= i < st.len() ==> plain_segment(#[trigger] st[i]),
    ensures
        join_slash(st).len() > 0,
        join_slash(st)[0] != '/',
        join_slash(st).last() != '/',
        no_double_slash(join_slash(st)),
    decreases st.len(),
{
    let j = join_slash(st);
    let l = st.last();
    assert(plain_segment(st[st.len() - 1]));
    assert(l.len() > 0 && !l.contains('/'));
    assert(l[0] != '/' && l[l.len() - 1] != '/');
    assert forall|k: int| 0 <= k < l.len() implies l[k] != '/' by {}
    if st.len() == 1 {
        assert(j == st[0]);
    } else {
        let d = st.drop_last();
        assert forall|i: int| 0 <= i < d.len() implies plain_segment(#[trigger] d[i]) by {
            assert(d[i] == st[i]);
        }
        lemma_join_no_double(d);
        let a = join_slash(d);
        assert(j == a + seq!['/'] + l);
        assert(j[0] == a[0]);
        assert(j.last() == l.last());
        assert forall|k: int| 0 <= k < j.len() - 1 implies !(#[trigger] j[k] == '/' && j[k + 1]
            == '/') by {
            if k < a.len() - 1 {
                assert(j[k] == a[k] && j[k + 1] == a[k + 1]);
            } else if k == a.len() - 1 {
                assert(j[k] == a.last());
            } else if k == a.len() {
                assert(j[k + 1] == l[0]);
            } else {
                assert(j[k] == l[k - a.len() - 1]);
            }
        }
    }
}

/// What `canonicalize_path` returns is canonical: canonicalizing it again gives it
/// back, none of its segments is `.` or `..`, it starts with `/`, and no segment but the
/// first (before the leading `/`) and the last (after a trailing `/`) is empty, so it
/// holds no `//`.
pub proof fn law_canonical_path_is_fixed(d: Seq<char>)
    ensures
        spec_canonicalize(d) matches Ok(p) ==> spec_canonicalize(p) == Ok::<
            Seq<char>,
            crate::error::ErrorView,
        >(p) && forall|i: int|
            0 <= i < split_on(p, seq!['/']).len() ==> #[trigger] split_on(p, seq!['/'])[i]
                != seq!['.'] && split_on(p, seq!['/'])[i] != dot_dot(),
        spec_canonicalize(d) matches Ok(p) ==> p.len() > 0 && p[0] == '/' && split_on(
            p,
            seq!['/'],
        )[0].len() == 0 && (forall|i: int|
            0 < i < split_on(p, seq!['/']).len() - 1 ==> (#[trigger] split_on(p, seq!['/'])[i]).len()
                > 0) && no_double_slash(p),
{
    if let Ok(p) = spec_canonicalize(d) {
        lemma_split_char_free(d, '/');
        lemma_resolve_plain(split_on(d, seq!['/']), seq![]);
        let st = resolve_segments(split_on(d, seq!['/']), seq![])->0;
        let empty = Seq::<char>::empty();
        if st.len() == 0 {
            assert(join_slash(st) =~= empty);
            assert(seq!['/'] + join_slash(st) =~= seq!['/']);
            lemma_root_fixed();
            let sp = split_on(p, seq!['/']);
            assert forall|i: int| 0 <= i < sp.len() implies #[trigger] sp[i] != seq!['.'] && sp[i]
                != dot_dot() by {
                assert(sp[i].len() == 0);
            }
            assert(p.len() == 1);
        } else {
            let t = if d.last() == '/' {
                seq!['/']
            } else {
                empty
            };
            lemma_join_last(st);
            assert(plain_segment(st[st.len() - 1]));
            assert(!st.last().contains('/'));
            assert((seq!['/'] + join_slash(st)).last() != '/');
            assert(p =~= seq!['/'] + join_slash(st) + t);
            lemma_joined_fixed(st, t);
            lemma_join_no_double(st);
            let j = join_slash(st);
            assert forall|k: int| 0 <= k < p.len() - 1 implies !(#[trigger] p[k] == '/' && p[k + 1]
                == '/') by {
                if k == 0 {
                    assert(p[1] == j[0]);
                } else if k < j.len() {
                    assert(p[k] == j[k - 1]);
                    assert(p[k + 1] == j[k]);
                } else {
                    assert(p[k] == j[j.len() - 1]);
                }
            }
            let sp = split_on(p, seq!['/']);
            assert forall|i: int| 0 <= i < sp.len() implies #[trigger] sp[i] != seq!['.'] && sp[i]
                != dot_dot() by {
                if sp[i].len() != 0 {
                    assert(plain_segment(sp[i]));
                }
            }
        }
    }
}

/// The path of a parsed URL is canonical: canonicalizing it gives it back, none of its
/// segments is `.` or `..`, it starts with `/`, and it holds no `//`.
pub proof fn law_url_path_is_canonical(input: Seq<char>)
    ensures
        spec_parse_url(input) matches Ok(u) ==> spec_canonicalize(u.path) == Ok::<
            Seq<char>,
            crate::error::ErrorView,
        >(u.path) && forall|i: int|
            0 <= i < split_on(u.path, seq!['/']).len() ==> #[trigger] split_on(u.path, seq!['/'])[i]
                != seq!['.'] && split_on(u.path, seq!['/'])[i] != dot_dot(),
        spec_parse_url(input) matches Ok(u) ==> u.path.len() > 0 && u.path[0] == '/'
            && no_double_slash(u.path),
{
    if let Ok(u) = spec_parse_url(input) {
        let rest = input.subrange(9, input.len() as int);
        let path = match crate::head::index_of(rest, '/') {
            Some(i) => rest.subrange(i, rest.len() as int),
            None => seq!['/'],
        };
        let dp = spec_decode_path(path)->Ok_0;
        law_canonical_path_is_fixed(dp);
    }
}

/// No char that `encode_bytes` writes is whitespace.
pub proof fn lemma_encode_bytes_no_ws(b: Seq<u8>)
    ensures
        forall|i: int| 0 <= i < encode_bytes(b).len() ==> !is_ws(#[trigger] encode_bytes(b)[i]),
    decreases b.len(),
{
    if b.len() > 0 {
        lemma_encode_bytes_no_ws(b.drop_last());
        let x = b.last();
        let e = encode_bytes(b);
        let p = encode_bytes(b.drop_last());
        let q = encode_byte(x);
        assert forall|i: int| 0 <= i < q.len() implies !is_ws(#[trigger] q[i]) by {
            if !unreserved(x) {
                assert(digit_char((x / 16) as nat, true) != ' ');
                assert(q[i] == '%' || q[i] == digit_char((x / 16) as nat, true) || q[i]
                    == digit_char((x % 16) as nat, true));
            }
        }
        assert forall|i: int| 0 <= i < e.len() implies !is_ws(#[trigger] e[i]) by {
            if i >= p.len() {
                assert(e[i] == q[i - p.len()]);
            } else {
                assert(e[i] == p[i]);
            }
        }
    }
}

/// Encoding a path that starts with `/` gives one that starts with `/`.
pub proof fn lemma_encode_path_slash(s: Seq<char>)
    requires
        s.len() > 0,
        s[0] == '/',
    ensures
        spec_encode_path(s).len() > 0,
        spec_encode_path(s)[0] == '/',
        forall|i: int|
            0 <= i < spec_encode_path(s).len() ==> !is_ws(#[trigger] spec_encode_path(s)[i]),
{
    let b = encode_utf8(s);
    crate::unicode::lemma_encode_scalar_ascii('/');
    assert(b == encode_scalar(s[0] as u32) + encode_utf8(s.drop_first()));
    assert(b[0] == 47u8);
    lemma_encode_bytes_cons(b);
    assert(unreserved(47u8));
    assert(encode_byte(47u8) == seq![(47u8) as char]);
    lemma_encode_bytes_no_ws(b);
}

/// Resolving plain segments and then more: the plain segments are kept as they are.
proof fn lemma_resolve_plain_then(segs: Seq<Seq<char>>, tail: Seq<Seq<char>>, acc: Seq<Seq<char>>)
    requires
        forall|i: int| 0 <= i < segs.len() ==> plain_segment(#[trigger] segs[i]),
    ensures
        resolve_segments(segs + tail, acc) == resolve_segments(tail, acc + segs),
    decreases segs.len(),
{
    if segs.len() == 0 {
        assert(segs + tail =~= tail);
        assert(acc + segs =~= acc);
    } else {
        let rest = segs.drop_first();
        assert((segs + tail)[0] == segs[0]);
        assert((segs + tail).drop_first() =~= rest + tail);
        assert(plain_segment(segs[0]));
        assert(segs[0].len() > 0 && segs[0] != seq!['.'] && segs[0] != dot_dot());
        assert forall|i: int| 0 <= i < rest.len() implies plain_segment(#[trigger] rest[i]) by {
            assert(rest[i] == segs[i + 1]);
        }
        lemma_resolve_plain_then(rest, tail, acc.push(segs[0]));
        assert(acc.push(segs[0]) + rest =~= acc + segs);
    }
}

/// Splitting joined plain segments followed by `/` and more gives the segments, then
/// the pieces of the rest.
proof fn lemma_split_joined_then(st: Seq<Seq<char>>, r: Seq<char>)
    requires
        st.len() >= 1,
        forall|i: int| 0 <= i < st.len() ==> plain_segment(#[trigger] st[i]),
    ensures
        split_on(join_slash(st) + seq!['/'] + r, seq!['/']) == st + split_on(r, seq!['/']),
    decreases st.len(),
{
    assert(plain_segment(st[0]));
    if st.len() == 1 {
        assert(join_slash(st) == st[0]);
        lemma_split_prefix(st[0], r);
        assert(st =~= seq![st[0]]);
    } else {
        let rest = st.drop_first();
        lemma_join_cons(st);
        assert forall|i: int| 0 <= i < rest.len() implies plain_segment(#[trigger] rest[i]) by {
            assert(rest[i] == st[i + 1]);
        }
        lemma_split_joined_then(rest, r);
        assert(join_slash(st) + seq!['/'] + r =~= st[0] + seq!['/'] + (join_slash(rest) + seq![
            '/',
        ] + r));
        lemma_split_prefix(st[0], join_slash(rest) + seq!['/'] + r);
        assert(seq![st[0]] + (rest + split_on(r, seq!['/'])) =~= st + split_on(r, seq!['/']));
    }
}

/// A `..` segment removes exactly the last segment kept before it: for plain segments
/// `st` (not empty, not `.` or `..`, without `/`), canonicalizing `/st/..` gives the
/// path of all segments of `st` but the last.
pub proof fn law_dot_dot_drops_one_segment(st: Seq<Seq<char>>)
    requires
        st.len() >= 1,
        forall|i: int| 0 <= i < st.len() ==> plain_segment(#[trigger] st[i]),
    ensures
        spec_canonicalize(seq!['/'] + join_slash(st) + seq!['/', '.', '.']) == Ok::<
            Seq<char>,
            crate::error::ErrorView,
        >(seq!['/'] + join_slash(st.drop_last())),
{
    let empty = Seq::<char>::empty();
    let dd = seq!['.', '.'];
    let d = seq!['/'] + join_slash(st) + seq!['/', '.', '.'];
    assert(d =~= empty + seq!['/'] + (join_slash(st) + seq!['/'] + dd));
    lemma_split_prefix(empty, join_slash(st) + seq!['/'] + dd);
    lemma_split_joined_then(st, dd);
    assert(!dd.contains('/')) by {
        assert forall|k: int| 0 <= k < dd.len() implies dd[k] != '/' by {}
    }
    lemma_split_whole(dd);
    let segs = split_on(d, seq!['/']);
    assert(segs == seq![empty] + (st + seq![dd]));
    assert(segs[0] == empty);
    assert(segs.drop_first() =~= st + seq![dd]);
    lemma_resolve_plain_then(st, seq![dd], seq![]);
    assert(Seq::<Seq<char>>::empty() + st =~= st);
    assert(seq![dd][0] == dd);
    assert(seq![dd].drop_first() =~= Seq::<Seq<char>>::empty());
    assert(resolve_segments(seq![dd], st) == resolve_segments(
        Seq::<Seq<char>>::empty(),
        st.drop_last(),
    ));
    assert(d[0] == '/');
    assert(d.last() == '.');
    let out = seq!['/'] + join_slash(st.drop_last());
    if st.len() == 1 {
        assert(st.drop_last() =~= Seq::<Seq<char>>::empty());
        assert(out =~= seq!['/']);
    }
}

/// `sonion://`.
pub open spec fn sonion_scheme() -> Seq<char> {
    seq!['s', 'o', 'n', 'i', 'o', 'n', ':', '/', '/']
}

proof fn lemma_first_slash_at(a: Seq<char>, r: Seq<char>)
    requires
        !a.contains('/'),
    ensures
        crate::head::index_of(a + seq!['/'] + r, '/') == Some(a.len() as int),
{
    let s = a + seq!['/'] + r;
    let k = a.len() as int;
    assert(s.subrange(k, k + 1) =~= seq!['/']);
    assert forall|j: int| 0 <= j < k implies !#[trigger] matches_at(s, seq!['/'], j) by {
        if matches_at(s, seq!['/'], j) {
            assert(s.subrange(j, j + 1)[0] == s[j]);
            assert(s[j] == a[j]);
        }
    }
    lemma_find_seq_intro(s, seq!['/'], k);
}

proof fn lemma_no_slash_index(a: Seq<char>)
    requires
        !a.contains('/'),
    ensures
        crate::head::index_of(a, '/') is None,
{
    assert forall|j: int| 0 <= j implies !#[trigger] matches_at(a, seq!['/'], j) by {
        if matches_at(a, seq!['/'], j) {
            assert(a.subrange(j, j + 1)[0] == a[j]);
        }
    }
    lemma_find_seq_none(a, seq!['/']);
}

/// Host and port do not depend on whether a path follows the authority: for every
/// authority `a` (text without `/`), `sonion://a` and `sonion://a/` parse alike, with
/// the same host, the same port and the root path, or with the same error.
pub proof fn law_url_path_does_not_move_port(a: Seq<char>)
    requires
        !a.contains('/'),
    ensures
        spec_parse_url(sonion_scheme() + a) == spec_parse_url(sonion_scheme() + a + seq!['/']),
{
    let i1 = sonion_scheme() + a;
    let i2 = sonion_scheme() + a + seq!['/'];
    assert(i1.subrange(0, 9) =~= sonion_scheme());
    assert(i2.subrange(0, 9) =~= sonion_scheme());
    assert(i1.subrange(9, i1.len() as int) =~= a);
    assert(i2.subrange(9, i2.len() as int) =~= a + seq!['/']);
    lemma_no_slash_index(a);
    lemma_first_slash_at(a, Seq::<char>::empty());
    assert(a + seq!['/'] + Seq::<char>::empty() =~= a + seq!['/']);
    assert((a + seq!['/']).subrange(0, a.len() as int) =~= a);
    assert((a + seq!['/']).subrange(a.len() as int, a.len() + 1int) =~= seq!['/']);
}

proof fn lemma_last_colon(h: Seq<char>, d: Seq<char>)
    requires
        !d.contains(':'),
    ensures
        last_index_of(h + seq![':'] + d, ':') == Some(h.len() as int),
    decreases d.len(),
{
    let s = h + seq![':'] + d;
    if d.len() == 0 {
        assert(s.last() == ':');
    } else {
        assert(s.last() == d.last());
        assert(d.last() != ':') by {
            assert(d[d.len() - 1] == d.last());
        }
        assert(!d.drop_last().contains(':')) by {
            assert forall|k: int| 0 <= k < d.drop_last().len() implies d.drop_last()[k] != ':' by {
                assert(d.drop_last()[k] == d[k]);
            }
        }
        lemma_last_colon(h, d.drop_last());
        assert(s.drop_last() =~= h + seq![':'] + d.drop_last());
    }
}

/// The path `/` is read as the root.
proof fn lemma_root_decodes()
    ensures
        spec_decode_path(seq!['/']) == Ok::<Seq<char>, crate::error::ErrorView>(seq!['/']),
{
    crate::unicode::lemma_encode_scalar_ascii('/');
    let b = encode_utf8(seq!['/']);
    crate::unicode::lemma_encode_single('/');
    assert(b =~= seq![47u8]);
    assert(decode_bytes_from(b, 1) == Ok::<Seq<u8>, crate::url::DecodeFailure>(seq![]));
    assert(seq![47u8] + Seq::<u8>::empty() =~= seq![47u8]);
    encode_utf8_valid_utf8(seq!['/']);
    encode_utf8_decode_utf8(seq!['/']);
}

/// A port written in decimal after the last `:` of the authority is the URL's port and
/// everything before that `:` is its host: for a non-empty host `h` without `/` (it may
/// hold `:` itself) and a port `n`, `sonion://h:n` is host `h`, port `n`, path `/`.
pub proof fn law_url_port_after_last_colon(h: Seq<char>, n: u16)
    requires
        h.len() > 0,
        !h.contains('/'),
    ensures
        spec_parse_url(sonion_scheme() + h + seq![':'] + crate::num::dec(n as nat)) == Ok::<
            UrlView,
            crate::error::ErrorView,
        >(UrlView { host: h, port: n, path: seq!['/'] }),
{
    let d = crate::num::dec(n as nat);
    crate::num::lemma_parse_to_digits(n as nat, 10, false, 0xffff);
    crate::num::lemma_to_digits(n as nat, 10, false);
    assert forall|k: int| 0 <= k < d.len() implies d[k] != ':' && d[k] != '/' by {
        assert(crate::num::is_plain_digit_char(d[k]));
    }
    let auth = h + seq![':'] + d;
    assert(!auth.contains('/')) by {
        assert forall|k: int| 0 <= k < auth.len() implies auth[k] != '/' by {
            if k < h.len() {
                assert(auth[k] == h[k]);
            } else if k > h.len() {
                assert(auth[k] == d[k - h.len() - 1]);
            }
        }
    }
    let input = sonion_scheme() + h + seq![':'] + d;
    assert(input =~= sonion_scheme() + auth);
    assert(input.subrange(0, 9) =~= sonion_scheme());
    assert(input.subrange(9, input.len() as int) =~= auth);
    lemma_no_slash_index(auth);
    lemma_last_colon(h, d);
    assert(auth.subrange(h.len() + 1int, auth.len() as int) =~= d);
    assert(auth.subrange(0, h.len() as int) =~= h);
    lemma_root_decodes();
    lemma_root_fixed();
    assert((n as nat) as u16 == n);
}

/// `n` consecutive ASCII chars from `first` on.
pub open spec fn ascii_run(first: char, n: nat) -> Seq<char> {
    Seq::new(n, |i: int| ((first as int) + i) as char)
}

/// The chars that a path may hold as they are: the 26 uppercase and 26 lowercase ASCII
/// letters, the 10 digits, `-`, `.`, `_`, `~` and `/`.
pub open spec fn url_safe_chars() -> Seq<char> {
    ascii_run('A', 26) + ascii_run('a', 26) + ascii_run('0', 10) + seq!['-', '.', '_', '~', '/']
}

/// The uppercase hexadecimal digits, in order of value: `0`-`9`, then `A`-`F`.
pub open spec fn upper_hex() -> Seq<char> {
    ascii_run('0', 10) + ascii_run('A', 6)
}

/// Each byte written as `%` and its two uppercase hex digits.
pub open spec fn escape_all(b: Seq<u8>) -> Seq<char>
    decreases b.len(),
{
    if b.len() == 0 {
        seq![]
    } else {
        escape_all(b.drop_last()) + seq![
            '%',
            upper_hex()[(b.last() / 16) as int],
            upper_hex()[(b.last() % 16) as int],
        ]
    }
}

proof fn lemma_safe_byte(x: u8)
    requires
        x < 128,
    ensures
        unreserved(x) == url_safe_chars().contains(x as char),
{
    let u = url_safe_chars();
    let a = ascii_run('A', 26);
    let l = ascii_run('a', 26);
    let d = ascii_run('0', 10);
    let p = seq!['-', '.', '_', '~', '/'];
    assert(u.len() == 67);
    if unreserved(x) {
        let i: int = if 65 <= x && x <= 90 {
            x - 65
        } else if 97 <= x && x <= 122 {
            x - 97 + 26
        } else if 48 <= x && x <= 57 {
            x - 48 + 52
        } else if x == 45 {
            62
        } else if x == 46 {
            63
        } else if x == 95 {
            64
        } else if x == 126 {
            65
        } else {
            66
        };
        if i < 26 {
            assert(u[i] == a[i]);
        } else if i < 52 {
            assert(u[i] == l[i - 26]);
        } else if i < 62 {
            assert(u[i] == d[i - 52]);
        } else {
            assert(u[i] == p[i - 62]);
        }
        assert(u[i] == x as char);
    } else {
        if u.contains(x as char) {
            let i = choose|i: int| 0 <= i < u.len() && u[i] == x as char;
            if i < 26 {
                assert(u[i] == a[i]);
                assert(x as int == 65 + i);
            } else if i < 52 {
                assert(u[i] == l[i - 26]);
                assert(x as int == 97 + i - 26);
            } else if i < 62 {
                assert(u[i] == d[i - 52]);
                assert(x as int == 48 + i - 52);
            } else {
                assert(u[i] == p[i - 62]);
            }
            assert(false);
        }
    }
}

proof fn lemma_hex_digit(v: int)
    requires
        0 <= v < 16,
    ensures
        digit_char(v as nat, true) == upper_hex()[v],
{
    if v < 10 {
        assert(upper_hex()[v] == ascii_run('0', 10)[v]);
    } else {
        assert(upper_hex()[v] == ascii_run('A', 6)[v - 10]);
    }
}

proof fn lemma_encode_bytes_append(a: Seq<u8>, b: Seq<u8>)
    ensures
        encode_bytes(a + b) == encode_bytes(a) + encode_bytes(b),
    decreases b.len(),
{
    if b.len() == 0 {
        assert(a + b =~= a);
        assert(encode_bytes(a) + Seq::<char>::empty() =~= encode_bytes(a));
    } else {
        lemma_encode_bytes_append(a, b.drop_last());
        assert((a + b).drop_last() =~= a + b.drop_last());
        assert((a + b).last() == b.last());
        assert(encode_bytes(a + b) =~= encode_bytes(a) + encode_bytes(b));
    }
}

/// Percent-encoding goes char by char: the encoding of `s + t` is that of `s`, then
/// that of `t`.
pub proof fn law_encode_path_concat(s: Seq<char>, t: Seq<char>)
    ensures
        spec_encode_path(s + t) == spec_encode_path(s) + spec_encode_path(t),
{
    crate::unicode::lemma_encode_concat(s, t);
    lemma_encode_bytes_append(encode_utf8(s), encode_utf8(t));
}

/// An ASCII char stays as it is when it is a letter, a digit, `-`, `.`, `_`, `~` or
/// `/`; any other becomes `%` and its two uppercase hex digits.
pub proof fn law_encode_path_ascii_char(c: char)
    requires
        c <= '\u{7f}',
    ensures
        spec_encode_path(seq![c]) == if url_safe_chars().contains(c) {
            seq![c]
        } else {
            seq!['%', upper_hex()[(c as int) / 16], upper_hex()[(c as int) % 16]]
        },
{
    crate::unicode::lemma_encode_single(c);
    crate::unicode::lemma_encode_scalar_ascii(c);
    let x = c as u8;
    assert(encode_utf8(seq![c]) == seq![x]);
    assert(seq![x].drop_last() =~= Seq::<u8>::empty());
    assert(seq![x].last() == x);
    assert(encode_bytes(seq![x]) =~= encode_bytes(Seq::<u8>::empty()) + encode_byte(x));
    assert(encode_bytes(seq![x]) =~= encode_byte(x));
    lemma_safe_byte(x);
    assert(x as char == c);
    lemma_hex_digit((x / 16) as int);
    lemma_hex_digit((x % 16) as int);
}

proof fn lemma_escape_high(b: Seq<u8>)
    requires
        forall|i: int| 0 <= i < b.len() ==> #[trigger] b[i] >= 0x80,
    ensures
        encode_bytes(b) == escape_all(b),
    decreases b.len(),
{
    if b.len() > 0 {
        assert forall|i: int| 0 <= i < b.drop_last().len() implies #[trigger] b.drop_last()[i]
            >= 0x80 by {
            assert(b.drop_last()[i] == b[i]);
        }
        lemma_escape_high(b.drop_last());
        let x = b.last();
        assert(x >= 0x80) by {
            assert(b[b.len() - 1] == x);
        }
        assert(!unreserved(x));
        lemma_hex_digit((x / 16) as int);
        lemma_hex_digit((x % 16) as int);
    }
}

/// A char beyond ASCII is written as each byte of its UTF-8 form escaped.
pub proof fn law_encode_path_non_ascii_char(c: char)
    requires
        !(c <= '\u{7f}'),
    ensures
        spec_encode_path(seq![c]) == escape_all(encode_utf8(seq![c])),
{
    crate::unicode::lemma_encode_single(c);
    crate::unicode::lemma_encode_scalar_high(c);
    lemma_escape_high(encode_utf8(seq![c]));
}

} // verus!
