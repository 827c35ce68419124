//! What base64 decoding gives, stated over the standard alphabet.
use crate::pem::{b64_bytes, b64_sextets, b64_skipped, b64_value, spec_base64_decode};
use crate::unicode::{ascii_bytes, lemma_encode_ascii, lemma_encode_concat};
use vstd::prelude::*;
use vstd::utf8::{encode_utf8, is_ascii_chars};

verus! {

/// The base64 alphabet, each digit at the index of its value: `A`-`Z`, `a`-`z`,
/// `0`-`9`, `+`, `/`.
pub open spec fn b64_alphabet() -> Seq<char> {
    Seq::new(26, |i: int| (65 + i) as char) + Seq::new(26, |i: int| (97 + i) as char) + Seq::new(
        10,
        |i: int| (48 + i) as char,
    ) + seq!['+', '/']
}

/// The digit of value `i` is ASCII, and its byte reads as `i`.
proof fn lemma_digit_value(i: int)
    requires
        0 <= i < 64,
    ensures
        '\0' <= b64_alphabet()[i] <= '\u{7f}',
        !b64_skipped(b64_alphabet()[i] as u8),
        b64_value(b64_alphabet()[i] as u8) == Some(i as u8),
{
    let a = b64_alphabet();
    assert(a.len() == 64);
    if i < 26 {
        assert(a[i] == (65 + i) as char);
    } else if i < 52 {
        assert(a[i] == (97 + (i - 26)) as char);
    } else if i < 62 {
        assert(a[i] == (48 + (i - 52)) as char);
    } else if i == 62 {
        assert(a[i] == '+');
    } else {
        assert(a[i] == '/');
    }
}

/// Reading digits one after another from `v` on.
proof fn lemma_sextets_append(a: Seq<u8>, b: Seq<u8>)
    requires
        b64_sextets(a) is Some,
    ensures
        b64_sextets(a + b) == match b64_sextets(b) {
            None => None,
            Some(w) => Some(b64_sextets(a)->0 + w),
        },
    decreases b.len(),
{
    if b.len() == 0 {
        assert(a + b =~= a);
        assert(b64_sextets(a)->0 + Seq::<u8>::empty() =~= b64_sextets(a)->0);
    } else {
        lemma_sextets_append(a, b.drop_last());
        assert((a + b).drop_last() =~= a + b.drop_last());
        assert((a + b).last() == b.last());
        match b64_sextets(b.drop_last()) {
            None => {},
            Some(w) => {
                let v = b64_sextets(a)->0;
                if !b64_skipped(b.last()) {
                    if let Some(x) = b64_value(b.last()) {
                        assert((v + w).push(x) =~= v + w.push(x));
                    }
                }
            },
        }
    }
}

/// Bytes spelled by six-bit values split after a multiple of four values.
proof fn lemma_bytes_append(v: Seq<u8>, w: Seq<u8>)
    requires
        v.len() % 4 == 0,
    ensures
        b64_bytes(v + w) == b64_bytes(v) + b64_bytes(w),
    decreases w.len(),
{
    if w.len() == 0 {
        assert(v + w =~= v);
        assert(b64_bytes(v) + Seq::<u8>::empty() =~= b64_bytes(v));
    } else {
        lemma_bytes_append(v, w.drop_last());
        let u = v + w;
        assert(u.drop_last() =~= v + w.drop_last());
        assert(u.last() == w.last());
        if w.len() >= 2 {
            assert(u[u.len() - 2] == w[w.len() - 2]);
        }
        assert((u.len() - 1) % 4 == (w.len() - 1) % 4);
        assert(b64_bytes(u) =~= b64_bytes(v) + b64_bytes(w));
    }
}

/// The bytes of ASCII text.
proof fn lemma_ascii_text(s: Seq<char>)
    requires
        is_ascii_chars(s),
    ensures
        encode_utf8(s) == ascii_bytes(s),
{
    lemma_encode_ascii(s);
}

/// Four digits of values `i0`, `i1`, `i2`, `i3` decode to the three bytes that their
/// 24 bits spell: `i0·4 + i1/16`, `(i1 mod 16)·16 + i2/4`, `(i2 mod 4)·64 + i3`.
pub proof fn law_base64_group(i0: int, i1: int, i2: int, i3: int)
    requires
        0 <= i0 < 64,
        0 <= i1 < 64,
        0 <= i2 < 64,
        0 <= i3 < 64,
    ensures
        spec_base64_decode(
            seq![b64_alphabet()[i0], b64_alphabet()[i1], b64_alphabet()[i2], b64_alphabet()[i3]],
        ) == Some(
            seq![
                (i0 * 4 + i1 / 16) as u8,
                ((i1 % 16) * 16 + i2 / 4) as u8,
                ((i2 % 4) * 64 + i3) as u8,
            ],
        ),
{
    let a = b64_alphabet();
    let s = seq![a[i0], a[i1], a[i2], a[i3]];
    lemma_digit_value(i0);
    lemma_digit_value(i1);
    lemma_digit_value(i2);
    lemma_digit_value(i3);
    assert(is_ascii_chars(s)) by {
        assert forall|k: int| 0 <= k < s.len() implies '\0' <= #[trigger] s[k] <= '\u{7f}' by {
            if k == 0 {
                assert(s[k] == a[i0]);
            } else if k == 1 {
                assert(s[k] == a[i1]);
            } else if k == 2 {
                assert(s[k] == a[i2]);
            } else {
                assert(s[k] == a[i3]);
            }
        }
    }
    lemma_ascii_text(s);
    let b = ascii_bytes(s);
    assert(b =~= seq![a[i0] as u8, a[i1] as u8, a[i2] as u8, a[i3] as u8]);
    let v = seq![i0 as u8, i1 as u8, i2 as u8, i3 as u8];
    assert(b.subrange(0, 0) =~= Seq::<u8>::empty());
    assert(b.subrange(0, 1).drop_last() =~= b.subrange(0, 0));
    assert(b.subrange(0, 2).drop_last() =~= b.subrange(0, 1));
    assert(b.subrange(0, 3).drop_last() =~= b.subrange(0, 2));
    assert(b.drop_last() =~= b.subrange(0, 3));
    assert(b64_sextets(Seq::<u8>::empty()) == Some(Seq::<u8>::empty()));
    assert(b.subrange(0, 1).last() == a[i0] as u8);
    assert(Seq::<u8>::empty().push(i0 as u8) =~= seq![i0 as u8]);
    assert(b64_sextets(b.subrange(0, 1)) == Some(seq![i0 as u8]));
    assert(seq![i0 as u8].push(i1 as u8) =~= seq![i0 as u8, i1 as u8]);
    assert(b64_sextets(b.subrange(0, 2)) == Some(seq![i0 as u8, i1 as u8]));
    assert(seq![i0 as u8, i1 as u8].push(i2 as u8) =~= seq![i0 as u8, i1 as u8, i2 as u8]);
    assert(b64_sextets(b.subrange(0, 3)) == Some(seq![i0 as u8, i1 as u8, i2 as u8]));
    assert(seq![i0 as u8, i1 as u8, i2 as u8].push(i3 as u8) =~= v);
    assert(b64_sextets(b) == Some(v));
    assert(v.drop_last() =~= seq![i0 as u8, i1 as u8, i2 as u8]);
    assert(seq![i0 as u8, i1 as u8, i2 as u8].drop_last() =~= seq![i0 as u8, i1 as u8]);
    assert(seq![i0 as u8, i1 as u8].drop_last() =~= seq![i0 as u8]);
    assert(seq![i0 as u8].drop_last() =~= Seq::<u8>::empty());
    assert(b64_bytes(Seq::<u8>::empty()) =~= Seq::<u8>::empty());
    assert(b64_bytes(seq![i0 as u8]) =~= Seq::<u8>::empty());
    assert(b64_bytes(seq![i0 as u8, i1 as u8]) =~= seq![(i0 * 4 + i1 / 16) as u8]);
    assert(b64_bytes(seq![i0 as u8, i1 as u8, i2 as u8]) =~= seq![
        (i0 * 4 + i1 / 16) as u8,
        ((i1 % 16) * 16 + i2 / 4) as u8,
    ]);
    assert(b64_bytes(v) =~= seq![
        (i0 * 4 + i1 / 16) as u8,
        ((i1 % 16) * 16 + i2 / 4) as u8,
        ((i2 % 4) * 64 + i3) as u8,
    ]);
}

/// Two digits and `==` decode to one byte, `i0·4 + i1/16`; three digits and `=` to
/// two bytes, `i0·4 + i1/16` and `(i1 mod 16)·16 + i2/4`.
pub proof fn law_base64_padded(i0: int, i1: int, i2: int)
    requires
        0 <= i0 < 64,
        0 <= i1 < 64,
        0 <= i2 < 64,
    ensures
        spec_base64_decode(seq![b64_alphabet()[i0], b64_alphabet()[i1], '=', '=']) == Some(
            seq![(i0 * 4 + i1 / 16) as u8],
        ),
        spec_base64_decode(seq![b64_alphabet()[i0], b64_alphabet()[i1], b64_alphabet()[i2], '='])
            == Some(seq![(i0 * 4 + i1 / 16) as u8, ((i1 % 16) * 16 + i2 / 4) as u8]),
{
    let a = b64_alphabet();
    lemma_digit_value(i0);
    lemma_digit_value(i1);
    lemma_digit_value(i2);
    let s1 = seq![a[i0], a[i1], '=', '='];
    let s2 = seq![a[i0], a[i1], a[i2], '='];
    assert(is_ascii_chars(s1)) by {
        assert forall|k: int| 0 <= k < s1.len() implies '\0' <= #[trigger] s1[k] <= '\u{7f}' by {
            if k == 0 {
                assert(s1[k] == a[i0]);
            } else if k == 1 {
                assert(s1[k] == a[i1]);
            }
        }
    }
    assert(is_ascii_chars(s2)) by {
        assert forall|k: int| 0 <= k < s2.len() implies '\0' <= #[trigger] s2[k] <= '\u{7f}' by {
            if k == 0 {
                assert(s2[k] == a[i0]);
            } else if k == 1 {
                assert(s2[k] == a[i1]);
            } else if k == 2 {
                assert(s2[k] == a[i2]);
            }
        }
    }
    lemma_ascii_text(s1);
    lemma_ascii_text(s2);
    let b1 = ascii_bytes(s1);
    let b2 = ascii_bytes(s2);
    assert(b1 =~= seq![a[i0] as u8, a[i1] as u8, 61u8, 61u8]);
    assert(b2 =~= seq![a[i0] as u8, a[i1] as u8, a[i2] as u8, 61u8]);
    let p0 = seq![a[i0] as u8];
    let p1 = seq![a[i0] as u8, a[i1] as u8];
    let p2 = seq![a[i0] as u8, a[i1] as u8, a[i2] as u8];
    assert(p0.drop_last() =~= Seq::<u8>::empty());
    assert(p1.drop_last() =~= p0);
    assert(p2.drop_last() =~= p1);
    assert(b64_sextets(Seq::<u8>::empty()) == Some(Seq::<u8>::empty()));
    assert(p0.last() == a[i0] as u8);
    assert(Seq::<u8>::empty().push(i0 as u8) =~= seq![i0 as u8]);
    assert(b64_sextets(p0) == Some(seq![i0 as u8]));
    assert(seq![i0 as u8].push(i1 as u8) =~= seq![i0 as u8, i1 as u8]);
    assert(b64_sextets(p1) == Some(seq![i0 as u8, i1 as u8]));
    assert(seq![i0 as u8, i1 as u8].push(i2 as u8) =~= seq![i0 as u8, i1 as u8, i2 as u8]);
    assert(b64_sextets(p2) == Some(seq![i0 as u8, i1 as u8, i2 as u8]));
    let q = p1.push(61u8);
    assert(b1.drop_last() =~= q);
    assert(q.drop_last() =~= p1);
    assert(b64_sextets(q) == Some(seq![i0 as u8, i1 as u8]));
    assert(b64_sextets(b1) == Some(seq![i0 as u8, i1 as u8]));
    assert(b2.drop_last() =~= p2);
    assert(b64_sextets(b2) == Some(seq![i0 as u8, i1 as u8, i2 as u8]));
    assert(seq![i0 as u8, i1 as u8, i2 as u8].drop_last() =~= seq![i0 as u8, i1 as u8]);
    assert(seq![i0 as u8, i1 as u8].drop_last() =~= seq![i0 as u8]);
    assert(seq![i0 as u8].drop_last() =~= Seq::<u8>::empty());
    assert(b64_bytes(Seq::<u8>::empty()) =~= Seq::<u8>::empty());
    assert(b64_bytes(seq![i0 as u8]) =~= Seq::<u8>::empty());
    assert(b64_bytes(seq![i0 as u8, i1 as u8]) =~= seq![(i0 * 4 + i1 / 16) as u8]);
    assert(b64_bytes(seq![i0 as u8, i1 as u8, i2 as u8]) =~= seq![
        (i0 * 4 + i1 / 16) as u8,
        ((i1 % 16) * 16 + i2 / 4) as u8,
    ]);
}

/// Digits are read in groups of four: text of whole groups of digits decodes on its own,
/// and what follows it decodes after it.
pub proof fn law_base64_concat(s: Seq<char>, t: Seq<char>)
    requires
        s.len() % 4 == 0,
        forall|i: int| 0 <= i < s.len() ==> b64_alphabet().contains(#[trigger] s[i]),
    ensures
        spec_base64_decode(s) is Some,
        spec_base64_decode(s + t) == match spec_base64_decode(t) {
            None => None,
            Some(y) => Some(spec_base64_decode(s)->0 + y),
        },
{
    lemma_digits_read(s);
    lemma_encode_concat(s, t);
    let bs = encode_utf8(s);
    lemma_sextets_append(bs, encode_utf8(t));
    if let Some(w) = b64_sextets(encode_utf8(t)) {
        lemma_bytes_append(b64_sextets(bs)->0, w);
    }
}

/// Text of digits only is read as one value per digit.
proof fn lemma_digits_read(s: Seq<char>)
    requires
        forall|i: int| 0 <= i < s.len() ==> b64_alphabet().contains(#[trigger] s[i]),
    ensures
        b64_sextets(encode_utf8(s)) is Some,
        b64_sextets(encode_utf8(s))->0.len() == s.len(),
    decreases s.len(),
{
    if s.len() > 0 {
        let a = b64_alphabet();
        let c = s.last();
        assert(a.contains(s[s.len() - 1]));
        let i = choose|i: int| 0 <= i < a.len() && a[i] == c;
        assert(a.len() == 64);
        lemma_digit_value(i);
        let d = s.drop_last();
        assert forall|k: int| 0 <= k < d.len() implies a.contains(#[trigger] d[k]) by {
            assert(d[k] == s[k]);
        }
        lemma_digits_read(d);
        assert(d + seq![c] =~= s);
        lemma_encode_concat(d, seq![c]);
        crate::unicode::lemma_encode_single(c);
        crate::unicode::lemma_encode_scalar_ascii(c);
        let bd = encode_utf8(d);
        assert(encode_utf8(s) == bd + seq![c as u8]);
        assert((bd + seq![c as u8]).drop_last() =~= bd);
        assert((bd + seq![c as u8]).last() == c as u8);
    }
}

} // verus!
