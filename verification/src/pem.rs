//! PEM files: the base64 text between the `-----` marker lines, and its decoding.
use crate::text::{chars_eq, find_chars, find_seq, lines_view, split_on, split_on_chars, trim, trim_chars};
use crate::unicode::{str_chars, string_from_chars};
use vstd::prelude::*;
use vstd::utf8::encode_utf8;

verus! {

/// Bytes that base64 decoding passes over: `=`, `\n`, `\r` and space.
pub open spec fn b64_skipped(b: u8) -> bool {
    b == 61 || b == 10 || b == 13 || b == 32
}

/// The six-bit value of a base64 digit: `A`-`Z`, `a`-`z`, `0`-`9`, `+`, `/`.
pub open spec fn b64_value(b: u8) -> Option<u8> {
    if 65 <= b && b <= 90 {
        Some((b - 65) as u8)
    } else if 97 <= b && b <= 122 {
        Some((b - 71) as u8)
    } else if 48 <= b && b <= 57 {
        Some((b + 4) as u8)
    } else if b == 43 {
        Some(62)
    } else if b == 47 {
        Some(63)
    } else {
        None
    }
}

/// The six-bit values of the digits of `b`, skipped bytes left out; `None` when `b`
/// holds any other byte.
pub open spec fn b64_sextets(b: Seq<u8>) -> Option<Seq<u8>>
    decreases b.len(),
{
    if b.len() == 0 {
        Some(seq![])
    } else {
        match b64_sextets(b.drop_last()) {
            None => None,
            Some(v) => if b64_skipped(b.last()) {
                Some(v)
            } else {
                match b64_value(b.last()) {
                    None => None,
                    Some(x) => Some(v.push(x)),
                }
            },
        }
    }
}

/// The bytes that the six-bit values `v` spell, eight bits each, most significant
/// first; bits left over at the end are dropped. Of each group of four values
/// `s0 s1 s2 s3`, the second completes `s0·4 + s1/16`, the third
/// `(s1 mod 16)·16 + s2/4`, the fourth `(s2 mod 4)·64 + s3`.
pub open spec fn b64_bytes(v: Seq<u8>) -> Seq<u8>
    decreases v.len(),
{
    if v.len() == 0 {
        seq![]
    } else {
        let p = b64_bytes(v.drop_last());
        let n = v.len() as int;
        let k = (n - 1) % 4;
        let x = v.last();
        let prev = v[n - 2];
        if k == 0 {
            p
        } else if k == 1 {
            p.push((prev * 4 + x / 16) as u8)
        } else if k == 2 {
            p.push(((prev % 16) * 16 + x / 4) as u8)
        } else {
            p.push(((prev % 4) * 64 + x) as u8)
        }
    }
}

/// What `base64_decode(s)` returns: the decoded bytes, or `None` for a byte that is
/// neither a digit nor skipped.
pub open spec fn spec_base64_decode(s: Seq<char>) -> Option<Seq<u8>> {
    match b64_sextets(encode_utf8(s)) {
        None => None,
        Some(v) => Some(b64_bytes(v)),
    }
}

fn b64_value_exec(b: u8) -> (r: Option<u32>)
    ensures
        r matches Some(x) ==> b64_value(b) == Some(x as u8) && x < 64,
        r is None ==> b64_value(b) is None,
{
    if 65 <= b && b <= 90 {
        Some((b - 65) as u32)
    } else if 97 <= b && b <= 122 {
        Some((b - 71) as u32)
    } else if 48 <= b && b <= 57 {
        Some((b + 4) as u32)
    } else if b == 43 {
        Some(62)
    } else if b == 47 {
        Some(63)
    } else {
        None
    }
}

/// The bit count after `n` digits: 6 bits per digit, less the full bytes written.
pub open spec fn pending_bits(n: nat) -> u32 {
    if n % 4 == 1 {
        6
    } else if n % 4 == 2 {
        4
    } else if n % 4 == 3 {
        2
    } else {
        0
    }
}

/// Decodes base64 text: `=`, `\n`, `\r` and spaces are passed over, any other byte that
/// is not a base64 digit is an error; bits that do not fill a last byte are dropped.
pub fn base64_decode(s: &str) -> (r: Result<Vec<u8>, &'static str>)
    ensures
        r matches Ok(v) ==> spec_base64_decode(s@) == Some(v@),
        r matches Err(m) ==> spec_base64_decode(s@) is None && m@ == "invalid base64"@,
{
    let bytes = s.as_bytes();
    let mut out: Vec<u8> = Vec::new();
    let mut acc: u32 = 0;
    let mut nbits: u32 = 0;
    let mut i: usize = 0;
    let ghost mut v: Seq<u8> = seq![];
    assert(bytes@.subrange(0, 0) =~= Seq::<u8>::empty());
    while i < bytes.len()
        invariant
            i <= bytes@.len(),
            bytes@ == encode_utf8(s@),
            b64_sextets(bytes@.subrange(0, i as int)) == Some(v),
            forall|j: int| 0 <= j < v.len() ==> #[trigger] v[j] < 64,
            out@ == b64_bytes(v),
            nbits == pending_bits(v.len()),
            nbits == 6 ==> acc & 63 == v.last() as u32,
            nbits == 4 ==> acc & 15 == (v.last() % 16) as u32,
            nbits == 2 ==> acc & 3 == (v.last() % 4) as u32,
        decreases bytes@.len() - i,
    {
        let b = bytes[i];
        let ghost pre = bytes@.subrange(0, i as int);
        assert(bytes@.subrange(0, i + 1).drop_last() =~= pre);
        assert(bytes@.subrange(0, i + 1).last() == b);
        if b == 61 || b == 10 || b == 13 || b == 32 {
            i = i + 1;
            continue ;
        }
        let x = match b64_value_exec(b) {
            None => {
                proof {
                    lemma_sextets_none_extends(bytes@, i as int + 1);
                }
                return Err("invalid base64");
            },
            Some(x) => x,
        };
        let ghost v0 = v;
        let ghost a0 = acc;
        proof {
            v = v.push(x as u8);
            assert(v.drop_last() =~= v0);
            assert(v.last() == x as u8);
        }
        acc = (acc << 6) | x;
        nbits = nbits + 6;
        if nbits >= 8 {
            nbits = nbits - 8;
            out.push((acc >> nbits) as u8);
        }
        proof {
            let n = v.len() as int;
            assert(v[n - 1] == x as u8);
            if n >= 2 {
                assert(v[n - 2] == v0.last());
            }
            if v0.len() % 4 == 0 {
                assert(((a0 << 6) | x) & 63 == x) by (bit_vector)
                    requires
                        x < 64,
                ;
            } else if v0.len() % 4 == 1 {
                assert((((((a0 << 6) | x) >> 4) as u8) as u32 == (a0 & 63) * 4 + x / 16) && (((a0
                    << 6) | x) & 15 == x % 16)) by (bit_vector)
                    requires
                        x < 64,
                ;
            } else if v0.len() % 4 == 2 {
                assert((((((a0 << 6) | x) >> 2) as u8) as u32 == (a0 & 15) * 16 + x / 4) && (((a0
                    << 6) | x) & 3 == x % 4)) by (bit_vector)
                    requires
                        x < 64,
                ;
            } else {
                assert(((((a0 << 6) | x) >> 0) as u8) as u32 == (a0 & 3) * 64 + x) by (bit_vector)
                    requires
                        x < 64,
                ;
            }
            assert forall|j: int| 0 <= j < v.len() implies #[trigger] v[j] < 64 by {
                if j < n - 1 {
                    assert(v[j] == v0[j]);
                }
            }
            assert(out@ =~= b64_bytes(v));
        }
        i = i + 1;
    }
    assert(bytes@.subrange(0, bytes@.len() as int) =~= bytes@);
    Ok(out)
}

/// Once a prefix holds a byte that is neither a digit nor skipped, every longer prefix
/// does too.
proof fn lemma_sextets_none_extends(b: Seq<u8>, k: int)
    requires
        0 < k <= b.len(),
        !b64_skipped(b[k - 1]),
        b64_value(b[k - 1]) is None,
    ensures
        b64_sextets(b) is None,
    decreases b.len() - k,
{
    if k == b.len() {
        assert(b.drop_last().len() == k - 1);
        match b64_sextets(b.drop_last()) {
            None => {},
            Some(_) => {},
        }
    } else {
        lemma_sextets_none_extends(b.drop_last(), k);
        assert(b.drop_last()[k - 1] == b[k - 1]);
    }
}

/// `s` without one trailing `\r`.
pub open spec fn strip_cr(l: Seq<char>) -> Seq<char> {
    if l.len() > 0 && l.last() == '\r' {
        l.drop_last()
    } else {
        l
    }
}

/// The lines of `s`, as `str::lines` gives them: split at `\n`, a `\r` before the
/// `\n` removed, and no empty last line after a final `\n`.
pub open spec fn std_lines(s: Seq<char>) -> Seq<Seq<char>> {
    let parts = split_on(s, seq!['\n']);
    let n = parts.len() as int;
    let body = if n > 0 && parts[n - 1].len() == 0 {
        parts.drop_last()
    } else {
        parts
    };
    Seq::new(
        body.len(),
        |i: int|
            if i < n - 1 {
                strip_cr(body[i])
            } else {
                body[i]
            },
    )
}

/// Lines joined with `\n`.
pub open spec fn join_lf(ls: Seq<Seq<char>>) -> Seq<char>
    decreases ls.len(),
{
    if ls.len() == 0 {
        seq![]
    } else if ls.len() == 1 {
        ls[0]
    } else {
        join_lf(ls.drop_last()) + seq!['\n'] + ls.last()
    }
}

/// `-----`, which starts the marker lines.
pub open spec fn dashes() -> Seq<char> {
    seq!['-', '-', '-', '-', '-']
}

/// `-----BEGIN CERTIFICATE-----`.
pub open spec fn begin_cert() -> Seq<char> {
    dashes() + seq!['B', 'E', 'G', 'I', 'N', ' ', 'C', 'E', 'R', 'T', 'I', 'F', 'I', 'C', 'A', 'T', 'E']
        + dashes()
}

/// `-----END CERTIFICATE-----`.
pub open spec fn end_cert() -> Seq<char> {
    dashes() + seq!['E', 'N', 'D', ' ', 'C', 'E', 'R', 'T', 'I', 'F', 'I', 'C', 'A', 'T', 'E']
        + dashes()
}

/// A line of base64 text: it does not start with `-----` and is not blank.
pub open spec fn keep_line(l: Seq<char>) -> bool {
    !(l.len() >= 5 && l.subrange(0, 5) == dashes()) && trim(l).len() > 0
}

/// The lines of `ls` that hold base64 text, one after the other.
pub open spec fn concat_kept(ls: Seq<Seq<char>>) -> Seq<char>
    decreases ls.len(),
{
    if ls.len() == 0 {
        seq![]
    } else {
        concat_kept(ls.drop_last()) + if keep_line(ls.last()) {
            ls.last()
        } else {
            seq![]
        }
    }
}

/// The base64 text of a PEM block or file: its lines without the marker lines and the
/// blank lines, joined without separators.
pub open spec fn pem_body(s: Seq<char>) -> Seq<char> {
    concat_kept(std_lines(s))
}

/// The base64 text of each block that holds `-----BEGIN CERTIFICATE-----`.
pub open spec fn cert_bodies(blocks: Seq<Seq<char>>) -> Seq<Seq<char>>
    decreases blocks.len(),
{
    if blocks.len() == 0 {
        seq![]
    } else {
        cert_bodies(blocks.drop_last()) + if find_seq(blocks.last(), begin_cert()) is Some {
            seq![pem_body(blocks.last())]
        } else {
            seq![]
        }
    }
}

/// What `pem_cert_bodies(pem)` returns: the text split into blocks that each end at
/// `-----END CERTIFICATE-----`, after its line ends are normalized to `\n`; the base64
/// text of each block that holds `-----BEGIN CERTIFICATE-----`, in order.
pub open spec fn spec_pem_cert_bodies(pem: Seq<char>) -> Seq<Seq<char>> {
    cert_bodies(split_on(join_lf(std_lines(pem)), end_cert()))
}

fn lines_of(chars: &[char]) -> (r: Vec<Vec<char>>)
    ensures
        lines_view(r@) == std_lines(chars@),
{
    let lf = vec!['\n'];
    assert(lf@ =~= seq!['\n']);
    let parts = split_on_chars(chars, &lf);
    let n = parts.len();
    proof {
        crate::text::lemma_split_on_nonempty(chars@, seq!['\n']);
    }
    let m: usize = if n > 0 && parts[n - 1].len() == 0 {
        n - 1
    } else {
        n
    };
    let ghost parts_v = lines_view(parts@);
    let ghost body = if n > 0 && parts_v[n - 1].len() == 0 {
        parts_v.drop_last()
    } else {
        parts_v
    };
    assert(body.len() == m);
    let mut out: Vec<Vec<char>> = Vec::new();
    let mut i: usize = 0;
    while i < m
        invariant
            i <= m <= n == parts@.len(),
            parts_v == lines_view(parts@),
            parts_v == split_on(chars@, seq!['\n']),
            body.len() == m,
            forall|j: int| 0 <= j < m ==> #[trigger] body[j] == parts_v[j],
            lines_view(out@) == std_lines(chars@).subrange(0, i as int),
            std_lines(chars@).len() == m,
            forall|j: int| 0 <= j < m ==> #[trigger] std_lines(chars@)[j] == (if j < n - 1 {
                strip_cr(body[j])
            } else {
                body[j]
            }),
        decreases m - i,
    {
        let l = parts[i].as_slice();
        assert(l@ == body[i as int]);
        let k = l.len();
        let line: Vec<char> = if i < n - 1 && k > 0 && l[k - 1] == '\r' {
            crate::text::copy_range(l, 0, k - 1)
        } else {
            crate::text::copy_range(l, 0, k)
        };
        proof {
            assert(l@.subrange(0, k as int) =~= l@);
            assert(l@.drop_last() =~= l@.subrange(0, k - 1));
        }
        let ghost prev = lines_view(out@);
        out.push(line);
        assert(lines_view(out@) =~= prev.push(line@));
        assert(std_lines(chars@).subrange(0, i + 1) =~= std_lines(chars@).subrange(0, i as int).push(
            std_lines(chars@)[i as int],
        ));
        i = i + 1;
    }
    assert(std_lines(chars@).subrange(0, m as int) =~= std_lines(chars@));
    out
}

fn join_lines(ls: &Vec<Vec<char>>) -> (r: Vec<char>)
    ensures
        r@ == join_lf(lines_view(ls@)),
{
    let mut out: Vec<char> = Vec::new();
    let mut i: usize = 0;
    let ghost all = lines_view(ls@);
    assert(all.subrange(0, 0) =~= Seq::<Seq<char>>::empty());
    while i < ls.len()
        invariant
            i <= ls@.len(),
            all == lines_view(ls@),
            out@ == join_lf(all.subrange(0, i as int)),
        decreases ls@.len() - i,
    {
        let ghost before = out@;
        if i > 0 {
            out.push('\n');
        }
        crate::response::push_chars(&mut out, ls[i].as_slice());
        proof {
            let p = all.subrange(0, i + 1);
            assert(p.drop_last() =~= all.subrange(0, i as int));
            assert(p.last() == ls@[i as int]@);
            if i == 0 {
                assert(out@ =~= p[0]);
            } else {
                assert(out@ =~= join_lf(p.drop_last()) + seq!['\n'] + p.last());
            }
        }
        i = i + 1;
    }
    assert(all.subrange(0, all.len() as int) =~= all);
    out
}

fn body_of(chars: &[char]) -> (r: Vec<char>)
    ensures
        r@ == pem_body(chars@),
{
    let ls = lines_of(chars);
    let ghost all = lines_view(ls@);
    let d = vec!['-', '-', '-', '-', '-'];
    assert(d@ =~= dashes());
    let mut out: Vec<char> = Vec::new();
    let mut i: usize = 0;
    assert(all.subrange(0, 0) =~= Seq::<Seq<char>>::empty());
    while i < ls.len()
        invariant
            i <= ls@.len(),
            all == lines_view(ls@),
            all == std_lines(chars@),
            d@ == dashes(),
            out@ == concat_kept(all.subrange(0, i as int)),
        decreases ls@.len() - i,
    {
        let l = ls[i].as_slice();
        let k = l.len();
        let marker = if k >= 5 {
            let pre = &l[0..5];
            assert(pre@ =~= l@.subrange(0, 5));
            chars_eq(pre, &d)
        } else {
            false
        };
        let t = trim_chars(l);
        let ghost before = out@;
        if !marker && t.len() > 0 {
            crate::response::push_chars(&mut out, l);
        }
        proof {
            let p = all.subrange(0, i + 1);
            assert(p.drop_last() =~= all.subrange(0, i as int));
            assert(p.last() == l@);
            assert(marker == (l@.len() >= 5 && l@.subrange(0, 5) == dashes()));
            assert(out@ =~= concat_kept(p));
        }
        i = i + 1;
    }
    assert(all.subrange(0, all.len() as int) =~= all);
    out
}

/// The base64 text of a PEM file: its lines without the `-----` marker lines and the
/// blank lines, joined without separators.
pub fn pem_key_body(pem: &str) -> (r: String)
    ensures
        r@ == pem_body(pem@),
{
    let c = str_chars(pem);
    let b = body_of(&c);
    string_from_chars(&b)
}

/// The base64 text of each certificate of a PEM file, in order: the file's lines are
/// joined with `\n`, split at every `-----END CERTIFICATE-----`, and each piece that
/// holds `-----BEGIN CERTIFICATE-----` gives its base64 lines.
pub fn pem_cert_bodies(pem: &str) -> (r: Vec<String>)
    ensures
        r@.map_values(|s: String| s@) == spec_pem_cert_bodies(pem@),
{
    let c = str_chars(pem);
    let ls = lines_of(&c);
    let joined = join_lines(&ls);
    let end_m = vec![
        '-', '-', '-', '-', '-', 'E', 'N', 'D', ' ', 'C', 'E', 'R', 'T', 'I', 'F', 'I', 'C', 'A',
        'T', 'E', '-', '-', '-', '-', '-',
    ];
    assert(end_m@ =~= end_cert());
    let begin_m = vec![
        '-', '-', '-', '-', '-', 'B', 'E', 'G', 'I', 'N', ' ', 'C', 'E', 'R', 'T', 'I', 'F', 'I',
        'C', 'A', 'T', 'E', '-', '-', '-', '-', '-',
    ];
    assert(begin_m@ =~= begin_cert());
    let blocks = split_on_chars(&joined, &end_m);
    let ghost all = lines_view(blocks@);
    let mut out: Vec<String> = Vec::new();
    let mut i: usize = 0;
    assert(all.subrange(0, 0) =~= Seq::<Seq<char>>::empty());
    assert(out@.map_values(|s: String| s@) =~= Seq::<Seq<char>>::empty());
    while i < blocks.len()
        invariant
            i <= blocks@.len(),
            all == lines_view(blocks@),
            all == split_on(join_lf(std_lines(pem@)), end_cert()),
            begin_m@ == begin_cert(),
            out@.map_values(|s: String| s@) == cert_bodies(all.subrange(0, i as int)),
        decreases blocks@.len() - i,
    {
        let b = blocks[i].as_slice();
        let f = find_chars(b, &begin_m, 0);
        proof {
            crate::text::lemma_find_in_suffix(b@, begin_cert(), 0, match f {
                Some(k) => Some(k as int),
                None => None,
            });
            assert(b@.subrange(0, b@.len() as int) =~= b@);
            let p = all.subrange(0, i + 1);
            assert(p.drop_last() =~= all.subrange(0, i as int));
            assert(p.last() == b@);
        }
        let ghost prev = out@.map_values(|s: String| s@);
        if f.is_some() {
            let body = body_of(b);
            out.push(string_from_chars(&body));
            assert(out@.map_values(|s: String| s@) =~= prev.push(body@));
        }
        assert(out@.map_values(|s: String| s@) =~= cert_bodies(all.subrange(0, i + 1)));
        i = i + 1;
    }
    assert(all.subrange(0, all.len() as int) =~= all);
    out
}

} // verus!
