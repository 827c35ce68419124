//! Unsigned integers written in decimal or hexadecimal: the grammar that
//! `from_str_radix` accepts for unsigned types, and the digits that `{}`,
//! `{:x}` and `{:X}` print.
use vstd::prelude::*;

verus! {

/// Value of `c` as a digit in base `radix` (10 or 16; both letter cases in base 16).
pub open spec fn digit_val(c: char, radix: nat) -> Option<nat> {
    if '0' <= c && c <= '9' {
        Some((c as nat - '0' as nat) as nat)
    } else if radix == 16 && 'a' <= c && c <= 'f' {
        Some((c as nat - 'a' as nat + 10) as nat)
    } else if radix == 16 && 'A' <= c && c <= 'F' {
        Some((c as nat - 'A' as nat + 10) as nat)
    } else {
        None
    }
}

/// Every char of `d` is a digit in base `radix`.
pub open spec fn all_digits(d: Seq<char>, radix: nat) -> bool {
    forall|i: int| 0 <= i < d.len() ==> (#[trigger] digit_val(d[i], radix)) is Some
}

/// The number that the digits `d` denote in base `radix`.
pub open spec fn digits_value(d: Seq<char>, radix: nat) -> nat
    decreases d.len(),
{
    if d.len() == 0 {
        0
    } else {
        digits_value(d.drop_last(), radix) * radix + digit_val(d.last(), radix).unwrap_or(0)
    }
}

/// The digits of `s` after an optional leading `+`.
pub open spec fn unsigned_digits(s: Seq<char>) -> Seq<char> {
    if s.len() > 0 && s[0] == '+' {
        s.drop_first()
    } else {
        s
    }
}

/// The value of `s` read as an unsigned integer in base `radix` that must not exceed
/// `max`: an optional `+`, then at least one digit; nothing else.
pub open spec fn parse_unsigned(s: Seq<char>, radix: nat, max: nat) -> Option<nat> {
    let d = unsigned_digits(s);
    if d.len() == 0 || !all_digits(d, radix) || digits_value(d, radix) > max {
        None
    } else {
        Some(digits_value(d, radix))
    }
}

/// The lowercase (or uppercase, with `upper`) digit for `v < radix`.
pub open spec fn digit_char(v: nat, upper: bool) -> char {
    if v < 10 {
        ('0' as nat + v) as char
    } else if upper {
        ('A' as nat + (v - 10)) as char
    } else {
        ('a' as nat + (v - 10)) as char
    }
}

/// `n` written in base `radix` with no leading zeros (`"0"` for zero).
pub open spec fn to_digits(n: nat, radix: nat, upper: bool) -> Seq<char>
    recommends
        radix == 10 || radix == 16,
    decreases n,
{
    if radix < 2 || n < radix {
        seq![digit_char(n, upper)]
    } else {
        proof {
            assert(n / radix < n) by (nonlinear_arith)
                requires
                    radix >= 2,
                    n >= radix,
            ;
        }
        to_digits(n / radix, radix, upper).push(digit_char(n % radix, upper))
    }
}

/// Decimal digits of `n`, as `n.to_string()` prints them.
pub open spec fn dec(n: nat) -> Seq<char> {
    to_digits(n, 10, false)
}

/// Lowercase hexadecimal digits of `n`, as `{:x}` prints them.
pub open spec fn hex(n: nat) -> Seq<char> {
    to_digits(n, 16, false)
}

/// Digits never include whitespace, `+`, or line breaks; this records what callers need.
pub open spec fn is_plain_digit_char(c: char) -> bool {
    ('0' <= c && c <= '9') || ('a' <= c && c <= 'f') || ('A' <= c && c <= 'F')
}

proof fn lemma_digit_char(v: nat, radix: nat, upper: bool)
    requires
        radix == 10 || radix == 16,
        v < radix,
    ensures
        digit_val(digit_char(v, upper), radix) == Some(v),
        is_plain_digit_char(digit_char(v, upper)),
{
}

/// The digits printed for `n` read back as `n`.
pub proof fn lemma_to_digits(n: nat, radix: nat, upper: bool)
    requires
        radix == 10 || radix == 16,
    ensures
        to_digits(n, radix, upper).len() >= 1,
        all_digits(to_digits(n, radix, upper), radix),
        digits_value(to_digits(n, radix, upper), radix) == n,
        forall|i: int|
            0 <= i < to_digits(n, radix, upper).len() ==> is_plain_digit_char(
                #[trigger] to_digits(n, radix, upper)[i],
            ),
    decreases n,
{
    let d = to_digits(n, radix, upper);
    if n < radix {
        lemma_digit_char(n, radix, upper);
        assert(d.drop_last() =~= Seq::<char>::empty());
        assert(digits_value(d.drop_last(), radix) == 0);
    } else {
        let q = n / radix;
        let r = n % radix;
        lemma_to_digits(q, radix, upper);
        lemma_digit_char(r, radix, upper);
        let p = to_digits(q, radix, upper);
        assert(d.drop_last() =~= p);
        assert(n == q * radix + r) by (nonlinear_arith)
            requires
                radix > 0,
                q == n / radix,
                r == n % radix,
        ;
        assert forall|i: int| 0 <= i < d.len() implies (#[trigger] digit_val(d[i], radix)) is Some
            && is_plain_digit_char(d[i]) by {
            if i < p.len() {
                assert(d[i] == p[i]);
            }
        }
    }
}

/// Printing then parsing an unsigned number gives it back.
pub proof fn lemma_parse_to_digits(n: nat, radix: nat, upper: bool, max: nat)
    requires
        radix == 10 || radix == 16,
        n <= max,
    ensures
        parse_unsigned(to_digits(n, radix, upper), radix, max) == Some(n),
{
    lemma_to_digits(n, radix, upper);
    let d = to_digits(n, radix, upper);
    assert(is_plain_digit_char(d[0]));
}

proof fn lemma_digits_value_prefix(d: Seq<char>, radix: nat, i: int)
    requires
        0 <= i <= d.len(),
        radix >= 1,
    ensures
        digits_value(d.subrange(0, i), radix) <= digits_value(d, radix),
    decreases d.len() - i,
{
    if i < d.len() {
        let t = d.drop_last();
        lemma_digits_value_prefix(t, radix, i);
        assert(t.subrange(0, i) =~= d.subrange(0, i));
        let a = digits_value(t, radix);
        assert(a <= a * radix + digit_val(d.last(), radix).unwrap_or(0)) by (nonlinear_arith)
            requires
                radix >= 1,
        ;
    } else {
        assert(d.subrange(0, i) =~= d);
    }
}

/// Value of an exec digit char.
fn digit_value_exec(c: char, radix: u64) -> (r: Option<u64>)
    requires
        radix == 10 || radix == 16,
    ensures
        r matches Some(v) ==> digit_val(c, radix as nat) == Some(v as nat),
        r is None ==> digit_val(c, radix as nat) is None,
{
    if '0' <= c && c <= '9' {
        Some((c as u32 - '0' as u32) as u64)
    } else if radix == 16 && 'a' <= c && c <= 'f' {
        Some((c as u32 - 'a' as u32 + 10) as u64)
    } else if radix == 16 && 'A' <= c && c <= 'F' {
        Some((c as u32 - 'A' as u32 + 10) as u64)
    } else {
        None
    }
}

/// Reads `s` as an unsigned integer in base `radix` no greater than `max`.
pub fn parse_unsigned_exec(s: &[char], radix: u64, max: u64) -> (r: Option<u64>)
    requires
        radix == 10 || radix == 16,
    ensures
        r matches Some(v) ==> parse_unsigned(s@, radix as nat, max as nat) == Some(v as nat),
        r is None ==> parse_unsigned(s@, radix as nat, max as nat) is None,
{
    let n = s.len();
    let start: usize = if n > 0 && s[0] == '+' {
        1
    } else {
        0
    };
    let ghost d = unsigned_digits(s@);
    assert(d =~= s@.subrange(start as int, n as int));
    if start == n {
        return None;
    }
    let mut acc: u64 = 0;
    let mut i = start;
    while i < n
        invariant
            start <= i <= n == s@.len(),
            d == s@.subrange(start as int, n as int),
            d == unsigned_digits(s@),
            acc <= max,
            all_digits(d.subrange(0, i - start), radix as nat),
            acc as nat == digits_value(d.subrange(0, i - start), radix as nat),
            radix == 10 || radix == 16,
        decreases n - i,
    {
        let ghost k = (i - start) as int;
        let c = s[i];
        assert(c == d[k]);
        let dv = digit_value_exec(c, radix);
        match dv {
            None => {
                assert(digit_val(d[k], radix as nat) is None);
                assert(!all_digits(d, radix as nat));
                return None;
            },
            Some(v) => {
                let ghost pre = d.subrange(0, k + 1);
                assert(pre.drop_last() =~= d.subrange(0, k));
                assert(pre.last() == c);
                assert(digits_value(pre, radix as nat) == acc * radix + v);
                if v > max {
                    proof {
                        assert(acc * radix + v > max) by (nonlinear_arith)
                            requires
                                v > max,
                                radix >= 1,
                        ;
                        lemma_digits_value_prefix(d, radix as nat, k + 1);
                    }
                    return None;
                }
                let lim = (max - v) / radix;
                if acc > lim {
                    proof {
                        assert(acc * radix + v > max) by (nonlinear_arith)
                            requires
                                acc > lim,
                                lim == (max - v) as int / radix as int,
                                radix >= 1,
                                v <= max,
                        ;
                        lemma_digits_value_prefix(d, radix as nat, k + 1);
                    }
                    return None;
                }
                assert(acc * radix + v <= max) by (nonlinear_arith)
                    requires
                        acc <= lim,
                        lim == (max - v) as int / radix as int,
                        radix >= 1,
                        v <= max,
                ;
                acc = acc * radix + v;
                i = i + 1;
                assert forall|j: int| 0 <= j < i - start implies (#[trigger] digit_val(
                    d.subrange(0, i - start)[j],
                    radix as nat,
                )) is Some by {
                    if j < k {
                        assert(d.subrange(0, i - start)[j] == d.subrange(0, k)[j]);
                    }
                }
            },
        }
    }
    assert(d.subrange(0, n - start) =~= d);
    Some(acc)
}

/// The char for digit value `v`.
fn digit_char_exec(v: u64, upper: bool) -> (c: char)
    requires
        v < 16,
    ensures
        c == digit_char(v as nat, upper),
{
    let digits: [char; 16] = [
        '0',
        '1',
        '2',
        '3',
        '4',
        '5',
        '6',
        '7',
        '8',
        '9',
        'a',
        'b',
        'c',
        'd',
        'e',
        'f',
    ];
    let digits_upper: [char; 16] = [
        '0',
        '1',
        '2',
        '3',
        '4',
        '5',
        '6',
        '7',
        '8',
        '9',
        'A',
        'B',
        'C',
        'D',
        'E',
        'F',
    ];
    let c = if upper {
        digits_upper[v as usize]
    } else {
        digits[v as usize]
    };
    assert(c == digit_char(v as nat, upper)) by {
        if upper {
            assert(digits_upper@[v as int] == digit_char(v as nat, upper));
        } else {
            assert(digits@[v as int] == digit_char(v as nat, upper));
        }
    }
    c
}

/// Appends the digits of `n` in base `radix` to `out`.
pub fn push_digits(out: &mut Vec<char>, n: u64, radix: u64, upper: bool)
    requires
        radix == 10 || radix == 16,
    ensures
        final(out)@ == old(out)@ + to_digits(n as nat, radix as nat, upper),
    decreases n,
{
    if n >= radix {
        push_digits(out, n / radix, radix, upper);
    }
    let c = digit_char_exec(n % radix, upper);
    out.push(c);
    proof {
        if n >= radix {
            assert(to_digits(n as nat, radix as nat, upper) == to_digits(
                (n / radix) as nat,
                radix as nat,
                upper,
            ).push(c));
        } else {
            assert(n % radix == n);
        }
    }
    assert(final(out)@ =~= old(out)@ + to_digits(n as nat, radix as nat, upper));
}

} // verus!
