//! Character-level text model shared by the head parsers and serializers:
//! Unicode whitespace, trimming, searching and splitting of sequences.
use vstd::prelude::*;

verus! {

/// Unicode `White_Space`, the set that `char::is_whitespace` tests.
pub open spec fn is_ws(c: char) -> bool {
    ||| ('\t' <= c && c <= '\r')
    ||| c == ' '
    ||| c == '\u{85}'
    ||| c == '\u{a0}'
    ||| c == '\u{1680}'
    ||| ('\u{2000}' <= c && c <= '\u{200a}')
    ||| c == '\u{2028}'
    ||| c == '\u{2029}'
    ||| c == '\u{202f}'
    ||| c == '\u{205f}'
    ||| c == '\u{3000}'
}

/// Tests whether `c` is Unicode whitespace.
pub fn char_is_ws(c: char) -> (r: bool)
    ensures
        r == is_ws(c),
{
    ('\t' <= c && c <= '\r') || c == ' ' || c == '\u{85}' || c == '\u{a0}' || c == '\u{1680}'
        || ('\u{2000}' <= c && c <= '\u{200a}') || c == '\u{2028}' || c == '\u{2029}' || c
        == '\u{202f}' || c == '\u{205f}' || c == '\u{3000}'
}

/// `s` with its leading whitespace removed.
pub open spec fn trim_start(s: Seq<char>) -> Seq<char>
    decreases s.len(),
{
    if s.len() > 0 && is_ws(s[0]) {
        trim_start(s.drop_first())
    } else {
        s
    }
}

/// `s` with its trailing whitespace removed.
pub open spec fn trim_end(s: Seq<char>) -> Seq<char>
    decreases s.len(),
{
    if s.len() > 0 && is_ws(s.last()) {
        trim_end(s.drop_last())
    } else {
        s
    }
}

/// `s` with leading and trailing whitespace removed, as `str::trim` does.
pub open spec fn trim(s: Seq<char>) -> Seq<char> {
    trim_end(trim_start(s))
}

/// A sequence that trimming leaves unchanged: empty, or neither end is whitespace.
pub open spec fn is_trimmed(s: Seq<char>) -> bool {
    s.len() > 0 ==> !is_ws(s[0]) && !is_ws(s.last())
}

pub proof fn lemma_trim_start_len(s: Seq<char>)
    ensures
        trim_start(s).len() <= s.len(),
    decreases s.len(),
{
    if s.len() > 0 && is_ws(s[0]) {
        lemma_trim_start_len(s.drop_first());
    }
}

pub proof fn lemma_trim_start_skip(s: Seq<char>, i: int)
    requires
        0 <= i <= s.len(),
        forall|j: int| 0 <= j < i ==> is_ws(#[trigger] s[j]),
    ensures
        trim_start(s) == trim_start(s.subrange(i, s.len() as int)),
    decreases i,
{
    if i > 0 {
        let t = s.drop_first();
        assert forall|j: int| 0 <= j < i - 1 implies is_ws(#[trigger] t[j]) by {
            assert(t[j] == s[j + 1]);
        }
        lemma_trim_start_skip(t, i - 1);
        assert(t.subrange(i - 1, t.len() as int) =~= s.subrange(i, s.len() as int));
    } else {
        assert(s.subrange(0, s.len() as int) =~= s);
    }
}

pub proof fn lemma_trim_end_take(s: Seq<char>, j: int)
    requires
        0 <= j <= s.len(),
        forall|k: int| j <= k < s.len() ==> is_ws(#[trigger] s[k]),
    ensures
        trim_end(s) == trim_end(s.subrange(0, j)),
    decreases s.len() - j,
{
    if j < s.len() {
        let t = s.drop_last();
        assert forall|k: int| j <= k < t.len() implies is_ws(#[trigger] t[k]) by {
            assert(t[k] == s[k]);
        }
        lemma_trim_end_take(t, j);
        assert(t.subrange(0, j) =~= s.subrange(0, j));
    } else {
        assert(s.subrange(0, j) =~= s);
    }
}

/// Trimming a sequence that already is trimmed changes nothing.
pub proof fn lemma_trim_trimmed(s: Seq<char>)
    requires
        is_trimmed(s),
    ensures
        trim(s) == s,
{
}

/// Whitespace in front of a trimmed sequence is removed by trimming.
pub proof fn lemma_trim_ws_prefix(w: Seq<char>, s: Seq<char>)
    requires
        is_trimmed(s),
        forall|j: int| 0 <= j < w.len() ==> is_ws(#[trigger] w[j]),
    ensures
        trim(w + s) == s,
{
    let ws = w + s;
    assert forall|j: int| 0 <= j < w.len() implies is_ws(#[trigger] ws[j]) by {
        assert(ws[j] == w[j]);
    }
    lemma_trim_start_skip(ws, w.len() as int);
    assert(ws.subrange(w.len() as int, ws.len() as int) =~= s);
}

/// The trimmed form of any sequence is itself trimmed.
pub proof fn lemma_trim_is_trimmed(s: Seq<char>)
    ensures
        is_trimmed(trim(s)),
        trim(s).len() <= s.len(),
{
    lemma_trim_start_is_start_trimmed(s);
    lemma_trim_start_len(s);
    lemma_trim_end_props(trim_start(s));
}

pub proof fn lemma_trim_start_is_start_trimmed(s: Seq<char>)
    ensures
        trim_start(s).len() > 0 ==> !is_ws(trim_start(s)[0]),
    decreases s.len(),
{
    if s.len() > 0 && is_ws(s[0]) {
        lemma_trim_start_is_start_trimmed(s.drop_first());
    }
}

proof fn lemma_trim_end_props(s: Seq<char>)
    ensures
        trim_end(s).len() <= s.len(),
        trim_end(s) == s.subrange(0, trim_end(s).len() as int),
        trim_end(s).len() > 0 ==> !is_ws(trim_end(s).last()),
    decreases s.len(),
{
    if s.len() > 0 && is_ws(s.last()) {
        lemma_trim_end_props(s.drop_last());
        assert(s.drop_last().subrange(0, trim_end(s).len() as int) =~= s.subrange(
            0,
            trim_end(s).len() as int,
        ));
    } else {
        assert(s.subrange(0, s.len() as int) =~= s);
    }
}

pub proof fn lemma_trim_start_suffix(s: Seq<char>)
    ensures
        trim_start(s) == s.subrange(s.len() - trim_start(s).len(), s.len() as int),
        trim_start(s).len() <= s.len(),
    decreases s.len(),
{
    if s.len() > 0 && is_ws(s[0]) {
        lemma_trim_start_suffix(s.drop_first());
        assert(s.drop_first().subrange(
            s.drop_first().len() - trim_start(s).len(),
            s.drop_first().len() as int,
        ) =~= s.subrange(s.len() - trim_start(s).len(), s.len() as int));
    } else {
        assert(s.subrange(0, s.len() as int) =~= s);
    }
}

/// The trimmed form of `s` is a part of `s`.
pub proof fn lemma_trim_subrange(s: Seq<char>)
    ensures
        exists|a: int, b: int| 0 <= a <= b <= s.len() && #[trigger] s.subrange(a, b) == trim(s),
{
    lemma_trim_start_suffix(s);
    let t = trim_start(s);
    let a = s.len() - t.len();
    lemma_trim_end_props(t);
    let b = a + trim(s).len();
    assert(s.subrange(a, b) =~= t.subrange(0, trim(s).len() as int));
}

/// Bounds `(a, b)` such that `s[a..b]` is `trim(s)`.
pub fn trim_bounds(s: &[char]) -> (r: (usize, usize))
    ensures
        r.0 <= r.1 <= s@.len(),
        s@.subrange(r.0 as int, r.1 as int) == trim(s@),
{
    let n = s.len();
    let mut i: usize = 0;
    while i < n && char_is_ws(s[i])
        invariant
            i <= n == s@.len(),
            forall|j: int| 0 <= j < i ==> is_ws(#[trigger] s@[j]),
        decreases n - i,
    {
        i = i + 1;
    }
    proof {
        lemma_trim_start_skip(s@, i as int);
    }
    let ghost t = s@.subrange(i as int, n as int);
    assert(trim_start(t) == t);
    let mut j: usize = n;
    while j > i && char_is_ws(s[j - 1])
        invariant
            i <= j <= n == s@.len(),
            t == s@.subrange(i as int, n as int),
            forall|k: int| j <= k < n ==> is_ws(#[trigger] s@[k]),
        decreases j,
    {
        j = j - 1;
    }
    proof {
        let jj = j - i;
        assert forall|k: int| jj <= k < t.len() implies is_ws(#[trigger] t[k]) by {
            assert(t[k] == s@[k + i]);
        }
        lemma_trim_end_take(t, jj);
        assert(t.subrange(0, jj) =~= s@.subrange(i as int, j as int));
    }
    (i, j)
}

/// The chars `s[a..b]` as a new vector.
pub fn copy_range(s: &[char], a: usize, b: usize) -> (r: Vec<char>)
    requires
        a <= b <= s@.len(),
    ensures
        r@ == s@.subrange(a as int, b as int),
{
    let mut r: Vec<char> = Vec::new();
    let mut k = a;
    while k < b
        invariant
            a <= k <= b <= s@.len(),
            r@ == s@.subrange(a as int, k as int),
        decreases b - k,
    {
        r.push(s[k]);
        k = k + 1;
        assert(r@ =~= s@.subrange(a as int, k as int));
    }
    r
}

/// `trim(s)` as a new vector.
pub fn trim_chars(s: &[char]) -> (r: Vec<char>)
    ensures
        r@ == trim(s@),
{
    let (a, b) = trim_bounds(s);
    copy_range(s, a, b)
}

/// True when `pat` occurs in `s` starting at index `i`.
pub open spec fn matches_at<T>(s: Seq<T>, pat: Seq<T>, i: int) -> bool {
    0 <= i && i + pat.len() <= s.len() && s.subrange(i, i + pat.len()) == pat
}

/// The first index at or after `i` where `pat` occurs in `s`.
pub open spec fn find_from<T>(s: Seq<T>, pat: Seq<T>, i: int) -> Option<int>
    decreases s.len() + 1 - i,
{
    if i < 0 || i + pat.len() > s.len() {
        None
    } else if matches_at(s, pat, i) {
        Some(i)
    } else {
        find_from(s, pat, i + 1)
    }
}

/// The first index where `pat` occurs in `s`.
pub open spec fn find_seq<T>(s: Seq<T>, pat: Seq<T>) -> Option<int> {
    find_from(s, pat, 0)
}

/// `find_from` finds the least index at or after `i` where the pattern matches.
pub proof fn lemma_find_from<T>(s: Seq<T>, pat: Seq<T>, i: int)
    requires
        0 <= i,
    ensures
        find_from(s, pat, i) matches Some(k) ==> i <= k && matches_at(s, pat, k) && forall|j: int|
            i <= j < k ==> !#[trigger] matches_at(s, pat, j),
        find_from(s, pat, i) is None ==> forall|j: int| i <= j ==> !#[trigger] matches_at(s, pat, j),
    decreases s.len() + 1 - i,
{
    if i + pat.len() > s.len() {
    } else if matches_at(s, pat, i) {
    } else {
        lemma_find_from(s, pat, i + 1);
    }
}

/// `find_seq` is characterized by the first match.
pub proof fn lemma_find_seq<T>(s: Seq<T>, pat: Seq<T>)
    ensures
        find_seq(s, pat) matches Some(k) ==> 0 <= k && k + pat.len() <= s.len() && matches_at(
            s,
            pat,
            k,
        ) && forall|j: int| 0 <= j < k ==> !#[trigger] matches_at(s, pat, j),
        find_seq(s, pat) is None ==> forall|j: int| 0 <= j ==> !#[trigger] matches_at(s, pat, j),
{
    lemma_find_from(s, pat, 0);
}

/// The first match determines `find_seq`.
pub proof fn lemma_find_seq_intro<T>(s: Seq<T>, pat: Seq<T>, k: int)
    requires
        matches_at(s, pat, k),
        forall|j: int| 0 <= j < k ==> !#[trigger] matches_at(s, pat, j),
    ensures
        find_seq(s, pat) == Some(k),
{
    lemma_find_seq(s, pat);
    if find_seq(s, pat) is None {
        assert(!matches_at(s, pat, k));
    } else {
        let f = find_seq(s, pat)->0;
        if f < k {
            assert(!matches_at(s, pat, f));
        } else if f > k {
            assert(!matches_at(s, pat, k));
        }
    }
}

/// No match at all means `find_seq` is `None`.
pub proof fn lemma_find_seq_none<T>(s: Seq<T>, pat: Seq<T>)
    requires
        forall|j: int| 0 <= j ==> !#[trigger] matches_at(s, pat, j),
    ensures
        find_seq(s, pat) is None,
{
    lemma_find_seq(s, pat);
    if find_seq(s, pat) is Some {
        let f = find_seq(s, pat)->0;
        assert(matches_at(s, pat, f));
    }
}

/// Length of the run of non-whitespace chars at the start of `s`.
pub open spec fn first_ws(s: Seq<char>) -> int
    decreases s.len(),
{
    if s.len() == 0 {
        0
    } else if is_ws(s[0]) {
        0
    } else {
        1 + first_ws(s.drop_first())
    }
}

/// `first_ws` is the index of the first whitespace char, or the length.
pub proof fn lemma_first_ws(s: Seq<char>)
    ensures
        0 <= first_ws(s) <= s.len(),
        forall|j: int| 0 <= j < first_ws(s) ==> !is_ws(#[trigger] s[j]),
        first_ws(s) < s.len() ==> is_ws(s[first_ws(s)]),
    decreases s.len(),
{
    if s.len() > 0 && !is_ws(s[0]) {
        lemma_first_ws(s.drop_first());
        assert forall|j: int| 0 <= j < first_ws(s) implies !is_ws(#[trigger] s[j]) by {
            if j > 0 {
                assert(s[j] == s.drop_first()[j - 1]);
            }
        }
    }
}

/// The first index at which a whitespace char stands and all chars before do not.
pub proof fn lemma_first_ws_intro(s: Seq<char>, k: int)
    requires
        0 <= k <= s.len(),
        forall|j: int| 0 <= j < k ==> !is_ws(#[trigger] s[j]),
        k < s.len() ==> is_ws(s[k]),
    ensures
        first_ws(s) == k,
    decreases s.len(),
{
    if k > 0 {
        let t = s.drop_first();
        assert forall|j: int| 0 <= j < k - 1 implies !is_ws(#[trigger] t[j]) by {
            assert(t[j] == s[j + 1]);
        }
        lemma_first_ws_intro(t, k - 1);
    }
}

/// The whitespace-separated words of `s`, as `str::split_whitespace` yields them.
pub open spec fn split_ws(s: Seq<char>) -> Seq<Seq<char>>
    decreases s.len(),
{
    let t = trim_start(s);
    if t.len() == 0 {
        seq![]
    } else {
        proof {
            lemma_trim_start_len(s);
            lemma_trim_start_is_start_trimmed(s);
            lemma_first_ws(t);
        }
        let k = first_ws(t);
        seq![t.subrange(0, k)] + split_ws(t.subrange(k, t.len() as int))
    }
}

/// The next word of `s` at or after `from`, as bounds `(a, b)`.
pub fn next_word(s: &[char], from: usize) -> (r: Option<(usize, usize)>)
    requires
        from <= s@.len(),
    ensures
        r is None ==> split_ws(s@.subrange(from as int, s@.len() as int)) == Seq::<Seq<char>>::empty(),
        r matches Some(p) ==> from <= p.0 < p.1 <= s@.len() && split_ws(
            s@.subrange(from as int, s@.len() as int),
        ) == seq![s@.subrange(p.0 as int, p.1 as int)] + split_ws(
            s@.subrange(p.1 as int, s@.len() as int),
        ),
{
    let n = s.len();
    let mut a = from;
    while a < n && char_is_ws(s[a])
        invariant
            from <= a <= n == s@.len(),
            forall|j: int| from <= j < a ==> is_ws(#[trigger] s@[j]),
        decreases n - a,
    {
        a = a + 1;
    }
    let ghost u = s@.subrange(from as int, n as int);
    proof {
        assert forall|j: int| 0 <= j < a - from implies is_ws(#[trigger] u[j]) by {
            assert(u[j] == s@[j + from]);
        }
        lemma_trim_start_skip(u, a - from);
        assert(u.subrange(a - from, u.len() as int) =~= s@.subrange(a as int, n as int));
        let t = s@.subrange(a as int, n as int);
        if a < n {
            assert(t[0] == s@[a as int]);
        }
        assert(trim_start(t) == t);
    }
    if a == n {
        return None;
    }
    let mut b = a;
    while b < n && !char_is_ws(s[b])
        invariant
            a <= b <= n == s@.len(),
            forall|j: int| a <= j < b ==> !is_ws(#[trigger] s@[j]),
        decreases n - b,
    {
        b = b + 1;
    }
    proof {
        let t = s@.subrange(a as int, n as int);
        assert forall|j: int| 0 <= j < b - a implies !is_ws(#[trigger] t[j]) by {
            assert(t[j] == s@[j + a]);
        }
        if b < n {
            assert(t[b - a] == s@[b as int]);
        }
        lemma_first_ws_intro(t, b - a);
        assert(t.subrange(0, b - a) =~= s@.subrange(a as int, b as int));
        assert(t.subrange(b - a, t.len() as int) =~= s@.subrange(b as int, n as int));
    }
    Some((a, b))
}

/// The part that `trim_start` removes is whitespace.
pub proof fn lemma_trim_start_prefix_ws(s: Seq<char>)
    ensures
        forall|j: int| 0 <= j < s.len() - trim_start(s).len() ==> is_ws(#[trigger] s[j]),
    decreases s.len(),
{
    lemma_trim_start_suffix(s);
    if s.len() > 0 && is_ws(s[0]) {
        let t = s.drop_first();
        lemma_trim_start_prefix_ws(t);
        assert forall|j: int| 0 <= j < s.len() - trim_start(s).len() implies is_ws(#[trigger] s[j]) by {
            if j > 0 {
                assert(s[j] == t[j - 1]);
            }
        }
    }
}

/// The first word of `s` stands after whitespace, and the rest of the words follow it;
/// when more words follow, whitespace comes right after the first.
pub proof fn lemma_split_ws_first(s: Seq<char>)
    requires
        split_ws(s).len() > 0,
    ensures
        exists|a: int|
            0 <= a && a + split_ws(s)[0].len() <= s.len() && (forall|j: int|
                0 <= j < a ==> is_ws(#[trigger] s[j])) && #[trigger] s.subrange(
                a,
                a + split_ws(s)[0].len(),
            ) == split_ws(s)[0] && split_ws(s).drop_first() == split_ws(
                s.subrange(a + split_ws(s)[0].len(), s.len() as int),
            ) && (split_ws(s).len() > 1 ==> a + split_ws(s)[0].len() < s.len() && is_ws(
                s[a + split_ws(s)[0].len()],
            )),
        split_ws(s)[0].len() > 0,
        forall|j: int| 0 <= j < split_ws(s)[0].len() ==> !is_ws(#[trigger] split_ws(s)[0][j]),
{
    let t = trim_start(s);
    lemma_trim_start_suffix(s);
    lemma_trim_start_prefix_ws(s);
    lemma_trim_start_is_start_trimmed(s);
    lemma_first_ws(t);
    let a = s.len() - t.len();
    let k = first_ws(t);
    assert(split_ws(s) == seq![t.subrange(0, k)] + split_ws(t.subrange(k, t.len() as int)));
    assert(split_ws(s)[0] == t.subrange(0, k));
    assert(split_ws(s).drop_first() =~= split_ws(t.subrange(k, t.len() as int)));
    assert(s.subrange(a, a + k) =~= t.subrange(0, k));
    assert(s.subrange(a + k, s.len() as int) =~= t.subrange(k, t.len() as int));
    if split_ws(s).len() > 1 && k == t.len() {
        assert(t.subrange(k, t.len() as int) =~= Seq::<char>::empty());
        assert(trim_start(Seq::<char>::empty()) =~= Seq::<char>::empty());
    }
    if k < t.len() {
        assert(s[a + k] == t[k]);
    }
}

/// A word without whitespace, a space, and more text split into that word and the
/// words of the rest.
pub proof fn lemma_split_ws_word(w: Seq<char>, rest: Seq<char>)
    requires
        w.len() > 0,
        forall|i: int| 0 <= i < w.len() ==> !is_ws(#[trigger] w[i]),
    ensures
        split_ws(w + seq![' '] + rest) == seq![w] + split_ws(rest),
        split_ws(w) == seq![w],
{
    let s = w + seq![' '] + rest;
    assert(s[0] == w[0]);
    assert(trim_start(s) == s);
    assert forall|j: int| 0 <= j < w.len() implies !is_ws(#[trigger] s[j]) by {
        assert(s[j] == w[j]);
    }
    lemma_first_ws_intro(s, w.len() as int);
    assert(s.subrange(0, w.len() as int) =~= w);
    let after = s.subrange(w.len() as int, s.len() as int);
    assert(after =~= seq![' '] + rest);
    assert(after[0] == ' ');
    assert(after.drop_first() =~= rest);
    assert(trim_start(after) == trim_start(rest));
    assert(split_ws(after) == split_ws(rest));
    assert(trim_start(w) == w);
    assert forall|j: int| 0 <= j < w.len() implies !is_ws(#[trigger] w[j]) by {}
    lemma_first_ws_intro(w, w.len() as int);
    assert(w.subrange(0, w.len() as int) =~= w);
    assert(w.subrange(w.len() as int, w.len() as int) =~= Seq::<char>::empty());
    assert(trim_start(Seq::<char>::empty()) =~= Seq::<char>::empty());
    assert(split_ws(Seq::<char>::empty()) =~= Seq::<Seq<char>>::empty());
    assert(split_ws(w) == seq![w.subrange(0, w.len() as int)] + split_ws(
        w.subrange(w.len() as int, w.len() as int),
    ));
    assert(split_ws(w) =~= seq![w]);
}

/// The first line of `split_crlf(s)` is a prefix of `s`.
pub proof fn lemma_split_crlf_first(s: Seq<char>)
    ensures
        split_crlf(s)[0].len() <= s.len(),
        split_crlf(s)[0] == s.subrange(0, split_crlf(s)[0].len() as int),
{
    lemma_find_seq(s, crlf());
    if find_seq(s, crlf()) is None {
        assert(s.subrange(0, s.len() as int) =~= s);
    }
}

/// A search from `from` in `s` is a search in the suffix of `s` that starts there.
pub proof fn lemma_find_in_suffix<T>(s: Seq<T>, pat: Seq<T>, from: int, r: Option<int>)
    requires
        0 <= from <= s.len(),
        r matches Some(k) ==> from <= k && matches_at(s, pat, k) && forall|j: int|
            from <= j < k ==> !#[trigger] matches_at(s, pat, j),
        r is None ==> forall|j: int| from <= j ==> !#[trigger] matches_at(s, pat, j),
    ensures
        find_seq(s.subrange(from, s.len() as int), pat) == (match r {
            Some(k) => Some(k - from),
            None => None,
        }),
{
    let t = s.subrange(from, s.len() as int);
    assert forall|j: int| 0 <= j implies #[trigger] matches_at(t, pat, j) == matches_at(
        s,
        pat,
        j + from,
    ) by {
        if j + pat.len() <= t.len() {
            assert(t.subrange(j, j + pat.len()) =~= s.subrange(j + from, j + from + pat.len()));
        }
    }
    match r {
        Some(k) => {
            assert(matches_at(t, pat, k - from));
            assert forall|j: int| 0 <= j < k - from implies !#[trigger] matches_at(t, pat, j) by {
                assert(!matches_at(s, pat, j + from));
            }
            lemma_find_seq_intro(t, pat, k - from);
        },
        None => {
            assert forall|j: int| 0 <= j implies !#[trigger] matches_at(t, pat, j) by {
                assert(!matches_at(s, pat, j + from));
            }
            lemma_find_seq_none(t, pat);
        },
    }
}

/// Equality of char sequences.
pub fn chars_eq(a: &[char], b: &[char]) -> (r: bool)
    ensures
        r == (a@ == b@),
{
    if a.len() != b.len() {
        return false;
    }
    let mut i: usize = 0;
    while i < a.len()
        invariant
            i <= a@.len() == b@.len(),
            forall|j: int| 0 <= j < i ==> a@[j] == b@[j],
        decreases a@.len() - i,
    {
        if a[i] != b[i] {
            return false;
        }
        i = i + 1;
    }
    assert(a@ =~= b@);
    true
}

/// The two chars `\r\n`.
pub open spec fn crlf() -> Seq<char> {
    seq!['\r', '\n']
}

/// `s` split at every occurrence of `pat`, as `str::split` does.
pub open spec fn split_on(s: Seq<char>, pat: Seq<char>) -> Seq<Seq<char>>
    decreases s.len(),
{
    if pat.len() == 0 {
        seq![s]
    } else {
        match find_seq(s, pat) {
            None => seq![s],
            Some(i) => {
                proof {
                    lemma_find_seq(s, pat);
                }
                seq![s.subrange(0, i)] + split_on(s.subrange(i + pat.len(), s.len() as int), pat)
            },
        }
    }
}

/// `s` split at every `\r\n`, as `str::split("\r\n")` does.
pub open spec fn split_crlf(s: Seq<char>) -> Seq<Seq<char>> {
    split_on(s, crlf())
}

pub proof fn lemma_split_on_nonempty(s: Seq<char>, pat: Seq<char>)
    ensures
        split_on(s, pat).len() >= 1,
    decreases s.len(),
{
    lemma_find_seq(s, pat);
}

pub proof fn lemma_split_crlf_nonempty(s: Seq<char>)
    ensures
        split_crlf(s).len() >= 1,
{
    lemma_split_on_nonempty(s, crlf());
}

/// Index of the first occurrence of `pat` in `v` at or after `from`.
pub fn find_chars(v: &[char], pat: &[char], from: usize) -> (r: Option<usize>)
    requires
        from <= v@.len(),
    ensures
        r matches Some(k) ==> from <= k && matches_at(v@, pat@, k as int) && forall|j: int|
            from <= j < k ==> !#[trigger] matches_at(v@, pat@, j),
        r is None ==> forall|j: int| from <= j ==> !#[trigger] matches_at(v@, pat@, j),
{
    let n = v.len();
    let m = pat.len();
    if m > n {
        return None;
    }
    let mut i = from;
    while i <= n - m
        invariant
            from <= i,
            m <= n == v@.len(),
            m == pat@.len(),
            forall|j: int| from <= j < i ==> !#[trigger] matches_at(v@, pat@, j),
        decreases n + 1 - i,
    {
        let mut k: usize = 0;
        let mut same = true;
        while k < m
            invariant
                k <= m == pat@.len(),
                i + m <= n == v@.len(),
                same <==> forall|t: int| 0 <= t < k ==> v@[i + t] == pat@[t],
            decreases m - k,
        {
            if v[i + k] != pat[k] {
                same = false;
            }
            k = k + 1;
        }
        if same {
            assert(v@.subrange(i as int, i + m) =~= pat@);
            return Some(i);
        }
        proof {
            if matches_at(v@, pat@, i as int) {
                let t = choose|t: int| 0 <= t < m && v@[i + t] != pat@[t];
                assert(v@.subrange(i as int, i + m)[t] == v@[i + t]);
            }
        }
        i = i + 1;
    }
    None
}

/// The char sequences held by a vector of lines.
pub open spec fn lines_view(v: Seq<Vec<char>>) -> Seq<Seq<char>> {
    v.map_values(|l: Vec<char>| l@)
}

/// `split_on(v, pat)` as vectors of chars.
pub fn split_on_chars(v: &[char], pat: &[char]) -> (r: Vec<Vec<char>>)
    ensures
        lines_view(r@) == split_on(v@, pat@),
{
    let mut out: Vec<Vec<char>> = Vec::new();
    let n = v.len();
    if pat.len() == 0 {
        let whole = copy_range(v, 0, n);
        assert(v@.subrange(0, n as int) =~= v@);
        out.push(whole);
        assert(lines_view(out@) =~= seq![v@]);
        return out;
    }
    let mut start: usize = 0;
    let m = pat.len();
    assert(v@.subrange(0, n as int) =~= v@);
    assert(lines_view(out@) =~= Seq::<Seq<char>>::empty());
    loop
        invariant
            start <= n == v@.len(),
            m == pat@.len() >= 1,
            split_on(v@, pat@) == lines_view(out@) + split_on(v@.subrange(start as int, n as int), pat@),
        decreases n - start,
    {
        let ghost rest = v@.subrange(start as int, n as int);
        let f = find_chars(v, pat, start);
        proof {
            lemma_find_in_suffix(v@, pat@, start as int, match f {
                Some(k) => Some(k as int),
                None => None,
            });
        }
        match f {
            None => {
                let line = copy_range(v, start, n);
                let ghost prev = lines_view(out@);
                out.push(line);
                assert(lines_view(out@) =~= prev.push(rest));
                assert(split_on(rest, pat@) =~= seq![rest]);
                assert(split_on(v@, pat@) =~= lines_view(out@));
                return out;
            },
            Some(k) => {
                proof {
                    let kk = k - start;
                    assert(rest.subrange(0, kk) =~= v@.subrange(start as int, k as int));
                    assert(rest.subrange(kk + m, rest.len() as int) =~= v@.subrange(
                        k + m,
                        n as int,
                    ));
                }
                let line = copy_range(v, start, k);
                let ghost prev = lines_view(out@);
                out.push(line);
                assert(lines_view(out@) =~= prev.push(line@));
                start = k + m;
                assert(split_on(v@, pat@) =~= lines_view(out@) + split_on(
                    v@.subrange(start as int, n as int),
                    pat@,
                ));
            },
        }
    }
}

/// `split_crlf(v)` as vectors of chars.
pub fn split_crlf_chars(v: &[char]) -> (r: Vec<Vec<char>>)
    ensures
        lines_view(r@) == split_crlf(v@),
{
    let pat = vec!['\r', '\n'];
    assert(pat@ =~= crlf());
    split_on_chars(v, &pat)
}

/// The pieces of a split at the char `c` hold no `c`.
pub proof fn lemma_split_char_free(s: Seq<char>, c: char)
    ensures
        forall|i: int|
            0 <= i < split_on(s, seq![c]).len() ==> !(#[trigger] split_on(s, seq![c])[i]).contains(c),
    decreases s.len(),
{
    let pat = seq![c];
    lemma_find_seq(s, pat);
    match find_seq(s, pat) {
        None => {
            assert(split_on(s, pat) =~= seq![s]);
            assert forall|j: int| 0 <= j < s.len() implies s[j] != c by {
                if s[j] == c {
                    assert(s.subrange(j, j + 1) =~= pat);
                    assert(matches_at(s, pat, j));
                }
            }
        },
        Some(k) => {
            let rest = s.subrange(k + 1, s.len() as int);
            lemma_split_char_free(rest, c);
            let first = s.subrange(0, k);
            assert forall|j: int| 0 <= j < first.len() implies first[j] != c by {
                if first[j] == c {
                    assert(s.subrange(j, j + 1) =~= pat);
                    assert(matches_at(s, pat, j));
                }
            }
            assert(split_on(s, pat) == seq![first] + split_on(rest, pat));
            assert forall|i: int| 0 <= i < split_on(s, pat).len() implies !(#[trigger] split_on(
                s,
                pat,
            )[i]).contains(c) by {
                if i > 0 {
                    assert(split_on(s, pat)[i] == split_on(rest, pat)[i - 1]);
                } else {
                    assert(split_on(s, pat)[0] == first);
                }
            }
        },
    }
}


} // verus!
