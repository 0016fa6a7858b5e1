//! Text primitives for reading kernel status files: whitespace-separated
//! words, unsigned decimal numbers, prefixes, substrings and trimming.

use vstd::prelude::*;

verus! {

/// A character with the Unicode `White_Space` property.
pub open spec fn is_whitespace(c: char) -> bool {
    ('\u{9}' <= c && c <= '\u{d}') || c == ' ' || c == '\u{85}' || c == '\u{a0}' || c
        == '\u{1680}' || ('\u{2000}' <= c && c <= '\u{200a}') || c == '\u{2028}' || c
        == '\u{2029}' || c == '\u{202f}' || c == '\u{205f}' || c == '\u{3000}'
}

/// Whether `c` is whitespace.
pub fn is_whitespace_char(c: char) -> (r: bool)
    ensures
        r == is_whitespace(c),
{
    ('\u{9}' <= c && c <= '\u{d}') || c == ' ' || c == '\u{85}' || c == '\u{a0}' || c
        == '\u{1680}' || ('\u{2000}' <= c && c <= '\u{200a}') || c == '\u{2028}' || c
        == '\u{2029}' || c == '\u{202f}' || c == '\u{205f}' || c == '\u{3000}'
}

/// The characters of a string slice, for indexing.
pub fn to_chars(s: &str) -> (r: Vec<char>)
    ensures
        r@ == s@,
{
    let n = s.unicode_len();
    let mut v: Vec<char> = Vec::new();
    let mut i: usize = 0;
    while i < n
        invariant
            i <= n,
            n == s@.len(),
            v@ == s@.subrange(0, i as int),
        decreases n - i,
    {
        v.push(s.get_char(i));
        i += 1;
        assert(v@ =~= s@.subrange(0, i as int));
    }
    assert(v@ =~= s@);
    v
}

/// Whether `s` starts with `p`.
pub open spec fn seq_starts_with(s: Seq<char>, p: Seq<char>) -> bool {
    p.len() <= s.len() && s.subrange(0, p.len() as int) == p
}

/// Whether `p` occurs in `s` at position `i`.
pub open spec fn occurs_at(s: Seq<char>, p: Seq<char>, i: int) -> bool {
    0 <= i && i + p.len() <= s.len() && s.subrange(i, i + p.len()) == p
}

/// Whether `p` occurs anywhere in `s`.
pub open spec fn seq_contains(s: Seq<char>, p: Seq<char>) -> bool {
    exists|i: int| occurs_at(s, p, i)
}

/// Whether `p` occurs in `s` at position `i`.
pub fn matches_at(s: &Vec<char>, i: usize, p: &Vec<char>) -> (r: bool)
    ensures
        r == occurs_at(s@, p@, i as int),
{
    let slen = s.len();
    if i > slen || p.len() > slen - i {
        return false;
    }
    let mut k: usize = 0;
    while k < p.len()
        invariant
            k <= p@.len(),
            i + p@.len() <= s@.len(),
            slen == s@.len(),
            forall|j: int| 0 <= j < k ==> s@[i + j] == p@[j],
        decreases p@.len() - k,
    {
        if s[i + k] != p[k] {
            assert(s@.subrange(i as int, i + p@.len())[k as int] != p@[k as int]);
            return false;
        }
        k += 1;
    }
    assert(s@.subrange(i as int, i + p@.len()) =~= p@);
    true
}

/// Whether `s` starts with `p`.
pub fn starts_with(s: &Vec<char>, p: &Vec<char>) -> (r: bool)
    ensures
        r == seq_starts_with(s@, p@),
{
    matches_at(s, 0, p)
}

/// Whether `p` occurs anywhere in `s`.
pub fn contains(s: &Vec<char>, p: &Vec<char>) -> (r: bool)
    ensures
        r == seq_contains(s@, p@),
{
    let n = s.len();
    let mut i: usize = 0;
    while i < n
        invariant
            n == s@.len(),
            i <= n,
            forall|j: int| 0 <= j < i ==> !occurs_at(s@, p@, j),
        decreases n - i,
    {
        if matches_at(s, i, p) {
            return true;
        }
        i += 1;
    }
    matches_at(s, n, p)
}

/// Length of the run of non-whitespace characters that starts `s`.
pub open spec fn word_len(s: Seq<char>) -> nat
    decreases s.len(),
{
    if s.len() == 0 || is_whitespace(s[0]) {
        0
    } else {
        1 + word_len(s.drop_first())
    }
}

/// The whitespace-separated words of `s`, in order.
pub open spec fn words(s: Seq<char>) -> Seq<Seq<char>>
    decreases s.len(),
{
    if s.len() == 0 {
        Seq::empty()
    } else if is_whitespace(s[0]) {
        words(s.drop_first())
    } else {
        let w = word_len(s);
        if 1 <= w <= s.len() {
            seq![s.subrange(0, w as int)] + words(s.subrange(w as int, s.len() as int))
        } else {
            Seq::empty()
        }
    }
}

proof fn lemma_word_len(s: Seq<char>, j: int)
    requires
        0 <= j <= s.len(),
        forall|k: int| 0 <= k < j ==> !is_whitespace(s[k]),
        j == s.len() || is_whitespace(s[j]),
    ensures
        word_len(s) == j,
    decreases j,
{
    if j > 0 {
        let t = s.drop_first();
        assert forall|k: int| 0 <= k < j - 1 implies !is_whitespace(t[k]) by {
            assert(t[k] == s[k + 1]);
        }
        if j < s.len() {
            assert(t[j - 1] == s[j]);
        }
        lemma_word_len(t, j - 1);
    }
}

/// The whitespace-separated words of a string slice.
pub fn split_words(s: &str) -> (r: Vec<String>)
    ensures
        r@.map_values(|t: String| t@) == words(s@),
{
    let v = to_chars(s);
    let n = v.len();
    let mut out: Vec<String> = Vec::new();
    let mut i: usize = 0;
    assert(v@.subrange(0, n as int) =~= v@);
    while i < n
        invariant
            i <= n,
            n == v@.len(),
            v@ == s@,
            out@.map_values(|t: String| t@) + words(v@.subrange(i as int, n as int)) == words(v@),
        decreases n - i,
    {
        let ghost before = out@.map_values(|t: String| t@);
        let ghost rest = v@.subrange(i as int, n as int);
        if is_whitespace_char(v[i]) {
            assert(rest.drop_first() =~= v@.subrange(i + 1, n as int));
            i += 1;
        } else {
            let mut j: usize = i + 1;
            while j < n && !is_whitespace_char(v[j])
                invariant
                    i < j <= n,
                    n == v@.len(),
                    forall|k: int| i <= k < j ==> !is_whitespace(v@[k]),
                decreases n - j,
            {
                j += 1;
            }
            proof {
                lemma_word_len(rest, j - i);
                assert(rest.subrange(0, j - i) =~= v@.subrange(i as int, j as int));
                assert(rest.subrange(j - i, rest.len() as int) =~= v@.subrange(j as int, n as int));
            }
            let w = s.substring_char(i, j);
            let word = String::from_str(w);
            out.push(word);
            assert(out@.map_values(|t: String| t@) =~= before.push(v@.subrange(i as int, j as int)));
            assert(before + words(rest) =~= out@.map_values(|t: String| t@) + words(
                v@.subrange(j as int, n as int),
            ));
            i = j;
        }
    }
    assert(words(v@.subrange(n as int, n as int)) =~= Seq::<Seq<char>>::empty());
    assert(out@.map_values(|t: String| t@) + Seq::<Seq<char>>::empty() =~= out@.map_values(
        |t: String| t@,
    ));
    out
}

/// An ASCII decimal digit.
pub open spec fn is_digit(c: char) -> bool {
    '0' <= c && c <= '9'
}

/// Every character of `s` is a decimal digit.
pub open spec fn all_digits(s: Seq<char>) -> bool {
    forall|i: int| 0 <= i < s.len() ==> is_digit(#[trigger] s[i])
}

/// The number that a string of decimal digits denotes.
pub open spec fn digits_value(s: Seq<char>) -> int
    decreases s.len(),
{
    if s.len() == 0 {
        0
    } else {
        digits_value(s.drop_last()) * 10 + ((s.last() as u32) as int - 48)
    }
}

/// The digits of an unsigned number: an optional leading `+` removed.
pub open spec fn unsigned_digits(s: Seq<char>) -> Seq<char> {
    if s.len() > 0 && s[0] == '+' {
        s.drop_first()
    } else {
        s
    }
}

/// An unsigned 64-bit decimal number, as `str::parse::<u64>` reads one:
/// an optional `+`, then one or more digits, and nothing else; `None` when
/// malformed or too large.
pub open spec fn parse_u64_spec(s: Seq<char>) -> Option<u64> {
    let d = unsigned_digits(s);
    if d.len() > 0 && all_digits(d) && digits_value(d) <= u64::MAX {
        Some(digits_value(d) as u64)
    } else {
        None
    }
}

proof fn lemma_digits_nonneg(s: Seq<char>)
    requires
        all_digits(s),
    ensures
        digits_value(s) >= 0,
    decreases s.len(),
{
    if s.len() > 0 {
        assert(all_digits(s.drop_last())) by {
            assert forall|i: int| 0 <= i < s.drop_last().len() implies is_digit(
                #[trigger] s.drop_last()[i],
            ) by {
                assert(s.drop_last()[i] == s[i]);
            }
        }
        lemma_digits_nonneg(s.drop_last());
        assert(is_digit(s[s.len() - 1]));
    }
}

proof fn lemma_digits_prefix_le(s: Seq<char>, k: int)
    requires
        all_digits(s),
        0 <= k <= s.len(),
    ensures
        digits_value(s.subrange(0, k)) <= digits_value(s),
    decreases s.len() - k,
{
    if k == s.len() {
        assert(s.subrange(0, k) =~= s);
    } else {
        let a = s.subrange(0, k);
        let b = s.subrange(0, k + 1);
        assert(b.drop_last() =~= a);
        assert(is_digit(s[k]));
        assert(all_digits(a)) by {
            assert forall|i: int| 0 <= i < a.len() implies is_digit(#[trigger] a[i]) by {
                assert(a[i] == s[i]);
            }
        }
        lemma_digits_nonneg(a);
        lemma_digits_prefix_le(s, k + 1);
    }
}

/// Reads an unsigned 64-bit decimal number.
pub fn parse_u64(s: &str) -> (r: Option<u64>)
    ensures
        r == parse_u64_spec(s@),
{
    let v = to_chars(s);
    let n = v.len();
    let mut start: usize = 0;
    if n > 0 && v[0] == '+' {
        start = 1;
    }
    let ghost d = unsigned_digits(s@);
    assert(d =~= v@.subrange(start as int, n as int));
    if start == n {
        return None;
    }
    let mut i: usize = start;
    let mut acc: u64 = 0;
    while i < n
        invariant
            start <= i <= n,
            n == v@.len(),
            d == v@.subrange(start as int, n as int),
            d == unsigned_digits(s@),
            all_digits(d.subrange(0, i - start)),
            acc as int == digits_value(d.subrange(0, i - start)),
        decreases n - i,
    {
        let c = v[i];
        let ghost pre = d.subrange(0, i - start);
        let ghost next = d.subrange(0, i - start + 1);
        assert(next.drop_last() =~= pre);
        assert(next.last() == c);
        assert(d[i - start] == c);
        if !('0' <= c && c <= '9') {
            assert(!is_digit(d[i - start]));
            assert(!all_digits(d));
            return None;
        }
        let dgt: u64 = (c as u32 - 48) as u64;
        assert(dgt as int == (c as u32) as int - 48);
        assert(digits_value(next) == digits_value(pre) * 10 + dgt as int);
        if acc > (u64::MAX - dgt) / 10 {
            proof {
                assert(acc as int * 10 + dgt as int > u64::MAX as int) by (nonlinear_arith)
                    requires
                        acc as int > (u64::MAX as int - dgt as int) / 10,
                        0 <= dgt as int <= 9,
                ;
                if all_digits(d) {
                    lemma_digits_prefix_le(d, i - start + 1);
                    assert(digits_value(d) > u64::MAX as int);
                }
            }
            return None;
        }
        assert(acc as int * 10 + dgt as int <= u64::MAX as int) by (nonlinear_arith)
            requires
                acc as int <= (u64::MAX as int - dgt as int) / 10,
                0 <= dgt as int <= 9,
        ;
        acc = acc * 10 + dgt;
        assert(all_digits(next)) by {
            assert forall|k: int| 0 <= k < next.len() implies is_digit(#[trigger] next[k]) by {
                if k < pre.len() {
                    assert(next[k] == pre[k]);
                }
            }
        }
        i += 1;
    }
    assert(d.subrange(0, n - start) =~= d);
    Some(acc)
}

/// `s` without leading whitespace.
pub open spec fn trim_start_ws(s: Seq<char>) -> Seq<char>
    decreases s.len(),
{
    if s.len() > 0 && is_whitespace(s[0]) {
        trim_start_ws(s.drop_first())
    } else {
        s
    }
}

/// `s` without trailing whitespace.
pub open spec fn trim_end_ws(s: Seq<char>) -> Seq<char>
    decreases s.len(),
{
    if s.len() > 0 && is_whitespace(s.last()) {
        trim_end_ws(s.drop_last())
    } else {
        s
    }
}

/// `s` without leading and trailing whitespace, as `str::trim` gives it.
pub open spec fn trim_spec(s: Seq<char>) -> Seq<char> {
    trim_end_ws(trim_start_ws(s))
}

/// `s[from..to]` of a string slice, as an owned string.
pub fn owned_range(s: &str, from: usize, to: usize) -> (r: String)
    requires
        from <= to <= s@.len(),
    ensures
        r@ == s@.subrange(from as int, to as int),
{
    String::from_str(s.substring_char(from, to))
}

/// Bounds of the trimmed part of `v[from..to]`.
pub fn trim_bounds(v: &Vec<char>, from: usize, to: usize) -> (r: (usize, usize))
    requires
        from <= to <= v@.len(),
    ensures
        from <= r.0 <= r.1 <= to,
        v@.subrange(r.0 as int, r.1 as int) == trim_spec(v@.subrange(from as int, to as int)),
{
    let mut a: usize = from;
    while a < to && is_whitespace_char(v[a])
        invariant
            from <= a <= to,
            to <= v@.len(),
            trim_start_ws(v@.subrange(from as int, to as int)) == trim_start_ws(
                v@.subrange(a as int, to as int),
            ),
        decreases to - a,
    {
        assert(v@.subrange(a as int, to as int).drop_first() =~= v@.subrange(a + 1, to as int));
        a += 1;
    }
    let mut b: usize = to;
    while b > a && is_whitespace_char(v[b - 1])
        invariant
            a <= b <= to,
            to <= v@.len(),
            trim_start_ws(v@.subrange(from as int, to as int)) == v@.subrange(a as int, to as int),
            trim_end_ws(v@.subrange(a as int, to as int)) == trim_end_ws(
                v@.subrange(a as int, b as int),
            ),
        decreases b - a,
    {
        assert(v@.subrange(a as int, b as int).drop_last() =~= v@.subrange(a as int, b - 1));
        b -= 1;
    }
    (a, b)
}

/// Length of the run before the first `c` in `s`, or the whole length.
pub open spec fn len_before(s: Seq<char>, c: char) -> nat
    decreases s.len(),
{
    if s.len() == 0 || s[0] == c {
        0
    } else {
        1 + len_before(s.drop_first(), c)
    }
}

proof fn lemma_len_before(s: Seq<char>, c: char, j: int)
    requires
        0 <= j <= s.len(),
        forall|k: int| 0 <= k < j ==> s[k] != c,
        j == s.len() || s[j] == c,
    ensures
        len_before(s, c) == j,
    decreases j,
{
    if j > 0 {
        let t = s.drop_first();
        assert forall|k: int| 0 <= k < j - 1 implies t[k] != c by {
            assert(t[k] == s[k + 1]);
        }
        if j < s.len() {
            assert(t[j - 1] == s[j]);
        }
        lemma_len_before(t, c, j - 1);
    }
}

/// Position of the first `c` in `v` at or after `from`, or the length.
pub fn find_char(v: &Vec<char>, from: usize, c: char) -> (r: usize)
    requires
        from <= v@.len(),
    ensures
        from <= r <= v@.len(),
        r - from == len_before(v@.subrange(from as int, v@.len() as int), c),
{
    let n = v.len();
    let mut j: usize = from;
    while j < n && v[j] != c
        invariant
            from <= j <= n,
            n == v@.len(),
            forall|k: int| from <= k < j ==> v@[k] != c,
        decreases n - j,
    {
        j += 1;
    }
    proof {
        let t = v@.subrange(from as int, n as int);
        assert forall|k: int| 0 <= k < j - from implies t[k] != c by {
            assert(t[k] == v@[from + k]);
        }
        if j < n {
            assert(t[j - from] == v@[j as int]);
        }
        lemma_len_before(t, c, j - from);
    }
    j
}

/// The second `:`-separated field of `s`, as `s.split(':').nth(1)` gives
/// it: `None` when `s` holds no colon.
pub open spec fn second_field(s: Seq<char>) -> Option<Seq<char>> {
    let k = len_before(s, ':') as int;
    if k < s.len() {
        let rest = s.subrange(k + 1, s.len() as int);
        Some(rest.subrange(0, len_before(rest, ':') as int))
    } else {
        None
    }
}

/// The second `:`-separated field of `s`, trimmed.
pub fn second_field_trimmed(s: &str) -> (r: Option<String>)
    ensures
        r is None <==> second_field(s@) is None,
        r matches Some(t) ==> t@ == trim_spec(second_field(s@)->0),
{
    let v = to_chars(s);
    let n = v.len();
    assert(v@.subrange(0, n as int) =~= v@);
    let k = find_char(&v, 0, ':');
    if k == n {
        return None;
    }
    let m = find_char(&v, k + 1, ':');
    proof {
        let rest = v@.subrange(k + 1, n as int);
        assert(rest.subrange(0, m - k - 1) =~= v@.subrange(k + 1, m as int));
    }
    let (a, b) = trim_bounds(&v, k + 1, m);
    Some(owned_range(s, a, b))
}

/// `s` with every leading repetition of `p` removed, as
/// `str::trim_start_matches` gives it.
pub open spec fn strip_repeated(s: Seq<char>, p: Seq<char>) -> Seq<char>
    decreases s.len(),
{
    if p.len() > 0 && seq_starts_with(s, p) {
        strip_repeated(s.subrange(p.len() as int, s.len() as int), p)
    } else {
        s
    }
}

/// `s` without any leading `c`.
pub open spec fn trim_start_char(s: Seq<char>, c: char) -> Seq<char>
    decreases s.len(),
{
    if s.len() > 0 && s[0] == c {
        trim_start_char(s.drop_first(), c)
    } else {
        s
    }
}

/// `s` without any trailing `c`.
pub open spec fn trim_end_char(s: Seq<char>, c: char) -> Seq<char>
    decreases s.len(),
{
    if s.len() > 0 && s.last() == c {
        trim_end_char(s.drop_last(), c)
    } else {
        s
    }
}

/// `s` without any `c` at either end, as `str::trim_matches(c)` gives it.
pub open spec fn trim_char_spec(s: Seq<char>, c: char) -> Seq<char> {
    trim_end_char(trim_start_char(s, c), c)
}

/// Start of what is left of `v` once every leading repetition of `p` is
/// removed.
pub fn strip_repeated_start(v: &Vec<char>, p: &Vec<char>) -> (r: usize)
    ensures
        r <= v@.len(),
        v@.subrange(r as int, v@.len() as int) == strip_repeated(v@, p@),
{
    let n = v.len();
    let mut start: usize = 0;
    assert(v@.subrange(0, n as int) =~= v@);
    if p.len() == 0 {
        return 0;
    }
    while matches_at(v, start, p)
        invariant
            start <= n,
            n == v@.len(),
            p@.len() > 0,
            strip_repeated(v@, p@) == strip_repeated(v@.subrange(start as int, n as int), p@),
        decreases n - start,
    {
        let ghost t = v@.subrange(start as int, n as int);
        assert(t.subrange(0, p@.len() as int) =~= v@.subrange(start as int, start + p@.len()));
        assert(t.subrange(p@.len() as int, t.len() as int) =~= v@.subrange(
            start + p@.len(),
            n as int,
        ));
        start = start + p.len();
    }
    proof {
        let t = v@.subrange(start as int, n as int);
        if seq_starts_with(t, p@) {
            assert(t.subrange(0, p@.len() as int) =~= v@.subrange(start as int, start + p@.len()));
        }
    }
    start
}

/// Bounds of `v[from..to]` without any `c` at either end.
pub fn trim_char_bounds(v: &Vec<char>, from: usize, to: usize, c: char) -> (r: (usize, usize))
    requires
        from <= to <= v@.len(),
    ensures
        from <= r.0 <= r.1 <= to,
        v@.subrange(r.0 as int, r.1 as int) == trim_char_spec(
            v@.subrange(from as int, to as int),
            c,
        ),
{
    let mut a: usize = from;
    while a < to && v[a] == c
        invariant
            from <= a <= to,
            to <= v@.len(),
            trim_start_char(v@.subrange(from as int, to as int), c) == trim_start_char(
                v@.subrange(a as int, to as int),
                c,
            ),
        decreases to - a,
    {
        assert(v@.subrange(a as int, to as int).drop_first() =~= v@.subrange(a + 1, to as int));
        a += 1;
    }
    let mut b: usize = to;
    while b > a && v[b - 1] == c
        invariant
            a <= b <= to,
            to <= v@.len(),
            trim_start_char(v@.subrange(from as int, to as int), c) == v@.subrange(
                a as int,
                to as int,
            ),
            trim_end_char(v@.subrange(a as int, to as int), c) == trim_end_char(
                v@.subrange(a as int, b as int),
                c,
            ),
        decreases b - a,
    {
        assert(v@.subrange(a as int, b as int).drop_last() =~= v@.subrange(a as int, b - 1));
        b -= 1;
    }
    (a, b)
}

/// Length of the run of digits that starts `s`.
pub open spec fn leading_digits(s: Seq<char>) -> nat
    decreases s.len(),
{
    if s.len() == 0 || !is_digit(s[0]) {
        0
    } else {
        1 + leading_digits(s.drop_first())
    }
}

proof fn lemma_leading_digits(s: Seq<char>, j: int)
    requires
        0 <= j <= s.len(),
        forall|k: int| 0 <= k < j ==> is_digit(s[k]),
        j == s.len() || !is_digit(s[j]),
    ensures
        leading_digits(s) == j,
    decreases j,
{
    if j > 0 {
        let t = s.drop_first();
        assert forall|k: int| 0 <= k < j - 1 implies is_digit(t[k]) by {
            assert(t[k] == s[k + 1]);
        }
        if j < s.len() {
            assert(t[j - 1] == s[j]);
        }
        lemma_leading_digits(t, j - 1);
    }
}

/// The whole and fractional digits of a plain decimal number: one or more
/// digits, then optionally a `.` and any number of digits.
pub open spec fn decimal_parts(w: Seq<char>) -> Option<(Seq<char>, Seq<char>)> {
    let k = leading_digits(w) as int;
    if k == 0 {
        None
    } else if k == w.len() {
        Some((w, Seq::empty()))
    } else if w[k] == '.' && all_digits(w.subrange(k + 1, w.len() as int)) {
        Some((w.subrange(0, k), w.subrange(k + 1, w.len() as int)))
    } else {
        None
    }
}

/// The value of the `k`-th fractional digit, 0 past the last one.
pub open spec fn frac_digit(f: Seq<char>, k: int) -> int {
    if 0 <= k < f.len() {
        (f[k] as u32) as int - 48
    } else {
        0
    }
}

/// A plain decimal number in hundredths, rounded half up; `None` when
/// malformed or too large.
pub open spec fn hundredths_spec(w: Seq<char>) -> Option<u64> {
    match decimal_parts(w) {
        None => None,
        Some((ip, fp)) => if digits_value(ip) * 100 + 100 <= u64::MAX {
            Some(
                (digits_value(ip) * 100 + frac_digit(fp, 0) * 10 + frac_digit(fp, 1) + if frac_digit(
                    fp,
                    2,
                ) >= 5 {
                    1int
                } else {
                    0int
                }) as u64,
            )
        } else {
            None
        },
    }
}

/// The whole part of a plain decimal number; `None` when malformed or too
/// large.
pub open spec fn whole_part_spec(w: Seq<char>) -> Option<u64> {
    match decimal_parts(w) {
        None => None,
        Some((ip, fp)) => parse_u64_spec(ip),
    }
}

/// Splits a plain decimal number into whole and fractional digits, given
/// as bounds into `v`: whole `v[0..k]`, fraction `v[k + 1..]` (empty when
/// `k` is the length).
fn decimal_bounds(v: &Vec<char>) -> (r: Option<usize>)
    ensures
        r is None <==> decimal_parts(v@) is None,
        r matches Some(k) ==> all_digits(v@.subrange(0, k as int)),
        r matches Some(k) ==> 0 < k <= v@.len() && decimal_parts(v@) == Some(
            (
                v@.subrange(0, k as int),
                if k == v@.len() {
                    Seq::<char>::empty()
                } else {
                    v@.subrange(k + 1, v@.len() as int)
                },
            ),
        ),
{
    let n = v.len();
    let mut k: usize = 0;
    while k < n && '0' <= v[k] && v[k] <= '9'
        invariant
            k <= n,
            n == v@.len(),
            forall|j: int| 0 <= j < k ==> is_digit(v@[j]),
        decreases n - k,
    {
        k += 1;
    }
    proof {
        lemma_leading_digits(v@, k as int);
        assert forall|i: int| 0 <= i < k implies is_digit(#[trigger] v@.subrange(0, k as int)[i]) by {
            assert(v@.subrange(0, k as int)[i] == v@[i]);
        }
    }
    if k == 0 {
        return None;
    }
    if k == n {
        assert(v@.subrange(0, n as int) =~= v@);
        return Some(k);
    }
    if v[k] != '.' {
        return None;
    }
    let mut j: usize = k + 1;
    while j < n
        invariant
            k + 1 <= j <= n,
            n == v@.len(),
            0 < k < n,
            leading_digits(v@) == k,
            v@[k as int] == '.',
            forall|i: int| k + 1 <= i < j ==> is_digit(v@[i]),
        decreases n - j,
    {
        if !('0' <= v[j] && v[j] <= '9') {
            assert(v@.subrange(k + 1, n as int)[j - k - 1] == v@[j as int]);
            assert(!is_digit(v@.subrange(k + 1, n as int)[j - k - 1]));
            return None;
        }
        j += 1;
    }
    assert(all_digits(v@.subrange(k + 1, n as int))) by {
        assert forall|i: int| 0 <= i < n - k - 1 implies is_digit(
            #[trigger] v@.subrange(k + 1, n as int)[i],
        ) by {
            assert(v@.subrange(k + 1, n as int)[i] == v@[k + 1 + i]);
        }
    }
    Some(k)
}

fn frac_digit_at(v: &Vec<char>, k: usize, idx: usize) -> (r: u64)
    requires
        k <= v@.len(),
        idx < 3,
        k < v@.len() ==> all_digits(v@.subrange(k + 1, v@.len() as int)),
    ensures
        r as int == frac_digit(
            if k == v@.len() {
                Seq::<char>::empty()
            } else {
                v@.subrange(k + 1, v@.len() as int)
            },
            idx as int,
        ),
        r <= 9,
{
    let n = v.len();
    if k == n || idx >= n - k - 1 {
        return 0;
    }
    let c = v[k + 1 + idx];
    assert(v@.subrange(k + 1, n as int)[idx as int] == c);
    assert(is_digit(v@.subrange(k + 1, n as int)[idx as int]));
    (c as u32 - 48) as u64
}

/// Reads a plain decimal number in hundredths, rounded half up.
pub fn parse_hundredths(s: &str) -> (r: Option<u64>)
    ensures
        r == hundredths_spec(s@),
{
    let v = to_chars(s);
    let k = match decimal_bounds(&v) {
        None => return None,
        Some(k) => k,
    };
    let ghost ip = v@.subrange(0, k as int);
    assert(ip[0] != '+') by {
        assert(is_digit(ip[0]));
    }
    assert(unsigned_digits(ip) == ip);
    let whole_text = owned_range(s, 0, k);
    assert(whole_text@ == ip);
    let whole = match parse_u64(whole_text.as_str()) {
        None => return None,
        Some(w) => w,
    };
    proof {
        lemma_digits_nonneg(ip);
    }
    assert(whole as int == digits_value(ip));
    if whole > (u64::MAX - 100) / 100 {
        assert(whole as int * 100 + 100 > u64::MAX as int) by (nonlinear_arith)
            requires
                whole as int > (u64::MAX as int - 100) / 100,
        ;
        return None;
    }
    assert(whole as int * 100 + 100 <= u64::MAX as int) by (nonlinear_arith)
        requires
            whole as int <= (u64::MAX as int - 100) / 100,
    ;
    let a = frac_digit_at(&v, k, 0);
    let b = frac_digit_at(&v, k, 1);
    let c = frac_digit_at(&v, k, 2);
    let round: u64 = if c >= 5 {
        1
    } else {
        0
    };
    Some(whole * 100 + a * 10 + b + round)
}

/// Reads the whole part of a plain decimal number.
pub fn parse_whole_part(s: &str) -> (r: Option<u64>)
    ensures
        r == whole_part_spec(s@),
{
    let v = to_chars(s);
    let k = match decimal_bounds(&v) {
        None => return None,
        Some(k) => k,
    };
    parse_u64(owned_range(s, 0, k).as_str())
}

} // verus!
