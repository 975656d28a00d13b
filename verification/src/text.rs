//! Character-level text primitives: whitespace, trimming, searching and splitting.
//!
//! Text is modelled as `Seq<char>`. The executable functions work on a shared
//! character buffer and hand back index ranges into it, so that no piece of
//! the input is copied before it is known to be needed.
use vstd::prelude::*;
use vstd::string::*;

verus! {

/// Whether `c` is whitespace as Unicode defines it (`White_Space`).
pub open spec fn is_whitespace(c: char) -> bool {
    let n = c as u32;
    ||| 0x09 <= n <= 0x0D
    ||| n == 0x20
    ||| n == 0x85
    ||| n == 0xA0
    ||| n == 0x1680
    ||| 0x2000 <= n <= 0x200A
    ||| n == 0x2028
    ||| n == 0x2029
    ||| n == 0x202F
    ||| n == 0x205F
    ||| n == 0x3000
}

/// `s` without its leading whitespace.
pub open spec fn trim_start(s: Seq<char>) -> Seq<char>
    decreases s.len(),
{
    if s.len() > 0 && is_whitespace(s.first()) {
        trim_start(s.drop_first())
    } else {
        s
    }
}

/// `s` without its trailing whitespace.
pub open spec fn trim_end(s: Seq<char>) -> Seq<char>
    decreases s.len(),
{
    if s.len() > 0 && is_whitespace(s.last()) {
        trim_end(s.drop_last())
    } else {
        s
    }
}

/// `s` without its leading and trailing whitespace.
pub open spec fn trim(s: Seq<char>) -> Seq<char> {
    trim_end(trim_start(s))
}

/// Whether `s` ends with `suffix`.
pub open spec fn ends_with(s: Seq<char>, suffix: Seq<char>) -> bool {
    suffix.len() <= s.len() && s.subrange(s.len() - suffix.len(), s.len() as int) == suffix
}

/// `s` without its last `suffix.len()` characters.
pub open spec fn strip_suffix(s: Seq<char>, suffix: Seq<char>) -> Seq<char>
    recommends
        ends_with(s, suffix),
{
    s.subrange(0, s.len() - suffix.len())
}

/// Whether `a` comes before `b`, or is `b`, in the order of `String`: the
/// first character in which the two differ decides, by its code point, and a
/// text comes before every text that it begins.
pub open spec fn text_le(a: Seq<char>, b: Seq<char>) -> bool
    decreases a.len(),
{
    if a.len() == 0 {
        true
    } else if b.len() == 0 {
        false
    } else if a.first() != b.first() {
        (a.first() as u32) < (b.first() as u32)
    } else {
        text_le(a.drop_first(), b.drop_first())
    }
}

/// Whether `a` comes before `b` in the order of `String`.
pub open spec fn text_lt(a: Seq<char>, b: Seq<char>) -> bool {
    text_le(a, b) && a != b
}

/// Whether `pattern` stands in `s` at index `i`.
pub open spec fn occurs_at(s: Seq<char>, pattern: Seq<char>, i: int) -> bool {
    0 <= i && i + pattern.len() <= s.len() && s.subrange(i, i + pattern.len()) == pattern
}

/// The least index at or after `from` at which `pattern` stands in `s`.
pub open spec fn find_from(s: Seq<char>, pattern: Seq<char>, from: int) -> Option<int>
    decreases s.len() + 1 - from,
{
    if from < 0 || from + pattern.len() > s.len() {
        None
    } else if occurs_at(s, pattern, from) {
        Some(from)
    } else {
        find_from(s, pattern, from + 1)
    }
}

/// The least index at which `pattern` stands in `s`.
pub open spec fn find(s: Seq<char>, pattern: Seq<char>) -> Option<int> {
    find_from(s, pattern, 0)
}

/// The pieces of `s` between the occurrences of `pattern`, taken from the
/// left without overlap. There is always at least one piece; a pattern at the
/// very end leaves an empty last piece.
pub open spec fn split(s: Seq<char>, pattern: Seq<char>) -> Seq<Seq<char>>
    decreases s.len(),
    when pattern.len() > 0
    via split_decreases
{
    match find(s, pattern) {
        None => seq![s],
        Some(i) => seq![s.subrange(0, i)] + split(
            s.subrange(i + pattern.len(), s.len() as int),
            pattern,
        ),
    }
}

#[via_fn]
proof fn split_decreases(s: Seq<char>, pattern: Seq<char>) {
    lemma_find_from(s, pattern, 0);
}

/// What `find_from` returns is the first occurrence at or after `from`.
pub proof fn lemma_find_from(s: Seq<char>, pattern: Seq<char>, from: int)
    requires
        0 <= from,
    ensures
        match find_from(s, pattern, from) {
            Some(i) => from <= i && occurs_at(s, pattern, i) && forall|j: int|
                from <= j < i ==> !occurs_at(s, pattern, j),
            None => forall|j: int| from <= j ==> !occurs_at(s, pattern, j),
        },
    decreases s.len() + 1 - from,
{
    if from + pattern.len() > s.len() {
    } else if occurs_at(s, pattern, from) {
    } else {
        lemma_find_from(s, pattern, from + 1);
    }
}

/// An index with an occurrence and none before it is what `find` returns.
pub proof fn lemma_find_unique(s: Seq<char>, pattern: Seq<char>, i: int)
    requires
        occurs_at(s, pattern, i),
        forall|j: int| 0 <= j < i ==> !occurs_at(s, pattern, j),
    ensures
        find(s, pattern) == Some(i),
{
    lemma_find_from(s, pattern, 0);
}

/// Without an occurrence, `find` returns nothing.
pub proof fn lemma_find_none(s: Seq<char>, pattern: Seq<char>)
    requires
        forall|j: int| 0 <= j ==> !occurs_at(s, pattern, j),
    ensures
        find(s, pattern) is None,
{
    lemma_find_from(s, pattern, 0);
}

/// Leading whitespace is taken from the first of two texts alone where the
/// second does not begin with whitespace.
pub proof fn lemma_trim_start_concat(a: Seq<char>, b: Seq<char>)
    requires
        b.len() == 0 || !is_whitespace(b.first()),
    ensures
        trim_start(a + b) == trim_start(a) + b,
    decreases a.len(),
{
    if a.len() > 0 && is_whitespace(a.first()) {
        assert((a + b).drop_first() =~= a.drop_first() + b);
        lemma_trim_start_concat(a.drop_first(), b);
    } else if a.len() > 0 {
        assert((a + b).first() == a.first());
    } else {
        assert(a + b =~= b);
        assert(trim_start(a) + b =~= b);
    }
}

/// A text that neither begins nor ends with whitespace is its own trimming.
pub proof fn lemma_trim_identity(s: Seq<char>)
    requires
        s.len() > 0,
        !is_whitespace(s.first()),
        !is_whitespace(s.last()),
    ensures
        trim(s) == s,
{
}

/// What `trim_start` leaves does not begin with whitespace.
pub proof fn lemma_trim_start_done(s: Seq<char>)
    ensures
        trim_start(s).len() == 0 || !is_whitespace(trim_start(s).first()),
    decreases s.len(),
{
    if s.len() > 0 && is_whitespace(s.first()) {
        lemma_trim_start_done(s.drop_first());
    }
}

/// What `trim_end` leaves does not end with whitespace, and begins as `s`
/// does.
pub proof fn lemma_trim_end_done(s: Seq<char>)
    ensures
        trim_end(s).len() == 0 || !is_whitespace(trim_end(s).last()),
        trim_end(s).len() > 0 ==> trim_end(s).first() == s.first(),
    decreases s.len(),
{
    if s.len() > 0 && is_whitespace(s.last()) {
        lemma_trim_end_done(s.drop_last());
    }
}

/// Trimming what is trimmed changes nothing.
pub proof fn lemma_trim_twice(s: Seq<char>)
    ensures
        trim(trim(s)) == trim(s),
{
    lemma_trim_start_done(s);
    lemma_trim_end_done(trim_start(s));
    if trim(s).len() > 0 {
        lemma_trim_identity(trim(s));
    }
}

/// Trimming a text that ends with a character other than whitespace takes
/// its leading whitespace only.
pub proof fn lemma_trim_with_suffix(body: Seq<char>, suffix: Seq<char>)
    requires
        suffix.len() > 0,
        !is_whitespace(suffix.first()),
        !is_whitespace(suffix.last()),
    ensures
        trim(body + suffix) == trim_start(body) + suffix,
        ends_with(trim(body + suffix), suffix),
        strip_suffix(trim(body + suffix), suffix) == trim_start(body),
{
    lemma_trim_start_concat(body, suffix);
    let t = trim_start(body) + suffix;
    assert(t.last() == suffix.last());
    assert(t.subrange(t.len() - suffix.len(), t.len() as int) =~= suffix);
    assert(t.subrange(0, t.len() - suffix.len()) =~= trim_start(body));
}

/// A pattern of one character is not found in a text without that character.
pub proof fn lemma_find_absent_char(s: Seq<char>, c: char)
    requires
        forall|i: int| 0 <= i < s.len() ==> s[i] != c,
    ensures
        find(s, seq![c]) is None,
{
    assert forall|j: int| 0 <= j implies !occurs_at(s, seq![c], j) by {
        if occurs_at(s, seq![c], j) {
            assert(s.subrange(j, j + 1)[0] == c);
        }
    }
    lemma_find_none(s, seq![c]);
}

/// A text with one occurrence of a one-character pattern is split in the
/// text before it and the text behind it.
pub proof fn lemma_split_once(a: Seq<char>, c: char, b: Seq<char>)
    requires
        forall|i: int| 0 <= i < a.len() ==> a[i] != c,
        forall|i: int| 0 <= i < b.len() ==> b[i] != c,
    ensures
        split(a + seq![c] + b, seq![c]) == seq![a, b],
{
    let s = a + seq![c] + b;
    let p = seq![c];
    let n = a.len() as int;
    assert(s.subrange(n, n + 1) =~= p);
    assert forall|j: int| 0 <= j < a.len() implies !occurs_at(s, p, j) by {
        if occurs_at(s, p, j) {
            assert(s.subrange(j, j + 1)[0] == c);
        }
    }
    lemma_find_unique(s, p, n);
    assert(s.subrange(0, n) =~= a);
    assert(s.subrange(n + 1, s.len() as int) =~= b);
    lemma_find_absent_char(b, c);
    assert(split(b, p) == seq![b]);
    assert(seq![a] + seq![b] =~= seq![a, b]);
}

/// Decides `is_whitespace`.
pub fn char_is_whitespace(c: char) -> (r: bool)
    ensures
        r == is_whitespace(c),
{
    let n: u32 = c as u32;
    (0x09 <= n && n <= 0x0D) || n == 0x20 || n == 0x85 || n == 0xA0 || n == 0x1680 || (0x2000 <= n
        && n <= 0x200A) || n == 0x2028 || n == 0x2029 || n == 0x202F || n == 0x205F || n == 0x3000
}

/// The characters of `s`, in order.
pub fn chars_of(s: &str) -> (v: Vec<char>)
    ensures
        v@ == s@,
{
    let mut v: Vec<char> = Vec::new();
    for c in it: s.chars()
        invariant
            it.seq() == s@,
            v@ == it.seq().take(it.index() as int),
    {
        v.push(c);
        assert(v@ =~= it.seq().take(it.index() + 1));
    }
    v
}

/// Whether `a` and `b` hold the same characters.
pub fn same_text(a: &str, b: &str) -> (r: bool)
    ensures
        r == (a@ == b@),
{
    let x = chars_of(a);
    let y = chars_of(b);
    if x.len() != y.len() {
        return false;
    }
    let mut i: usize = 0;
    while i < x.len()
        invariant
            x@ == a@,
            y@ == b@,
            x.len() == y.len(),
            i <= x.len(),
            forall|j: int| 0 <= j < i ==> x@[j] == y@[j],
        decreases x.len() - i,
    {
        if x[i] != y[i] {
            return false;
        }
        i += 1;
    }
    assert(a@ =~= b@);
    true
}

/// The bounds of `trim` applied to the characters of `buf` from `lo` to `hi`.
pub fn trim_range(buf: &Vec<char>, lo: usize, hi: usize) -> (r: (usize, usize))
    requires
        lo <= hi <= buf.len(),
    ensures
        lo <= r.0 <= r.1 <= hi,
        buf@.subrange(r.0 as int, r.1 as int) == trim(buf@.subrange(lo as int, hi as int)),
        hi - r.0 == trim_start(buf@.subrange(lo as int, hi as int)).len(),
{
    let mut a: usize = lo;
    while a < hi && char_is_whitespace(buf[a])
        invariant
            lo <= a <= hi <= buf.len(),
            trim_start(buf@.subrange(lo as int, hi as int)) == trim_start(
                buf@.subrange(a as int, hi as int),
            ),
        decreases hi - a,
    {
        assert(buf@.subrange(a as int, hi as int).drop_first() =~= buf@.subrange(
            a as int + 1,
            hi as int,
        ));
        a += 1;
    }
    let mut b: usize = hi;
    while a < b && char_is_whitespace(buf[b - 1])
        invariant
            lo <= a <= b <= hi <= buf.len(),
            trim(buf@.subrange(lo as int, hi as int)) == trim_end(
                buf@.subrange(a as int, b as int),
            ),
        decreases b - a,
    {
        assert(buf@.subrange(a as int, b as int).drop_last() =~= buf@.subrange(
            a as int,
            b as int - 1,
        ));
        b -= 1;
    }
    (a, b)
}

/// The text that each of `ranges` cuts out of `buf`.
pub open spec fn pieces(buf: Seq<char>, ranges: Seq<(usize, usize)>) -> Seq<Seq<char>> {
    Seq::new(ranges.len(), |k: int| buf.subrange(ranges[k].0 as int, ranges[k].1 as int))
}

/// Whether every one of `ranges` lies between `lo` and `hi`.
pub open spec fn ranges_within(ranges: Seq<(usize, usize)>, lo: int, hi: int) -> bool {
    forall|k: int| 0 <= k < ranges.len() ==> lo <= (#[trigger] ranges[k]).0 <= ranges[k].1 <= hi
}

/// Whether `ranges` run from `lo` to `hi` with a gap of `gap` between each
/// and the next.
pub open spec fn ranges_chained(ranges: Seq<(usize, usize)>, lo: int, hi: int, gap: int) -> bool {
    &&& ranges.len() > 0
    &&& ranges.first().0 == lo
    &&& ranges.last().1 == hi
    &&& forall|k: int|
        0 <= k < ranges.len() - 1 ==> (#[trigger] ranges[k + 1]).0 == ranges[k].1 + gap
}

/// An occurrence in a window of `s` is an occurrence in `s`, shifted.
pub proof fn lemma_occurs_in_window(s: Seq<char>, pattern: Seq<char>, lo: int, hi: int, i: int)
    requires
        0 <= lo <= i <= hi <= s.len(),
    ensures
        occurs_at(s.subrange(lo, hi), pattern, i - lo) <==> i + pattern.len() <= hi && s.subrange(
            i,
            i + pattern.len(),
        ) == pattern,
{
    if i + pattern.len() <= hi {
        assert(s.subrange(lo, hi).subrange(i - lo, i - lo + pattern.len()) =~= s.subrange(
            i,
            i + pattern.len(),
        ));
    }
}

/// Whether the characters of `buf` from `at` on, up to `hi`, begin with `pattern`.
pub fn matches_at(buf: &Vec<char>, at: usize, hi: usize, pattern: &Vec<char>) -> (r: bool)
    requires
        at <= hi <= buf.len(),
    ensures
        r == (at + pattern.len() <= hi && buf@.subrange(at as int, at + pattern.len())
            == pattern@),
{
    let n: usize = pattern.len();
    if hi - at < n {
        return false;
    }
    let mut k: usize = 0;
    while k < n
        invariant
            n == pattern.len(),
            at + n <= hi <= buf.len(),
            k <= n,
            forall|j: int| 0 <= j < k ==> buf@[at + j] == pattern@[j],
        decreases n - k,
    {
        if buf[at + k] != pattern[k] {
            assert(buf@.subrange(at as int, at + n)[k as int] != pattern@[k as int]);
            return false;
        }
        k += 1;
    }
    assert(buf@.subrange(at as int, at + n) =~= pattern@);
    true
}

/// Whether the characters of `buf` from `lo` to `hi` end with `suffix`.
pub fn ends_with_range(buf: &Vec<char>, lo: usize, hi: usize, suffix: &Vec<char>) -> (r: bool)
    requires
        lo <= hi <= buf.len(),
    ensures
        r == ends_with(buf@.subrange(lo as int, hi as int), suffix@),
{
    let n: usize = suffix.len();
    if hi - lo < n {
        return false;
    }
    proof {
        lemma_occurs_in_window(buf@, suffix@, lo as int, hi as int, hi - n);
    }
    matches_at(buf, hi - n, hi, suffix)
}

/// The first place at which `pattern` stands in the characters of `buf` from
/// `lo` to `hi`, as an index into `buf`.
pub fn find_range(buf: &Vec<char>, lo: usize, hi: usize, pattern: &Vec<char>) -> (r: Option<usize>)
    requires
        lo <= hi <= buf.len(),
    ensures
        match r {
            Some(i) => lo <= i && i + pattern.len() <= hi && find(
                buf@.subrange(lo as int, hi as int),
                pattern@,
            ) == Some(i - lo),
            None => find(buf@.subrange(lo as int, hi as int), pattern@) is None,
        },
{
    let ghost window = buf@.subrange(lo as int, hi as int);
    let mut i: usize = lo;
    while i <= hi
        invariant
            lo <= i <= hi + 1,
            hi <= buf.len(),
            window == buf@.subrange(lo as int, hi as int),
            forall|j: int| 0 <= j < i - lo ==> !occurs_at(window, pattern@, j),
        decreases hi + 1 - i,
    {
        proof {
            lemma_occurs_in_window(buf@, pattern@, lo as int, hi as int, i as int);
        }
        if matches_at(buf, i, hi, pattern) {
            proof {
                lemma_find_unique(window, pattern@, i - lo);
            }
            return Some(i);
        }
        if i == hi {
            proof {
                lemma_find_none(window, pattern@);
            }
            return None;
        }
        i += 1;
    }
    proof {
        lemma_find_none(window, pattern@);
    }
    None
}

/// The ranges of `buf` that hold the pieces of `split` applied to its
/// characters from `lo` to `hi`: the first begins at `lo`, the last ends at
/// `hi`, and between each and the next stands the pattern.
pub fn split_ranges(buf: &Vec<char>, lo: usize, hi: usize, pattern: &Vec<char>) -> (r: Vec<
    (usize, usize),
>)
    requires
        lo <= hi <= buf.len(),
        pattern.len() > 0,
    ensures
        pieces(buf@, r@) == split(buf@.subrange(lo as int, hi as int), pattern@),
        ranges_within(r@, lo as int, hi as int),
        ranges_chained(r@, lo as int, hi as int, pattern.len() as int),
{
    let mut out: Vec<(usize, usize)> = Vec::new();
    let mut pos: usize = lo;
    loop
        invariant
            lo <= pos <= hi <= buf.len(),
            pattern.len() > 0,
            ranges_within(out@, lo as int, hi as int),
            out.len() == 0 ==> pos == lo,
            out.len() > 0 ==> out@.first().0 == lo && out@.last().1 + pattern.len() == pos,
            forall|k: int|
                0 <= k < out.len() - 1 ==> (#[trigger] out@[k + 1]).0 == out@[k].1 + pattern.len(),
            split(buf@.subrange(lo as int, hi as int), pattern@) == pieces(buf@, out@) + split(
                buf@.subrange(pos as int, hi as int),
                pattern@,
            ),
        decreases hi - pos,
    {
        let ghost rest = buf@.subrange(pos as int, hi as int);
        let ghost before = out@;
        match find_range(buf, pos, hi, pattern) {
            None => {
                out.push((pos, hi));
                assert(pieces(buf@, out@) =~= pieces(buf@, before) + seq![rest]);
                return out;
            },
            Some(i) => {
                out.push((pos, i));
                assert(rest.subrange(0, i - pos) =~= buf@.subrange(pos as int, i as int));
                assert(rest.subrange(i - pos + pattern.len(), rest.len() as int) =~= buf@.subrange(
                    i + pattern.len(),
                    hi as int,
                ));
                assert(pieces(buf@, out@) =~= pieces(buf@, before) + seq![
                    buf@.subrange(pos as int, i as int),
                ]);
                pos = i + pattern.len();
            },
        }
    }
}

} // verus!
