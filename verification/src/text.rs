//! Character-level helpers on strings: conversion, whitespace, trimming and
//! line splitting, each stated over the characters of the text.
use vstd::prelude::*;

verus! {

/// The characters of `s`, in order.
pub fn chars_of(s: &str) -> (v: Vec<char>)
    ensures
        v@ == s@,
{
    let mut v: Vec<char> = Vec::new();
    for c in it: s.chars()
        invariant
            v@ == it.seq().take(it.index() as int),
    {
        v.push(c);
    }
    v
}

/// Append one character to a string (`String::push`).
///
/// Trusted: std documents that `push` appends the character to the end of the
/// string, which is what the contract says of the characters.
#[verifier::external_body]
pub(crate) fn push_char(s: &mut String, c: char)
    ensures
        final(s)@ == old(s)@.push(c),
{
    s.push(c)
}

/// The string made of `v[lo..hi]`.
pub fn string_of(v: &Vec<char>, lo: usize, hi: usize) -> (s: String)
    requires
        lo <= hi <= v@.len(),
    ensures
        s@ == v@.subrange(lo as int, hi as int),
{
    let mut s = String::new();
    let mut i = lo;
    while i < hi
        invariant
            lo <= i <= hi <= v@.len(),
            s@ == v@.subrange(lo as int, i as int),
        decreases hi - i,
    {
        push_char(&mut s, v[i]);
        assert(v@.subrange(lo as int, i + 1) == v@.subrange(lo as int, i as int).push(v@[i as int]));
        i += 1;
    }
    s
}

/// The string made of all of `v`.
pub fn string_of_all(v: &Vec<char>) -> (s: String)
    ensures
        s@ == v@,
{
    let s = string_of(v, 0, v.len());
    assert(v@.subrange(0, v@.len() as int) == v@);
    s
}

/// A copy of `s`.
pub fn copy_string(s: &String) -> (r: String)
    ensures
        r@ == s@,
{
    s.clone()
}

/// Unicode `White_Space`, the set that `char::is_whitespace` and `str::trim`
/// use.
pub open spec fn is_ws(c: char) -> bool {
    ||| ('\u{9}' <= c && c <= '\u{d}')
    ||| c == ' '
    ||| c == '\u{85}'
    ||| c == '\u{a0}'
    ||| c == '\u{1680}'
    ||| ('\u{2000}' <= c && c <= '\u{200a}')
    ||| c == '\u{2028}'
    ||| c == '\u{2029}'
    ||| c == '\u{202f}'
    ||| c == '\u{205f}'
    ||| c == '\u{3000}'
}

/// Whether `c` is Unicode white space.
pub fn is_ws_exec(c: char) -> (r: bool)
    ensures
        r == is_ws(c),
{
    ('\u{9}' <= c && c <= '\u{d}') || c == ' ' || c == '\u{85}' || c == '\u{a0}' || c
        == '\u{1680}' || ('\u{2000}' <= c && c <= '\u{200a}') || c == '\u{2028}' || c
        == '\u{2029}' || c == '\u{202f}' || c == '\u{205f}' || c == '\u{3000}'
}

/// The index of the first character at or after `i` that is not whitespace,
/// or `s.len()`.
pub open spec fn trim_lo(s: Seq<char>, i: int) -> int
    decreases s.len() - i,
{
    if 0 <= i < s.len() && is_ws(s[i]) {
        trim_lo(s, i + 1)
    } else {
        i
    }
}

/// The end of `s[lo..j]` once trailing whitespace is removed.
pub open spec fn trim_hi(s: Seq<char>, lo: int, j: int) -> int
    decreases j - lo,
{
    if lo < j && j <= s.len() && is_ws(s[j - 1]) {
        trim_hi(s, lo, j - 1)
    } else {
        j
    }
}

/// `s` without leading and trailing whitespace, as `str::trim` gives it.
pub open spec fn trim(s: Seq<char>) -> Seq<char> {
    let lo = trim_lo(s, 0);
    s.subrange(lo, trim_hi(s, lo, s.len() as int))
}

/// The start of the trimmed text lies in the text, after only white space.
pub proof fn lemma_trim_lo_bounds(s: Seq<char>, i: int)
    requires
        0 <= i <= s.len(),
    ensures
        i <= trim_lo(s, i) <= s.len(),
        forall|k: int| i <= k < trim_lo(s, i) ==> is_ws(#[trigger] s[k]),
        trim_lo(s, i) < s.len() ==> !is_ws(s[trim_lo(s, i)]),
    decreases s.len() - i,
{
    if i < s.len() && is_ws(s[i]) {
        lemma_trim_lo_bounds(s, i + 1);
    }
}

/// The end of the trimmed text lies in the text, before only white space.
pub proof fn lemma_trim_hi_bounds(s: Seq<char>, lo: int, j: int)
    requires
        0 <= lo <= j <= s.len(),
    ensures
        lo <= trim_hi(s, lo, j) <= j,
        forall|k: int| trim_hi(s, lo, j) <= k < j ==> is_ws(#[trigger] s[k]),
        trim_hi(s, lo, j) > lo ==> !is_ws(s[trim_hi(s, lo, j) - 1]),
    decreases j - lo,
{
    if lo < j && is_ws(s[j - 1]) {
        lemma_trim_hi_bounds(s, lo, j - 1);
    }
}

/// The bounds of `trim(v[lo..hi])` inside `v`.
pub fn trim_bounds(v: &Vec<char>, lo: usize, hi: usize) -> (r: (usize, usize))
    requires
        lo <= hi <= v@.len(),
    ensures
        lo <= r.0 <= r.1 <= hi,
        v@.subrange(r.0 as int, r.1 as int) == trim(v@.subrange(lo as int, hi as int)),
{
    let ghost s = v@.subrange(lo as int, hi as int);
    let mut a = lo;
    while a < hi && is_ws_exec(v[a])
        invariant
            lo <= a <= hi <= v@.len(),
            s == v@.subrange(lo as int, hi as int),
            trim_lo(s, 0) == trim_lo(s, a - lo),
        decreases hi - a,
    {
        a += 1;
    }
    let mut b = hi;
    while b > a && is_ws_exec(v[b - 1])
        invariant
            lo <= a <= b <= hi <= v@.len(),
            s == v@.subrange(lo as int, hi as int),
            trim_lo(s, 0) == a - lo,
            trim_hi(s, a - lo, s.len() as int) == trim_hi(s, a - lo, b - lo),
        decreases b - a,
    {
        b -= 1;
    }
    assert(v@.subrange(a as int, b as int) == s.subrange(a - lo, b - lo));
    (a, b)
}

/// The characters of `trim(s)`.
pub fn trimmed(s: &Vec<char>) -> (r: Vec<char>)
    ensures
        r@ == trim(s@),
{
    let (a, b) = trim_bounds(s, 0, s.len());
    assert(s@.subrange(0, s@.len() as int) == s@);
    let mut r: Vec<char> = Vec::new();
    let mut i = a;
    while i < b
        invariant
            a <= i <= b <= s@.len(),
            r@ == s@.subrange(a as int, i as int),
        decreases b - i,
    {
        r.push(s[i]);
        assert(s@.subrange(a as int, i + 1) == s@.subrange(a as int, i as int).push(s@[i as int]));
        i += 1;
    }
    r
}

/// Whether `v[lo..hi]` equals `p`.
pub fn range_eq(v: &Vec<char>, lo: usize, hi: usize, p: &Vec<char>) -> (r: bool)
    requires
        lo <= hi <= v@.len(),
    ensures
        r == (v@.subrange(lo as int, hi as int) == p@),
{
    if hi - lo != p.len() {
        return false;
    }
    let mut i: usize = 0;
    while i < p.len()
        invariant
            lo <= hi <= v@.len(),
            hi - lo == p@.len(),
            i <= p@.len(),
            forall|k: int| 0 <= k < i ==> v@[lo + k] == p@[k],
        decreases p@.len() - i,
    {
        if v[lo + i] != p[i] {
            return false;
        }
        i += 1;
    }
    assert(v@.subrange(lo as int, hi as int) =~= p@);
    true
}

/// Whether `v[lo..]` begins with `p`.
pub fn starts_at(v: &Vec<char>, lo: usize, p: &Vec<char>) -> (r: bool)
    requires
        lo <= v@.len(),
    ensures
        r == (lo + p@.len() <= v@.len() && v@.subrange(lo as int, lo + p@.len()) == p@),
{
    if v.len() - lo < p.len() {
        return false;
    }
    range_eq(v, lo, lo + p.len(), p)
}

/// The index of the first `c` in `s` at or after `i`, or `s.len()`.
pub open spec fn find_char(s: Seq<char>, c: char, i: int) -> int
    decreases s.len() - i,
{
    if i < 0 || i >= s.len() {
        if i < 0 { 0 } else { i }
    } else if s[i] == c {
        i
    } else {
        find_char(s, c, i + 1)
    }
}

/// The first `c` at or after `i` is a `c`, and none comes before it.
pub proof fn lemma_find_char(s: Seq<char>, c: char, i: int)
    requires
        0 <= i <= s.len(),
    ensures
        i <= find_char(s, c, i) <= s.len(),
        find_char(s, c, i) < s.len() ==> s[find_char(s, c, i)] == c,
        forall|k: int| i <= k < find_char(s, c, i) ==> #[trigger] s[k] != c,
    decreases s.len() - i,
{
    if i < s.len() && s[i] != c {
        lemma_find_char(s, c, i + 1);
    }
}

/// The index of the first `c` in `v` at or after `i`, or `v.len()`.
pub fn find_char_exec(v: &Vec<char>, c: char, i: usize) -> (r: usize)
    requires
        i <= v@.len(),
    ensures
        r == find_char(v@, c, i as int),
{
    let mut j = i;
    while j < v.len() && v[j] != c
        invariant
            i <= j <= v@.len(),
            find_char(v@, c, i as int) == find_char(v@, c, j as int),
        decreases v@.len() - j,
    {
        j += 1;
    }
    j
}

/// A line without its `\n`, and without the `\r` of a `\r\n` ending.
pub open spec fn strip_cr(s: Seq<char>) -> Seq<char> {
    if s.len() > 0 && s.last() == '\r' {
        s.drop_last()
    } else {
        s
    }
}

/// The lines of `s[i..]`, as `str::lines` gives them: split at `\n`, drop a
/// `\r` before the `\n`, and yield no empty line after a final `\n`.
pub open spec fn lines_from(s: Seq<char>, i: int) -> Seq<Seq<char>>
    decreases s.len() - i,
{
    if i < 0 || i >= s.len() {
        seq![]
    } else {
        let j = find_char(s, '\n', i);
        proof {
            lemma_find_char(s, '\n', i);
        }
        if j < s.len() {
            seq![strip_cr(s.subrange(i, j))] + lines_from(s, j + 1)
        } else {
            seq![s.subrange(i, s.len() as int)]
        }
    }
}

/// The lines of `s`.
pub open spec fn lines(s: Seq<char>) -> Seq<Seq<char>> {
    lines_from(s, 0)
}

/// The lines of `v[i..]`, each as its own vector of characters.
pub fn lines_exec(v: &Vec<char>, i: usize) -> (r: Vec<Vec<char>>)
    requires
        i <= v@.len(),
    ensures
        r@.len() == lines_from(v@, i as int).len(),
        forall|k: int| 0 <= k < r@.len() ==> (#[trigger] r@[k])@ == lines_from(v@, i as int)[k],
{
    let mut r: Vec<Vec<char>> = Vec::new();
    let mut p = i;
    while p < v.len()
        invariant
            i <= p <= v@.len(),
            r@.len() + lines_from(v@, p as int).len() == lines_from(v@, i as int).len(),
            forall|k: int| 0 <= k < r@.len() ==> (#[trigger] r@[k])@ == lines_from(v@, i as int)[k],
            forall|k: int|
                0 <= k < lines_from(v@, p as int).len() ==> #[trigger] lines_from(v@, p as int)[k]
                    == lines_from(v@, i as int)[r@.len() + k],
        decreases v@.len() - p,
    {
        let j = find_char_exec(v, '\n', p);
        proof {
            lemma_find_char(v@, '\n', p as int);
        }
        let mut line: Vec<char> = Vec::new();
        let mut k = p;
        while k < j
            invariant
                p <= k <= j <= v@.len(),
                line@ == v@.subrange(p as int, k as int),
            decreases j - k,
        {
            line.push(v[k]);
            assert(v@.subrange(p as int, k + 1) == v@.subrange(p as int, k as int).push(v@[k as int]));
            k += 1;
        }
        if j < v.len() {
            if line.len() > 0 && line[line.len() - 1] == '\r' {
                line.pop();
            }
            assert(line@ == strip_cr(v@.subrange(p as int, j as int)));
            let ghost before = r@.len();
            assert(lines_from(v@, p as int)[0] == line@);
            assert forall|m: int| 0 <= m < lines_from(v@, j + 1).len() implies
                lines_from(v@, j + 1)[m] == #[trigger] lines_from(v@, i as int)[before + 1 + m] by {
                assert(lines_from(v@, p as int)[m + 1] == lines_from(v@, j + 1)[m]);
            }
            r.push(line);
            p = j + 1;
        } else {
            assert(lines_from(v@, p as int)[0] == line@);
            r.push(line);
            p = v.len();
        }
    }
    r
}

proof fn lemma_find_char_shift(x: Seq<char>, y: Seq<char>, c: char, i: int)
    requires
        0 <= i <= y.len(),
    ensures
        find_char(x + y, c, x.len() + i) == x.len() + find_char(y, c, i),
    decreases y.len() - i,
{
    if i < y.len() && y[i] != c {
        lemma_find_char_shift(x, y, c, i + 1);
    }
}

/// The lines after a prefix are the lines of what follows it.
pub proof fn lemma_lines_shift(x: Seq<char>, y: Seq<char>, i: int)
    requires
        0 <= i <= y.len(),
    ensures
        lines_from(x + y, x.len() + i) == lines_from(y, i),
    decreases y.len() - i,
{
    if i < y.len() {
        lemma_find_char_shift(x, y, '\n', i);
        lemma_find_char(y, '\n', i);
        let j = find_char(y, '\n', i);
        if j < y.len() {
            lemma_lines_shift(x, y, j + 1);
            assert((x + y).subrange(x.len() + i, x.len() + j) =~= y.subrange(i, j));
        } else {
            assert((x + y).subrange(x.len() + i, (x + y).len() as int) =~= y.subrange(
                i,
                y.len() as int,
            ));
        }
    }
}

/// A line that ends in `\n` and the text after it: the line comes first,
/// then the lines of the rest.
pub proof fn lemma_lines_first(l: Seq<char>, rest: Seq<char>)
    requires
        !l.contains('\n'),
    ensures
        lines(l.push('\n') + rest) == seq![strip_cr(l)] + lines(rest),
{
    let s = l.push('\n') + rest;
    assert forall|k: int| 0 <= k < l.len() implies s[k] != '\n' by {
        assert(s[k] == l[k]);
    }
    lemma_find_char(s, '\n', 0);
    let j = find_char(s, '\n', 0);
    assert(s[l.len() as int] == '\n');
    if j < l.len() {
        assert(s[j] == l[j]);
    }
    assert(j == l.len());
    assert(s.subrange(0, j) =~= l);
    lemma_lines_shift(l.push('\n'), rest, 0);
}

} // verus!
