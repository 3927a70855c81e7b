//! Characters and character sequences: conversion between strings and
//! vectors of characters, character classes, trimming and lower-casing.
use vstd::prelude::*;
use vstd::string::*;

verus! {

/// `String::push` of the standard library: the character is appended, and
/// the characters that were there stay in place.
pub assume_specification[ String::push ](s: &mut String, ch: char)
    ensures
        final(s)@ == old(s)@.push(ch),
;

/// The characters of `s`, in order.
pub fn chars_of(s: &str) -> (out: Vec<char>)
    ensures
        out@ == s@,
{
    let mut out: Vec<char> = Vec::new();
    for c in it: s.chars()
        invariant
            it.seq() == s@,
            out@ =~= it.seq().take(it.index() as int),
    {
        out.push(c);
    }
    assert(s@.take(s@.len() as int) =~= s@);
    out
}

/// The string made of the characters of `v`, in order.
pub fn string_of(v: &Vec<char>) -> (out: String)
    ensures
        out@ == v@,
{
    let mut out = String::new();
    let mut i: usize = 0;
    while i < v.len()
        invariant
            i <= v.len(),
            out@ =~= v@.take(i as int),
        decreases v.len() - i,
    {
        out.push(v[i]);
        i += 1;
    }
    assert(v@.take(v@.len() as int) =~= v@);
    out
}

/// Appends `src[from..to]` to `out`.
pub fn push_range(out: &mut Vec<char>, src: &Vec<char>, from: usize, to: usize)
    requires
        from <= to <= src.len(),
    ensures
        final(out)@ == old(out)@ + src@.subrange(from as int, to as int),
{
    let mut i: usize = from;
    while i < to
        invariant
            from <= i <= to <= src.len(),
            out@ =~= old(out)@ + src@.subrange(from as int, i as int),
        decreases to - i,
    {
        out.push(src[i]);
        i += 1;
    }
}

/// Whether `a[a0..a1]` and `b[b0..b1]` hold the same characters.
pub fn same_range(
    a: &Vec<char>,
    a0: usize,
    a1: usize,
    b: &Vec<char>,
    b0: usize,
    b1: usize,
) -> (r: bool)
    requires
        a0 <= a1 <= a.len(),
        b0 <= b1 <= b.len(),
    ensures
        r == (a@.subrange(a0 as int, a1 as int) == b@.subrange(b0 as int, b1 as int)),
{
    let ghost x = a@.subrange(a0 as int, a1 as int);
    let ghost y = b@.subrange(b0 as int, b1 as int);
    if a1 - a0 != b1 - b0 {
        assert(x.len() != y.len());
        return false;
    }
    let n: usize = a1 - a0;
    let mut i: usize = 0;
    while i < n
        invariant
            i <= n,
            n == a1 - a0,
            n == b1 - b0,
            a0 <= a1 <= a.len(),
            b0 <= b1 <= b.len(),
            x == a@.subrange(a0 as int, a1 as int),
            y == b@.subrange(b0 as int, b1 as int),
            forall|k: int| 0 <= k < i ==> x[k] == y[k],
        decreases n - i,
    {
        if a[a0 + i] != b[b0 + i] {
            assert(x[i as int] != y[i as int]);
            return false;
        }
        i += 1;
    }
    assert(x =~= y);
    true
}

/// A class of characters that is skipped at the ends of a sequence.
#[derive(Clone, Copy, Debug, PartialEq, Eq)]
pub enum CharClass {
    /// White space: the characters with the Unicode property `White_Space`.
    Blank,
    /// The path separator `/`.
    Separator,
}

/// Whether `c` is white space: a character with the Unicode property
/// `White_Space`.
pub open spec fn is_blank(c: char) -> bool {
    ||| ('\u{9}' <= c && c <= '\u{d}')
    ||| c == ' '
    ||| c == '\u{85}'
    ||| c == '\u{a0}'
    ||| c == '\u{1680}'
    ||| ('\u{2000}' <= c && c <= '\u{200a}')
    ||| c == '\u{2028}'
    ||| c == '\u{2029}'
    ||| c == '\u{202f}'
    ||| c == '\u{205f}'
    ||| c == '\u{3000}'
}

impl CharClass {
    /// Whether `c` belongs to the class.
    pub open spec fn holds(self, c: char) -> bool {
        match self {
            CharClass::Blank => is_blank(c),
            CharClass::Separator => c == '/',
        }
    }

    /// Whether `c` belongs to the class.
    pub fn test(&self, c: char) -> (r: bool)
        ensures
            r == self.holds(c),
    {
        match self {
            CharClass::Blank => {
                ('\u{9}' <= c && c <= '\u{d}') || c == ' ' || c == '\u{85}' || c == '\u{a0}' || c
                    == '\u{1680}' || ('\u{2000}' <= c && c <= '\u{200a}') || c == '\u{2028}' || c
                    == '\u{2029}' || c == '\u{202f}' || c == '\u{205f}' || c == '\u{3000}'
            },
            CharClass::Separator => c == '/',
        }
    }
}

/// How many characters at the start of `s` belong to `k`.
pub open spec fn leading(s: Seq<char>, k: CharClass) -> nat
    decreases s.len(),
{
    if s.len() > 0 && k.holds(s[0]) {
        1 + leading(s.drop_first(), k)
    } else {
        0
    }
}

/// How many characters at the end of `s` belong to `k`.
pub open spec fn trailing(s: Seq<char>, k: CharClass) -> nat
    decreases s.len(),
{
    if s.len() > 0 && k.holds(s.last()) {
        1 + trailing(s.drop_last(), k)
    } else {
        0
    }
}

/// `s` without the characters of `k` at its start.
pub open spec fn strip_leading(s: Seq<char>, k: CharClass) -> Seq<char> {
    s.skip(leading(s, k) as int)
}

/// `s` without the characters of `k` at its end.
pub open spec fn strip_trailing(s: Seq<char>, k: CharClass) -> Seq<char> {
    s.take(s.len() - trailing(s, k))
}

/// `s` without white space at either end.
pub open spec fn trimmed(s: Seq<char>) -> Seq<char> {
    strip_trailing(strip_leading(s, CharClass::Blank), CharClass::Blank)
}

/// The characters counted at the start of `s` belong to `k`, and the one
/// after them, if there is one, does not.
pub proof fn lemma_leading_bound(s: Seq<char>, k: CharClass)
    ensures
        leading(s, k) <= s.len(),
        forall|i: int| 0 <= i < leading(s, k) ==> k.holds(#[trigger] s[i]),
        leading(s, k) < s.len() ==> !k.holds(s[leading(s, k) as int]),
    decreases s.len(),
{
    if s.len() > 0 && k.holds(s[0]) {
        let t = s.drop_first();
        lemma_leading_bound(t, k);
        assert forall|i: int| 0 <= i < leading(s, k) implies k.holds(#[trigger] s[i]) by {
            if i > 0 {
                assert(s[i] == t[i - 1]);
            }
        }
    }
}

/// The characters counted at the end of `s` come after every character
/// that does not belong to `k`.
pub proof fn lemma_trailing_bound(s: Seq<char>, k: CharClass)
    ensures
        trailing(s, k) <= s.len(),
        forall|i: int| 0 <= i < s.len() && !k.holds(#[trigger] s[i]) ==> i < s.len() - trailing(s, k),
    decreases s.len(),
{
    if s.len() > 0 && k.holds(s.last()) {
        let t = s.drop_last();
        lemma_trailing_bound(t, k);
        assert forall|i: int| 0 <= i < s.len() && !k.holds(#[trigger] s[i]) implies i < s.len()
            - trailing(s, k) by {
            assert(s[i] == t[i]);
        }
    }
}

/// The index in `s[from..to]` of the first character outside `k`, or `to`.
pub fn skip_leading(s: &Vec<char>, from: usize, to: usize, k: CharClass) -> (i: usize)
    requires
        from <= to <= s.len(),
    ensures
        from <= i <= to,
        i == from + leading(s@.subrange(from as int, to as int), k),
{
    let mut i: usize = from;
    while i < to && k.test(s[i])
        invariant
            from <= i <= to <= s.len(),
            leading(s@.subrange(from as int, to as int), k) == (i - from) + leading(
                s@.subrange(i as int, to as int),
                k,
            ),
        decreases to - i,
    {
        assert(s@.subrange(i as int, to as int).drop_first() =~= s@.subrange(
            i as int + 1,
            to as int,
        ));
        i += 1;
    }
    i
}

/// The index in `s[from..to]` just past the last character outside `k`, or
/// `from`.
pub fn skip_trailing(s: &Vec<char>, from: usize, to: usize, k: CharClass) -> (j: usize)
    requires
        from <= to <= s.len(),
    ensures
        from <= j <= to,
        j == to - trailing(s@.subrange(from as int, to as int), k),
{
    let mut j: usize = to;
    while j > from && k.test(s[j - 1])
        invariant
            from <= j <= to <= s.len(),
            trailing(s@.subrange(from as int, to as int), k) == (to - j) + trailing(
                s@.subrange(from as int, j as int),
                k,
            ),
        decreases j - from,
    {
        assert(s@.subrange(from as int, j as int).drop_last() =~= s@.subrange(
            from as int,
            j as int - 1,
        ));
        j -= 1;
    }
    j
}

/// The bounds of `s[from..to]` without white space at either end.
pub fn trim_bounds(s: &Vec<char>, from: usize, to: usize) -> (r: (usize, usize))
    requires
        from <= to <= s.len(),
    ensures
        from <= r.0 <= r.1 <= to,
        s@.subrange(r.0 as int, r.1 as int) == trimmed(s@.subrange(from as int, to as int)),
{
    let a = skip_leading(s, from, to, CharClass::Blank);
    let b = skip_trailing(s, a, to, CharClass::Blank);
    proof {
        let whole = s@.subrange(from as int, to as int);
        assert(strip_leading(whole, CharClass::Blank) =~= s@.subrange(a as int, to as int));
        assert(s@.subrange(a as int, to as int).take(b - a) =~= s@.subrange(a as int, b as int));
    }
    (a, b)
}

/// The lower-case form of an ASCII capital letter; any other character
/// unchanged.
pub open spec fn lower(c: char) -> char {
    if 'A' <= c && c <= 'Z' {
        ((c as u8 + 32) as u8) as char
    } else {
        c
    }
}

/// The lower-case form of an ASCII capital letter; any other character
/// unchanged.
pub fn to_lower(c: char) -> (r: char)
    ensures
        r == lower(c),
{
    if 'A' <= c && c <= 'Z' {
        (c as u8 + 32u8) as char
    } else {
        c
    }
}

/// `s` with each character in lower case.
pub open spec fn lowered(s: Seq<char>) -> Seq<char> {
    Seq::new(s.len(), |i: int| lower(s[i]))
}

} // verus!
