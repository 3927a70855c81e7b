//! Paths as character sequences with `/` as the separator: the base name,
//! the extension, and the path relative to a root directory.
use vstd::prelude::*;
use crate::text::{
    chars_of, leading, lemma_leading_bound, lower, lowered, push_range, same_range, skip_leading,
    skip_trailing, string_of, strip_leading, strip_trailing, to_lower, CharClass,
};

verus! {

/// The index just past the last `c` in `s`, or 0 where `s` holds no `c`.
pub open spec fn after_last(s: Seq<char>, c: char) -> nat
    decreases s.len(),
{
    if s.len() == 0 {
        0
    } else if s.last() == c {
        s.len()
    } else {
        after_last(s.drop_last(), c)
    }
}

/// The base name of a path: what follows its last `/`, or the whole path
/// where it holds none.
pub open spec fn base_name(path: Seq<char>) -> Seq<char> {
    path.skip(after_last(path, '/') as int)
}

/// The extension of a path: what follows the last `.` of its base name, in
/// lower case; empty where the base name holds no `.`.
pub open spec fn extension(path: Seq<char>) -> Seq<char> {
    let base = base_name(path);
    let dot = after_last(base, '.');
    if dot == 0 {
        Seq::empty()
    } else {
        lowered(base.skip(dot as int))
    }
}

/// The root directory without the separators at its end.
pub open spec fn root_stem(root: Seq<char>) -> Seq<char> {
    strip_trailing(root, CharClass::Separator)
}

/// Whether `path` lies under `root` as the two are written: `root` is not
/// empty, `path` begins with `root` (separators at its end aside), and in
/// `path` a separator or nothing follows. Under a root made of separators
/// alone lie the paths that begin with a separator.
pub open spec fn is_under(root: Seq<char>, path: Seq<char>) -> bool {
    let stem = root_stem(root);
    &&& root.len() > 0
    &&& stem.len() <= path.len()
    &&& path.take(stem.len() as int) == stem
    &&& if path.len() == stem.len() {
        stem.len() > 0
    } else {
        path[stem.len() as int] == '/'
    }
}

/// The path as it is shown: without `root` and the separators after it
/// where it lies under `root`, unchanged where it does not.
pub open spec fn relative_path(root: Seq<char>, path: Seq<char>) -> Seq<char> {
    if is_under(root, path) {
        strip_leading(path.skip(root_stem(root).len() as int), CharClass::Separator)
    } else {
        path
    }
}

/// `after_last` is 0 exactly where `s` holds no `c`; otherwise a `c` stands
/// just before that index, and none at or after it.
pub proof fn lemma_after_last(s: Seq<char>, c: char)
    ensures
        after_last(s, c) <= s.len(),
        after_last(s, c) == 0 <==> !s.contains(c),
        after_last(s, c) > 0 ==> s[after_last(s, c) - 1] == c,
        forall|i: int| after_last(s, c) <= i < s.len() ==> #[trigger] s[i] != c,
    decreases s.len(),
{
    if s.len() > 0 {
        if s.last() == c {
            assert(s.contains(c));
        } else {
            let t = s.drop_last();
            lemma_after_last(t, c);
            if t.contains(c) {
                let i = choose|i: int| 0 <= i < t.len() && t[i] == c;
                assert(s[i] == c);
            }
            if s.contains(c) {
                let i = choose|i: int| 0 <= i < s.len() && s[i] == c;
                assert(t[i] == c);
            }
            assert forall|i: int| after_last(s, c) <= i < s.len() implies #[trigger] s[i] != c by {
                if i < t.len() {
                    assert(s[i] == t[i]);
                }
            }
        }
    }
}

/// A base name holds no separator, and an extension no `.`.
pub proof fn lemma_base_name_and_extension(path: Seq<char>)
    ensures
        !base_name(path).contains('/'),
        !extension(path).contains('.'),
        !base_name(path).contains('.') ==> extension(path).len() == 0,
{
    lemma_after_last(path, '/');
    let base = base_name(path);
    if base.contains('/') {
        let i = choose|i: int| 0 <= i < base.len() && base[i] == '/';
        assert(path[after_last(path, '/') + i] == '/');
    }
    lemma_after_last(base, '.');
    let ext = extension(path);
    if ext.contains('.') {
        let i = choose|i: int| 0 <= i < ext.len() && ext[i] == '.';
        assert(ext[i] == lower(base[after_last(base, '.') + i]));
    }
}

/// A path that lies under `root` is made of `root` without the separators
/// at its end, then separators, then the relative path, which begins with
/// no separator.
pub proof fn lemma_relative_path_under(root: Seq<char>, path: Seq<char>)
    requires
        is_under(root, path),
    ensures
        ({
            let stem = root_stem(root);
            let rel = relative_path(root, path);
            let gap = path.len() - stem.len() - rel.len();
            &&& gap >= 0
            &&& path == stem + Seq::new(gap as nat, |i: int| '/') + rel
            &&& rel.len() > 0 ==> rel[0] != '/'
        }),
{
    let stem = root_stem(root);
    let rest = path.skip(stem.len() as int);
    let rel = relative_path(root, path);
    lemma_leading_bound(rest, CharClass::Separator);
    let gap = path.len() - stem.len() - rel.len();
    assert(gap == leading(rest, CharClass::Separator));
    assert forall|j: int| stem.len() <= j < stem.len() + gap implies #[trigger] path[j] == '/' by {
        assert(CharClass::Separator.holds(rest[j - stem.len()]));
    }
    assert(path =~= stem + Seq::new(gap as nat, |i: int| '/') + rel);
}

/// A path that does not lie under `root` is shown as it is.
pub proof fn lemma_relative_path_elsewhere(root: Seq<char>, path: Seq<char>)
    requires
        !is_under(root, path),
    ensures
        relative_path(root, path) == path,
{
}

/// The index just past the last `c` in `s[from..to]`, or `from` where it
/// holds none.
pub fn find_after_last(s: &Vec<char>, from: usize, to: usize, c: char) -> (k: usize)
    requires
        from <= to <= s.len(),
    ensures
        from <= k <= to,
        k == from + after_last(s@.subrange(from as int, to as int), c),
{
    let mut j: usize = to;
    while j > from
        invariant
            from <= j <= to <= s.len(),
            after_last(s@.subrange(from as int, to as int), c) == after_last(
                s@.subrange(from as int, j as int),
                c,
            ),
        decreases j - from,
    {
        if s[j - 1] == c {
            return j;
        }
        assert(s@.subrange(from as int, j as int).drop_last() =~= s@.subrange(
            from as int,
            j as int - 1,
        ));
        j -= 1;
    }
    j
}

/// The extension of `path`, in lower case.
pub fn extension_chars(path: &Vec<char>) -> (ext: Vec<char>)
    ensures
        ext@ == extension(path@),
{
    let n = path.len();
    let base = find_after_last(path, 0, n, '/');
    let dot = find_after_last(path, base, n, '.');
    let mut ext: Vec<char> = Vec::new();
    proof {
        assert(path@.subrange(0, n as int) =~= path@);
        assert(path@.subrange(base as int, n as int) =~= base_name(path@));
    }
    if dot == base {
        return ext;
    }
    let ghost tail = path@.subrange(dot as int, n as int);
    assert(tail =~= base_name(path@).skip(dot - base));
    let mut i: usize = dot;
    while i < n
        invariant
            dot <= i <= n,
            n == path.len(),
            tail == path@.subrange(dot as int, n as int),
            ext@ =~= lowered(tail).take(i - dot),
        decreases n - i,
    {
        ext.push(to_lower(path[i]));
        i += 1;
    }
    assert(lowered(tail).take(n - dot) =~= lowered(tail));
    ext
}

/// The index in `path` at which its relative form begins.
pub fn relative_start(root: &Vec<char>, path: &Vec<char>) -> (k: usize)
    ensures
        k <= path.len(),
        path@.skip(k as int) == relative_path(root@, path@),
{
    let n = path.len();
    assert(path@.skip(0) =~= path@);
    if root.len() == 0 {
        return 0;
    }
    let stem = skip_trailing(root, 0, root.len(), CharClass::Separator);
    proof {
        assert(root@.subrange(0, root.len() as int) =~= root@);
        assert(root@.subrange(0, stem as int) =~= root_stem(root@));
    }
    if stem > n {
        return 0;
    }
    if !same_range(root, 0, stem, path, 0, stem) {
        return 0;
    }
    if n == stem {
        if stem == 0 {
            return 0;
        }
        proof {
            lemma_leading_bound(path@.skip(stem as int), CharClass::Separator);
            assert(path@.skip(n as int) =~= relative_path(root@, path@));
        }
        return n;
    }
    if path[stem] != '/' {
        return 0;
    }
    let k = skip_leading(path, stem, n, CharClass::Separator);
    proof {
        assert(path@.subrange(stem as int, n as int) =~= path@.skip(stem as int));
        assert(path@.skip(stem as int).skip(k - stem) =~= path@.skip(k as int));
    }
    k
}

/// The extension of `path`: what follows the last `.` of its base name, in
/// lower case; empty where the base name holds no `.`.
pub fn file_extension(path: &str) -> (ext: String)
    ensures
        ext@ == extension(path@),
{
    let chars = chars_of(path);
    let ext = extension_chars(&chars);
    string_of(&ext)
}

/// `path` without `root` in front where it lies under `root`, else `path`
/// unchanged.
pub fn relative_to(root: &str, path: &str) -> (rel: String)
    ensures
        rel@ == relative_path(root@, path@),
        is_under(root@, path@) ==> rel@ == strip_leading(
            path@.skip(root_stem(root@).len() as int),
            CharClass::Separator,
        ),
        !is_under(root@, path@) ==> rel@ == path@,
{
    let r = chars_of(root);
    let p = chars_of(path);
    let k = relative_start(&r, &p);
    let mut out: Vec<char> = Vec::new();
    push_range(&mut out, &p, k, p.len());
    assert(p@.subrange(k as int, p.len() as int) =~= p@.skip(k as int));
    string_of(&out)
}

} // verus!
