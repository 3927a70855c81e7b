//! The comment prefix of each known file extension.
use vstd::prelude::*;
use crate::text::{chars_of, same_range};

verus! {

/// The prefix of a file whose extension the table does not hold.
pub open spec fn default_prefix() -> Seq<char> {
    "#"@
}

/// The table: the comment prefix of each known extension. The extensions
/// are in lower case.
pub open spec fn known_prefix(ext: Seq<char>) -> Option<Seq<char>> {
    if ext == "rs"@ {
        Some("//"@)
    } else if ext == "py"@ {
        Some("#"@)
    } else if ext == "sh"@ {
        Some("#"@)
    } else if ext == "c"@ {
        Some("//"@)
    } else if ext == "cpp"@ {
        Some("//"@)
    } else if ext == "js"@ {
        Some("//"@)
    } else if ext == "ts"@ {
        Some("//"@)
    } else if ext == "java"@ {
        Some("//"@)
    } else if ext == "yaml"@ {
        Some("#"@)
    } else if ext == "yml"@ {
        Some("#"@)
    } else {
        None
    }
}

/// The comment prefix for an extension: that of the table, or `#` for an
/// extension that the table does not hold.
pub open spec fn prefix_for(ext: Seq<char>) -> Seq<char> {
    match known_prefix(ext) {
        Some(p) => p,
        None => default_prefix(),
    }
}

/// Whether `v` holds the characters of `text`.
pub fn is_text(v: &Vec<char>, text: &str) -> (r: bool)
    ensures
        r == (v@ == text@),
{
    let t = chars_of(text);
    proof {
        assert(v@.subrange(0, v@.len() as int) =~= v@);
        assert(t@.subrange(0, t@.len() as int) =~= t@);
    }
    same_range(v, 0, v.len(), &t, 0, t.len())
}

/// Looks `ext` up in the table.
pub fn lookup(ext: &Vec<char>) -> (r: Option<&'static str>)
    ensures
        match r {
            Some(p) => known_prefix(ext@) == Some(p@),
            None => known_prefix(ext@) is None,
        },
{
    if is_text(ext, "rs") {
        Some("//")
    } else if is_text(ext, "py") {
        Some("#")
    } else if is_text(ext, "sh") {
        Some("#")
    } else if is_text(ext, "c") {
        Some("//")
    } else if is_text(ext, "cpp") {
        Some("//")
    } else if is_text(ext, "js") {
        Some("//")
    } else if is_text(ext, "ts") {
        Some("//")
    } else if is_text(ext, "java") {
        Some("//")
    } else if is_text(ext, "yaml") {
        Some("#")
    } else if is_text(ext, "yml") {
        Some("#")
    } else {
        None
    }
}

/// The comment prefix for the extension `ext`, which is looked up as it is
/// written: that of the table, or `#`.
pub fn comment_prefix(ext: &str) -> (prefix: &'static str)
    ensures
        prefix@ == prefix_for(ext@),
{
    let chars = chars_of(ext);
    match lookup(&chars) {
        Some(p) => p,
        None => "#",
    }
}

/// The table holds no empty extension: a file without an extension has the
/// prefix `#`.
pub proof fn lemma_empty_extension_is_unknown()
    ensures
        known_prefix(Seq::empty()) is None,
        prefix_for(Seq::empty()) == default_prefix(),
{
    reveal_strlit("rs");
    reveal_strlit("py");
    reveal_strlit("sh");
    reveal_strlit("c");
    reveal_strlit("cpp");
    reveal_strlit("js");
    reveal_strlit("ts");
    reveal_strlit("java");
    reveal_strlit("yaml");
    reveal_strlit("yml");
    let empty = Seq::<char>::empty();
    assert("rs"@.len() != empty.len());
    assert("py"@.len() != empty.len());
    assert("sh"@.len() != empty.len());
    assert("c"@.len() != empty.len());
    assert("cpp"@.len() != empty.len());
    assert("js"@.len() != empty.len());
    assert("ts"@.len() != empty.len());
    assert("java"@.len() != empty.len());
    assert("yaml"@.len() != empty.len());
    assert("yml"@.len() != empty.len());
}

/// A comment prefix is `//` or `#`, whatever the extension.
pub proof fn lemma_prefix_is_slashes_or_hash(ext: Seq<char>)
    ensures
        prefix_for(ext) == seq!['/', '/'] || prefix_for(ext) == seq!['#'],
{
    reveal_strlit("//");
    reveal_strlit("#");
    assert("//"@ =~= seq!['/', '/']);
    assert("#"@ =~= seq!['#']);
}

} // verus!
