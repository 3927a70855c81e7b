//! The path comment of a file: the line that names the file, whether a text
//! already begins with it, and the text rewritten to begin with it.
use vstd::prelude::*;
use crate::lines::{
    after_first_line, chomp, find_line_end, first_line, join_lines, lemma_join_first,
    lemma_line_end_bounds, lemma_line_end_concat, lemma_line_end_whole, lines, normalized,
    push_normalized,
};
use crate::path::{
    base_name, extension, extension_chars, lemma_base_name_and_extension, relative_path,
    relative_start,
};
use crate::style::{
    default_prefix, known_prefix, lemma_empty_extension_is_unknown,
    lemma_prefix_is_slashes_or_hash, lookup, prefix_for,
};
use crate::text::{
    chars_of, is_blank, leading, lemma_trailing_bound, push_range, same_range, string_of,
    strip_leading, trim_bounds, trimmed, CharClass,
};

verus! {

/// The comment line of the file `path` seen from `root`: the prefix for the
/// file's extension, one space, the relative path, and `\n`.
pub open spec fn comment_text(root: Seq<char>, path: Seq<char>) -> Seq<char> {
    prefix_for(extension(path)) + seq![' '] + relative_path(root, path) + seq!['\n']
}

/// Whether `content` already begins with `comment`: its first line and the
/// comment are equal once white space is removed from the ends of both.
pub open spec fn already_present(comment: Seq<char>, content: Seq<char>) -> bool {
    trimmed(first_line(content)) == trimmed(comment)
}

/// The text that replaces `content`: the comment, then the lines that
/// follow the first line of `content`, joined by `\n`.
pub open spec fn rewritten(comment: Seq<char>, content: Seq<char>) -> Seq<char> {
    comment + normalized(after_first_line(content))
}

/// What is to be written to the file `path`, if anything. `content` is the
/// text of the file, or `None` where `path` names no regular file.
pub open spec fn annotated(root: Seq<char>, path: Seq<char>, content: Option<Seq<char>>) -> Option<
    Seq<char>,
> {
    match content {
        None => None,
        Some(text) => {
            let comment = comment_text(root, path);
            if already_present(comment, text) {
                None
            } else {
                Some(rewritten(comment, text))
            }
        },
    }
}

/// The characters of an optional text.
pub open spec fn view_of(content: Option<&str>) -> Option<Seq<char>> {
    match content {
        None => None,
        Some(text) => Some(text@),
    }
}

/// What was found out about one file: its comment line, and whether the
/// file already begins with it.
#[derive(Clone, Debug)]
pub struct AnnotationDecision {
    pub comment_text: String,
    pub already_present: bool,
}

/// The comment line of `path` seen from `root`.
pub fn comment_chars(root: &Vec<char>, path: &Vec<char>) -> (out: Vec<char>)
    ensures
        out@ == comment_text(root@, path@),
{
    let ext = extension_chars(path);
    let prefix = match lookup(&ext) {
        Some(p) => p,
        None => "#",
    };
    let mut out = chars_of(prefix);
    out.push(' ');
    let start = relative_start(root, path);
    push_range(&mut out, path, start, path.len());
    out.push('\n');
    assert(path@.subrange(start as int, path.len() as int) =~= path@.skip(start as int));
    out
}

/// Whether `content` already begins with `comment`.
pub fn begins_with_comment(comment: &Vec<char>, content: &Vec<char>) -> (r: bool)
    ensures
        r == already_present(comment@, content@),
{
    let end = find_line_end(content, 0);
    let (a, b) = trim_bounds(content, 0, end);
    let (c, d) = trim_bounds(comment, 0, comment.len());
    proof {
        assert(content@.skip(0) =~= content@);
        assert(content@.subrange(0, end as int) =~= first_line(content@));
        assert(comment@.subrange(0, comment.len() as int) =~= comment@);
    }
    same_range(content, a, b, comment, c, d)
}

/// The text that replaces `content`.
pub fn rewrite_chars(comment: &Vec<char>, content: &Vec<char>) -> (out: Vec<char>)
    ensures
        out@ == rewritten(comment@, content@),
{
    let mut out: Vec<char> = Vec::new();
    push_range(&mut out, comment, 0, comment.len());
    let end = find_line_end(content, 0);
    push_normalized(&mut out, content, end);
    proof {
        assert(content@.skip(0) =~= content@);
        assert(comment@.subrange(0, comment.len() as int) =~= comment@);
        assert(out@ =~= rewritten(comment@, content@));
    }
    out
}

/// The comment line of the file `path` seen from the directory `root`: the
/// prefix for the file's extension, one space, the path relative to `root`,
/// and `\n`.
pub fn comment_line(root: &str, path: &str) -> (line: String)
    ensures
        line@ == comment_text(root@, path@),
        line@ == prefix_for(extension(path@)) + seq![' '] + relative_path(root@, path@) + seq![
            '\n',
        ],
{
    let r = chars_of(root);
    let p = chars_of(path);
    let out = comment_chars(&r, &p);
    string_of(&out)
}

/// The comment line of `path`, and whether `content` already begins with
/// it.
pub fn decide(root: &str, path: &str, content: &str) -> (d: AnnotationDecision)
    ensures
        d.comment_text@ == comment_text(root@, path@),
        d.already_present == already_present(comment_text(root@, path@), content@),
{
    let r = chars_of(root);
    let p = chars_of(path);
    let text = chars_of(content);
    let comment = comment_chars(&r, &p);
    let present = begins_with_comment(&comment, &text);
    AnnotationDecision { comment_text: string_of(&comment), already_present: present }
}

/// `content` rewritten to begin with `comment`: the comment, then the lines
/// after the first line of `content`, joined by `\n`.
pub fn rewrite(comment: &str, content: &str) -> (out: String)
    ensures
        out@ == rewritten(comment@, content@),
{
    let c = chars_of(comment);
    let text = chars_of(content);
    let out = rewrite_chars(&c, &text);
    string_of(&out)
}

/// Decides what is to be written to the file `path`. `content` is the text
/// of the file, or `None` where `path` names no regular file. The result is
/// `None` where nothing is to be written: there is no regular file, or the
/// file already begins with its comment line. Otherwise it is the text to
/// write in place of the whole file.
pub fn annotate(root: &str, path: &str, content: Option<&str>) -> (out: Option<String>)
    ensures
        match out {
            Some(text) => annotated(root@, path@, view_of(content)) == Some(text@),
            None => annotated(root@, path@, view_of(content)) is None,
        },
        content is None ==> out is None,
        content is Some ==> (out is None <==> already_present(
            comment_text(root@, path@),
            content->0@,
        )),
        content is Some && out is Some ==> out->0@ == rewritten(
            comment_text(root@, path@),
            content->0@,
        ),
{
    match content {
        None => None,
        Some(text) => {
            let r = chars_of(root);
            let p = chars_of(path);
            let t = chars_of(text);
            let comment = comment_chars(&r, &p);
            if begins_with_comment(&comment, &t) {
                None
            } else {
                let out = rewrite_chars(&comment, &t);
                Some(string_of(&out))
            }
        },
    }
}

/// Whether the comment line of `path` is read back as it was written: its
/// first line and the whole of it are equal once white space is removed
/// from the ends of both. It is not where the relative path holds a `\n`
/// with more than white space after it.
pub open spec fn comment_reads_back(root: Seq<char>, path: Seq<char>) -> bool {
    already_present(comment_text(root, path), comment_text(root, path))
}

/// The text of a file after one pass over it: the rewritten text, or the
/// text as it was where nothing is written.
pub open spec fn after_pass(root: Seq<char>, path: Seq<char>, content: Seq<char>) -> Seq<char> {
    match annotated(root, path, Some(content)) {
        Some(text) => text,
        None => content,
    }
}

/// Whether `content` has no line, or one empty line and no other.
pub open spec fn is_blank_text(content: Seq<char>) -> bool {
    lines(content).len() == 0 || (lines(content).len() == 1 && lines(content)[0].len() == 0)
}

/// Where there is no regular file, nothing is written.
pub proof fn lemma_no_file_no_write(root: Seq<char>, path: Seq<char>)
    ensures
        annotated(root, path, None) is None,
{
}

/// The comment line begins with the prefix that the table gives for the
/// file's extension, or with `#` where the table does not hold the
/// extension; a space follows the prefix.
pub proof fn lemma_comment_begins_with_prefix(root: Seq<char>, path: Seq<char>)
    ensures
        ({
            let comment = comment_text(root, path);
            let prefix = match known_prefix(extension(path)) {
                Some(p) => p,
                None => default_prefix(),
            };
            &&& prefix.len() < comment.len()
            &&& comment.take(prefix.len() as int) == prefix
            &&& comment[prefix.len() as int] == ' '
        }),
{
    let comment = comment_text(root, path);
    let prefix = prefix_for(extension(path));
    assert(comment.take(prefix.len() as int) =~= prefix);
}

/// The comment line of a file whose base name holds no `.` begins with `#`
/// and a space.
pub proof fn lemma_missing_extension_gives_hash(root: Seq<char>, path: Seq<char>)
    requires
        !base_name(path).contains('.'),
    ensures
        comment_text(root, path) == seq!['#', ' '] + relative_path(root, path) + seq!['\n'],
{
    lemma_base_name_and_extension(path);
    assert(extension(path) =~= Seq::empty());
    lemma_empty_extension_is_unknown();
    reveal_strlit("#");
    assert("#"@ =~= seq!['#']);
    assert(comment_text(root, path) =~= seq!['#', ' '] + relative_path(root, path) + seq!['\n']);
}

/// The comment line does not trim to nothing: it begins with its prefix.
pub proof fn lemma_comment_not_blank(root: Seq<char>, path: Seq<char>)
    ensures
        trimmed(comment_text(root, path)).len() > 0,
{
    let comment = comment_text(root, path);
    lemma_prefix_is_slashes_or_hash(extension(path));
    assert(!is_blank(comment[0]));
    assert(leading(comment, CharClass::Blank) == 0);
    assert(strip_leading(comment, CharClass::Blank) =~= comment);
    lemma_trailing_bound(comment, CharClass::Blank);
}

/// An empty file is always rewritten, and to its comment line alone.
pub proof fn lemma_empty_file_is_rewritten(root: Seq<char>, path: Seq<char>)
    ensures
        annotated(root, path, Some(Seq::empty())) == Some(comment_text(root, path)),
{
    let empty = Seq::<char>::empty();
    lemma_comment_not_blank(root, path);
    assert(first_line(empty) =~= empty);
    assert(trimmed(empty) =~= empty);
    assert(after_first_line(empty) =~= empty);
    assert(rewritten(comment_text(root, path), empty) =~= comment_text(root, path));
}

/// A rewritten text begins with the comment line as its first line.
pub proof fn lemma_rewritten_first_line(comment: Seq<char>, content: Seq<char>)
    requires
        comment.len() > 0,
        comment.last() == '\n',
    ensures
        first_line(rewritten(comment, content)) == first_line(comment),
{
    let tail = normalized(after_first_line(content));
    lemma_line_end_concat(comment, tail);
    lemma_line_end_bounds(comment);
    assert(first_line(comment + tail) =~= first_line(comment));
}

/// After a file was rewritten, a second pass writes nothing if and only if
/// the comment line is read back as it was written.
pub proof fn lemma_second_pass(root: Seq<char>, path: Seq<char>, content: Seq<char>)
    requires
        annotated(root, path, Some(content)) is Some,
    ensures
        annotated(root, path, Some(after_pass(root, path, content))) is None <==> comment_reads_back(
            root,
            path,
        ),
{
    lemma_rewritten_first_line(comment_text(root, path), content);
}

/// A comment line whose relative path holds no `\n` is read back as it was
/// written.
pub proof fn lemma_one_line_reads_back(root: Seq<char>, path: Seq<char>)
    requires
        !relative_path(root, path).contains('\n'),
    ensures
        comment_reads_back(root, path),
{
    let comment = comment_text(root, path);
    let prefix = prefix_for(extension(path));
    let rel = relative_path(root, path);
    lemma_prefix_is_slashes_or_hash(extension(path));
    assert forall|i: int| 0 <= i < comment.len() - 1 implies comment[i] != '\n' by {
        if i > prefix.len() {
            assert(comment[i] == rel[i - prefix.len() - 1]);
            assert(rel.contains(rel[i - prefix.len() - 1]));
        }
    }
    lemma_line_end_whole(comment);
    assert(first_line(comment) =~= comment);
}

/// Annotating is idempotent: where the relative path holds no `\n`, a
/// second pass over a file writes nothing, whether the first pass rewrote
/// the file or not, and so leaves the text as the first pass left it.
pub proof fn lemma_annotate_idempotent(root: Seq<char>, path: Seq<char>, content: Seq<char>)
    requires
        !relative_path(root, path).contains('\n'),
    ensures
        annotated(root, path, Some(after_pass(root, path, content))) is None,
        after_pass(root, path, after_pass(root, path, content)) == after_pass(root, path, content),
{
    if annotated(root, path, Some(content)) is Some {
        lemma_one_line_reads_back(root, path);
        lemma_second_pass(root, path, content);
    }
}

/// A rewritten text is the comment line and then the lines of the old text
/// but the first, in their order, joined by `\n`.
pub proof fn lemma_rewrite_keeps_later_lines(comment: Seq<char>, content: Seq<char>)
    ensures
        content.len() == 0 ==> rewritten(comment, content) == comment,
        content.len() > 0 ==> lines(content).len() > 0 && rewritten(comment, content) == comment
            + join_lines(lines(content).drop_first()),
{
    if content.len() == 0 {
        assert(after_first_line(content) =~= content);
        assert(rewritten(comment, content) =~= comment);
    } else {
        assert(lines(content).drop_first() =~= lines(after_first_line(content)));
    }
}

/// A rewritten text is the comment line and then all the lines of the old
/// text, joined by `\n`, if and only if the old text has no line or one
/// empty line: the first line of any other text is not kept.
pub proof fn lemma_rewrite_keeps_blank_text(comment: Seq<char>, content: Seq<char>)
    ensures
        rewritten(comment, content) == comment + normalized(content) <==> is_blank_text(content),
{
    let kept = normalized(after_first_line(content));
    let all = normalized(content);
    assert((comment + kept).skip(comment.len() as int) =~= kept);
    assert((comment + all).skip(comment.len() as int) =~= all);
    if content.len() == 0 {
        assert(after_first_line(content) =~= content);
    } else {
        let head = chomp(first_line(content));
        let rest = lines(after_first_line(content));
        lemma_join_first(head, rest);
        if rest.len() == 0 {
            assert(lines(content) =~= seq![head]);
            if head.len() == 0 {
                assert(all =~= kept);
            }
        } else {
            assert(all.len() == head.len() + 1 + kept.len());
        }
    }
}

} // verus!
