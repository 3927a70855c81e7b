//! Lines of a text: where the first line ends, the lines without their
//! terminators, and the text that joins them again with `\n`.
use vstd::prelude::*;
use crate::text::push_range;

verus! {

/// The length of the first line of `s`, its `\n` included: up to and
/// including the first `\n`, or all of `s` where it holds none.
pub open spec fn line_end(s: Seq<char>) -> nat
    decreases s.len(),
{
    if s.len() == 0 {
        0
    } else if s[0] == '\n' {
        1
    } else {
        1 + line_end(s.drop_first())
    }
}

/// The first line of `s`, with its terminator where it has one.
pub open spec fn first_line(s: Seq<char>) -> Seq<char> {
    s.take(line_end(s) as int)
}

/// What follows the first line of `s`.
pub open spec fn after_first_line(s: Seq<char>) -> Seq<char> {
    s.skip(line_end(s) as int)
}

/// A line without its terminator: a final `\n` is removed, and with it a
/// `\r` that stands directly before it.
pub open spec fn chomp(line: Seq<char>) -> Seq<char> {
    if line.len() > 0 && line.last() == '\n' {
        let cut = line.drop_last();
        if cut.len() > 0 && cut.last() == '\r' {
            cut.drop_last()
        } else {
            cut
        }
    } else {
        line
    }
}

/// The lines of `s`, each without its terminator. The empty text has no
/// line; a text that ends in `\n` has no empty line after it.
pub open spec fn lines(s: Seq<char>) -> Seq<Seq<char>>
    decreases s.len(),
    via lines_decreases
{
    if s.len() == 0 {
        Seq::empty()
    } else {
        seq![chomp(first_line(s))] + lines(after_first_line(s))
    }
}

#[via_fn]
proof fn lines_decreases(s: Seq<char>) {
    if s.len() > 0 {
        lemma_line_end_bounds(s);
    }
}

/// The lines joined by a single `\n`, with none after the last.
pub open spec fn join_lines(ls: Seq<Seq<char>>) -> Seq<char>
    decreases ls.len(),
{
    if ls.len() == 0 {
        Seq::empty()
    } else if ls.len() == 1 {
        ls[0]
    } else {
        join_lines(ls.drop_last()) + seq!['\n'] + ls.last()
    }
}

/// `s` with every line terminator replaced by `\n` and the last one removed.
pub open spec fn normalized(s: Seq<char>) -> Seq<char> {
    join_lines(lines(s))
}

/// A first line is not longer than the text, and not empty unless the text
/// is; where text follows it, it ends in `\n`.
pub proof fn lemma_line_end_bounds(s: Seq<char>)
    ensures
        line_end(s) <= s.len(),
        s.len() > 0 ==> line_end(s) > 0,
        line_end(s) < s.len() ==> s[line_end(s) - 1] == '\n',
    decreases s.len(),
{
    if s.len() > 0 && s[0] != '\n' {
        lemma_line_end_bounds(s.drop_first());
    }
}

/// The first line of a text that ends in `\n` stays its first line when
/// more text follows.
pub proof fn lemma_line_end_concat(t: Seq<char>, u: Seq<char>)
    requires
        t.len() > 0,
        t.last() == '\n',
    ensures
        line_end(t + u) == line_end(t),
    decreases t.len(),
{
    if t[0] != '\n' {
        assert(t.len() > 1);
        assert((t + u).drop_first() =~= t.drop_first() + u);
        lemma_line_end_concat(t.drop_first(), u);
    }
}

/// The first line of a text is a line by itself.
pub proof fn lemma_first_line_is_line(s: Seq<char>)
    ensures
        line_end(first_line(s)) == line_end(s),
    decreases s.len(),
{
    lemma_line_end_bounds(s);
    if s.len() > 0 && s[0] != '\n' {
        lemma_first_line_is_line(s.drop_first());
        lemma_line_end_bounds(s.drop_first());
        assert(first_line(s).drop_first() =~= first_line(s.drop_first()));
    }
}

/// The lines of two texts, the first of which ends in `\n` or is empty, are
/// the lines of the first and then those of the second.
pub proof fn lemma_lines_concat(t: Seq<char>, u: Seq<char>)
    requires
        t.len() == 0 || t.last() == '\n',
    ensures
        lines(t + u) =~= lines(t) + lines(u),
    decreases t.len(),
{
    if t.len() == 0 {
        assert(t + u =~= u);
    } else {
        lemma_line_end_concat(t, u);
        lemma_line_end_bounds(t);
        assert(first_line(t + u) =~= first_line(t));
        assert(after_first_line(t + u) =~= after_first_line(t) + u);
        lemma_lines_concat(after_first_line(t), u);
    }
}

/// A text that is one line has that line, without its terminator, as its
/// only line.
pub proof fn lemma_lines_single(u: Seq<char>)
    requires
        u.len() > 0,
        line_end(u) == u.len(),
    ensures
        lines(u) =~= seq![chomp(u)],
{
    assert(first_line(u) =~= u);
    assert(after_first_line(u).len() == 0);
    assert(lines(after_first_line(u)) =~= Seq::<Seq<char>>::empty());
}

/// Joining a first line with further lines puts the first line in front,
/// and `\n` after it where more lines follow.
pub proof fn lemma_join_first(a: Seq<char>, rest: Seq<Seq<char>>)
    ensures
        join_lines(seq![a] + rest) =~= if rest.len() == 0 {
            a
        } else {
            a + seq!['\n'] + join_lines(rest)
        },
    decreases rest.len(),
{
    let whole = seq![a] + rest;
    if rest.len() > 0 {
        assert(whole.drop_last() =~= seq![a] + rest.drop_last());
        lemma_join_first(a, rest.drop_last());
    }
}

/// A text that has no `\n` but at its end is one line.
pub proof fn lemma_line_end_whole(s: Seq<char>)
    requires
        s.len() > 0,
        s.last() == '\n',
        forall|i: int| 0 <= i < s.len() - 1 ==> s[i] != '\n',
    ensures
        line_end(s) == s.len(),
    decreases s.len(),
{
    if s.len() > 1 {
        lemma_line_end_whole(s.drop_first());
    }
}

/// The index just past the first line of `s[from..]`.
pub fn find_line_end(s: &Vec<char>, from: usize) -> (e: usize)
    requires
        from <= s.len(),
    ensures
        from <= e <= s.len(),
        e == from + line_end(s@.skip(from as int)),
{
    let mut i: usize = from;
    while i < s.len()
        invariant
            from <= i <= s.len(),
            line_end(s@.skip(from as int)) == (i - from) + line_end(s@.skip(i as int)),
        decreases s.len() - i,
    {
        assert(s@.skip(i as int).drop_first() =~= s@.skip(i as int + 1));
        if s[i] == '\n' {
            return i + 1;
        }
        i += 1;
    }
    i
}

/// Appends to `out` the lines of `s[from..]`, joined by `\n`.
pub fn push_normalized(out: &mut Vec<char>, s: &Vec<char>, from: usize)
    requires
        from <= s.len(),
    ensures
        final(out)@ == old(out)@ + normalized(s@.skip(from as int)),
{
    let mut pos: usize = from;
    while pos < s.len()
        invariant
            from <= pos <= s.len(),
            pos == from || pos == s.len() || s[pos - 1] == '\n',
            out@ == old(out)@ + normalized(s@.subrange(from as int, pos as int)),
            pos == from ==> out@ == old(out)@,
        decreases s.len() - pos,
    {
        let end = find_line_end(s, pos);
        let ghost done = s@.subrange(from as int, pos as int);
        let ghost line = s@.subrange(pos as int, end as int);
        proof {
            let rest = s@.skip(pos as int);
            lemma_line_end_bounds(rest);
            lemma_first_line_is_line(rest);
            assert(first_line(rest) =~= line);
            lemma_lines_single(line);
            lemma_lines_concat(done, line);
            assert(done + line =~= s@.subrange(from as int, end as int));
            assert(lines(done + line).drop_last() =~= lines(done));
        }
        let mut stop: usize = end;
        if s[end - 1] == '\n' {
            stop = end - 1;
            if stop > pos && s[stop - 1] == '\r' {
                stop = stop - 1;
            }
        }
        assert(s@.subrange(pos as int, stop as int) =~= chomp(line));
        if pos > from {
            out.push('\n');
        }
        push_range(out, s, pos, stop);
        proof {
            if pos == from {
                assert(lines(done) =~= Seq::<Seq<char>>::empty());
                assert(out@ =~= old(out)@ + chomp(line));
            } else {
                assert(done.len() > 0);
                assert(lines(done).len() > 0);
                assert(out@ =~= old(out)@ + (normalized(done) + seq!['\n'] + chomp(line)));
            }
        }
        pos = end;
    }
    assert(s@.subrange(from as int, s@.len() as int) =~= s@.skip(from as int));
}

} // verus!
