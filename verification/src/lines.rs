//! Splitting input text into lines and joining lines back into text.
//!
//! A newline is a separator, not part of a line: splitting drops a final
//! empty segment (so text with and without a trailing newline yields the
//! same lines), and joining emits every line followed by one newline.

use vstd::prelude::*;

use crate::scan::views_of;

verus! {

/// True when no character of `s` is a newline.
pub open spec fn no_newline(s: Seq<char>) -> bool {
    forall|i: int| 0 <= i < s.len() ==> s[i] != '\n'
}

/// True when every line of `lines` is free of newlines.
pub open spec fn all_no_newline(lines: Seq<Seq<char>>) -> bool {
    forall|i: int| 0 <= i < lines.len() ==> no_newline(#[trigger] lines[i])
}

/// The lines of `s`: maximal newline-free segments, where a final segment is
/// kept only when it is nonempty.
pub open spec fn split_lines_spec(s: Seq<char>) -> Seq<Seq<char>>
    decreases s.len(),
{
    if s.len() == 0 {
        Seq::empty()
    } else if s.first() == '\n' {
        seq![Seq::<char>::empty()] + split_lines_spec(s.drop_first())
    } else {
        let rest = split_lines_spec(s.drop_first());
        if rest.len() == 0 {
            seq![seq![s.first()]]
        } else {
            seq![seq![s.first()] + rest.first()] + rest.drop_first()
        }
    }
}

/// Every line followed by one newline.
pub open spec fn join_lines_spec(lines: Seq<Seq<char>>) -> Seq<char>
    decreases lines.len(),
{
    if lines.len() == 0 {
        Seq::empty()
    } else {
        lines.first().push('\n') + join_lines_spec(lines.drop_first())
    }
}

/// No line produced by splitting contains a newline.
pub proof fn lemma_split_no_newline(s: Seq<char>)
    ensures
        all_no_newline(split_lines_spec(s)),
    decreases s.len(),
{
    if s.len() == 0 {
    } else if s.first() == '\n' {
        lemma_split_no_newline(s.drop_first());
        let r = split_lines_spec(s);
        assert forall|i: int| 0 <= i < r.len() implies no_newline(#[trigger] r[i]) by {
            if i > 0 {
                assert(r[i] == split_lines_spec(s.drop_first())[i - 1]);
            }
        }
    } else {
        lemma_split_no_newline(s.drop_first());
        let rest = split_lines_spec(s.drop_first());
        let r = split_lines_spec(s);
        if rest.len() == 0 {
            assert forall|i: int| 0 <= i < r.len() implies no_newline(#[trigger] r[i]) by {
                assert(r[i] =~= seq![s.first()]);
            }
        } else {
            assert forall|i: int| 0 <= i < r.len() implies no_newline(#[trigger] r[i]) by {
                if i == 0 {
                    assert(no_newline(rest[0]));
                    assert(r[0] == seq![s.first()] + rest.first());
                } else {
                    assert(r[i] == rest[i]);
                }
            }
        }
    }
}

/// Splitting text that starts with a newline-free line, a newline, and a
/// tail yields that line followed by the split of the tail.
pub proof fn lemma_split_line_prefix(m: Seq<char>, t: Seq<char>)
    requires
        no_newline(m),
    ensures
        split_lines_spec(m + seq!['\n'] + t) == seq![m] + split_lines_spec(t),
    decreases m.len(),
{
    let s = m + seq!['\n'] + t;
    if m.len() == 0 {
        assert(s =~= seq!['\n'] + t);
        assert(s.first() == '\n');
        assert(s.drop_first() =~= t);
        assert(m =~= Seq::<char>::empty());
        assert(split_lines_spec(s) == seq![m] + split_lines_spec(t));
    } else {
        assert(s.first() == m.first());
        assert(s.drop_first() =~= m.drop_first() + seq!['\n'] + t);
        lemma_split_line_prefix(m.drop_first(), t);
        let rest = split_lines_spec(s.drop_first());
        assert(rest == seq![m.drop_first()] + split_lines_spec(t));
        assert(rest.len() > 0);
        assert(rest.first() == m.drop_first());
        assert(rest.drop_first() =~= split_lines_spec(t));
        assert(seq![s.first()] + rest.first() =~= m);
        assert(split_lines_spec(s) =~= seq![m] + split_lines_spec(t));
    }
}

/// Splitting a nonempty newline-free text yields that one line.
pub proof fn lemma_split_single(m: Seq<char>)
    requires
        no_newline(m),
        m.len() > 0,
    ensures
        split_lines_spec(m) == seq![m],
    decreases m.len(),
{
    if m.len() == 1 {
        assert(split_lines_spec(m.drop_first()) =~= Seq::<Seq<char>>::empty());
        assert(split_lines_spec(m) =~= seq![seq![m.first()]]);
        assert(seq![m.first()] =~= m);
    } else {
        lemma_split_single(m.drop_first());
        let rest = split_lines_spec(m.drop_first());
        assert(rest.first() == m.drop_first());
        assert(seq![m.first()] + rest.first() =~= m);
        assert(rest.drop_first() =~= Seq::<Seq<char>>::empty());
        assert(split_lines_spec(m) =~= seq![m]);
    }
}

/// Splitting undoes joining, for lines that are free of newlines.
pub proof fn lemma_split_join(lines: Seq<Seq<char>>)
    requires
        all_no_newline(lines),
    ensures
        split_lines_spec(join_lines_spec(lines)) == lines,
    decreases lines.len(),
{
    if lines.len() == 0 {
    } else {
        let first = lines.first();
        let tail = lines.drop_first();
        assert(all_no_newline(tail)) by {
            assert(forall|i: int|
                0 <= i < tail.len() ==> #[trigger] tail[i] == lines[i + 1]);
        }
        lemma_split_join(tail);
        assert(no_newline(first)) by {
            assert(lines[0] == first);
        }
        assert(first.push('\n') + join_lines_spec(tail)
            =~= first + seq!['\n'] + join_lines_spec(tail));
        lemma_split_line_prefix(first, join_lines_spec(tail));
        assert(seq![first] + tail =~= lines);
    }
}

/// Split a string into its lines.
pub fn split_lines(s: &str) -> (r: Vec<String>)
    ensures
        views_of(r@) == split_lines_spec(s@),
{
    let n = s.unicode_len();
    let mut lines: Vec<String> = Vec::new();
    let mut start: usize = 0;
    let mut i: usize = 0;
    proof {
        assert(views_of(lines@) =~= Seq::<Seq<char>>::empty());
        assert(s@.skip(0) =~= s@);
        assert(views_of(lines@) + split_lines_spec(s@.skip(0)) =~= split_lines_spec(s@));
    }
    while i < n
        invariant
            start <= i <= n,
            n == s@.len(),
            views_of(lines@) + split_lines_spec(s@.skip(start as int)) == split_lines_spec(s@),
            forall|j: int| start <= j < i ==> s@[j] != '\n',
        decreases n - i,
    {
        if s.get_char(i) == '\n' {
            let line = s.substring_char(start, i);
            let ghost old_lines = lines@;
            lines.push(line.to_owned());
            proof {
                let seg = s@.subrange(start as int, i as int);
                assert(s@.skip(start as int) =~= seg + seq!['\n'] + s@.skip(i as int + 1));
                lemma_split_line_prefix(seg, s@.skip(i as int + 1));
                assert(views_of(lines@) =~= views_of(old_lines) + seq![seg]);
                assert(views_of(lines@) + split_lines_spec(s@.skip(i as int + 1))
                    =~= views_of(old_lines) + split_lines_spec(s@.skip(start as int)));
            }
            start = i + 1;
        }
        i += 1;
    }
    if start < n {
        let line = s.substring_char(start, n);
        let ghost old_lines = lines@;
        lines.push(line.to_owned());
        proof {
            let seg = s@.subrange(start as int, n as int);
            assert(seg =~= s@.skip(start as int));
            lemma_split_single(seg);
            assert(views_of(lines@) =~= views_of(old_lines) + seq![seg]);
        }
    } else {
        proof {
            assert(s@.skip(start as int) =~= Seq::<char>::empty());
            assert(views_of(lines@) + split_lines_spec(s@.skip(start as int)) =~= views_of(lines@));
        }
    }
    lines
}

/// Join lines back into one string, one newline after every line.
pub fn join_lines(lines: &Vec<String>) -> (r: String)
    ensures
        r@ == join_lines_spec(views_of(lines@)),
{
    let ghost g = views_of(lines@);
    let mut out = String::new();
    let mut i: usize = 0;
    proof {
        assert(g.skip(0) =~= g);
    }
    while i < lines.len()
        invariant
            i <= lines.len(),
            g == views_of(lines@),
            out@ + join_lines_spec(g.skip(i as int)) == join_lines_spec(g),
        decreases lines.len() - i,
    {
        out.append(lines[i].as_str());
        out.append("\n");
        proof {
            reveal_strlit("\n");
            assert(g.skip(i as int).first() == lines@[i as int]@);
            assert(g.skip(i as int).drop_first() =~= g.skip(i as int + 1));
            assert("\n"@ =~= seq!['\n']);
            assert(lines@[i as int]@.push('\n') =~= lines@[i as int]@ + "\n"@);
            assert(out@ + join_lines_spec(g.skip(i as int + 1)) =~= join_lines_spec(g));
        }
        i += 1;
    }
    proof {
        assert(g.skip(lines@.len() as int) =~= Seq::<Seq<char>>::empty());
        assert(out@ =~= out@ + join_lines_spec(g.skip(lines@.len() as int)));
    }
    out
}

} // verus!
