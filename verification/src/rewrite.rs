//! Default rewriter: inside an Install section, every `Default=` line gets
//! the canonical (lowest-numbered) profile's path as its value; every other
//! line passes through unchanged.  The canonical path is computed once, over
//! the unmodified input, before any line is rewritten.

use vstd::prelude::*;

use crate::RepairError;
use crate::lines::{
    all_no_newline, join_lines, join_lines_spec, lemma_split_join, lemma_split_no_newline,
    no_newline, split_lines, split_lines_spec,
};
use crate::locate::{
    first_path_in, has_malformed, has_profile, lemma_first_path_witness,
    lemma_section_end_bounds, lemma_winner_exists, lemma_winner_unique, locate_lowest_profile,
    locate_spec, malformed_at, num_at, result_matches, section_end, spec_path_line,
    spec_profile_form, spec_winner, valid_profile_at, winner_upto,
};
use crate::scan::{
    classify_line, is_header_line, spec_is_header, spec_kind_after, str_starts_with, views_of,
    SectionKind,
};

verus! {

/// A data line that assigns the section's default profile.
pub open spec fn spec_default_line(line: Seq<char>) -> bool {
    "Default="@.is_prefix_of(line)
}

/// Policy A on one line, given the section kind in effect before it: a
/// `Default=` data line of an Install section gets `path` as its new value,
/// any other line is kept.
pub open spec fn rewrite_line(line: Seq<char>, kind: SectionKind, path: Seq<char>) -> Seq<char> {
    if !spec_is_header(line) && kind is Install && spec_default_line(line) {
        "Default="@ + path
    } else {
        line
    }
}

/// Policy A on the whole line sequence: same length, line by line.
pub open spec fn rewrite_lines_spec(lines: Seq<Seq<char>>, path: Seq<char>) -> Seq<Seq<char>> {
    Seq::new(lines.len(), |i: int| rewrite_line(lines[i], spec_kind_after(lines.take(i)), path))
}

/// Policy A on the whole input text: locate the canonical profile path over
/// the unmodified input, then rewrite and re-join the lines.  Any locator
/// failure is the rewriter's failure.
pub open spec fn policy_a_spec(s: Seq<char>) -> Result<Seq<char>, RepairError> {
    let lines = split_lines_spec(s);
    match locate_spec(lines) {
        Ok(path) => Ok(join_lines_spec(rewrite_lines_spec(lines, path))),
        Err(e) => Err(e),
    }
}

/// Non-target preservation: a line that is not a `Default=` data line of an
/// Install section is emitted verbatim, at its original position.
pub proof fn lemma_policy_a_preserves_other_lines(lines: Seq<Seq<char>>, path: Seq<char>, i: int)
    requires
        0 <= i < lines.len(),
        !(!spec_is_header(lines[i]) && spec_kind_after(lines.take(i)) is Install
            && spec_default_line(lines[i])),
    ensures
        rewrite_lines_spec(lines, path)[i] == lines[i],
{
}

/// Every `Default=` data line of an Install section already names `path`.
pub open spec fn already_reflected(lines: Seq<Seq<char>>, path: Seq<char>) -> bool {
    forall|i: int|
        0 <= i < lines.len() && !spec_is_header(#[trigger] lines[i])
            && spec_kind_after(lines.take(i)) is Install && spec_default_line(lines[i])
            ==> lines[i] == "Default="@ + path
}

/// Idempotence: when the canonical profile is already reflected in the
/// Install section's `Default=` lines, rewriting a second time returns the
/// first output unchanged.
/// Rewriting is the identity on lines that already reflect `path`.
proof fn lemma_rewrite_identity_when_reflected(lines: Seq<Seq<char>>, path: Seq<char>)
    requires
        already_reflected(lines, path),
    ensures
        rewrite_lines_spec(lines, path) == lines,
{
    assert(rewrite_lines_spec(lines, path) =~= lines) by {
        assert forall|i: int| 0 <= i < lines.len() implies
            rewrite_lines_spec(lines, path)[i] == lines[i] by {
            if !spec_is_header(lines[i]) && spec_kind_after(lines.take(i)) is Install
                && spec_default_line(lines[i]) {
                assert(lines[i] == "Default="@ + path);
            }
        }
    }
}

pub proof fn lemma_policy_a_idempotent(s: Seq<char>)
    requires
        ({
            let lines = split_lines_spec(s);
            locate_spec(lines) matches Ok(path) && already_reflected(lines, path)
        }),
    ensures
        policy_a_spec(s) matches Ok(out) && policy_a_spec(out) == policy_a_spec(s),
{
    let lines = split_lines_spec(s);
    let path = locate_spec(lines)->Ok_0;
    lemma_rewrite_identity_when_reflected(lines, path);
    let out = join_lines_spec(lines);
    lemma_split_no_newline(s);
    lemma_split_join(lines);
    assert(split_lines_spec(out) == lines);
    assert(policy_a_spec(s) == Ok::<Seq<char>, RepairError>(out));
    assert(policy_a_spec(out) == Ok::<Seq<char>, RepairError>(out));
}

/// The two line sequences agree on everything the locator and the section
/// tracker read: which lines are headers, the header texts themselves, and
/// the `Path=` lines.
spec fn same_shape(a: Seq<Seq<char>>, b: Seq<Seq<char>>) -> bool {
    &&& a.len() == b.len()
    &&& forall|j: int|
        0 <= j < a.len() ==> spec_is_header(#[trigger] a[j]) == spec_is_header(b[j])
    &&& forall|j: int| 0 <= j < a.len() && spec_is_header(#[trigger] a[j]) ==> a[j] == b[j]
    &&& forall|j: int|
        0 <= j < a.len() ==> spec_path_line(#[trigger] a[j]) == spec_path_line(b[j])
    &&& forall|j: int| 0 <= j < a.len() && spec_path_line(#[trigger] a[j]) ==> a[j] == b[j]
}

/// Policy A's output has the same shape as its input: it touches only
/// `Default=` data lines, which are neither headers nor `Path=` lines.
proof fn lemma_rewrite_same_shape(lines: Seq<Seq<char>>, path: Seq<char>)
    ensures
        same_shape(lines, rewrite_lines_spec(lines, path)),
{
    reveal_strlit("Default=");
    reveal_strlit("Path=");
    let new = rewrite_lines_spec(lines, path);
    assert forall|j: int| 0 <= j < lines.len() implies
        spec_is_header(#[trigger] lines[j]) == spec_is_header(new[j])
            && (spec_is_header(lines[j]) ==> lines[j] == new[j])
            && spec_path_line(lines[j]) == spec_path_line(new[j])
            && (spec_path_line(lines[j]) ==> lines[j] == new[j]) by {
        if !spec_is_header(lines[j]) && spec_kind_after(lines.take(j)) is Install
            && spec_default_line(lines[j]) {
            let d = "Default="@;
            assert(new[j] == d + path);
            assert(d.len() == 8);
            assert((d + path)[0] == 'D');
            assert(lines[j].subrange(0, 8)[0] == lines[j][0]);
            assert(lines[j][0] == 'D');
            assert(!spec_is_header(new[j]));
            assert("Path="@.len() == 5);
            if spec_path_line(lines[j]) {
                assert(lines[j].subrange(0, 5)[0] == lines[j][0]);
                assert(false);
            }
            if spec_path_line(new[j]) {
                assert(new[j].subrange(0, 5)[0] == new[j][0]);
                assert(false);
            }
        } else {
            assert(new[j] == lines[j]);
        }
    }
}

/// Same-shaped line sequences have the same section boundaries.
proof fn lemma_section_end_same(a: Seq<Seq<char>>, b: Seq<Seq<char>>, from: int)
    requires
        same_shape(a, b),
    ensures
        section_end(a, from) == section_end(b, from),
    decreases a.len() - from,
{
    if 0 <= from && from < a.len() {
        if !spec_is_header(a[from]) {
            lemma_section_end_same(a, b, from + 1);
        }
    }
}

/// Same-shaped line sequences yield the same first path of a range.
proof fn lemma_first_path_same(a: Seq<Seq<char>>, b: Seq<Seq<char>>, from: int, end: int)
    requires
        same_shape(a, b),
        0 <= from,
        end <= a.len(),
    ensures
        first_path_in(a, from, end) == first_path_in(b, from, end),
    decreases end - from,
{
    if from < end {
        if !spec_path_line(a[from]) {
            lemma_first_path_same(a, b, from + 1, end);
        }
    }
}

/// Same-shaped line sequences drive the section tracker identically.
proof fn lemma_kind_after_same(a: Seq<Seq<char>>, b: Seq<Seq<char>>, i: int)
    requires
        same_shape(a, b),
        0 <= i <= a.len(),
    ensures
        spec_kind_after(a.take(i)) == spec_kind_after(b.take(i)),
    decreases i,
{
    if i == 0 {
        assert(a.take(0) =~= Seq::<Seq<char>>::empty());
        assert(b.take(0) =~= Seq::<Seq<char>>::empty());
    } else {
        lemma_kind_after_same(a, b, i - 1);
        assert(a.take(i).drop_last() =~= a.take(i - 1));
        assert(b.take(i).drop_last() =~= b.take(i - 1));
        assert(a.take(i).last() == a[i - 1]);
        assert(b.take(i).last() == b[i - 1]);
        if spec_is_header(a[i - 1]) {
            assert(a[i - 1] == b[i - 1]);
        } else {
            assert(!spec_is_header(b[i - 1]));
        }
    }
}

/// The locator reads nothing but the shape: same-shaped inputs give the
/// same result.
proof fn lemma_locate_same(a: Seq<Seq<char>>, b: Seq<Seq<char>>)
    requires
        same_shape(a, b),
    ensures
        locate_spec(a) == locate_spec(b),
{
    reveal_strlit("[Profile");
    assert("[Profile"@.len() == 8);
    assert forall|j: int| 0 <= j < a.len() implies
        spec_profile_form(#[trigger] a[j]) == spec_profile_form(b[j])
            && (spec_profile_form(a[j]) ==> a[j] == b[j]) by {
        if spec_profile_form(a[j]) {
            assert(a[j].subrange(0, 8)[0] == a[j][0]);
            assert(spec_is_header(a[j]));
            assert(a[j] == b[j]);
        }
        if spec_profile_form(b[j]) {
            assert(b[j].subrange(0, 8)[0] == b[j][0]);
            assert(spec_is_header(b[j]));
            assert(spec_is_header(a[j]));
            assert(a[j] == b[j]);
        }
    }
    assert forall|j: int| 0 <= j < a.len() implies
        malformed_at(a, j) == malformed_at(b, j)
            && #[trigger] valid_profile_at(a, j) == valid_profile_at(b, j)
            && (valid_profile_at(a, j) ==> num_at(a, j) == num_at(b, j)) by {
        if spec_profile_form(a[j]) {
            assert(a[j] == b[j]);
        }
    }
    if has_malformed(a) {
        let i = choose|i: int| 0 <= i < a.len() && malformed_at(a, i);
        assert(malformed_at(b, i));
        assert(has_malformed(b));
    }
    if has_malformed(b) {
        let i = choose|i: int| 0 <= i < b.len() && malformed_at(b, i);
        assert(malformed_at(a, i));
        assert(has_malformed(a));
    }
    if !has_malformed(a) {
        if has_profile(a) {
            let i0 = choose|i: int| valid_profile_at(a, i);
            assert(valid_profile_at(b, i0));
            assert(has_profile(b));
            assert(exists|i: int| 0 <= i < a.len() && valid_profile_at(a, i)) by {
                assert(0 <= i0 < a.len() && valid_profile_at(a, i0));
            }
            lemma_winner_exists(a, a.len() as int);
            let wa = spec_winner(a);
            assert(winner_upto(a, wa, a.len() as int));
            assert(winner_upto(b, wa, b.len() as int)) by {
                assert(valid_profile_at(b, wa));
                assert forall|j: int|
                    0 <= j < b.len() && #[trigger] valid_profile_at(b, j) implies
                    num_at(b, wa) <= num_at(b, j) by {
                    assert(valid_profile_at(a, j));
                    assert(num_at(a, wa) <= num_at(a, j));
                }
                assert forall|j: int|
                    0 <= j < wa && #[trigger] valid_profile_at(b, j) implies
                    num_at(b, wa) < num_at(b, j) by {
                    assert(valid_profile_at(a, j));
                    assert(num_at(a, wa) < num_at(a, j));
                }
            }
            assert(exists|w: int| winner_upto(b, w, b.len() as int)) by {
                assert(winner_upto(b, wa, b.len() as int));
            }
            lemma_winner_unique(b, wa, spec_winner(b));
            lemma_section_end_same(a, b, wa + 1);
            lemma_section_end_bounds(a, wa + 1);
            lemma_first_path_same(a, b, wa + 1, section_end(a, wa + 1));
        } else {
            assert(!has_profile(b)) by {
                if has_profile(b) {
                    let i = choose|i: int| valid_profile_at(b, i);
                    assert(valid_profile_at(a, i));
                }
            }
        }
    }
}

/// After a rewrite, every `Default=` data line of an Install section names
/// `path`: the output is reflected.
proof fn lemma_rewrite_reflects(lines: Seq<Seq<char>>, path: Seq<char>)
    ensures
        already_reflected(rewrite_lines_spec(lines, path), path),
{
    let new = rewrite_lines_spec(lines, path);
    lemma_rewrite_same_shape(lines, path);
    assert forall|i: int|
        0 <= i < new.len() && !spec_is_header(#[trigger] new[i])
            && spec_kind_after(new.take(i)) is Install && spec_default_line(new[i]) implies
        new[i] == "Default="@ + path by {
        lemma_kind_after_same(lines, new, i);
        assert(!spec_is_header(lines[i]));
        assert(spec_kind_after(lines.take(i)) is Install);
        if new[i] == lines[i] {
            assert(spec_default_line(lines[i]));
        }
    }
}

/// Idempotence, unconditionally: whenever the rewrite succeeds, rewriting
/// its own output changes nothing further.
pub proof fn lemma_policy_a_stable(s: Seq<char>)
    requires
        policy_a_spec(s) is Ok,
    ensures
        policy_a_spec(s) matches Ok(out) && policy_a_spec(out) == policy_a_spec(s),
{
    let lines = split_lines_spec(s);
    let path = locate_spec(lines)->Ok_0;
    let new = rewrite_lines_spec(lines, path);
    let out = join_lines_spec(new);
    lemma_split_no_newline(s);
    assert(!has_malformed(lines) && has_profile(lines));
    let w = spec_winner(lines);
    assert(exists|i: int| 0 <= i < lines.len() && valid_profile_at(lines, i)) by {
        let i0 = choose|i: int| valid_profile_at(lines, i);
        assert(0 <= i0 < lines.len() && valid_profile_at(lines, i0));
    }
    lemma_winner_exists(lines, lines.len() as int);
    assert(winner_upto(lines, w, lines.len() as int));
    lemma_section_end_bounds(lines, w + 1);
    let e = section_end(lines, w + 1);
    assert(first_path_in(lines, w + 1, e) == Some(path));
    lemma_first_path_witness(lines, w + 1, e);
    let jw = choose|j: int|
        w + 1 <= j < e && spec_path_line(#[trigger] lines[j])
            && first_path_in(lines, w + 1, e) == Some(lines[j].skip(5));
    assert(path == lines[jw].skip(5));
    assert(no_newline(path)) by {
        reveal_strlit("Path=");
        assert("Path="@.len() == 5);
        assert(lines[jw].len() >= 5);
        assert(no_newline(lines[jw]));
        assert forall|k: int| 0 <= k < path.len() implies path[k] != '\n' by {
            assert(path[k] == lines[jw][k + 5]);
        }
    }
    assert(all_no_newline(new)) by {
        assert forall|i: int| 0 <= i < new.len() implies no_newline(#[trigger] new[i]) by {
            if new[i] == lines[i] {
                assert(no_newline(lines[i]));
            } else {
                let d = "Default="@;
                assert(spec_default_line(lines[i]));
                assert(d.len() == 8) by {
                    reveal_strlit("Default=");
                }
                assert(new[i] == d + path);
                assert forall|k: int| 0 <= k < new[i].len() implies new[i][k] != '\n' by {
                    if k < 8 {
                        assert(new[i][k] == d[k]);
                        assert(lines[i].subrange(0, 8)[k] == lines[i][k]);
                        assert(d[k] == lines[i][k]);
                        assert(no_newline(lines[i]));
                    } else {
                        assert(new[i][k] == path[k - 8]);
                    }
                }
            }
        }
    }
    lemma_rewrite_same_shape(lines, path);
    lemma_locate_same(lines, new);
    lemma_split_join(new);
    assert(split_lines_spec(out) == new);
    lemma_rewrite_reflects(lines, path);
    lemma_rewrite_identity_when_reflected(new, path);
    assert(policy_a_spec(out) == Ok::<Seq<char>, RepairError>(join_lines_spec(new)));
    assert(policy_a_spec(s) == Ok::<Seq<char>, RepairError>(out));
}

/// Rewrite the input text: every `Default=` line inside an Install section
/// now names the lowest-numbered profile's path; all other lines, and the
/// line count, are unchanged.
pub fn write_profiles_ini(input: &str) -> (r: Result<String, RepairError>)
    ensures
        result_matches(r, policy_a_spec(input@)),
{
    let lines = split_lines(input);
    let ghost lv = views_of(lines@);
    let path = match locate_lowest_profile(&lines) {
        Ok(p) => p,
        Err(e) => {
            return Err(e);
        },
    };
    let mut out: Vec<String> = Vec::new();
    let mut kind = SectionKind::Preamble;
    let mut i: usize = 0;
    proof {
        assert(lv.take(0) =~= Seq::<Seq<char>>::empty());
    }
    while i < lines.len()
        invariant
            i <= lines.len(),
            lv == views_of(lines@),
            lv.len() == lines@.len(),
            out@.len() == i,
            kind == spec_kind_after(lv.take(i as int)),
            locate_spec(lv) == Ok::<Seq<char>, RepairError>(path@),
            forall|j: int|
                0 <= j < i ==> views_of(out@)[j]
                    == rewrite_line(lv[j], spec_kind_after(lv.take(j)), path@),
        decreases lines.len() - i,
    {
        let line = &lines[i];
        let ghost old_out = out@;
        let is_hdr = is_header_line(line.as_str());
        if !is_hdr && kind == SectionKind::Install && str_starts_with(line.as_str(), "Default=") {
            let mut nl = String::from_str("Default=");
            nl.append(path.as_str());
            out.push(nl);
            proof {
                assert(out@[i as int]@
                    == rewrite_line(lv[i as int], spec_kind_after(lv.take(i as int)), path@));
            }
        } else {
            out.push(line.clone());
            proof {
                assert(out@[i as int]@ == lv[i as int]);
                assert(rewrite_line(lv[i as int], spec_kind_after(lv.take(i as int)), path@)
                    == lv[i as int]);
            }
        }
        proof {
            assert forall|j: int| 0 <= j < i as int + 1 implies views_of(out@)[j]
                == rewrite_line(lv[j], spec_kind_after(lv.take(j)), path@) by {
                assert(views_of(out@)[j] == out@[j]@);
                if j < i as int {
                    assert(out@[j] == old_out[j]);
                    assert(views_of(old_out)[j] == old_out[j]@);
                }
            }
            assert(lv.take(i as int + 1).drop_last() =~= lv.take(i as int));
            assert(lv.take(i as int + 1).last() == lv[i as int]);
        }
        kind = classify_line(line.as_str(), kind);
        i += 1;
    }
    proof {
        assert(views_of(out@) =~= rewrite_lines_spec(lv, path@));
    }
    let joined = join_lines(&out);
    Ok(joined)
}

} // verus!
