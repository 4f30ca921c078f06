//! Default marker normalizer: within each profile section, every legacy
//! `Default=1` marker line is suppressed, and one single marker is emitted
//! as the section's last line (just before the next header, or at the end
//! of the input).  Lines outside profile sections pass through unchanged.

use vstd::prelude::*;

use crate::lines::{join_lines, join_lines_spec, split_lines, split_lines_spec};
use crate::locate::{lemma_section_end_bounds, section_end};
use crate::scan::{
    classify_line, is_header_line, spec_header_kind, spec_is_header, spec_kind_after, str_eq,
    views_of, SectionKind,
};

verus! {

/// The legacy default marker line.
pub open spec fn marker_line() -> Seq<char> {
    "Default=1"@
}

/// Policy B from line `i` on, where `in_profile` says whether a profile
/// section is open: markers of profile sections are suppressed, a single
/// marker is emitted whenever a profile section closes, and every other
/// line passes through.
pub open spec fn norm_b_from(lines: Seq<Seq<char>>, i: int, in_profile: bool) -> Seq<Seq<char>>
    decreases lines.len() - i,
{
    if i < 0 || i >= lines.len() {
        if in_profile {
            seq![marker_line()]
        } else {
            Seq::empty()
        }
    } else {
        let line = lines[i];
        if spec_is_header(line) {
            let pending: Seq<Seq<char>> = if in_profile {
                seq![marker_line()]
            } else {
                Seq::empty()
            };
            pending + seq![line] + norm_b_from(lines, i + 1, spec_header_kind(line) is Profile)
        } else if in_profile && line == marker_line() {
            norm_b_from(lines, i + 1, true)
        } else {
            seq![line] + norm_b_from(lines, i + 1, in_profile)
        }
    }
}

/// Policy B on the whole line sequence.
pub open spec fn normalize_lines_spec(lines: Seq<Seq<char>>) -> Seq<Seq<char>> {
    norm_b_from(lines, 0, false)
}

/// Policy B on the whole input text.
pub open spec fn policy_b_spec(s: Seq<char>) -> Seq<char> {
    join_lines_spec(normalize_lines_spec(split_lines_spec(s)))
}

/// The marker line is a data line, not a section header.
proof fn lemma_marker_not_header()
    ensures
        !spec_is_header(marker_line()),
        marker_line().len() == 9,
{
    reveal_strlit("Default=1");
}

/// Looking for a section's end past a fixed prefix only reads the suffix.
proof fn lemma_section_end_shift(a: Seq<Seq<char>>, b: Seq<Seq<char>>, k: int)
    requires
        0 <= k <= b.len(),
    ensures
        section_end(a + b, a.len() + k) == a.len() + section_end(b, k),
    decreases b.len() - k,
{
    if k < b.len() {
        assert((a + b)[a.len() + k] == b[k]);
        if !spec_is_header(b[k]) {
            lemma_section_end_shift(a, b, k + 1);
        }
    }
}

/// The section open at line `i + 1` (a profile section's body) ends with
/// exactly one marker: the marker is its last line and stands nowhere else
/// in it.
pub open spec fn section_marker_ok(lines: Seq<Seq<char>>, i: int) -> bool {
    let e = section_end(lines, i + 1);
    &&& e > i + 1
    &&& lines[e - 1] == marker_line()
    &&& forall|j: int| i + 1 <= j < e - 1 ==> lines[j] != marker_line()
}

/// Every profile section of `lines` ends with exactly one marker.
pub open spec fn b_normalized(lines: Seq<Seq<char>>) -> bool {
    forall|i: int|
        0 <= i < lines.len() && spec_is_header(#[trigger] lines[i])
            && spec_header_kind(lines[i]) is Profile ==> section_marker_ok(lines, i)
}

/// The open section at the start of `out` ends with exactly one marker,
/// when a profile section was open on entry.
spec fn leading_marker_ok(out: Seq<Seq<char>>, in_profile: bool) -> bool {
    in_profile ==> ({
        let e = section_end(out, 0);
        &&& e >= 1
        &&& out[e - 1] == marker_line()
        &&& forall|j: int| 0 <= j < e - 1 ==> out[j] != marker_line()
    })
}

/// Whatever the remaining input, the normalizer's output closes the open
/// profile section with exactly one marker and does the same in every
/// profile section that follows.
proof fn lemma_norm_b_from_normalized(lines: Seq<Seq<char>>, i: int, st: bool)
    ensures
        leading_marker_ok(norm_b_from(lines, i, st), st),
        b_normalized(norm_b_from(lines, i, st)),
    decreases lines.len() - i,
{
    lemma_marker_not_header();
    let out = norm_b_from(lines, i, st);
    if i < 0 || i >= lines.len() {
        if st {
            assert(out == seq![marker_line()]);
            assert(!spec_is_header(out[0]));
            assert(section_end(out, 1) == 1);
            assert(section_end(out, 0) == 1);
        }
        assert(b_normalized(out)) by {
            assert forall|q: int|
                0 <= q < out.len() && spec_is_header(#[trigger] out[q])
                    && spec_header_kind(out[q]) is Profile implies section_marker_ok(out, q) by {
                assert(false);
            }
        }
    } else {
        let line = lines[i];
        if spec_is_header(line) {
            let st2 = spec_header_kind(line) is Profile;
            lemma_norm_b_from_normalized(lines, i + 1, st2);
            let tail = norm_b_from(lines, i + 1, st2);
            let pending: Seq<Seq<char>> = if st {
                seq![marker_line()]
            } else {
                Seq::empty()
            };
            let head = pending + seq![line];
            assert(out =~= head + tail);
            let p = head.len() - 1;
            assert(out[p] == line);
            lemma_section_end_bounds(tail, 0);
            assert(leading_marker_ok(out, st)) by {
                if st {
                    assert(!spec_is_header(out[0]));
                    assert(spec_is_header(out[1]));
                    assert(section_end(out, 1) == 1);
                    assert(section_end(out, 0) == 1);
                }
            }
            assert(b_normalized(out)) by {
                assert forall|q: int|
                    0 <= q < out.len() && spec_is_header(#[trigger] out[q])
                        && spec_header_kind(out[q]) is Profile implies
                    section_marker_ok(out, q) by {
                    if q < p {
                        assert(out[q] == marker_line());
                        assert(false);
                    } else if q == p {
                        assert(st2);
                        let e_t = section_end(tail, 0);
                        lemma_section_end_shift(head, tail, 0);
                        assert(section_end(out, p + 1) == head.len() + e_t);
                        assert(out[head.len() + e_t - 1] == tail[e_t - 1]);
                        assert forall|j: int| p + 1 <= j < head.len() + e_t - 1 implies
                            out[j] != marker_line() by {
                            assert(out[j] == tail[j - head.len()]);
                        }
                    } else {
                        let qt = q - head.len();
                        assert(out[q] == tail[qt]);
                        assert(section_marker_ok(tail, qt));
                        let e_t = section_end(tail, qt + 1);
                        lemma_section_end_bounds(tail, qt + 1);
                        lemma_section_end_shift(head, tail, qt + 1);
                        assert(section_end(out, q + 1) == head.len() + e_t);
                        assert(out[head.len() + e_t - 1] == tail[e_t - 1]);
                        assert forall|j: int| q + 1 <= j < head.len() + e_t - 1 implies
                            out[j] != marker_line() by {
                            assert(out[j] == tail[j - head.len()]);
                        }
                    }
                }
            }
        } else if st && line == marker_line() {
            lemma_norm_b_from_normalized(lines, i + 1, true);
        } else {
            lemma_norm_b_from_normalized(lines, i + 1, st);
            let tail = norm_b_from(lines, i + 1, st);
            let head: Seq<Seq<char>> = seq![line];
            assert(out =~= head + tail);
            lemma_section_end_bounds(tail, 0);
            assert(leading_marker_ok(out, st)) by {
                if st {
                    let e_t = section_end(tail, 0);
                    lemma_section_end_shift(head, tail, 0);
                    assert(section_end(out, 1) == 1 + e_t);
                    assert(section_end(out, 0) == 1 + e_t);
                    assert(out[e_t] == tail[e_t - 1]);
                    assert forall|j: int| 0 <= j < e_t implies out[j] != marker_line() by {
                        if j > 0 {
                            assert(out[j] == tail[j - 1]);
                        }
                    }
                }
            }
            assert(b_normalized(out)) by {
                assert forall|q: int|
                    0 <= q < out.len() && spec_is_header(#[trigger] out[q])
                        && spec_header_kind(out[q]) is Profile implies
                    section_marker_ok(out, q) by {
                    assert(q > 0);
                    let qt = q - 1;
                    assert(out[q] == tail[qt]);
                    assert(section_marker_ok(tail, qt));
                    let e_t = section_end(tail, qt + 1);
                    lemma_section_end_bounds(tail, qt + 1);
                    lemma_section_end_shift(head, tail, qt + 1);
                    assert(section_end(out, q + 1) == 1 + e_t);
                    assert(out[1 + e_t - 1] == tail[e_t - 1]);
                    assert forall|j: int| q + 1 <= j < 1 + e_t - 1 implies
                        out[j] != marker_line() by {
                        assert(out[j] == tail[j - 1]);
                    }
                }
            }
        }
    }
}

/// Marker collapse: in the normalizer's output, every profile section holds
/// exactly one `Default=1` line, and it is the section's last line.
pub proof fn lemma_policy_b_output_normalized(lines: Seq<Seq<char>>)
    ensures
        b_normalized(normalize_lines_spec(lines)),
{
    lemma_norm_b_from_normalized(lines, 0, false);
}

/// The section open at line `i` ends with exactly one marker, as its last
/// line.
spec fn tail_section_ok(lines: Seq<Seq<char>>, i: int) -> bool {
    let e = section_end(lines, i);
    &&& e > i
    &&& lines[e - 1] == marker_line()
    &&& forall|j: int| i <= j < e - 1 ==> lines[j] != marker_line()
}

/// On input whose profile sections are already normalized, the normalizer
/// re-emits the remaining lines verbatim.
proof fn lemma_norm_b_from_preserves(lines: Seq<Seq<char>>, i: int, st: bool)
    requires
        0 <= i <= lines.len(),
        b_normalized(lines),
        st ==> tail_section_ok(lines, i),
    ensures
        norm_b_from(lines, i, st) == lines.skip(i),
    decreases lines.len() - i,
{
    lemma_marker_not_header();
    let out = norm_b_from(lines, i, st);
    if i == lines.len() {
        if st {
            lemma_section_end_bounds(lines, i);
            assert(false);
        }
        assert(out =~= lines.skip(i));
    } else {
        let line = lines[i];
        if spec_is_header(line) {
            if st {
                assert(section_end(lines, i) == i);
                assert(false);
            }
            let st2 = spec_header_kind(line) is Profile;
            if st2 {
                assert(section_marker_ok(lines, i));
            }
            lemma_norm_b_from_preserves(lines, i + 1, st2);
            assert(out =~= lines.skip(i));
        } else if st && line == marker_line() {
            let e = section_end(lines, i);
            assert(e == section_end(lines, i + 1));
            assert(i == e - 1) by {
                if i < e - 1 {
                    assert(lines[i] != marker_line());
                }
            }
            lemma_section_end_bounds(lines, i + 1);
            if i + 1 == lines.len() {
                assert(out == norm_b_from(lines, i + 1, true));
                assert(norm_b_from(lines, i + 1, true) == seq![marker_line()]);
                assert(out =~= lines.skip(i));
            } else {
                assert(spec_is_header(lines[i + 1])) by {
                    if !spec_is_header(lines[i + 1]) {
                        lemma_section_end_bounds(lines, i + 2);
                        assert(section_end(lines, i + 1) == section_end(lines, i + 2));
                    }
                }
                let h = lines[i + 1];
                let st2 = spec_header_kind(h) is Profile;
                if st2 {
                    assert(section_marker_ok(lines, i + 1));
                }
                lemma_norm_b_from_preserves(lines, i + 2, st2);
                assert(norm_b_from(lines, i + 1, true)
                    == seq![marker_line()] + seq![h] + norm_b_from(lines, i + 2, st2));
                assert(out =~= lines.skip(i));
            }
        } else {
            if st {
                let e = section_end(lines, i);
                assert(e == section_end(lines, i + 1));
                assert(e - 1 > i) by {
                    assert(lines[e - 1] == marker_line());
                }
                assert(tail_section_ok(lines, i + 1));
            }
            lemma_norm_b_from_preserves(lines, i + 1, st);
            assert(out =~= lines.skip(i));
        }
    }
}

/// Idempotence on normalized input: when every profile section already ends
/// with exactly one marker, the normalizer changes nothing.
pub proof fn lemma_policy_b_preserves_normalized(lines: Seq<Seq<char>>)
    requires
        b_normalized(lines),
    ensures
        normalize_lines_spec(lines) == lines,
{
    lemma_norm_b_from_preserves(lines, 0, false);
    assert(lines.skip(0) =~= lines);
}

/// Idempotence: normalizing twice is normalizing once.
pub proof fn lemma_policy_b_idempotent(lines: Seq<Seq<char>>)
    ensures
        normalize_lines_spec(normalize_lines_spec(lines)) == normalize_lines_spec(lines),
{
    lemma_policy_b_output_normalized(lines);
    lemma_policy_b_preserves_normalized(normalize_lines_spec(lines));
}

/// Idempotence at the text level: normalized, newline-terminated input
/// comes back unchanged.
pub proof fn lemma_policy_b_text_preserved(s: Seq<char>)
    requires
        b_normalized(split_lines_spec(s)),
        s == join_lines_spec(split_lines_spec(s)),
    ensures
        policy_b_spec(s) == s,
{
    lemma_policy_b_preserves_normalized(split_lines_spec(s));
}

/// The lines of `lines[i..]` that are outside the normalizer's scope: every
/// line except the `Default=1` markers of profile sections, in their
/// original order.
pub open spec fn strip_markers_from(lines: Seq<Seq<char>>, i: int, in_profile: bool) -> Seq<
    Seq<char>,
>
    decreases lines.len() - i,
{
    if i < 0 || i >= lines.len() {
        Seq::empty()
    } else {
        let line = lines[i];
        if spec_is_header(line) {
            seq![line] + strip_markers_from(lines, i + 1, spec_header_kind(line) is Profile)
        } else if in_profile && line == marker_line() {
            strip_markers_from(lines, i + 1, true)
        } else {
            seq![line] + strip_markers_from(lines, i + 1, in_profile)
        }
    }
}

/// Stripping past a fixed prefix only reads the suffix.
proof fn lemma_strip_shift(a: Seq<Seq<char>>, b: Seq<Seq<char>>, k: int, st: bool)
    requires
        0 <= k <= b.len(),
    ensures
        strip_markers_from(a + b, a.len() + k, st) == strip_markers_from(b, k, st),
    decreases b.len() - k,
{
    if k < b.len() {
        assert((a + b)[a.len() + k] == b[k]);
        let line = b[k];
        if spec_is_header(line) {
            lemma_strip_shift(a, b, k + 1, spec_header_kind(line) is Profile);
        } else if st && line == marker_line() {
            lemma_strip_shift(a, b, k + 1, true);
        } else {
            lemma_strip_shift(a, b, k + 1, st);
        }
    }
}

/// Stripping the normalizer's output gives the stripped input: every line
/// outside the rule's scope is emitted verbatim and in order.
proof fn lemma_strip_norm_b_from(lines: Seq<Seq<char>>, i: int, st: bool)
    requires
        0 <= i <= lines.len(),
    ensures
        strip_markers_from(norm_b_from(lines, i, st), 0, st) == strip_markers_from(lines, i, st),
    decreases lines.len() - i,
{
    lemma_marker_not_header();
    let out = norm_b_from(lines, i, st);
    if i == lines.len() {
        if st {
            assert(out == seq![marker_line()]);
            assert(strip_markers_from(out, 1, true) =~= Seq::<Seq<char>>::empty());
            assert(strip_markers_from(out, 0, st) =~= Seq::<Seq<char>>::empty());
        }
        assert(strip_markers_from(out, 0, st) =~= strip_markers_from(lines, i, st));
    } else {
        let line = lines[i];
        if spec_is_header(line) {
            let st2 = spec_header_kind(line) is Profile;
            lemma_strip_norm_b_from(lines, i + 1, st2);
            let tail = norm_b_from(lines, i + 1, st2);
            let pending: Seq<Seq<char>> = if st {
                seq![marker_line()]
            } else {
                Seq::empty()
            };
            let head = pending + seq![line];
            assert(out =~= head + tail);
            lemma_strip_shift(head, tail, 0, st2);
            let p = head.len() - 1;
            assert(out[p] == line);
            if st {
                assert(out[0] == marker_line());
                assert(strip_markers_from(out, 0, st) == strip_markers_from(out, 1, true));
                assert(strip_markers_from(out, 1, true)
                    == seq![line] + strip_markers_from(out, 2, st2));
            } else {
                assert(strip_markers_from(out, 0, st)
                    == seq![line] + strip_markers_from(out, 1, st2));
            }
            assert(strip_markers_from(out, 0, st)
                =~= strip_markers_from(lines, i, st));
        } else if st && line == marker_line() {
            lemma_strip_norm_b_from(lines, i + 1, true);
        } else {
            lemma_strip_norm_b_from(lines, i + 1, st);
            let tail = norm_b_from(lines, i + 1, st);
            let head: Seq<Seq<char>> = seq![line];
            assert(out =~= head + tail);
            lemma_strip_shift(head, tail, 0, st);
            assert(out[0] == line);
            assert(strip_markers_from(out, 0, st) == seq![line] + strip_markers_from(out, 1, st));
            assert(strip_markers_from(out, 0, st) =~= strip_markers_from(lines, i, st));
        }
    }
}

/// Non-target preservation: the normalizer touches nothing but the marker
/// lines of profile sections; every other line survives verbatim, in its
/// original relative order.
pub proof fn lemma_policy_b_preserves_other_lines(lines: Seq<Seq<char>>)
    ensures
        strip_markers_from(normalize_lines_spec(lines), 0, false)
            == strip_markers_from(lines, 0, false),
{
    lemma_strip_norm_b_from(lines, 0, false);
}

/// Normalize the legacy default markers of every profile section: exactly
/// one `Default=1` line per profile section, as its last line.
pub fn normalize_default_markers(input: &str) -> (r: String)
    ensures
        r@ == policy_b_spec(input@),
{
    let lines = split_lines(input);
    let ghost lv = views_of(lines@);
    let mut out: Vec<String> = Vec::new();
    let mut kind = SectionKind::Preamble;
    let mut i: usize = 0;
    proof {
        assert(lv.take(0) =~= Seq::<Seq<char>>::empty());
        assert(views_of(out@) =~= Seq::<Seq<char>>::empty());
        assert(views_of(out@) + norm_b_from(lv, 0, false) =~= normalize_lines_spec(lv));
    }
    while i < lines.len()
        invariant
            i <= lines.len(),
            lv == views_of(lines@),
            lv.len() == lines@.len(),
            kind == spec_kind_after(lv.take(i as int)),
            views_of(out@) + norm_b_from(lv, i as int, kind is Profile)
                == normalize_lines_spec(lv),
        decreases lines.len() - i,
    {
        let line = &lines[i];
        let ghost old_out = out@;
        let ghost st = kind is Profile;
        if is_header_line(line.as_str()) {
            if kind == SectionKind::Profile {
                out.push(String::from_str("Default=1"));
            }
            out.push(line.clone());
            proof {
                let st2 = spec_header_kind(lv[i as int]) is Profile;
                let pending: Seq<Seq<char>> = if st {
                    seq![marker_line()]
                } else {
                    Seq::<Seq<char>>::empty()
                };
                assert(norm_b_from(lv, i as int, st)
                    == pending + seq![lv[i as int]] + norm_b_from(lv, i as int + 1, st2));
                assert(views_of(out@) =~= views_of(old_out) + pending + seq![lv[i as int]]);
                assert(views_of(out@) + norm_b_from(lv, i as int + 1, st2)
                    =~= views_of(old_out) + norm_b_from(lv, i as int, st));
            }
        } else if kind == SectionKind::Profile && str_eq(line.as_str(), "Default=1") {
            proof {
                assert(norm_b_from(lv, i as int, st) == norm_b_from(lv, i as int + 1, true));
            }
        } else {
            out.push(line.clone());
            proof {
                assert(norm_b_from(lv, i as int, st)
                    == seq![lv[i as int]] + norm_b_from(lv, i as int + 1, st));
                assert(views_of(out@) =~= views_of(old_out) + seq![lv[i as int]]);
                assert(views_of(out@) + norm_b_from(lv, i as int + 1, st)
                    =~= views_of(old_out) + norm_b_from(lv, i as int, st));
            }
        }
        proof {
            assert(lv.take(i as int + 1).drop_last() =~= lv.take(i as int));
            assert(lv.take(i as int + 1).last() == lv[i as int]);
        }
        kind = classify_line(line.as_str(), kind);
        i += 1;
    }
    if kind == SectionKind::Profile {
        let ghost old_out = out@;
        out.push(String::from_str("Default=1"));
        proof {
            assert(norm_b_from(lv, lv.len() as int, true) == seq![marker_line()]);
            assert(views_of(out@) =~= views_of(old_out) + seq![marker_line()]);
        }
    }
    proof {
        assert(views_of(out@) =~= normalize_lines_spec(lv));
    }
    join_lines(&out)
}

} // verus!
