//! Lowest-profile locator: scan the whole file once and return the `Path=`
//! value of the `[ProfileN]` section with the numerically smallest `N`.

use vstd::prelude::*;

use crate::RepairError;
use crate::number::{parse_u64, parse_u64_spec};
use crate::scan::{is_header_line, spec_is_header, str_starts_with, views_of};

verus! {

/// A header of the exact shape `[Profile<suffix>]`: only these carry a
/// profile identity, and only these can be malformed.
pub open spec fn spec_profile_form(line: Seq<char>) -> bool {
    &&& "[Profile"@.is_prefix_of(line)
    &&& line.len() >= 9
    &&& line.last() == ']'
}

/// The suffix text between `[Profile` and the closing bracket.
pub open spec fn spec_profile_suffix(line: Seq<char>) -> Seq<char> {
    line.subrange(8, line.len() - 1)
}

/// The profile identity announced by a `[Profile...]` header, when its
/// suffix is numeric.
pub open spec fn spec_profile_num(line: Seq<char>) -> Option<u64> {
    parse_u64_spec(spec_profile_suffix(line))
}

/// Line `i` is a profile header whose suffix is not numeric.
pub open spec fn malformed_at(lines: Seq<Seq<char>>, i: int) -> bool {
    spec_profile_form(lines[i]) && spec_profile_num(lines[i]) is None
}

/// Some profile header in the file is malformed.
pub open spec fn has_malformed(lines: Seq<Seq<char>>) -> bool {
    exists|i: int| 0 <= i < lines.len() && malformed_at(lines, i)
}

/// Line `i` is a profile header with a numeric identity.
pub open spec fn valid_profile_at(lines: Seq<Seq<char>>, i: int) -> bool {
    &&& 0 <= i < lines.len()
    &&& spec_profile_form(lines[i])
    &&& spec_profile_num(lines[i]) is Some
}

/// The file holds at least one well-formed profile header.
pub open spec fn has_profile(lines: Seq<Seq<char>>) -> bool {
    exists|i: int| valid_profile_at(lines, i)
}

/// Identity of the profile header on line `i`.
pub open spec fn num_at(lines: Seq<Seq<char>>, i: int) -> u64 {
    spec_profile_num(lines[i])->Some_0
}

/// Among the first `upto` lines, line `w` is the winning candidate: a valid
/// profile header with the smallest identity, the earliest one on a tie.
pub open spec fn winner_upto(lines: Seq<Seq<char>>, w: int, upto: int) -> bool {
    &&& 0 <= w < upto
    &&& valid_profile_at(lines, w)
    &&& forall|j: int|
        0 <= j < upto && #[trigger] valid_profile_at(lines, j)
            ==> num_at(lines, w) <= num_at(lines, j)
    &&& forall|j: int|
        0 <= j < w && #[trigger] valid_profile_at(lines, j)
            ==> num_at(lines, w) < num_at(lines, j)
}

/// The winning line of the whole file.
pub open spec fn spec_winner(lines: Seq<Seq<char>>) -> int {
    choose|w: int| winner_upto(lines, w, lines.len() as int)
}

/// First header line at or after `from`, or the line count when none follows:
/// the line right after the section that is open at `from`.
pub open spec fn section_end(lines: Seq<Seq<char>>, from: int) -> int
    decreases lines.len() - from,
{
    if from >= lines.len() {
        lines.len() as int
    } else if from < 0 {
        0
    } else if spec_is_header(lines[from]) {
        from
    } else {
        section_end(lines, from + 1)
    }
}

/// A data line that assigns the profile's path.
pub open spec fn spec_path_line(line: Seq<char>) -> bool {
    "Path="@.is_prefix_of(line)
}

/// Value of the first `Path=` line among `lines[from..end]`, if any.
pub open spec fn first_path_in(lines: Seq<Seq<char>>, from: int, end: int) -> Option<Seq<char>>
    decreases end - from,
{
    if from >= end {
        None
    } else if spec_path_line(lines[from]) {
        Some(lines[from].skip(5))
    } else {
        first_path_in(lines, from + 1, end)
    }
}

/// What the locator returns: the path of the winning profile section, or
/// the first applicable error.
pub open spec fn locate_spec(lines: Seq<Seq<char>>) -> Result<Seq<char>, RepairError> {
    if has_malformed(lines) {
        Err(RepairError::MalformedProfileNumber)
    } else if !has_profile(lines) {
        Err(RepairError::NoProfileSection)
    } else {
        let w = spec_winner(lines);
        match first_path_in(lines, w + 1, section_end(lines, w + 1)) {
            Some(p) => Ok(p),
            None => Err(RepairError::NoPathInProfile),
        }
    }
}

/// An executable result agrees with a specified one.
pub open spec fn result_matches(r: Result<String, RepairError>, s: Result<Seq<char>, RepairError>) -> bool {
    match r {
        Ok(p) => s == Ok::<Seq<char>, RepairError>(p@),
        Err(e) => s == Err::<Seq<char>, RepairError>(e),
    }
}

/// Two winning lines are the same line: the winner is unique.
pub proof fn lemma_winner_unique(lines: Seq<Seq<char>>, w1: int, w2: int)
    requires
        winner_upto(lines, w1, lines.len() as int),
        winner_upto(lines, w2, lines.len() as int),
    ensures
        w1 == w2,
{
    if w1 < w2 {
        assert(valid_profile_at(lines, w1));
        assert(valid_profile_at(lines, w2));
        assert(num_at(lines, w2) < num_at(lines, w1));
        assert(num_at(lines, w1) <= num_at(lines, w2));
    }
    if w2 < w1 {
        assert(valid_profile_at(lines, w1));
        assert(valid_profile_at(lines, w2));
        assert(num_at(lines, w1) < num_at(lines, w2));
        assert(num_at(lines, w2) <= num_at(lines, w1));
    }
}

/// Lowest-identity selection: whichever line holds the smallest profile
/// identity decides the locator's result, wherever it stands in the file.
pub proof fn lemma_locator_selects_minimum(lines: Seq<Seq<char>>, w: int)
    requires
        !has_malformed(lines),
        winner_upto(lines, w, lines.len() as int),
    ensures
        locate_spec(lines) == (match first_path_in(lines, w + 1, section_end(lines, w + 1)) {
            Some(p) => Ok::<Seq<char>, RepairError>(p),
            None => Err::<Seq<char>, RepairError>(RepairError::NoPathInProfile),
        }),
{
    assert(has_profile(lines)) by {
        assert(valid_profile_at(lines, w));
    }
    assert(exists|x: int| winner_upto(lines, x, lines.len() as int)) by {
        assert(winner_upto(lines, w, lines.len() as int));
    }
    lemma_winner_unique(lines, w, spec_winner(lines));
}

/// A section never ends before the line where the search starts, nor after
/// the last line.
pub proof fn lemma_section_end_bounds(lines: Seq<Seq<char>>, from: int)
    requires
        0 <= from <= lines.len(),
    ensures
        from <= section_end(lines, from) <= lines.len(),
    decreases lines.len() - from,
{
    if from < lines.len() && !spec_is_header(lines[from]) {
        lemma_section_end_bounds(lines, from + 1);
    }
}

/// Among any nonempty set of valid profile headers there is a winner: a
/// lowest-identity line, the earliest on a tie.  Together with
/// `lemma_winner_unique` this is the canonical-profile invariant: exactly
/// one record is selected.
pub proof fn lemma_winner_exists(lines: Seq<Seq<char>>, upto: int)
    requires
        0 <= upto <= lines.len(),
        exists|i: int| 0 <= i < upto && valid_profile_at(lines, i),
    ensures
        exists|w: int| winner_upto(lines, w, upto),
    decreases upto,
{
    let i0 = choose|i: int| 0 <= i < upto && valid_profile_at(lines, i);
    if exists|i: int| 0 <= i < upto - 1 && valid_profile_at(lines, i) {
        lemma_winner_exists(lines, upto - 1);
        let w0 = choose|w: int| #[trigger] winner_upto(lines, w, upto - 1);
        if valid_profile_at(lines, upto - 1) && num_at(lines, upto - 1) < num_at(lines, w0) {
            assert(winner_upto(lines, upto - 1, upto));
        } else {
            assert(winner_upto(lines, w0, upto));
        }
    } else {
        assert(i0 == upto - 1);
        assert(winner_upto(lines, upto - 1, upto));
    }
}

/// A found path comes from some `Path=` line of the scanned range.
pub proof fn lemma_first_path_witness(lines: Seq<Seq<char>>, from: int, end: int)
    requires
        first_path_in(lines, from, end) is Some,
    ensures
        exists|j: int|
            from <= j < end && spec_path_line(#[trigger] lines[j])
                && first_path_in(lines, from, end) == Some(lines[j].skip(5)),
    decreases end - from,
{
    if from < end {
        if spec_path_line(lines[from]) {
            assert(from <= from < end && spec_path_line(lines[from])
                && first_path_in(lines, from, end) == Some(lines[from].skip(5)));
        } else {
            lemma_first_path_witness(lines, from + 1, end);
        }
    }
}

/// A run of non-header lines ends exactly at the next header (or at the end
/// of the file).
proof fn lemma_section_end_at(lines: Seq<Seq<char>>, from: int, end: int)
    requires
        0 <= from <= end <= lines.len(),
        forall|j: int| from <= j < end ==> !spec_is_header(#[trigger] lines[j]),
        end == lines.len() || spec_is_header(lines[end]),
    ensures
        section_end(lines, from) == end,
    decreases end - from,
{
    if from < end {
        lemma_section_end_at(lines, from + 1, end);
    }
}

/// Extending the scanned range by one line keeps an already found path and
/// otherwise looks only at the new line.
proof fn lemma_first_path_extend(lines: Seq<Seq<char>>, from: int, end: int)
    requires
        from <= end,
    ensures
        first_path_in(lines, from, end + 1) == (match first_path_in(lines, from, end) {
            Some(p) => Some(p),
            None => if spec_path_line(lines[end]) {
                Some(lines[end].skip(5))
            } else {
                None::<Seq<char>>
            },
        }),
    decreases end - from,
{
    if from < end {
        lemma_first_path_extend(lines, from + 1, end);
    } else {
        assert(first_path_in(lines, from + 1, end + 1) is None);
    }
}

/// The captured path so far agrees with the specified scan of a range.
pub open spec fn path_state_matches(found: Option<String>, target: Option<Seq<char>>) -> bool {
    match found {
        Some(p) => target == Some(p@),
        None => target is None,
    }
}

/// Scan the lines once and return the `Path=` value of the profile section
/// with the smallest numeric identity.
pub fn locate_lowest_profile(lines: &Vec<String>) -> (r: Result<String, RepairError>)
    ensures
        result_matches(r, locate_spec(views_of(lines@))),
{
    let ghost lv = views_of(lines@);
    let mut best_num: Option<u64> = None;
    let mut best_path: Option<String> = None;
    let mut in_best = false;
    let ghost mut w: int = 0;
    let mut i: usize = 0;
    while i < lines.len()
        invariant
            i <= lines.len(),
            lv == views_of(lines@),
            lv.len() == lines@.len(),
            forall|j: int| 0 <= j < i ==> !malformed_at(lv, j),
            best_num is None ==> best_path is None && !in_best
                && (forall|j: int| 0 <= j < i ==> !valid_profile_at(lv, j)),
            best_num matches Some(bn) ==> winner_upto(lv, w, i as int) && num_at(lv, w) == bn,
            in_best ==> best_num is Some
                && (forall|j: int| w < j < i ==> !spec_is_header(#[trigger] lv[j]))
                && path_state_matches(best_path, first_path_in(lv, w + 1, i as int)),
            best_num is Some && !in_best ==> section_end(lv, w + 1) <= i
                && path_state_matches(best_path, first_path_in(lv, w + 1, section_end(lv, w + 1))),
        decreases lines.len() - i,
    {
        let line = &lines[i];
        if is_header_line(line.as_str()) {
            proof {
                if in_best {
                    lemma_section_end_at(lv, w + 1, i as int);
                }
            }
            in_best = false;
            let ln = line.as_str().unicode_len();
            if str_starts_with(line.as_str(), "[Profile") && ln >= 9
                && line.as_str().get_char(ln - 1) == ']' {
                let suffix = line.as_str().substring_char(8, ln - 1);
                match parse_u64(suffix) {
                    None => {
                        proof {
                            assert(malformed_at(lv, i as int));
                            assert(has_malformed(lv)) by {
                                assert((i as int) < lv.len() && malformed_at(lv, i as int));
                            }
                        }
                        return Err(RepairError::MalformedProfileNumber);
                    },
                    Some(n) => {
                        let adopt = match &best_num {
                            None => true,
                            Some(b) => n < *b,
                        };
                        if adopt {
                            best_num = Some(n);
                            best_path = None;
                            in_best = true;
                            proof {
                                w = i as int;
                            }
                        }
                    },
                }
            }
        } else {
            proof {
                reveal_strlit("[Profile");
                assert("[Profile"@.len() == 8);
                if "[Profile"@.is_prefix_of(lv[i as int]) {
                    assert(lv[i as int].subrange(0, 8)[0] == lv[i as int][0]);
                    assert(lv[i as int][0] == '[');
                }
                assert(!spec_profile_form(lv[i as int]));
                if in_best {
                    lemma_first_path_extend(lv, w + 1, i as int);
                }
            }
            if in_best && best_path.is_none() && str_starts_with(line.as_str(), "Path=") {
                let ln = line.as_str().unicode_len();
                proof {
                    reveal_strlit("Path=");
                    assert(lv[i as int].skip(5) =~= lv[i as int].subrange(5, ln as int));
                }
                let val = line.as_str().substring_char(5, ln);
                best_path = Some(val.to_owned());
            }
        }
        i += 1;
    }
    match best_num {
        None => {
            proof {
                assert(!has_profile(lv));
                assert(!has_malformed(lv));
            }
            Err(RepairError::NoProfileSection)
        },
        Some(_) => {
            proof {
                assert(!has_malformed(lv));
                assert(exists|x: int| winner_upto(lv, x, lv.len() as int)) by {
                    assert(winner_upto(lv, w, lv.len() as int));
                }
                lemma_winner_unique(lv, w, spec_winner(lv));
                if in_best {
                    lemma_section_end_at(lv, w + 1, lv.len() as int);
                }
            }
            match best_path {
                Some(p) => Ok(p),
                None => Err(RepairError::NoPathInProfile),
            }
        },
    }
}

/// Split the input into lines and locate the lowest profile's path.
pub fn first_profile_path(input: &str) -> (r: Result<String, RepairError>)
    ensures
        result_matches(r, locate_spec(crate::lines::split_lines_spec(input@))),
{
    let lines = crate::lines::split_lines(input);
    locate_lowest_profile(&lines)
}

} // verus!
