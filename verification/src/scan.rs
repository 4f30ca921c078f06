//! Section classifier and character-level scanning helpers.
//!
//! A line opens a new section exactly when its first character is `[`; the
//! text right after the bracket decides the section kind.  Every data line
//! inherits the kind of the most recent header.

use vstd::prelude::*;

verus! {

/// Kind of the section a line belongs to while streaming through the file.
#[derive(Clone, Copy, Debug, PartialEq, Eq, Structural)]
pub enum SectionKind {
    /// Before the first section header.
    Preamble,
    /// Inside an `[Install...]` section.
    Install,
    /// Inside a `[Profile...]` section.
    Profile,
    /// Inside any other section.
    Other,
}

/// A line opens a new section exactly when it begins with `[`.
pub open spec fn spec_is_header(line: Seq<char>) -> bool {
    line.len() > 0 && line[0] == '['
}

/// The section kind that a header line announces.
pub open spec fn spec_header_kind(line: Seq<char>) -> SectionKind {
    if "[Install"@.is_prefix_of(line) {
        SectionKind::Install
    } else if "[Profile"@.is_prefix_of(line) {
        SectionKind::Profile
    } else {
        SectionKind::Other
    }
}

/// One step of the section tracker: a header switches the kind, a data line
/// keeps it.
pub open spec fn spec_next_kind(line: Seq<char>, current: SectionKind) -> SectionKind {
    if spec_is_header(line) {
        spec_header_kind(line)
    } else {
        current
    }
}

/// Section kind in effect after all of `lines` have been read, starting from
/// the preamble.
pub open spec fn spec_kind_after(lines: Seq<Seq<char>>) -> SectionKind
    decreases lines.len(),
{
    if lines.len() == 0 {
        SectionKind::Preamble
    } else {
        spec_next_kind(lines.last(), spec_kind_after(lines.drop_last()))
    }
}

/// The character sequences held by a vector of lines.
pub open spec fn views_of(lines: Seq<String>) -> Seq<Seq<char>> {
    lines.map_values(|l: String| l@)
}

/// Whether `p` is a prefix of `s`, compared character by character.
pub fn str_starts_with(s: &str, p: &str) -> (r: bool)
    ensures
        r == p@.is_prefix_of(s@),
{
    let sn = s.unicode_len();
    let pn = p.unicode_len();
    if pn > sn {
        return false;
    }
    let mut i: usize = 0;
    while i < pn
        invariant
            i <= pn <= sn,
            pn == p@.len(),
            sn == s@.len(),
            forall|j: int| 0 <= j < i ==> p@[j] == s@[j],
        decreases pn - i,
    {
        if s.get_char(i) != p.get_char(i) {
            assert(s@.subrange(0, pn as int)[i as int] == s@[i as int]);
            return false;
        }
        i += 1;
    }
    assert(p@ =~= s@.subrange(0, pn as int));
    true
}

/// Whether two strings hold the same characters.
pub fn str_eq(a: &str, b: &str) -> (r: bool)
    ensures
        r == (a@ == b@),
{
    let an = a.unicode_len();
    let bn = b.unicode_len();
    if an != bn {
        return false;
    }
    let mut i: usize = 0;
    while i < an
        invariant
            i <= an,
            an == a@.len(),
            an == b@.len(),
            forall|j: int| 0 <= j < i ==> a@[j] == b@[j],
        decreases an - i,
    {
        if a.get_char(i) != b.get_char(i) {
            return false;
        }
        i += 1;
    }
    assert(a@ =~= b@);
    true
}

/// Whether the line opens a new section.
pub fn is_header_line(line: &str) -> (r: bool)
    ensures
        r == spec_is_header(line@),
{
    if line.unicode_len() == 0 {
        false
    } else {
        line.get_char(0) == '['
    }
}

/// One step of the section classifier: returns the kind in effect for the
/// lines that follow `line`.
pub fn classify_line(line: &str, current: SectionKind) -> (k: SectionKind)
    ensures
        k == spec_next_kind(line@, current),
{
    if !is_header_line(line) {
        current
    } else if str_starts_with(line, "[Install") {
        SectionKind::Install
    } else if str_starts_with(line, "[Profile") {
        SectionKind::Profile
    } else {
        SectionKind::Other
    }
}

} // verus!
