//! Repair engine for a browser's `profiles.ini` file.
//!
//! The file is a line-oriented INI dialect: `[Install...]` and `[ProfileN]`
//! section headers followed by `Key=Value` data lines.  The engine offers two
//! normalization policies over that line stream:
//!
//! * Policy A rewrites every `Default=` line inside an Install section so
//!   that it names the path of the lowest-numbered profile section.
//! * Policy B moves the legacy `Default=1` marker of each profile section to
//!   the section's end, collapsing duplicates into exactly one marker.
//!
//! All parsing and rewriting is verified; file I/O stays with the caller.

use vstd::prelude::*;

pub mod lines;
pub mod locate;
pub mod normalize;
pub mod number;
pub mod rewrite;
pub mod scan;

verus! {

/// Errors reported while locating the lowest-numbered profile section.
#[derive(Clone, Copy, Debug, PartialEq, Eq, Structural)]
pub enum RepairError {
    /// A `[Profile...]` header's suffix is not a `u64` written in decimal.
    MalformedProfileNumber,
    /// The input holds no well-formed `[ProfileN]` header at all.
    NoProfileSection,
    /// The winning profile section holds no `Path=` line.
    NoPathInProfile,
}

} // verus!
