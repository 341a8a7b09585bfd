//! The sections of a beatmap file, and which of them a line belongs to.

use crate::text::{ascii, same_bytes, split, split_bytes, views};
use vstd::prelude::*;
use vstd::string::StringSliceAdditionalSpecFns;

verus! {

/// The part of the file that a line stands in, as far as it matters here.
#[derive(Clone, Copy, Debug, PartialEq, Eq, Structural)]
pub enum Section {
    /// Before the first header, or under a header other than the two below.
    Other,
    /// Under `[TimingPoints]`.
    TimingPoints,
    /// Under `[HitObjects]`.
    HitObjects,
}

/// The section that `line` opens, where it is one of the headers of the
/// format; `None` for any other line.
pub open spec fn header_section(line: Seq<u8>) -> Option<Section> {
    if line == ascii("[TimingPoints]") {
        Some(Section::TimingPoints)
    } else if line == ascii("[HitObjects]") {
        Some(Section::HitObjects)
    } else if line == ascii("[General]") || line == ascii("[Editor]") || line == ascii(
        "[Metadata]",
    ) || line == ascii("[Difficulty]") || line == ascii("[Events]") || line == ascii(
        "[Colours]",
    ) {
        Some(Section::Other)
    } else {
        None
    }
}

/// The section that is open behind the first `n` of the lines.
pub open spec fn section_after(lines: Seq<Seq<u8>>, n: int) -> Section
    decreases n,
{
    if n <= 0 {
        Section::Other
    } else {
        match header_section(lines[n - 1]) {
            Some(s) => s,
            None => section_after(lines, n - 1),
        }
    }
}

/// The separator of a key and its value.
pub const COLON: u8 = 58;

/// Whether `line` gives the name of the difficulty: the key `Version`, a
/// colon, and any value; the value may hold colons of its own.
pub open spec fn is_version_line(line: Seq<u8>) -> bool {
    split(line, COLON).len() >= 2 && split(line, COLON)[0] == ascii("Version")
}

/// Whether `line` holds exactly the ASCII text `lit`.
fn is_text(line: &[u8], lit: &str) -> (r: bool)
    requires
        lit.is_ascii(),
    ensures
        r == (line@ == ascii(lit)),
{
    broadcast use vstd::string::is_ascii_spec_bytes;

    assert(lit.spec_bytes() == ascii(lit));
    same_bytes(line, lit.as_bytes())
}

/// The section that `line` opens, if it is a header.
pub fn section_of(line: &[u8]) -> (r: Option<Section>)
    ensures
        r == header_section(line@),
{
    proof {
        reveal_strlit("[TimingPoints]");
        reveal_strlit("[HitObjects]");
        reveal_strlit("[General]");
        reveal_strlit("[Editor]");
        reveal_strlit("[Metadata]");
        reveal_strlit("[Difficulty]");
        reveal_strlit("[Events]");
        reveal_strlit("[Colours]");
    }
    if is_text(line, "[TimingPoints]") {
        Some(Section::TimingPoints)
    } else if is_text(line, "[HitObjects]") {
        Some(Section::HitObjects)
    } else if is_text(line, "[General]") || is_text(line, "[Editor]") || is_text(
        line,
        "[Metadata]",
    ) || is_text(line, "[Difficulty]") || is_text(line, "[Events]") || is_text(
        line,
        "[Colours]",
    ) {
        Some(Section::Other)
    } else {
        None
    }
}

/// Whether `line` gives the name of the difficulty.
pub fn version_line(line: &[u8]) -> (r: bool)
    ensures
        r == is_version_line(line@),
{
    let parts = split_bytes(line, COLON);
    if parts.len() < 2 {
        return false;
    }
    assert(views(parts@)[0] == parts@[0]@);
    proof {
        reveal_strlit("Version");
    }
    is_text(parts[0].as_slice(), "Version")
}

} // verus!
