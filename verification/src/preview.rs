//! The name of the file that a preview is written to.

use crate::text::{append, ascii, copy_range, find, find_byte};
use vstd::prelude::*;
use vstd::string::StringSliceAdditionalSpecFns;

verus! {

/// The bracket that opens the name of the difficulty in a file name.
pub const BRACKET: u8 = 91;

/// The point before the extension of a file name.
pub const POINT: u8 = 46;

/// The part of a file name that a preview keeps: what stands before the
/// first `[`, or, where there is none, before the first point.
pub open spec fn preview_stem(name: Seq<u8>) -> Seq<u8> {
    if find(name, BRACKET) < name.len() {
        name.subrange(0, find(name, BRACKET))
    } else {
        name.subrange(0, find(name, POINT))
    }
}

/// The name of the preview of the beatmap file `name`: its stem, and
/// `preview` in the place of the name of the difficulty.
pub open spec fn preview_name(name: Seq<u8>) -> Seq<u8> {
    preview_stem(name) + ascii("[preview].osu")
}

/// The name of the file that the preview of `name` is written to.
pub fn preview_file_name(name: &[u8]) -> (r: Vec<u8>)
    ensures
        r@ == preview_name(name@),
{
    let bracket = find_byte(name, BRACKET);
    let end = if bracket < name.len() {
        bracket
    } else {
        find_byte(name, POINT)
    };
    proof {
        crate::text::lemma_find(name@, POINT);
    }
    let mut r = copy_range(name, 0, end);
    let tail = "[preview].osu";
    proof {
        reveal_strlit("[preview].osu");
        vstd::string::is_ascii_spec_bytes(tail);
        assert(tail.spec_bytes() == ascii(tail));
    }
    append(&mut r, tail.as_bytes());
    r
}

} // verus!
