//! The two kinds of line that are read for their content: lines of the
//! timing section and lines of the hit-object section.

use crate::number::{
    is_float, is_float_text, is_number_byte, lemma_float_bytes, lemma_whole_number_bytes,
    parse_i32, parse_i32_spec,
};
use crate::time::{lemma_time_bytes, parse_time, parse_time_spec};
use crate::objects::{bare, MapObject, MapObjectClass, MapObjectView};
use crate::text::{copy_range, is_line, lemma_split_covers, split, split_bytes, views};
use vstd::prelude::*;

verus! {

/// The separator of the fields of a line.
pub const COMMA: u8 = 44;

/// The class of a timing point whose tempo flag is `uninherited`.
pub open spec fn class_of_flag(uninherited: i32) -> MapObjectClass {
    if uninherited == 1 {
        MapObjectClass::UniPoint
    } else {
        MapObjectClass::InhPoint
    }
}

/// Whether the eight fields `f` are those of a timing point: a time, a beat
/// length, and six whole numbers.
pub open spec fn are_timing_fields(f: Seq<Seq<u8>>) -> bool {
    &&& f.len() == 8
    &&& parse_time_spec(f[0]) is Some
    &&& is_float_text(f[1])
    &&& forall|i: int| 2 <= i < 8 ==> (#[trigger] parse_i32_spec(f[i])) is Some
}

/// The timing point that `line` is written as, or `None` where the line is
/// malformed: it has eight fields, separated by commas, and each is a number
/// of its kind.
pub open spec fn timing_point_of(line: Seq<u8>) -> Option<MapObjectView> {
    let f = split(line, COMMA);
    if are_timing_fields(f) {
        Some(
            MapObjectView {
                class: class_of_flag(parse_i32_spec(f[6])->0),
                time: parse_time_spec(f[0])->0,
                beatlength: f[1],
                meter: parse_i32_spec(f[2])->0,
                sampleset: parse_i32_spec(f[3])->0,
                sampleindex: parse_i32_spec(f[4])->0,
                volume: parse_i32_spec(f[5])->0,
                uninherited: parse_i32_spec(f[6])->0,
                effects: parse_i32_spec(f[7])->0,
                data: line,
            },
        )
    } else {
        None
    }
}

/// The hit object that `line` is written as, or `None` where the line is
/// malformed: its third field is its time, and nothing else of it is read.
pub open spec fn hit_object_of(line: Seq<u8>) -> Option<MapObjectView> {
    let f = split(line, COMMA);
    if f.len() >= 3 && parse_time_spec(f[2]) is Some {
        Some(bare(MapObjectClass::Hit, parse_time_spec(f[2])->0))
    } else {
        None
    }
}

/// Reads a line of the timing section.
pub fn parse_timing_point(line: &[u8]) -> (r: Option<MapObject>)
    ensures
        match r {
            Some(o) => timing_point_of(line@) == Some(o@),
            None => timing_point_of(line@) is None,
        },
{
    let fields = split_bytes(line, COMMA);
    let ghost f = split(line@, COMMA);
    if fields.len() != 8 {
        return None;
    }
    assert(forall|i: int| 0 <= i < 8 ==> f[i] == #[trigger] fields@[i]@) by {
        assert(forall|i: int| 0 <= i < 8 ==> views(fields@)[i] == fields@[i]@);
    }
    let time = match parse_time(fields[0].as_slice()) {
        Some(v) => v,
        None => {
            return None;
        },
    };
    if !is_float(fields[1].as_slice()) {
        return None;
    }
    let mut whole: Vec<i32> = Vec::new();
    let mut i: usize = 2;
    while i < 8
        invariant
            2 <= i <= 8,
            fields@.len() == 8,
            f == split(line@, COMMA),
            f.len() == 8,
            forall|j: int| 0 <= j < 8 ==> f[j] == #[trigger] fields@[j]@,
            whole@.len() == i - 2,
            forall|j: int| 2 <= j < i ==> (#[trigger] parse_i32_spec(f[j])) == Some(whole@[j - 2]),
        decreases 8 - i,
    {
        match parse_i32(fields[i].as_slice()) {
            Some(v) => {
                whole.push(v);
            },
            None => {
                assert(parse_i32_spec(f[i as int]) is None);
                return None;
            },
        }
        i += 1;
    }
    assert(parse_i32_spec(f[2]) == Some(whole@[0]));
    assert(parse_i32_spec(f[3]) == Some(whole@[1]));
    assert(parse_i32_spec(f[4]) == Some(whole@[2]));
    assert(parse_i32_spec(f[5]) == Some(whole@[3]));
    assert(parse_i32_spec(f[6]) == Some(whole@[4]));
    assert(parse_i32_spec(f[7]) == Some(whole@[5]));
    assert(are_timing_fields(f)) by {
        assert forall|j: int| 2 <= j < 8 implies (#[trigger] parse_i32_spec(f[j])) is Some by {
            assert(parse_i32_spec(f[j]) == Some(whole@[j - 2]));
        }
    }
    let uninherited = whole[4];
    let class = if uninherited == 1 {
        MapObjectClass::UniPoint
    } else {
        MapObjectClass::InhPoint
    };
    assert(fields@[1]@.subrange(0, fields@[1]@.len() as int) == fields@[1]@);
    assert(line@.subrange(0, line@.len() as int) == line@);
    Some(
        MapObject {
            class,
            time,
            beatlength: copy_range(fields[1].as_slice(), 0, fields[1].len()),
            meter: whole[0],
            sampleset: whole[1],
            sampleindex: whole[2],
            volume: whole[3],
            uninherited,
            effects: whole[5],
            data: copy_range(line, 0, line.len()),
        },
    )
}

/// Reads a line of the hit-object section.
pub fn parse_hit_object(line: &[u8]) -> (r: Option<MapObject>)
    ensures
        match r {
            Some(o) => hit_object_of(line@) == Some(o@),
            None => hit_object_of(line@) is None,
        },
{
    let fields = split_bytes(line, COMMA);
    let ghost f = split(line@, COMMA);
    if fields.len() < 3 {
        return None;
    }
    assert(f[2] == fields@[2]@) by {
        assert(views(fields@)[2] == fields@[2]@);
    }
    match parse_time(fields[2].as_slice()) {
        Some(time) => Some(MapObject::new_bare(MapObjectClass::Hit, time)),
        None => None,
    }
}

/// A timing point is written with the bytes of numbers and commas; so it
/// can stand as a line of a text.
pub proof fn lemma_timing_line(line: Seq<u8>)
    requires
        timing_point_of(line) is Some,
    ensures
        forall|i: int| 0 <= i < line.len() ==> line[i] == COMMA || is_number_byte(#[trigger] line[i]),
        is_line(line),
{
    let f = split(line, COMMA);
    let holds = |b: u8| is_number_byte(b);
    assert forall|j: int, k: int| 0 <= j < f.len() && 0 <= k < f[j].len() implies holds(
        #[trigger] f[j][k],
    ) by {
        if j == 0 {
            lemma_time_bytes(f[0]);
        } else if j == 1 {
            lemma_float_bytes(f[1]);
        } else {
            assert(parse_i32_spec(f[j]) is Some);
            lemma_whole_number_bytes(f[j]);
        }
    }
    lemma_split_covers(line, COMMA, holds);
    assert forall|i: int| 0 <= i < line.len() implies line[i] == COMMA || is_number_byte(
        #[trigger] line[i],
    ) by {
        assert(line[i] == COMMA || holds(line[i]));
    }
    if line.len() > 0 {
        assert(line[line.len() - 1] == COMMA || is_number_byte(line[line.len() - 1]));
    }
}

} // verus!
