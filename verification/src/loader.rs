//! Reading a beatmap: which of its lines are objects of the time axis.

use crate::apply::SVT;
use crate::lines::{hit_object_of, parse_hit_object, parse_timing_point, timing_point_of};
use crate::objects::{
    bare, insert_object, is_sorted, lemma_stable_sort, object_views, sorted_objects, stable_sort,
    MapObject, MapObjectClass, MapObjectView, SortKey,
};
use crate::sections::{header_section, section_after, section_of, Section};
use crate::text::{lines_of, split_lines, views};
use vstd::prelude::*;

verus! {

/// The object that `line` is read as where the section `section` is open
/// before it. A header is no object; a line of the timing section or of the
/// hit-object section is one unless it is malformed, and a malformed line is
/// passed over; no other line is read.
pub open spec fn object_of(line: Seq<u8>, section: Section) -> Option<MapObjectView> {
    if header_section(line) is Some {
        None
    } else {
        match section {
            Section::TimingPoints => timing_point_of(line),
            Section::HitObjects => hit_object_of(line),
            Section::Other => None,
        }
    }
}

/// The objects that the first `n` of the lines are read as, in the order of
/// the lines.
pub open spec fn scanned(lines: Seq<Seq<u8>>, n: int) -> Seq<MapObjectView>
    decreases n,
{
    if n <= 0 {
        Seq::empty()
    } else {
        match object_of(lines[n - 1], section_after(lines, n - 1)) {
            Some(o) => scanned(lines, n - 1).push(o),
            None => scanned(lines, n - 1),
        }
    }
}

/// The objects that a beatmap is read as, in the order of its lines.
pub open spec fn objects_of(content: Seq<u8>) -> Seq<MapObjectView> {
    scanned(lines_of(content), lines_of(content).len() as int)
}

/// A snapping at each of the times.
pub open spec fn snapping_objects(times: Seq<i32>) -> Seq<MapObjectView> {
    Seq::new(times.len(), |i: int| bare(MapObjectClass::Snapping, times[i]))
}

/// The timeline of a beatmap with snappings at the given times: its timing
/// points and hit objects and the snappings, in order of time, and at one
/// time tempo lines, velocity lines, snappings, hit objects.
pub open spec fn loaded(content: Seq<u8>, snappings: Seq<i32>) -> Seq<MapObjectView> {
    stable_sort(objects_of(content) + snapping_objects(snappings), SortKey::TimeClass)
}

/// Reads the timing points and hit objects of a beatmap, in the order of its
/// lines.
pub fn scan_objects(content: &[u8]) -> (r: Vec<MapObject>)
    ensures
        object_views(r@) == objects_of(content@),
{
    let lines = split_lines(content);
    let ghost l = lines_of(content@);
    let mut r: Vec<MapObject> = Vec::new();
    let mut section = Section::Other;
    let mut i: usize = 0;
    while i < lines.len()
        invariant
            i <= lines@.len(),
            l == views(lines@),
            section == section_after(l, i as int),
            object_views(r@) == scanned(l, i as int),
        decreases lines@.len() - i,
    {
        let line = lines[i].as_slice();
        assert(l[i as int] == line@);
        match section_of(line) {
            Some(s) => {
                section = s;
            },
            None => {
                let found = match section {
                    Section::TimingPoints => parse_timing_point(line),
                    Section::HitObjects => parse_hit_object(line),
                    Section::Other => None,
                };
                match found {
                    Some(o) => {
                        assert(object_views(r@.push(o)) == object_views(r@).push(o@));
                        r.push(o);
                    },
                    None => {},
                }
            },
        }
        i += 1;
    }
    r
}

impl SVT {
    /// Loads a beatmap anew: the timeline becomes that of `content` with
    /// snappings at the given times, and the points made so far are dropped.
    pub fn load_osu(&mut self, content: &[u8], snappings: &Vec<i32>)
        ensures
            final(self).timeline() == loaded(content@, snappings@),
            is_sorted(final(self).timeline(), SortKey::TimeClass),
            final(self).pending() == Seq::<MapObjectView>::empty(),
    {
        proof {
            lemma_stable_sort(
                objects_of(content@) + snapping_objects(snappings@),
                SortKey::TimeClass,
            );
        }
        let objects = scan_objects(content);
        let ghost read = object_views(objects@);
        let ghost snaps = snapping_objects(snappings@);
        let mut all = sorted_objects(&objects, SortKey::TimeClass);
        let mut i: usize = 0;
        assert(read + snaps.subrange(0, 0) == read);
        while i < snappings.len()
            invariant
                i <= snappings@.len(),
                snaps == snapping_objects(snappings@),
                object_views(all@) == stable_sort(
                    read + snaps.subrange(0, i as int),
                    SortKey::TimeClass,
                ),
            decreases snappings@.len() - i,
        {
            let x = MapObject::new_bare(MapObjectClass::Snapping, snappings[i]);
            proof {
                let t = read + snaps.subrange(0, i + 1);
                assert(t.drop_last() == read + snaps.subrange(0, i as int));
                assert(t.last() == x@);
            }
            insert_object(&mut all, x, SortKey::TimeClass);
            i += 1;
        }
        assert(snaps.subrange(0, i as int) == snaps);
        self.all_objs = all;
        self.new_objs = Vec::new();
    }
}

} // verus!
