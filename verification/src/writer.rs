//! Writing a beatmap with a new timing section.

use crate::apply::SVT;
use crate::merge::{
    accepted_points, deduped, merge_objects, merged_points, parse_spacing, spaced_objects,
    spacing_of, tidied,
};
use crate::objects::{
    object_views, sorted_objects, MapObject, MapObjectView, SortKey, SvtError,
};
use crate::sections::{
    header_section, is_version_line, section_after, section_of, version_line, Section,
};
use crate::text::{ascii, copy_range, join_lines, joined, lines_of, split_lines, views};
use vstd::prelude::*;
use vstd::string::StringSliceAdditionalSpecFns;

verus! {

/// The lines that the points are written as.
pub open spec fn point_lines(points: Seq<MapObjectView>) -> Seq<Seq<u8>> {
    Seq::new(points.len(), |i: int| points[i].data)
}

/// What is written for one line of the beatmap, where `section` is open
/// before it. Under the header of the timing section stand the new points
/// and one empty line. With `preview`, a line that names the difficulty
/// names it `preview`. Every other line is written as it is, but the old
/// lines of the timing section are left out.
pub open spec fn rendered_line(
    line: Seq<u8>,
    section: Section,
    points: Seq<Seq<u8>>,
    preview: bool,
) -> Seq<Seq<u8>> {
    match header_section(line) {
        Some(Section::TimingPoints) => seq![line] + points + seq![Seq::<u8>::empty()],
        Some(_) => seq![line],
        None => if preview && is_version_line(line) {
            seq![ascii("Version:preview")]
        } else if section != Section::TimingPoints {
            seq![line]
        } else {
            Seq::empty()
        },
    }
}

/// What is written for the first `n` lines of the beatmap.
pub open spec fn rendered(lines: Seq<Seq<u8>>, points: Seq<Seq<u8>>, preview: bool, n: int) -> Seq<
    Seq<u8>,
>
    decreases n,
{
    if n <= 0 {
        Seq::empty()
    } else {
        rendered(lines, points, preview, n - 1) + rendered_line(
            lines[n - 1],
            section_after(lines, n - 1),
            points,
            preview,
        )
    }
}

/// The beatmap `content` with the timing section `points`.
pub open spec fn output_text(content: Seq<u8>, points: Seq<MapObjectView>, preview: bool) -> Seq<
    u8,
> {
    joined(
        rendered(lines_of(content), point_lines(points), preview, lines_of(content).len() as int),
    )
}

/// What writing gives: the number of accepted points and the new text of
/// the beatmap. Nothing is written where no point was made, nor where the
/// minimal spacing is malformed or outside 0 to 1000.
pub open spec fn written(
    pending: Seq<MapObjectView>,
    timeline: Seq<MapObjectView>,
    spacing_text: Seq<u8>,
    content: Seq<u8>,
    preview: bool,
) -> Result<(int, Seq<u8>), SvtError> {
    if pending.len() == 0 {
        Err(SvtError::NoChanges)
    } else {
        match spacing_of(spacing_text) {
            None => Err(SvtError::Format),
            Some(m) => Ok(
                (
                    accepted_points(pending, m as int).len() as int,
                    output_text(content, merged_points(pending, timeline, m as int), preview),
                ),
            ),
        }
    }
}

/// Copies the lines of the beatmap and puts the points in the place of its
/// timing section.
pub fn render_lines(lines: &Vec<Vec<u8>>, points: &Vec<MapObject>, preview: bool) -> (r: Vec<
    Vec<u8>,
>)
    ensures
        views(r@) == rendered(
            views(lines@),
            point_lines(object_views(points@)),
            preview,
            lines@.len() as int,
        ),
{
    let ghost l = views(lines@);
    let ghost p = point_lines(object_views(points@));
    let mut r: Vec<Vec<u8>> = Vec::new();
    let mut section = Section::Other;
    let mut i: usize = 0;
    while i < lines.len()
        invariant
            i <= lines@.len(),
            l == views(lines@),
            p == point_lines(object_views(points@)),
            section == section_after(l, i as int),
            views(r@) == rendered(l, p, preview, i as int),
        decreases lines@.len() - i,
    {
        let line = lines[i].as_slice();
        let ghost before = views(r@);
        assert(l[i as int] == line@);
        assert(line@.subrange(0, line@.len() as int) == line@);
        match section_of(line) {
            Some(s) => {
                let copy = copy_range(line, 0, line.len());
                assert(views(r@.push(copy)) == views(r@).push(copy@));
                r.push(copy);
                match s {
                    Section::TimingPoints => {
                        let mut j: usize = 0;
                        while j < points.len()
                            invariant
                                j <= points@.len(),
                                p == point_lines(object_views(points@)),
                                views(r@) == before.push(line@) + p.subrange(0, j as int),
                            decreases points@.len() - j,
                        {
                            let data = &points[j].data;
                            let copy = copy_range(data.as_slice(), 0, data.len());
                            proof {
                                assert(data@.subrange(0, data@.len() as int) == data@);
                                assert(p[j as int] == data@);
                                assert(views(r@.push(copy)) == views(r@).push(copy@));
                                assert(p.subrange(0, j + 1) == p.subrange(0, j as int).push(
                                    p[j as int],
                                ));
                            }
                            r.push(copy);
                            j += 1;
                        }
                        let empty: Vec<u8> = Vec::new();
                        proof {
                            assert(p.subrange(0, j as int) == p);
                            assert(views(r@.push(empty)) == views(r@).push(empty@));
                            assert(empty@ == Seq::<u8>::empty());
                            assert((before.push(line@) + p).push(Seq::<u8>::empty()) == before + (
                            seq![line@] + p + seq![Seq::<u8>::empty()]));
                        }
                        r.push(empty);
                    },
                    _ => {
                        assert(before.push(line@) == before + seq![line@]);
                    },
                }
                section = s;
            },
            None => {
                if preview && version_line(line) {
                    let lit = "Version:preview";
                    proof {
                        reveal_strlit("Version:preview");
                        vstd::string::is_ascii_spec_bytes(lit);
                        assert(lit.spec_bytes() == ascii(lit));
                    }
                    let bytes = lit.as_bytes();
                    let copy = copy_range(bytes, 0, bytes.len());
                    proof {
                        assert(bytes@.subrange(0, bytes@.len() as int) == bytes@);
                        assert(views(r@.push(copy)) == views(r@).push(copy@));
                        assert(before.push(copy@) == before + seq![copy@]);
                    }
                    r.push(copy);
                } else if section != Section::TimingPoints {
                    let copy = copy_range(line, 0, line.len());
                    proof {
                        assert(views(r@.push(copy)) == views(r@).push(copy@));
                        assert(before.push(line@) == before + seq![line@]);
                    }
                    r.push(copy);
                } else {
                    assert(before + Seq::<Seq<u8>>::empty() == before);
                }
            },
        }
        i += 1;
    }
    r
}

/// The text of the beatmap `content` with the timing section `points`.
pub fn render(content: &[u8], points: &Vec<MapObject>, preview: bool) -> (r: Vec<u8>)
    ensures
        r@ == output_text(content@, object_views(points@), preview),
{
    let lines = split_lines(content);
    let out = render_lines(&lines, points, preview);
    join_lines(&out)
}

impl SVT {
    /// Thins out the points made so far under the minimal spacing of
    /// `min_spacing_text`, merges them with the timing points of the
    /// timeline, and gives the number of accepted points and the text of the
    /// beatmap `content` with the merged timing section. The points made so
    /// far are left in order of time. Where writing is refused, nothing
    /// changes.
    pub fn write_output_points(&mut self, min_spacing_text: &[u8], content: &[u8], preview: bool) -> (r:
        Result<(usize, Vec<u8>), SvtError>)
        ensures
            final(self).timeline() == old(self).timeline(),
            match r {
                Ok((count, text)) => {
                    &&& written(
                        old(self).pending(),
                        old(self).timeline(),
                        min_spacing_text@,
                        content@,
                        preview,
                    ) == Ok::<(int, Seq<u8>), SvtError>((count as int, text@))
                    &&& final(self).pending() == tidied(old(self).pending())
                },
                Err(e) => {
                    &&& written(
                        old(self).pending(),
                        old(self).timeline(),
                        min_spacing_text@,
                        content@,
                        preview,
                    ) == Err::<(int, Seq<u8>), SvtError>(e)
                    &&& final(self).pending() == old(self).pending()
                },
            },
    {
        if self.new_objs.len() == 0 {
            return Err(SvtError::NoChanges);
        }
        let m = match parse_spacing(min_spacing_text) {
            Some(m) => m,
            None => {
                return Err(SvtError::Format);
            },
        };
        let sorted = sorted_objects(&self.new_objs, SortKey::TimeClass);
        self.new_objs = deduped(&sorted, SortKey::TimeClass);
        let accepted = spaced_objects(&self.new_objs, m);
        let merged = merge_objects(&accepted, &self.all_objs, m);
        let text = render(content, &merged, preview);
        Ok((accepted.len(), text))
    }
}

} // verus!
