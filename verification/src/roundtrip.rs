//! Writing a beatmap and reading it again.

use crate::apply::{beatlengths_fit, generated_points, lemma_point_reads_back, Sample};
use crate::lines::{hit_object_of, lemma_timing_line, timing_point_of, COMMA};
use crate::number::is_float_text;
use crate::loader::{loaded, object_of, objects_of, scanned, snapping_objects};
use crate::merge::{accepted_points, dedup, merged_points, spaced, survivors, tidied};
use crate::objects::{
    lemma_upper_bound, sort_key, stable_sort, upper_bound, MapObjectClass, MapObjectView, SortKey,
};
use crate::sections::{header_section, section_after, Section};
use crate::text::{
    ascii, is_line, lemma_find_is, lemma_lines_of, lemma_lines_of_joined, lines_of, split,
    NEWLINE, RETURN,
};
use crate::writer::{output_text, point_lines, rendered, rendered_line};
use vstd::prelude::*;

verus! {

/// The timing points among the objects, in their order.
pub open spec fn timing_only(s: Seq<MapObjectView>) -> Seq<MapObjectView>
    decreases s.len(),
{
    if s.len() == 0 {
        Seq::empty()
    } else if s.last().class.is_timing_point() {
        timing_only(s.drop_last()).push(s.last())
    } else {
        timing_only(s.drop_last())
    }
}

/// The timing points that the lines are read as. Every line is taken to be
/// one.
pub open spec fn read_points(points: Seq<Seq<u8>>) -> Seq<MapObjectView> {
    Seq::new(points.len(), |i: int| timing_point_of(points[i])->0)
}

/// Whether every one of the lines is a well-formed timing point.
pub open spec fn are_timing_lines(points: Seq<Seq<u8>>) -> bool {
    forall|i: int| 0 <= i < points.len() ==> (#[trigger] timing_point_of(points[i])) is Some
}

/// How many of the first `n` lines open a timing section.
pub open spec fn timing_headers(lines: Seq<Seq<u8>>, n: int) -> nat
    decreases n,
{
    if n <= 0 {
        0
    } else if header_section(lines[n - 1]) == Some(Section::TimingPoints) {
        timing_headers(lines, n - 1) + 1
    } else {
        timing_headers(lines, n - 1)
    }
}

/// `s`, `k` times in a row.
pub open spec fn copies(s: Seq<MapObjectView>, k: nat) -> Seq<MapObjectView>
    decreases k,
{
    if k == 0 {
        Seq::empty()
    } else {
        copies(s, (k - 1) as nat) + s
    }
}

/// The section that is open behind the first `n` of the lines where `start`
/// is open before them.
pub open spec fn section_from(start: Section, lines: Seq<Seq<u8>>, n: int) -> Section
    decreases n,
{
    if n <= 0 {
        start
    } else {
        match header_section(lines[n - 1]) {
            Some(s) => s,
            None => section_from(start, lines, n - 1),
        }
    }
}

/// The objects that the first `n` of the lines are read as where `start` is
/// open before them.
pub open spec fn scanned_from(start: Section, lines: Seq<Seq<u8>>, n: int) -> Seq<MapObjectView>
    decreases n,
{
    if n <= 0 {
        Seq::empty()
    } else {
        match object_of(lines[n - 1], section_from(start, lines, n - 1)) {
            Some(o) => scanned_from(start, lines, n - 1).push(o),
            None => scanned_from(start, lines, n - 1),
        }
    }
}

proof fn lemma_from_the_start(lines: Seq<Seq<u8>>, n: int)
    ensures
        section_after(lines, n) == section_from(Section::Other, lines, n),
        scanned(lines, n) == scanned_from(Section::Other, lines, n),
    decreases n,
{
    if n > 0 {
        lemma_from_the_start(lines, n - 1);
    }
}

/// What is read from the front of a list of lines does not depend on what
/// follows.
proof fn lemma_prefix(start: Section, a: Seq<Seq<u8>>, b: Seq<Seq<u8>>, n: int)
    requires
        n <= a.len(),
    ensures
        section_from(start, a + b, n) == section_from(start, a, n),
        scanned_from(start, a + b, n) == scanned_from(start, a, n),
    decreases n,
{
    if n > 0 {
        lemma_prefix(start, a, b, n - 1);
        assert((a + b)[n - 1] == a[n - 1]);
    }
}

/// Reading two lists of lines in a row is reading the first and then, from
/// the section that it leaves open, the second.
proof fn lemma_append(start: Section, a: Seq<Seq<u8>>, b: Seq<Seq<u8>>, k: int)
    requires
        0 <= k <= b.len(),
    ensures
        section_from(start, a + b, a.len() + k) == section_from(
            section_from(start, a, a.len() as int),
            b,
            k,
        ),
        scanned_from(start, a + b, a.len() + k) == scanned_from(start, a, a.len() as int)
            + scanned_from(section_from(start, a, a.len() as int), b, k),
    decreases k,
{
    if k == 0 {
        lemma_prefix(start, a, b, a.len() as int);
        assert(scanned_from(start, a, a.len() as int) + Seq::<MapObjectView>::empty()
            == scanned_from(start, a, a.len() as int));
    } else {
        lemma_append(start, a, b, k - 1);
        assert((a + b)[a.len() + k - 1] == b[k - 1]);
        let mid = section_from(start, a, a.len() as int);
        let front = scanned_from(start, a, a.len() as int);
        let back = scanned_from(mid, b, k - 1);
        match object_of(b[k - 1], section_from(mid, b, k - 1)) {
            Some(o) => {
                assert((front + back).push(o) == front + back.push(o));
            },
            None => {},
        }
    }
}

/// The timing points of two lists in a row are those of the first and then
/// those of the second.
pub proof fn lemma_timing_only_add(a: Seq<MapObjectView>, b: Seq<MapObjectView>)
    ensures
        timing_only(a + b) == timing_only(a) + timing_only(b),
    decreases b.len(),
{
    if b.len() == 0 {
        assert(a + b == a);
        assert(timing_only(a) + Seq::<MapObjectView>::empty() == timing_only(a));
    } else {
        lemma_timing_only_add(a, b.drop_last());
        assert((a + b).drop_last() == a + b.drop_last());
        assert((a + b).last() == b.last());
        if b.last().class.is_timing_point() {
            assert((timing_only(a) + timing_only(b.drop_last())).push(b.last()) == timing_only(a)
                + timing_only(b.drop_last()).push(b.last()));
        }
    }
}

/// A text without a comma is one field.
proof fn lemma_one_field(s: Seq<u8>)
    requires
        forall|i: int| 0 <= i < s.len() ==> s[i] != COMMA,
    ensures
        split(s, COMMA) == seq![s],
        timing_point_of(s) is None,
        hit_object_of(s) is None,
{
    lemma_find_is(s, COMMA, s.len() as int);
}

/// A header is no timing point and no hit object.
proof fn lemma_header_is_no_object(line: Seq<u8>)
    requires
        header_section(line) is Some,
    ensures
        timing_point_of(line) is None,
        hit_object_of(line) is None,
{
    reveal_strlit("[TimingPoints]");
    reveal_strlit("[HitObjects]");
    reveal_strlit("[General]");
    reveal_strlit("[Editor]");
    reveal_strlit("[Metadata]");
    reveal_strlit("[Difficulty]");
    reveal_strlit("[Events]");
    reveal_strlit("[Colours]");
    lemma_one_field(line);
}

/// The line that names a preview is no header and no object.
proof fn lemma_preview_line()
    ensures
        header_section(ascii("Version:preview")) is None,
        timing_point_of(ascii("Version:preview")) is None,
        hit_object_of(ascii("Version:preview")) is None,
{
    reveal_strlit("Version:preview");
    reveal_strlit("[TimingPoints]");
    reveal_strlit("[HitObjects]");
    reveal_strlit("[General]");
    reveal_strlit("[Editor]");
    reveal_strlit("[Metadata]");
    reveal_strlit("[Difficulty]");
    reveal_strlit("[Events]");
    reveal_strlit("[Colours]");
    let s = ascii("Version:preview");
    assert(s.len() == 15);
    lemma_one_field(s);
}

/// An empty line is no header and no object.
proof fn lemma_empty_line()
    ensures
        header_section(Seq::<u8>::empty()) is None,
        timing_point_of(Seq::<u8>::empty()) is None,
        hit_object_of(Seq::<u8>::empty()) is None,
{
    reveal_strlit("[TimingPoints]");
    reveal_strlit("[HitObjects]");
    reveal_strlit("[General]");
    reveal_strlit("[Editor]");
    reveal_strlit("[Metadata]");
    reveal_strlit("[Difficulty]");
    reveal_strlit("[Events]");
    reveal_strlit("[Colours]");
    lemma_one_field(Seq::<u8>::empty());
}

/// In a timing section, lines that are timing points are read as those
/// points, and leave the section open.
proof fn lemma_points_are_read(points: Seq<Seq<u8>>, n: int)
    requires
        are_timing_lines(points),
        0 <= n <= points.len(),
    ensures
        section_from(Section::TimingPoints, points, n) == Section::TimingPoints,
        scanned_from(Section::TimingPoints, points, n) == read_points(points).subrange(0, n),
        timing_only(read_points(points).subrange(0, n)) == read_points(points).subrange(0, n),
    decreases n,
{
    let r = read_points(points);
    if n > 0 {
        lemma_points_are_read(points, n - 1);
        let p = points[n - 1];
        assert(timing_point_of(p) is Some);
        if header_section(p) is Some {
            lemma_header_is_no_object(p);
        }
        assert(r.subrange(0, n) == r.subrange(0, n - 1).push(r[n - 1]));
        assert(r.subrange(0, n).drop_last() == r.subrange(0, n - 1));
        assert(r[n - 1].class.is_timing_point());
    } else {
        assert(r.subrange(0, 0) == Seq::<MapObjectView>::empty());
    }
}

/// What is read from the lines that are written for one line of a beatmap:
/// the section that the line leaves open, and timing points only where the
/// line opens a timing section, and then the points that were written.
proof fn lemma_rendered_line(line: Seq<u8>, section: Section, points: Seq<Seq<u8>>, preview: bool)
    requires
        are_timing_lines(points),
    ensures
        ({
            let chunk = rendered_line(line, section, points, preview);
            &&& section_from(section, chunk, chunk.len() as int) == section_from(
                section,
                seq![line],
                1,
            )
            &&& timing_only(scanned_from(section, chunk, chunk.len() as int)) == if header_section(
                line,
            ) == Some(Section::TimingPoints) {
                read_points(points)
            } else {
                Seq::empty()
            }
        }),
{
    let chunk = rendered_line(line, section, points, preview);
    let one = seq![line];
    assert(one[0] == line);
    assert(section_from(section, one, 0) == section);
    match header_section(line) {
        Some(Section::TimingPoints) => {
            let head = seq![line];
            let tail = seq![Seq::<u8>::empty()];
            lemma_header_is_no_object(line);
            lemma_empty_line();
            lemma_points_are_read(points, points.len() as int);
            assert(read_points(points).subrange(0, points.len() as int) == read_points(points));
            // the header
            assert(scanned_from(section, head, 0) == Seq::<MapObjectView>::empty());
            assert(scanned_from(section, head, 1) == Seq::<MapObjectView>::empty());
            assert(section_from(section, head, 1) == Section::TimingPoints);
            // the header and the points
            lemma_append(section, head, points, points.len() as int);
            let both = head + points;
            assert(both.len() == 1 + points.len());
            assert(section_from(section, both, both.len() as int) == Section::TimingPoints);
            assert(scanned_from(section, both, both.len() as int) == Seq::<MapObjectView>::empty()
                + read_points(points));
            assert(Seq::<MapObjectView>::empty() + read_points(points) == read_points(points));
            // and the empty line
            assert(tail[0] == Seq::<u8>::empty());
            assert(section_from(Section::TimingPoints, tail, 0) == Section::TimingPoints);
            assert(scanned_from(Section::TimingPoints, tail, 0) == Seq::<MapObjectView>::empty());
            assert(scanned_from(Section::TimingPoints, tail, 1) == Seq::<MapObjectView>::empty());
            assert(section_from(Section::TimingPoints, tail, 1) == Section::TimingPoints);
            lemma_append(section, both, tail, 1);
            assert(chunk == both + tail);
            assert(read_points(points) + Seq::<MapObjectView>::empty() == read_points(points));
        },
        Some(_) => {
            lemma_header_is_no_object(line);
            assert(chunk == one);
            assert(scanned_from(section, one, 0) == Seq::<MapObjectView>::empty());
            assert(scanned_from(section, one, 1) == Seq::<MapObjectView>::empty());
        },
        None => {
            if preview && crate::sections::is_version_line(line) {
                lemma_preview_line();
                let v = seq![ascii("Version:preview")];
                assert(chunk == v);
                assert(v[0] == ascii("Version:preview"));
                assert(section_from(section, v, 0) == section);
                assert(scanned_from(section, v, 0) == Seq::<MapObjectView>::empty());
                assert(scanned_from(section, v, 1) == Seq::<MapObjectView>::empty());
                assert(section_from(section, v, 1) == section);
            } else if section != Section::TimingPoints {
                assert(chunk == one);
                assert(scanned_from(section, one, 0) == Seq::<MapObjectView>::empty());
                match object_of(line, section) {
                    Some(o) => {
                        assert(section == Section::HitObjects);
                        assert(o.class == MapObjectClass::Hit);
                        let s = scanned_from(section, one, 1);
                        assert(s == Seq::<MapObjectView>::empty().push(o));
                        assert(s.drop_last() == Seq::<MapObjectView>::empty());
                        assert(s.last() == o);
                        assert(timing_only(s.drop_last()) == Seq::<MapObjectView>::empty());
                        assert(!o.class.is_timing_point());
                        assert(timing_only(s) == Seq::<MapObjectView>::empty());
                    },
                    None => {},
                }
            } else {
                assert(chunk == Seq::<Seq<u8>>::empty());
            }
        },
    }
}

/// What is read from the lines that are written for the first `n` lines of
/// a beatmap: the section that those lines leave open, and as timing points
/// the points that were written, once for each timing section.
pub proof fn lemma_rendered_prefix(lines: Seq<Seq<u8>>, points: Seq<Seq<u8>>, preview: bool, n: int)
    requires
        are_timing_lines(points),
        0 <= n <= lines.len(),
    ensures
        ({
            let out = rendered(lines, points, preview, n);
            &&& section_after(out, out.len() as int) == section_after(lines, n)
            &&& timing_only(scanned(out, out.len() as int)) == copies(
                read_points(points),
                timing_headers(lines, n),
            )
        }),
    decreases n,
{
    let out = rendered(lines, points, preview, n);
    lemma_from_the_start(out, out.len() as int);
    if n > 0 {
        let before = rendered(lines, points, preview, n - 1);
        let line = lines[n - 1];
        let section = section_after(lines, n - 1);
        let chunk = rendered_line(line, section, points, preview);
        lemma_rendered_prefix(lines, points, preview, n - 1);
        lemma_from_the_start(before, before.len() as int);
        lemma_rendered_line(line, section, points, preview);
        lemma_append(Section::Other, before, chunk, chunk.len() as int);
        lemma_timing_only_add(
            scanned_from(Section::Other, before, before.len() as int),
            scanned_from(section, chunk, chunk.len() as int),
        );
        let one = seq![line];
        assert(one[0] == line);
        assert(section_from(section, one, 0) == section);
        let made = copies(read_points(points), timing_headers(lines, n - 1));
        if header_section(line) != Some(Section::TimingPoints) {
            assert(made + Seq::<MapObjectView>::empty() == made);
        }
    }
}

/// Writing a beatmap and reading what was written gives the timing points
/// that were written: where the beatmap has one timing section and every
/// point is written as a well-formed line, the timing points that are read
/// from the new lines are the points, in the order in which they were
/// handed in.
pub proof fn lemma_round_trip(lines: Seq<Seq<u8>>, points: Seq<Seq<u8>>, preview: bool)
    requires
        are_timing_lines(points),
        timing_headers(lines, lines.len() as int) == 1,
    ensures
        ({
            let out = rendered(lines, points, preview, lines.len() as int);
            timing_only(scanned(out, out.len() as int)) == read_points(points)
        }),
{
    lemma_rendered_prefix(lines, points, preview, lines.len() as int);
    let r = read_points(points);
    assert(copies(r, 0) == Seq::<MapObjectView>::empty());
    assert(copies(r, 1) == copies(r, 0) + r);
    assert(Seq::<MapObjectView>::empty() + r == r);
}

/// Every line that is written can stand as a line of a text, where the
/// lines of the beatmap and the lines of the points can.
proof fn lemma_rendered_lines(lines: Seq<Seq<u8>>, points: Seq<Seq<u8>>, preview: bool, n: int)
    requires
        0 <= n <= lines.len(),
        forall|i: int| 0 <= i < lines.len() ==> is_line(#[trigger] lines[i]),
        forall|i: int| 0 <= i < points.len() ==> is_line(#[trigger] points[i]),
    ensures
        forall|i: int|
            0 <= i < rendered(lines, points, preview, n).len() ==> is_line(
                #[trigger] rendered(lines, points, preview, n)[i],
            ),
    decreases n,
{
    if n > 0 {
        lemma_rendered_lines(lines, points, preview, n - 1);
        let before = rendered(lines, points, preview, n - 1);
        let line = lines[n - 1];
        let chunk = rendered_line(line, section_after(lines, n - 1), points, preview);
        let out = rendered(lines, points, preview, n);
        assert(is_line(line));
        assert(is_line(Seq::<u8>::empty()));
        assert(is_line(ascii("Version:preview"))) by {
            reveal_strlit("Version:preview");
        }
        assert forall|i: int| 0 <= i < chunk.len() implies is_line(#[trigger] chunk[i]) by {
            match header_section(line) {
                Some(Section::TimingPoints) => {
                    if 1 <= i <= points.len() {
                        assert(chunk[i] == points[i - 1]);
                    }
                },
                Some(_) => {},
                None => {},
            }
        }
        assert forall|i: int| 0 <= i < out.len() implies is_line(#[trigger] out[i]) by {
            if i < before.len() {
                assert(out[i] == before[i]);
            } else {
                assert(out[i] == chunk[i - before.len()]);
            }
        }
    }
}

/// Writing a beatmap and reading the text that was written gives the timing
/// points that were written: where the beatmap has one timing section, none
/// of its lines ends with a return, and every point is written as a
/// well-formed line, the timing points that are read from the new text are
/// the points, in the order in which they were handed in.
pub proof fn lemma_text_round_trip(content: Seq<u8>, points: Seq<MapObjectView>, preview: bool)
    requires
        are_timing_lines(point_lines(points)),
        timing_headers(lines_of(content), lines_of(content).len() as int) == 1,
        forall|i: int|
            0 <= i < lines_of(content).len() ==> !((#[trigger] lines_of(content)[i]).len() > 0
                && lines_of(content)[i].last() == RETURN),
    ensures
        timing_only(objects_of(output_text(content, points, preview))) == read_points(
            point_lines(points),
        ),
{
    let lines = lines_of(content);
    let p = point_lines(points);
    let out = rendered(lines, p, preview, lines.len() as int);
    lemma_lines_of(content);
    assert forall|i: int| 0 <= i < lines.len() implies is_line(#[trigger] lines[i]) by {
        assert(!(lines[i].len() > 0 && lines[i].last() == RETURN));
        assert forall|k: int| 0 <= k < lines[i].len() implies lines[i][k] != NEWLINE by {
            assert(lines_of(content)[i][k] != NEWLINE);
        }
    }
    assert forall|i: int| 0 <= i < p.len() implies is_line(#[trigger] p[i]) by {
        assert(timing_point_of(p[i]) is Some);
        lemma_timing_line(p[i]);
    }
    lemma_rendered_lines(lines, p, preview, lines.len() as int);
    lemma_lines_of_joined(out);
    lemma_round_trip(lines, p, preview);
}

/// A timing point that was read from a beatmap is written as the line it
/// was read from, and that line reads back as the point.
pub proof fn lemma_read_points_read_back(lines: Seq<Seq<u8>>, n: int)
    requires
        0 <= n <= lines.len(),
    ensures
        forall|i: int|
            0 <= i < scanned(lines, n).len() && (#[trigger] scanned(
                lines,
                n,
            )[i]).class.is_timing_point() ==> timing_point_of(scanned(lines, n)[i].data) == Some(
                scanned(lines, n)[i],
            ),
    decreases n,
{
    if n > 0 {
        lemma_read_points_read_back(lines, n - 1);
        let before = scanned(lines, n - 1);
        let now = scanned(lines, n);
        assert forall|i: int| 0 <= i < now.len() && (#[trigger] now[i]).class.is_timing_point()
            implies timing_point_of(now[i].data) == Some(now[i]) by {
            if i < before.len() {
                assert(now[i] == before[i]);
            }
        }
    }
}

/// Whether `holds` is true of every one of the objects.
pub open spec fn all_of(s: Seq<MapObjectView>, holds: spec_fn(MapObjectView) -> bool) -> bool {
    forall|i: int| 0 <= i < s.len() ==> holds(#[trigger] s[i])
}

/// Sorting brings in no object: what holds of every object of a list holds
/// of every object of the sorted list.
pub proof fn lemma_sorted_all(
    s: Seq<MapObjectView>,
    k: SortKey,
    holds: spec_fn(MapObjectView) -> bool,
)
    requires
        all_of(s, holds),
    ensures
        all_of(stable_sort(s, k), holds),
    decreases s.len(),
{
    if s.len() > 0 {
        let t = s.drop_last();
        assert forall|i: int| 0 <= i < t.len() implies holds(#[trigger] t[i]) by {
            assert(t[i] == s[i]);
        }
        lemma_sorted_all(t, k, holds);
        let sorted = stable_sort(t, k);
        let x = s.last();
        assert(holds(s[s.len() - 1]));
        let p = upper_bound(sorted, sort_key(x, k), k);
        lemma_upper_bound(sorted, sort_key(x, k), k);
        let r = stable_sort(s, k);
        assert(r == sorted.insert(p, x));
        assert forall|i: int| 0 <= i < r.len() implies holds(#[trigger] r[i]) by {
            if i < p {
                assert(r[i] == sorted[i]);
            } else if i > p {
                assert(r[i] == sorted[i - 1]);
            }
        }
    }
}

/// Dropping objects of one key brings in no object.
pub proof fn lemma_dedup_all(
    s: Seq<MapObjectView>,
    k: SortKey,
    holds: spec_fn(MapObjectView) -> bool,
)
    requires
        all_of(s, holds),
    ensures
        all_of(dedup(s, k), holds),
    decreases s.len(),
{
    if s.len() > 0 {
        let t = s.drop_last();
        assert forall|i: int| 0 <= i < t.len() implies holds(#[trigger] t[i]) by {
            assert(t[i] == s[i]);
        }
        lemma_dedup_all(t, k, holds);
        assert(holds(s[s.len() - 1]));
        let d = dedup(t, k);
        let r = dedup(s, k);
        assert forall|i: int| 0 <= i < r.len() implies holds(#[trigger] r[i]) by {
            if i < d.len() {
                assert(r[i] == d[i]);
            }
        }
    }
}

/// Thinning out brings in no object.
pub proof fn lemma_spaced_all(s: Seq<MapObjectView>, m: int, holds: spec_fn(MapObjectView) -> bool)
    requires
        all_of(s, holds),
    ensures
        all_of(spaced(s, m), holds),
    decreases s.len(),
{
    if s.len() > 0 {
        let t = s.drop_last();
        assert forall|i: int| 0 <= i < t.len() implies holds(#[trigger] t[i]) by {
            assert(t[i] == s[i]);
        }
        lemma_spaced_all(t, m, holds);
        assert(holds(s[s.len() - 1]));
        let d = spaced(t, m);
        let r = spaced(s, m);
        assert forall|i: int| 0 <= i < r.len() implies holds(#[trigger] r[i]) by {
            if i < d.len() {
                assert(r[i] == d[i]);
            }
        }
    }
}

/// The objects of the timeline that stay are timing points of the timeline.
pub proof fn lemma_survivors_all(
    timeline: Seq<MapObjectView>,
    accepted: Seq<MapObjectView>,
    m: int,
    n: int,
    holds: spec_fn(MapObjectView) -> bool,
)
    requires
        0 <= n <= timeline.len(),
        forall|i: int|
            0 <= i < timeline.len() && (#[trigger] timeline[i]).class.is_timing_point() ==> holds(
                timeline[i],
            ),
    ensures
        all_of(survivors(timeline, accepted, m, n), holds),
    decreases n,
{
    if n > 0 {
        lemma_survivors_all(timeline, accepted, m, n - 1, holds);
        let d = survivors(timeline, accepted, m, n - 1);
        let r = survivors(timeline, accepted, m, n);
        assert forall|i: int| 0 <= i < r.len() implies holds(#[trigger] r[i]) by {
            if i < d.len() {
                assert(r[i] == d[i]);
            } else {
                assert(r[i] == timeline[n - 1]);
                assert(timeline[n - 1].class.is_timing_point());
            }
        }
    }
}

/// A merged timing section holds nothing but points that were made and
/// timing points of the timeline: what holds of all of those holds of every
/// point of the section.
pub proof fn lemma_merged_all(
    pending: Seq<MapObjectView>,
    timeline: Seq<MapObjectView>,
    m: int,
    holds: spec_fn(MapObjectView) -> bool,
)
    requires
        all_of(pending, holds),
        forall|i: int|
            0 <= i < timeline.len() && (#[trigger] timeline[i]).class.is_timing_point() ==> holds(
                timeline[i],
            ),
    ensures
        all_of(merged_points(pending, timeline, m), holds),
{
    lemma_sorted_all(pending, SortKey::TimeClass, holds);
    lemma_dedup_all(stable_sort(pending, SortKey::TimeClass), SortKey::TimeClass, holds);
    lemma_spaced_all(tidied(pending), m, holds);
    let accepted = accepted_points(pending, m);
    let stay = survivors(timeline, accepted, m, timeline.len() as int);
    lemma_survivors_all(timeline, accepted, m, timeline.len() as int, holds);
    let all = accepted + stay;
    assert forall|i: int| 0 <= i < all.len() implies holds(#[trigger] all[i]) by {
        if i < accepted.len() {
            assert(all[i] == accepted[i]);
        } else {
            assert(all[i] == stay[i - accepted.len()]);
        }
    }
    lemma_sorted_all(all, SortKey::TimePriority, holds);
    lemma_dedup_all(stable_sort(all, SortKey::TimePriority), SortKey::TimePriority, holds);
}

/// Whether the object is written as a well-formed timing point.
pub open spec fn is_written(o: MapObjectView) -> bool {
    timing_point_of(o.data) is Some
}

/// Every timing point of a timeline that was loaded is written as a
/// well-formed line, and that line reads back as the point. So its class
/// goes by its tempo flag: the tempo lines are the points of flag 1.
pub proof fn lemma_loaded_points(content: Seq<u8>, snappings: Seq<i32>)
    ensures
        forall|i: int|
            0 <= i < loaded(content, snappings).len() && (#[trigger] loaded(
                content,
                snappings,
            )[i]).class.is_timing_point() ==> {
                &&& timing_point_of(loaded(content, snappings)[i].data) == Some(
                    loaded(content, snappings)[i],
                )
                &&& loaded(content, snappings)[i].class == crate::lines::class_of_flag(
                    loaded(content, snappings)[i].uninherited,
                )
            },
{
    let lines = lines_of(content);
    let read = objects_of(content);
    let snaps = snapping_objects(snappings);
    let all = read + snaps;
    let holds = |o: MapObjectView| o.class.is_timing_point() ==> timing_point_of(o.data) == Some(o);
    lemma_read_points_read_back(lines, lines.len() as int);
    assert forall|i: int| 0 <= i < all.len() implies holds(#[trigger] all[i]) by {
        if i < read.len() {
            assert(all[i] == read[i]);
        } else {
            assert(all[i] == snaps[i - read.len()]);
        }
    }
    lemma_sorted_all(all, SortKey::TimeClass, holds);
    let tl = loaded(content, snappings);
    assert forall|i: int| 0 <= i < tl.len() && (#[trigger] tl[i]).class.is_timing_point()
        implies timing_point_of(tl[i].data) == Some(tl[i]) && tl[i].class
        == crate::lines::class_of_flag(tl[i].uninherited) by {
        assert(holds(tl[i]));
    }
}

/// Loading, merging, writing and reading again: where a beatmap with one
/// timing section, none of whose lines ends with a return, was loaded, and
/// every point that was made is written as a well-formed line, the timing
/// points that are read from the text that is written are the merged points
/// as their lines read.
pub proof fn lemma_written_reads_back(
    content: Seq<u8>,
    snappings: Seq<i32>,
    pending: Seq<MapObjectView>,
    m: int,
    preview: bool,
)
    requires
        all_of(pending, |o: MapObjectView| is_written(o)),
        timing_headers(lines_of(content), lines_of(content).len() as int) == 1,
        forall|i: int|
            0 <= i < lines_of(content).len() ==> !((#[trigger] lines_of(content)[i]).len() > 0
                && lines_of(content)[i].last() == RETURN),
    ensures
        ({
            let points = merged_points(pending, loaded(content, snappings), m);
            timing_only(objects_of(output_text(content, points, preview))) == read_points(
                point_lines(points),
            )
        }),
{
    let timeline = loaded(content, snappings);
    let points = merged_points(pending, timeline, m);
    let holds = |o: MapObjectView| is_written(o);
    lemma_loaded_points(content, snappings);
    assert forall|i: int|
        0 <= i < timeline.len() && (#[trigger] timeline[i]).class.is_timing_point() implies holds(
        timeline[i],
    ) by {
        assert(timing_point_of(timeline[i].data) == Some(timeline[i]));
    }
    lemma_merged_all(pending, timeline, m, holds);
    let p = point_lines(points);
    assert forall|i: int| 0 <= i < p.len() implies (#[trigger] timing_point_of(p[i])) is Some by {
        assert(holds(points[i]));
    }
    lemma_text_round_trip(content, points, preview);
}

/// The points that are made from samples and well-formed beat lengths are
/// written as well-formed lines, where every volume is one that a line can
/// hold.
pub proof fn lemma_generated_written(samples: Seq<Sample>, beatlengths: Seq<Seq<u8>>)
    requires
        beatlengths_fit(samples, beatlengths),
        forall|i: int| 0 <= i < samples.len() ==> i32::MIN <= (#[trigger] samples[i]).volume <= i32::MAX,
    ensures
        all_of(generated_points(samples, beatlengths), |o: MapObjectView| is_written(o)),
{
    let points = generated_points(samples, beatlengths);
    assert forall|i: int| 0 <= i < points.len() implies is_written(#[trigger] points[i]) by {
        assert(is_float_text(beatlengths[i]));
        assert(i32::MIN <= samples[i].volume <= i32::MAX);
        lemma_point_reads_back(samples[i], beatlengths[i]);
    }
}

} // verus!
