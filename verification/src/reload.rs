//! Writing a beatmap and loading what was written.

use crate::apply::{beatlengths_fit, generated_points, lemma_point_reads_back, Sample};
use crate::lines::{class_of_flag, timing_point_of};
use crate::number::is_float_text;
use crate::loader::{loaded, objects_of, snapping_objects};
use crate::merge::{
    accepted_points, is_strictly_sorted, lemma_dedup_sorted, merged_points, survivors,
};
use crate::objects::{
    insert_sorted, is_sorted, key_le, key_lt, lemma_sort_of_sorted, lemma_stable_sort,
    lemma_upper_bound, sort_key, stable_sort, upper_bound, MapObjectClass,
    MapObjectView, SortKey,
};
use crate::roundtrip::{
    all_of, is_written, lemma_loaded_points, lemma_merged_all, lemma_timing_only_add,
    lemma_written_reads_back, read_points, timing_headers, timing_only,
};
use crate::text::{lines_of, RETURN};
use crate::writer::{output_text, point_lines};
use vstd::prelude::*;

verus! {

/// Whether the object is written as it is: its line is a well-formed timing
/// point of its own time and tempo flag.
pub open spec fn is_sound(o: MapObjectView) -> bool {
    &&& timing_point_of(o.data) is Some
    &&& timing_point_of(o.data)->0.time == o.time
    &&& timing_point_of(o.data)->0.uninherited == o.uninherited
}

/// The timing points among objects of which none is a timing point are
/// none.
proof fn lemma_timing_only_none(s: Seq<MapObjectView>)
    requires
        forall|i: int| 0 <= i < s.len() ==> !(#[trigger] s[i]).class.is_timing_point(),
    ensures
        timing_only(s) == Seq::<MapObjectView>::empty(),
    decreases s.len(),
{
    if s.len() > 0 {
        let t = s.drop_last();
        assert forall|i: int| 0 <= i < t.len() implies !(#[trigger] t[i]).class.is_timing_point() by {
            assert(t[i] == s[i]);
        }
        lemma_timing_only_none(t);
        assert(!s[s.len() - 1].class.is_timing_point());
    }
}

/// What holds of every object holds of every timing point among them.
proof fn lemma_timing_only_all(s: Seq<MapObjectView>, holds: spec_fn(MapObjectView) -> bool)
    requires
        all_of(s, holds),
    ensures
        all_of(timing_only(s), holds),
    decreases s.len(),
{
    if s.len() > 0 {
        let t = s.drop_last();
        assert forall|i: int| 0 <= i < t.len() implies holds(#[trigger] t[i]) by {
            assert(t[i] == s[i]);
        }
        lemma_timing_only_all(t, holds);
        assert(holds(s[s.len() - 1]));
        let d = timing_only(t);
        let r = timing_only(s);
        assert forall|i: int| 0 <= i < r.len() implies holds(#[trigger] r[i]) by {
            if i < d.len() {
                assert(r[i] == d[i]);
            }
        }
    }
}

/// The place behind which every object has a greater key, and before which
/// the last has none, is the one `upper_bound` gives.
proof fn lemma_upper_bound_is(t: Seq<MapObjectView>, key: (int, int), k: SortKey, q: int)
    requires
        0 <= q <= t.len(),
        forall|i: int| q <= i < t.len() ==> key_lt(key, sort_key(#[trigger] t[i], k)),
        q > 0 ==> !key_lt(key, sort_key(t[q - 1], k)),
    ensures
        upper_bound(t, key, k) == q,
    decreases t.len(),
{
    if t.len() > 0 {
        if key_lt(key, sort_key(t.last(), k)) {
            assert(q < t.len());
            let d = t.drop_last();
            assert forall|i: int| q <= i < d.len() implies key_lt(
                key,
                sort_key(#[trigger] d[i], k),
            ) by {
                assert(d[i] == t[i]);
            }
            if q > 0 {
                assert(d[q - 1] == t[q - 1]);
            }
            lemma_upper_bound_is(d, key, k, q);
        } else {
            if q < t.len() {
                assert(key_lt(key, sort_key(t[t.len() - 1], k)));
            }
        }
    }
}

/// Putting an object into a sorted list and taking the timing points is
/// taking the timing points and putting the object among them, if it is one.
proof fn lemma_timing_of_insert(s: Seq<MapObjectView>, x: MapObjectView, k: SortKey)
    requires
        is_sorted(s, k),
    ensures
        timing_only(insert_sorted(s, x, k)) == if x.class.is_timing_point() {
            insert_sorted(timing_only(s), x, k)
        } else {
            timing_only(s)
        },
{
    let key = sort_key(x, k);
    let p = upper_bound(s, key, k);
    lemma_upper_bound(s, key, k);
    let front = s.subrange(0, p);
    let back = s.subrange(p, s.len() as int);
    let one = seq![x];
    assert(s == front + back);
    assert(insert_sorted(s, x, k) == front + one + back);
    lemma_timing_only_add(front, back);
    lemma_timing_only_add(front, one);
    lemma_timing_only_add(front + one, back);
    assert(one.drop_last() == Seq::<MapObjectView>::empty());
    assert(one.last() == x);
    assert(timing_only(one.drop_last()) == Seq::<MapObjectView>::empty());
    let tf = timing_only(front);
    let tb = timing_only(back);
    if x.class.is_timing_point() {
        assert(timing_only(one) == Seq::<MapObjectView>::empty().push(x));
        assert(timing_only(one) == one);
        let above = |o: MapObjectView| key_lt(key, sort_key(o, k));
        let not_above = |o: MapObjectView| !key_lt(key, sort_key(o, k));
        assert forall|i: int| 0 <= i < back.len() implies above(#[trigger] back[i]) by {
            assert(back[i] == s[p + i]);
        }
        assert forall|i: int| 0 <= i < front.len() implies not_above(#[trigger] front[i]) by {
            assert(front[i] == s[i]);
            if i < p - 1 {
                assert(key_le(sort_key(s[i], k), sort_key(s[p - 1], k)));
            }
        }
        lemma_timing_only_all(back, above);
        lemma_timing_only_all(front, not_above);
        let t = tf + tb;
        assert forall|i: int| tf.len() <= i < t.len() implies key_lt(
            key,
            sort_key(#[trigger] t[i], k),
        ) by {
            assert(t[i] == tb[i - tf.len()]);
            assert(above(tb[i - tf.len()]));
        }
        if tf.len() > 0 {
            assert(t[tf.len() - 1] == tf[tf.len() - 1]);
            assert(not_above(tf[tf.len() - 1]));
        }
        lemma_upper_bound_is(t, key, k, tf.len() as int);
        assert(t.insert(tf.len() as int, x) == tf + one + tb);
    } else {
        assert(timing_only(one) == Seq::<MapObjectView>::empty());
        assert(tf + Seq::<MapObjectView>::empty() == tf);
    }
}

/// The timing points of a sorted list are the sorted timing points of the
/// list.
pub proof fn lemma_timing_of_sorted(s: Seq<MapObjectView>, k: SortKey)
    ensures
        timing_only(stable_sort(s, k)) == stable_sort(timing_only(s), k),
    decreases s.len(),
{
    if s.len() > 0 {
        let t = s.drop_last();
        let x = s.last();
        lemma_timing_of_sorted(t, k);
        lemma_stable_sort(t, k);
        lemma_timing_of_insert(stable_sort(t, k), x, k);
        if x.class.is_timing_point() {
            let tt = timing_only(t).push(x);
            assert(tt.drop_last() == timing_only(t));
            assert(tt.last() == x);
        }
    } else {
        assert(timing_only(s) == Seq::<MapObjectView>::empty());
    }
}

/// Points that are sound and in the order in which they are written read
/// as timing points in the order of a timeline.
proof fn lemma_read_points_sorted(points: Seq<MapObjectView>)
    requires
        all_of(points, |o: MapObjectView| is_sound(o)),
        is_strictly_sorted(points, SortKey::TimePriority),
    ensures
        is_sorted(read_points(point_lines(points)), SortKey::TimeClass),
{
    let r = read_points(point_lines(points));
    let kp = SortKey::TimePriority;
    let kc = SortKey::TimeClass;
    assert forall|i: int, j: int| 0 <= i < j < r.len() implies key_le(
        #[trigger] sort_key(r[i], kc),
        #[trigger] sort_key(r[j], kc),
    ) by {
        assert(is_sound(points[i]));
        assert(is_sound(points[j]));
        assert(r[i] == timing_point_of(points[i].data)->0);
        assert(r[j] == timing_point_of(points[j].data)->0);
        assert(r[i].class == class_of_flag(points[i].uninherited));
        assert(r[j].class == class_of_flag(points[j].uninherited));
        assert(key_lt(sort_key(points[i], kp), sort_key(points[j], kp)));
    }
}

/// Loading, merging, writing and loading what was written: the timing
/// points of the new timeline are the merged points, one for one and in
/// their order. Each has the line, the time and the tempo flag of its
/// point, and its other fields are those that the line gives.
///
/// This holds where the beatmap has one timing section, none of its lines
/// ends with a return, and every point that was made is written as a
/// well-formed line of its own time and flag.
pub proof fn lemma_written_loads_back(
    content: Seq<u8>,
    snappings: Seq<i32>,
    pending: Seq<MapObjectView>,
    m: int,
    preview: bool,
    snappings_after: Seq<i32>,
)
    requires
        all_of(pending, |o: MapObjectView| is_sound(o)),
        timing_headers(lines_of(content), lines_of(content).len() as int) == 1,
        forall|i: int|
            0 <= i < lines_of(content).len() ==> !((#[trigger] lines_of(content)[i]).len() > 0
                && lines_of(content)[i].last() == RETURN),
    ensures
        ({
            let points = merged_points(pending, loaded(content, snappings), m);
            let again = timing_only(
                loaded(output_text(content, points, preview), snappings_after),
            );
            &&& again == read_points(point_lines(points))
            &&& again.len() == points.len()
            &&& forall|i: int|
                0 <= i < points.len() ==> {
                    &&& (#[trigger] again[i]).data == points[i].data
                    &&& again[i].time == points[i].time
                    &&& again[i].uninherited == points[i].uninherited
                    &&& again[i] == timing_point_of(points[i].data)->0
                }
        }),
{
    let timeline = loaded(content, snappings);
    let points = merged_points(pending, timeline, m);
    let out = output_text(content, points, preview);
    let r = read_points(point_lines(points));
    let sound = |o: MapObjectView| is_sound(o);
    let written = |o: MapObjectView| is_written(o);
    // every merged point is sound
    lemma_loaded_points(content, snappings);
    assert forall|i: int|
        0 <= i < timeline.len() && (#[trigger] timeline[i]).class.is_timing_point() implies sound(
        timeline[i],
    ) by {
        assert(timing_point_of(timeline[i].data) == Some(timeline[i]));
    }
    lemma_merged_all(pending, timeline, m, sound);
    assert forall|i: int| 0 <= i < pending.len() implies written(#[trigger] pending[i]) by {
        assert(sound(pending[i]));
    }
    // what is read from the text
    lemma_written_reads_back(content, snappings, pending, m, preview);
    // and the order in which loading leaves it
    let read = objects_of(out);
    let snaps = snapping_objects(snappings_after);
    lemma_timing_only_add(read, snaps);
    lemma_timing_only_none(snaps);
    assert(timing_only(read) + Seq::<MapObjectView>::empty() == timing_only(read));
    lemma_timing_of_sorted(read + snaps, SortKey::TimeClass);
    let accepted = accepted_points(pending, m);
    let all = accepted + survivors(timeline, accepted, m, timeline.len() as int);
    lemma_stable_sort(all, SortKey::TimePriority);
    lemma_dedup_sorted(stable_sort(all, SortKey::TimePriority), SortKey::TimePriority);
    lemma_read_points_sorted(points);
    lemma_sort_of_sorted(r, SortKey::TimeClass);
    assert forall|i: int| 0 <= i < points.len() implies {
        &&& (#[trigger] r[i]).data == points[i].data
        &&& r[i].time == points[i].time
        &&& r[i].uninherited == points[i].uninherited
        &&& r[i] == timing_point_of(points[i].data)->0
    } by {
        assert(sound(points[i]));
    }
}

/// Whether the object is a point that this library has made: of the class
/// of such points, with the flag of a velocity line.
pub open spec fn is_made(o: MapObjectView) -> bool {
    o.class == MapObjectClass::Generated && o.uninherited == 0
}

/// The points that are made from samples and well-formed beat lengths are
/// points that this library has made, and are written as they are, where
/// every volume is one that a line can hold.
pub proof fn lemma_generated_sound(samples: Seq<Sample>, beatlengths: Seq<Seq<u8>>)
    requires
        beatlengths_fit(samples, beatlengths),
        forall|i: int| 0 <= i < samples.len() ==> i32::MIN <= (#[trigger] samples[i]).volume <= i32::MAX,
    ensures
        all_of(generated_points(samples, beatlengths), |o: MapObjectView| is_made(o)),
        all_of(generated_points(samples, beatlengths), |o: MapObjectView| is_sound(o)),
{
    let points = generated_points(samples, beatlengths);
    assert forall|i: int| 0 <= i < points.len() implies is_made(#[trigger] points[i]) && is_sound(
        points[i],
    ) by {
        assert(is_float_text(beatlengths[i]));
        assert(i32::MIN <= samples[i].volume <= i32::MAX);
        lemma_point_reads_back(samples[i], beatlengths[i]);
    }
}

} // verus!
