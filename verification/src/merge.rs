//! The points that were made, thinned out and merged with the timing points
//! that the beatmap had.

use crate::number::{parse_i32, parse_i32_spec};
use crate::objects::{
    is_sorted, key_le, key_lt, lemma_stable_sort, object_views, priority, priority_of,
    sort_key, sorted_objects, stable_sort, MapObject, MapObjectClass, MapObjectView, SortKey,
};
use vstd::prelude::*;

verus! {

/// The largest spacing that is taken.
pub const MAX_SPACING: i32 = 1000;

/// The minimal spacing that `text` gives: a whole number from 0 to 1000.
pub open spec fn spacing_of(text: Seq<u8>) -> Option<i32> {
    match parse_i32_spec(text) {
        Some(m) => if 0 <= m <= MAX_SPACING {
            Some(m)
        } else {
            None
        },
        None => None,
    }
}

/// `s` with, of every run of objects of one key, only the first.
pub open spec fn dedup(s: Seq<MapObjectView>, k: SortKey) -> Seq<MapObjectView>
    decreases s.len(),
{
    if s.len() == 0 {
        Seq::empty()
    } else if s.len() >= 2 && sort_key(s[s.len() - 2], k) == sort_key(s.last(), k) {
        dedup(s.drop_last(), k)
    } else {
        dedup(s.drop_last(), k).push(s.last())
    }
}

/// `s` thinned out: its first object, and then each object that is more
/// than `m` milliseconds behind the last one that was taken.
pub open spec fn spaced(s: Seq<MapObjectView>, m: int) -> Seq<MapObjectView>
    decreases s.len(),
{
    if s.len() == 0 {
        Seq::empty()
    } else {
        let before = spaced(s.drop_last(), m);
        if before.len() == 0 || s.last().time - before.last().time > m {
            before.push(s.last())
        } else {
            before
        }
    }
}

/// Whether the time `t` is more than `m` milliseconds from every one of the
/// accepted points.
pub open spec fn clear_of(accepted: Seq<MapObjectView>, t: int, m: int) -> bool {
    forall|i: int|
        0 <= i < accepted.len() ==> {
            let d = t - (#[trigger] accepted[i]).time;
            d > m || -d > m
        }
}

/// Whether a timing point of the beatmap stays: a tempo line always, a
/// velocity line where it is clear of the accepted points. Nothing else of
/// the timeline is a timing point.
pub open spec fn survives(o: MapObjectView, accepted: Seq<MapObjectView>, m: int) -> bool {
    o.class == MapObjectClass::UniPoint || (o.class == MapObjectClass::InhPoint && clear_of(
        accepted,
        o.time as int,
        m,
    ))
}

/// Those of the first `n` objects of the timeline that stay, in their order.
pub open spec fn survivors(
    timeline: Seq<MapObjectView>,
    accepted: Seq<MapObjectView>,
    m: int,
    n: int,
) -> Seq<MapObjectView>
    decreases n,
{
    if n <= 0 {
        Seq::empty()
    } else if survives(timeline[n - 1], accepted, m) {
        survivors(timeline, accepted, m, n - 1).push(timeline[n - 1])
    } else {
        survivors(timeline, accepted, m, n - 1)
    }
}

/// The points made so far, in order of time, of each time only the first.
pub open spec fn tidied(pending: Seq<MapObjectView>) -> Seq<MapObjectView> {
    dedup(stable_sort(pending, SortKey::TimeClass), SortKey::TimeClass)
}

/// The points that are accepted under a minimal spacing of `m`.
pub open spec fn accepted_points(pending: Seq<MapObjectView>, m: int) -> Seq<MapObjectView> {
    spaced(tidied(pending), m)
}

/// The accepted points merged with the timing points of the timeline that
/// stay: in order of time, a tempo line before a velocity line of its time;
/// of the points of one time and one tempo flag only the first, which is an
/// accepted one if there is one.
pub open spec fn merged(
    accepted: Seq<MapObjectView>,
    timeline: Seq<MapObjectView>,
    m: int,
) -> Seq<MapObjectView> {
    dedup(
        stable_sort(
            accepted + survivors(timeline, accepted, m, timeline.len() as int),
            SortKey::TimePriority,
        ),
        SortKey::TimePriority,
    )
}

/// The timing section that is written for the points made so far.
pub open spec fn merged_points(
    pending: Seq<MapObjectView>,
    timeline: Seq<MapObjectView>,
    m: int,
) -> Seq<MapObjectView> {
    merged(accepted_points(pending, m), timeline, m)
}

/// No two of the points have one time and one tempo flag.
pub open spec fn is_unique(s: Seq<MapObjectView>) -> bool {
    forall|i: int, j: int|
        #![trigger s[i], s[j]]
        0 <= i < j < s.len() ==> !(s[i].time == s[j].time && s[i].uninherited == s[j].uninherited)
}

/// Any two of the points that follow one another are more than `m`
/// milliseconds apart.
pub open spec fn is_spaced(s: Seq<MapObjectView>, m: int) -> bool {
    forall|i: int| 0 <= i < s.len() - 1 ==> (#[trigger] s[i + 1]).time - s[i].time > m
}

/// The priority tells the tempo flags apart: two flags of one priority are
/// one flag. So the objects of one time and one priority are those of one
/// time and one flag.
pub proof fn lemma_priority_injective(a: i32, b: i32)
    ensures
        priority(a) == priority(b) <==> a == b,
{
}

/// The last object that `dedup` keeps has the key of the last object that
/// it was given.
pub proof fn lemma_dedup_last(s: Seq<MapObjectView>, k: SortKey)
    requires
        s.len() > 0,
    ensures
        dedup(s, k).len() > 0,
        sort_key(dedup(s, k).last(), k) == sort_key(s.last(), k),
        dedup(s, k).len() <= s.len(),
    decreases s.len(),
{
    if s.len() >= 2 {
        let t = s.drop_last();
        lemma_dedup_last(t, k);
        assert(t.last() == s[s.len() - 2]);
    } else {
        assert(dedup(s.drop_last(), k).len() == 0);
    }
}

/// No object stands before one of a lesser or the same key.
pub open spec fn is_strictly_sorted(s: Seq<MapObjectView>, k: SortKey) -> bool {
    forall|i: int, j: int|
        0 <= i < j < s.len() ==> key_lt(#[trigger] sort_key(s[i], k), #[trigger] sort_key(s[j], k))
}

/// Of a sorted list `dedup` leaves a list in which every key occurs once.
pub proof fn lemma_dedup_sorted(s: Seq<MapObjectView>, k: SortKey)
    requires
        is_sorted(s, k),
    ensures
        is_strictly_sorted(dedup(s, k), k),
    decreases s.len(),
{
    if s.len() > 0 {
        let t = s.drop_last();
        assert(is_sorted(t, k)) by {
            assert forall|i: int, j: int| 0 <= i < j < t.len() implies key_le(
                #[trigger] sort_key(t[i], k),
                #[trigger] sort_key(t[j], k),
            ) by {
                assert(t[i] == s[i] && t[j] == s[j]);
            }
        }
        lemma_dedup_sorted(t, k);
        let d = dedup(t, k);
        let r = dedup(s, k);
        if s.len() >= 2 && sort_key(s[s.len() - 2], k) != sort_key(s.last(), k) {
            lemma_dedup_last(t, k);
            assert(t.last() == s[s.len() - 2]);
            assert(key_le(sort_key(s[s.len() - 2], k), sort_key(s[s.len() - 1], k)));
            assert(key_lt(sort_key(d.last(), k), sort_key(s.last(), k)));
            assert forall|i: int, j: int| 0 <= i < j < r.len() implies key_lt(
                #[trigger] sort_key(r[i], k),
                #[trigger] sort_key(r[j], k),
            ) by {
                if j < d.len() {
                    assert(r[i] == d[i] && r[j] == d[j]);
                } else {
                    assert(r[i] == d[i]);
                    if i < d.len() - 1 {
                        assert(key_lt(sort_key(d[i], k), sort_key(d[d.len() - 1], k)));
                    }
                }
            }
        } else if s.len() == 1 {
            assert(d.len() == 0);
        }
    }
}

/// No two points of a merged timing section have one time and one tempo
/// flag.
pub proof fn lemma_merged_unique(
    accepted: Seq<MapObjectView>,
    timeline: Seq<MapObjectView>,
    m: int,
)
    ensures
        is_unique(merged(accepted, timeline, m)),
{
    let k = SortKey::TimePriority;
    let all = accepted + survivors(timeline, accepted, m, timeline.len() as int);
    lemma_stable_sort(all, k);
    lemma_dedup_sorted(stable_sort(all, k), k);
    let r = merged(accepted, timeline, m);
    assert forall|i: int, j: int| 0 <= i < j < r.len() implies !(r[i].time == r[j].time
        && r[i].uninherited == r[j].uninherited) by {
        assert(key_lt(sort_key(r[i], k), sort_key(r[j], k)));
    }
}

/// Any two points that follow one another in a thinned-out list are more
/// than the minimal spacing apart; and the first point of a list is always
/// taken.
pub proof fn lemma_spaced_apart(s: Seq<MapObjectView>, m: int)
    ensures
        is_spaced(spaced(s, m), m),
        s.len() > 0 ==> spaced(s, m).len() > 0 && spaced(s, m)[0] == s[0],
        spaced(s, m).len() <= s.len(),
    decreases s.len(),
{
    if s.len() > 0 {
        let t = s.drop_last();
        lemma_spaced_apart(t, m);
        let before = spaced(t, m);
        let r = spaced(s, m);
        if t.len() > 0 {
            assert(t[0] == s[0]);
        }
        assert forall|i: int| 0 <= i < r.len() - 1 implies (#[trigger] r[i + 1]).time
            - r[i].time > m by {
            if i + 1 < before.len() {
                assert(r[i + 1] == before[i + 1] && r[i] == before[i]);
            } else {
                assert(r[i] == before.last());
            }
        }
    }
}

/// The accepted points of a timing section are spaced: any two that follow
/// one another are more than `m` milliseconds apart. Where a point was made,
/// one is accepted.
pub proof fn lemma_accepted_apart(pending: Seq<MapObjectView>, m: int)
    ensures
        is_spaced(accepted_points(pending, m), m),
        pending.len() > 0 ==> accepted_points(pending, m).len() > 0,
{
    lemma_spaced_apart(tidied(pending), m);
    if pending.len() > 0 {
        lemma_stable_sort(pending, SortKey::TimeClass);
        lemma_dedup_last(stable_sort(pending, SortKey::TimeClass), SortKey::TimeClass);
    }
}

/// Whether `x` and `y` have one key.
fn same_key(x: &MapObject, y: &MapObject, k: SortKey) -> (r: bool)
    ensures
        r == (sort_key(x@, k) == sort_key(y@, k)),
{
    if x.time != y.time {
        return false;
    }
    match k {
        SortKey::TimeClass => x.class.rank_of() == y.class.rank_of(),
        SortKey::TimePriority => priority_of(x.uninherited) == priority_of(y.uninherited),
    }
}

/// The objects of `v` without those that follow one of their own key.
pub fn deduped(v: &Vec<MapObject>, k: SortKey) -> (r: Vec<MapObject>)
    ensures
        object_views(r@) == dedup(object_views(v@), k),
{
    let ghost s = object_views(v@);
    let mut r: Vec<MapObject> = Vec::new();
    let mut i: usize = 0;
    assert(dedup(s.subrange(0, 0), k) == Seq::<MapObjectView>::empty());
    while i < v.len()
        invariant
            i <= v@.len(),
            s == object_views(v@),
            object_views(r@) == dedup(s.subrange(0, i as int), k),
        decreases v@.len() - i,
    {
        proof {
            let t = s.subrange(0, i + 1);
            assert(t.drop_last() == s.subrange(0, i as int));
            assert(t.last() == v@[i as int]@);
            if i > 0 {
                assert(t[t.len() - 2] == v@[i - 1]@);
            }
        }
        if i == 0 || !same_key(&v[i - 1], &v[i], k) {
            let x = v[i].duplicate();
            assert(object_views(r@.push(x)) == object_views(r@).push(x@));
            r.push(x);
        }
        i += 1;
    }
    assert(s.subrange(0, i as int) == s);
    r
}

/// The objects of `v` that are accepted under a minimal spacing of `m`.
pub fn spaced_objects(v: &Vec<MapObject>, m: i32) -> (r: Vec<MapObject>)
    ensures
        object_views(r@) == spaced(object_views(v@), m as int),
        is_spaced(object_views(r@), m as int),
        v@.len() > 0 ==> r@.len() > 0,
{
    proof {
        lemma_spaced_apart(object_views(v@), m as int);
    }
    let ghost s = object_views(v@);
    let mut r: Vec<MapObject> = Vec::new();
    let mut i: usize = 0;
    assert(spaced(s.subrange(0, 0), m as int) == Seq::<MapObjectView>::empty());
    while i < v.len()
        invariant
            i <= v@.len(),
            s == object_views(v@),
            object_views(r@) == spaced(s.subrange(0, i as int), m as int),
        decreases v@.len() - i,
    {
        proof {
            let t = s.subrange(0, i + 1);
            assert(t.drop_last() == s.subrange(0, i as int));
            assert(t.last() == v@[i as int]@);
            if r@.len() > 0 {
                assert(object_views(r@).last() == r@[r@.len() - 1]@);
            }
        }
        if r.len() == 0 || v[i].time as i64 - r[r.len() - 1].time as i64 > m as i64 {
            let x = v[i].duplicate();
            assert(object_views(r@.push(x)) == object_views(r@).push(x@));
            r.push(x);
        }
        i += 1;
    }
    assert(s.subrange(0, i as int) == s);
    r
}

/// Whether the time `t` is clear of the accepted points.
pub fn is_clear(accepted: &Vec<MapObject>, t: i32, m: i32) -> (r: bool)
    ensures
        r == clear_of(object_views(accepted@), t as int, m as int),
{
    let ghost a = object_views(accepted@);
    let mut i: usize = 0;
    while i < accepted.len()
        invariant
            i <= accepted@.len(),
            a == object_views(accepted@),
            forall|j: int|
                0 <= j < i ==> {
                    let d = t - (#[trigger] a[j]).time;
                    d > m || -d > m
                },
        decreases accepted@.len() - i,
    {
        let d: i64 = t as i64 - accepted[i].time as i64;
        assert(a[i as int] == accepted@[i as int]@);
        if !(d > m as i64 || -d > m as i64) {
            return false;
        }
        i += 1;
    }
    true
}

/// The timing section that is written for the accepted points and the
/// timeline.
pub fn merge_objects(accepted: &Vec<MapObject>, timeline: &Vec<MapObject>, m: i32) -> (r: Vec<
    MapObject,
>)
    ensures
        object_views(r@) == merged(object_views(accepted@), object_views(timeline@), m as int),
        is_unique(object_views(r@)),
{
    proof {
        lemma_merged_unique(object_views(accepted@), object_views(timeline@), m as int);
    }
    let ghost a = object_views(accepted@);
    let ghost tl = object_views(timeline@);
    let mut all: Vec<MapObject> = Vec::new();
    let mut i: usize = 0;
    while i < accepted.len()
        invariant
            i <= accepted@.len(),
            a == object_views(accepted@),
            object_views(all@) == a.subrange(0, i as int),
        decreases accepted@.len() - i,
    {
        let x = accepted[i].duplicate();
        proof {
            assert(object_views(all@.push(x)) == object_views(all@).push(x@));
            assert(a.subrange(0, i + 1) == a.subrange(0, i as int).push(a[i as int]));
        }
        all.push(x);
        i += 1;
    }
    assert(a.subrange(0, i as int) == a);
    let mut j: usize = 0;
    assert(object_views(all@) == a + survivors(tl, a, m as int, 0));
    while j < timeline.len()
        invariant
            j <= timeline@.len(),
            a == object_views(accepted@),
            tl == object_views(timeline@),
            object_views(all@) == a + survivors(tl, a, m as int, j as int),
        decreases timeline@.len() - j,
    {
        let o = &timeline[j];
        assert(tl[j as int] == o@);
        let stays = match o.class {
            MapObjectClass::UniPoint => true,
            MapObjectClass::InhPoint => is_clear(accepted, o.time, m),
            _ => false,
        };
        if stays {
            let x = o.duplicate();
            proof {
                assert(object_views(all@.push(x)) == object_views(all@).push(x@));
                assert((a + survivors(tl, a, m as int, j as int)).push(x@) == a + survivors(
                    tl,
                    a,
                    m as int,
                    j as int,
                ).push(x@));
            }
            all.push(x);
        }
        j += 1;
    }
    let sorted = sorted_objects(&all, SortKey::TimePriority);
    deduped(&sorted, SortKey::TimePriority)
}

/// Reads a minimal spacing.
pub fn parse_spacing(text: &[u8]) -> (r: Option<i32>)
    ensures
        r == spacing_of(text@),
{
    match parse_i32(text) {
        Some(m) => if 0 <= m && m <= MAX_SPACING {
            Some(m)
        } else {
            None
        },
        None => None,
    }
}

} // verus!
