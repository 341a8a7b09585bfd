//! The objects of a beatmap's time axis, and the two orders they are kept in.

use crate::text::copy_range;
use vstd::prelude::*;

verus! {

/// What an object on the time axis is.
#[derive(Clone, Copy, Debug, PartialEq, Eq, Structural)]
pub enum MapObjectClass {
    /// A timing point that sets tempo and meter.
    UniPoint,
    /// A timing point that sets velocity and volume under the tempo in effect.
    InhPoint,
    /// A rhythmic subdivision that the tempo implies; no line of the file.
    Snapping,
    /// A hit object.
    Hit,
    /// A timing point that this library has made.
    Generated,
}

impl MapObjectClass {
    /// The place of a class among objects of one time.
    pub open spec fn rank(self) -> int {
        match self {
            MapObjectClass::UniPoint => 0,
            MapObjectClass::InhPoint => 1,
            MapObjectClass::Snapping => 2,
            MapObjectClass::Hit => 3,
            MapObjectClass::Generated => 4,
        }
    }

    /// The place of a class among objects of one time.
    pub fn rank_of(self) -> (r: i32)
        ensures
            r == self.rank(),
    {
        match self {
            MapObjectClass::UniPoint => 0,
            MapObjectClass::InhPoint => 1,
            MapObjectClass::Snapping => 2,
            MapObjectClass::Hit => 3,
            MapObjectClass::Generated => 4,
        }
    }

    /// Whether objects of this class are lines of the timing section.
    pub open spec fn is_timing_point(self) -> bool {
        self == MapObjectClass::UniPoint || self == MapObjectClass::InhPoint
    }
}

/// Why an operation was refused.
#[derive(Clone, Copy, Debug, PartialEq, Eq, Structural)]
pub enum SvtError {
    /// A line of the reference pair or a field of the options is malformed.
    Format,
    /// No tempo line stands at or before the start of the reference pair.
    NoTempo,
    /// The reference pair starts after it ends.
    Order,
    /// A velocity of the reference pair is not positive.
    SvSign,
    /// A volume of the reference pair is outside 0 to 100.
    VolumeRange,
    /// There is nothing to apply or to write.
    NoChanges,
}

/// One object on the time axis.
///
/// The beat length is a decimal value; it is carried as the text that was
/// read or handed in, and never computed with.
#[derive(Clone, Debug)]
pub struct MapObject {
    pub class: MapObjectClass,
    /// Milliseconds.
    pub time: i32,
    /// Empty for an object that is no line of the timing section.
    pub beatlength: Vec<u8>,
    pub meter: i32,
    pub sampleset: i32,
    pub sampleindex: i32,
    pub volume: i32,
    pub uninherited: i32,
    /// Bit 0: kiai time.
    pub effects: i32,
    /// The line of the file that this object was read from or is written as.
    pub data: Vec<u8>,
}

/// A `MapObject` as a mathematical value.
pub struct MapObjectView {
    pub class: MapObjectClass,
    pub time: i32,
    pub beatlength: Seq<u8>,
    pub meter: i32,
    pub sampleset: i32,
    pub sampleindex: i32,
    pub volume: i32,
    pub uninherited: i32,
    pub effects: i32,
    pub data: Seq<u8>,
}

impl View for MapObject {
    type V = MapObjectView;

    open spec fn view(&self) -> MapObjectView {
        MapObjectView {
            class: self.class,
            time: self.time,
            beatlength: self.beatlength@,
            meter: self.meter,
            sampleset: self.sampleset,
            sampleindex: self.sampleindex,
            volume: self.volume,
            uninherited: self.uninherited,
            effects: self.effects,
            data: self.data@,
        }
    }
}

/// An object that is no line of the file: only its class and time count.
pub open spec fn bare(class: MapObjectClass, time: i32) -> MapObjectView {
    MapObjectView {
        class,
        time,
        beatlength: Seq::empty(),
        meter: 0,
        sampleset: 0,
        sampleindex: 0,
        volume: 0,
        uninherited: 0,
        effects: 0,
        data: Seq::empty(),
    }
}

/// A timing point made by this library: only its time and line count.
pub open spec fn generated(time: i32, data: Seq<u8>) -> MapObjectView {
    MapObjectView { data, ..bare(MapObjectClass::Generated, time) }
}

impl MapObject {
    /// A snapping or a hit object at `time`.
    pub fn new_bare(class: MapObjectClass, time: i32) -> (r: MapObject)
        ensures
            r@ == bare(class, time),
    {
        MapObject {
            class,
            time,
            beatlength: Vec::new(),
            meter: 0,
            sampleset: 0,
            sampleindex: 0,
            volume: 0,
            uninherited: 0,
            effects: 0,
            data: Vec::new(),
        }
    }

    /// A generated timing point at `time`, written as `data`.
    pub fn new_generated(time: i32, data: Vec<u8>) -> (r: MapObject)
        ensures
            r@ == generated(time, data@),
    {
        MapObject {
            class: MapObjectClass::Generated,
            time,
            beatlength: Vec::new(),
            meter: 0,
            sampleset: 0,
            sampleindex: 0,
            volume: 0,
            uninherited: 0,
            effects: 0,
            data,
        }
    }

    /// An object equal to this one.
    pub fn duplicate(&self) -> (r: MapObject)
        ensures
            r@ == self@,
    {
        assert(self.beatlength@.subrange(0, self.beatlength@.len() as int) == self.beatlength@);
        assert(self.data@.subrange(0, self.data@.len() as int) == self.data@);
        MapObject {
            class: self.class,
            time: self.time,
            beatlength: copy_range(self.beatlength.as_slice(), 0, self.beatlength.len()),
            meter: self.meter,
            sampleset: self.sampleset,
            sampleindex: self.sampleindex,
            volume: self.volume,
            uninherited: self.uninherited,
            effects: self.effects,
            data: copy_range(self.data.as_slice(), 0, self.data.len()),
        }
    }
}

impl Default for MapObject {
    /// A tempo line at time 0 without a line of text.
    fn default() -> (r: MapObject)
        ensures
            r@ == bare(MapObjectClass::UniPoint, 0),
    {
        MapObject::new_bare(MapObjectClass::UniPoint, 0)
    }
}

/// The objects of a list as mathematical values.
pub open spec fn object_views(v: Seq<MapObject>) -> Seq<MapObjectView> {
    Seq::new(v.len(), |i: int| v[i]@)
}

/// The two orders that lists of objects are kept in.
#[derive(Clone, Copy, Debug, PartialEq, Eq, Structural)]
pub enum SortKey {
    /// By time; at one time by class, tempo lines first.
    TimeClass,
    /// By time; at one time tempo lines first, then by the tempo flag.
    TimePriority,
}

/// The priority of a tempo line, which is below that of any other point.
pub const TEMPO_PRIORITY: i64 = -0x1_0000_0000;

/// The flag of a timing point as a priority: a tempo line (flag 1) comes
/// before every other point; the others come in the order of their flags.
/// Two flags of one priority are one flag.
pub open spec fn priority(uninherited: i32) -> i64 {
    if uninherited == 1 {
        TEMPO_PRIORITY
    } else {
        uninherited as i64
    }
}

/// The pair that an object is ordered by.
pub open spec fn sort_key(o: MapObjectView, k: SortKey) -> (int, int) {
    match k {
        SortKey::TimeClass => (o.time as int, o.class.rank()),
        SortKey::TimePriority => (o.time as int, priority(o.uninherited) as int),
    }
}

/// The order of pairs: by the first part, then by the second.
pub open spec fn key_lt(a: (int, int), b: (int, int)) -> bool {
    a.0 < b.0 || (a.0 == b.0 && a.1 < b.1)
}

/// The same order, equal pairs counted in.
pub open spec fn key_le(a: (int, int), b: (int, int)) -> bool {
    a.0 < b.0 || (a.0 == b.0 && a.1 <= b.1)
}

/// No object stands before one of a lesser key.
pub open spec fn is_sorted(s: Seq<MapObjectView>, k: SortKey) -> bool {
    forall|i: int, j: int|
        0 <= i < j < s.len() ==> key_le(#[trigger] sort_key(s[i], k), #[trigger] sort_key(s[j], k))
}

/// Where an object of key `key` is put into `s`: behind the last object that
/// it does not precede.
pub open spec fn upper_bound(s: Seq<MapObjectView>, key: (int, int), k: SortKey) -> int
    decreases s.len(),
{
    if s.len() == 0 {
        0
    } else if key_lt(key, sort_key(s.last(), k)) {
        upper_bound(s.drop_last(), key, k)
    } else {
        s.len() as int
    }
}

/// `s` with `x` put in behind every object of its own key or a lesser one.
pub open spec fn insert_sorted(s: Seq<MapObjectView>, x: MapObjectView, k: SortKey) -> Seq<
    MapObjectView,
> {
    s.insert(upper_bound(s, sort_key(x, k), k), x)
}

/// The objects of `s` in the order `k`; objects of one key stay in the order
/// in which `s` has them.
pub open spec fn stable_sort(s: Seq<MapObjectView>, k: SortKey) -> Seq<MapObjectView>
    decreases s.len(),
{
    if s.len() == 0 {
        Seq::empty()
    } else {
        insert_sorted(stable_sort(s.drop_last(), k), s.last(), k)
    }
}

/// What `upper_bound` says of the objects on either side of it.
pub proof fn lemma_upper_bound(s: Seq<MapObjectView>, key: (int, int), k: SortKey)
    ensures
        0 <= upper_bound(s, key, k) <= s.len(),
        forall|i: int| upper_bound(s, key, k) <= i < s.len() ==> key_lt(key, sort_key(s[i], k)),
        upper_bound(s, key, k) > 0 ==> key_le(sort_key(s[upper_bound(s, key, k) - 1], k), key),
    decreases s.len(),
{
    if s.len() > 0 && key_lt(key, sort_key(s.last(), k)) {
        let t = s.drop_last();
        lemma_upper_bound(t, key, k);
        assert forall|i: int| upper_bound(s, key, k) <= i < s.len() implies key_lt(
            key,
            sort_key(s[i], k),
        ) by {
            if i < t.len() {
                assert(s[i] == t[i]);
            }
        }
        if upper_bound(s, key, k) > 0 {
            assert(s[upper_bound(s, key, k) - 1] == t[upper_bound(t, key, k) - 1]);
        }
    }
}

/// Putting an object into a sorted list leaves it sorted.
pub proof fn lemma_insert_sorted(s: Seq<MapObjectView>, x: MapObjectView, k: SortKey)
    requires
        is_sorted(s, k),
    ensures
        is_sorted(insert_sorted(s, x, k), k),
        insert_sorted(s, x, k).len() == s.len() + 1,
        insert_sorted(s, x, k).to_multiset() == s.to_multiset().insert(x),
{
    let key = sort_key(x, k);
    let p = upper_bound(s, key, k);
    lemma_upper_bound(s, key, k);
    let r = insert_sorted(s, x, k);
    assert forall|i: int, j: int| 0 <= i < j < r.len() implies key_le(
        #[trigger] sort_key(r[i], k),
        #[trigger] sort_key(r[j], k),
    ) by {
        if j < p {
            assert(r[i] == s[i] && r[j] == s[j]);
        } else if j == p {
            assert(r[i] == s[i]);
            if i < p - 1 {
                assert(key_le(sort_key(s[i], k), sort_key(s[p - 1], k)));
            }
        } else if i < p {
            assert(r[i] == s[i] && r[j] == s[j - 1]);
        } else if i == p {
            assert(r[j] == s[j - 1]);
        } else {
            assert(r[i] == s[i - 1] && r[j] == s[j - 1]);
        }
    }
    vstd::seq_lib::to_multiset_insert(s, p, x);
}

/// A sorted list holds the objects of the list it was made from, each as
/// often, in order.
pub proof fn lemma_stable_sort(s: Seq<MapObjectView>, k: SortKey)
    ensures
        is_sorted(stable_sort(s, k), k),
        stable_sort(s, k).len() == s.len(),
        stable_sort(s, k).to_multiset() == s.to_multiset(),
    decreases s.len(),
{
    if s.len() == 0 {
        assert(stable_sort(s, k) == s);
    } else {
        lemma_stable_sort(s.drop_last(), k);
        lemma_insert_sorted(stable_sort(s.drop_last(), k), s.last(), k);
        assert(s.drop_last().push(s.last()) == s);
        vstd::seq_lib::to_multiset_build(s.drop_last(), s.last());
    }
}

/// Sorting a list that is sorted changes nothing.
pub proof fn lemma_sort_of_sorted(s: Seq<MapObjectView>, k: SortKey)
    requires
        is_sorted(s, k),
    ensures
        stable_sort(s, k) == s,
    decreases s.len(),
{
    if s.len() > 0 {
        let t = s.drop_last();
        assert(is_sorted(t, k)) by {
            assert forall|i: int, j: int| 0 <= i < j < t.len() implies key_le(
                #[trigger] sort_key(t[i], k),
                #[trigger] sort_key(t[j], k),
            ) by {
                assert(t[i] == s[i] && t[j] == s[j]);
            }
        }
        lemma_sort_of_sorted(t, k);
        let key = sort_key(s.last(), k);
        if t.len() > 0 {
            assert(t.last() == s[t.len() - 1]);
            assert(key_le(sort_key(s[t.len() - 1], k), sort_key(s[s.len() - 1], k)));
            assert(!key_lt(key, sort_key(t.last(), k)));
        }
        assert(upper_bound(t, key, k) == t.len());
        assert(t.insert(t.len() as int, s.last()) == s);
    }
}

/// The priority of a tempo flag, computed.
pub fn priority_of(uninherited: i32) -> (r: i64)
    ensures
        r == priority(uninherited),
{
    if uninherited == 1 {
        TEMPO_PRIORITY
    } else {
        uninherited as i64
    }
}

/// Whether `x` is ordered before `y`.
fn precedes(x: &MapObject, y: &MapObject, k: SortKey) -> (r: bool)
    ensures
        r == key_lt(sort_key(x@, k), sort_key(y@, k)),
{
    if x.time != y.time {
        return x.time < y.time;
    }
    match k {
        SortKey::TimeClass => x.class.rank_of() < y.class.rank_of(),
        SortKey::TimePriority => priority_of(x.uninherited) < priority_of(y.uninherited),
    }
}

/// Puts `x` into `v` behind every object of its own key or a lesser one.
pub fn insert_object(v: &mut Vec<MapObject>, x: MapObject, k: SortKey)
    ensures
        object_views(final(v)@) == insert_sorted(object_views(old(v)@), x@, k),
{
    let ghost s = object_views(v@);
    let ghost key = sort_key(x@, k);
    let mut p: usize = v.len();
    assert(s.subrange(0, p as int) == s);
    while p > 0 && precedes(&x, &v[p - 1], k)
        invariant
            p <= v@.len(),
            s == object_views(v@),
            key == sort_key(x@, k),
            upper_bound(s, key, k) == upper_bound(s.subrange(0, p as int), key, k),
        decreases p,
    {
        proof {
            let t = s.subrange(0, p as int);
            assert(t.last() == v@[p - 1]@);
            assert(t.drop_last() == s.subrange(0, p - 1));
        }
        p -= 1;
    }
    proof {
        let t = s.subrange(0, p as int);
        if p > 0 {
            assert(t.last() == v@[p - 1]@);
        }
        assert(upper_bound(t, key, k) == p);
    }
    v.insert(p, x);
    assert(object_views(v@) == s.insert(p as int, x@));
}

/// The objects of `v` in the order `k`.
pub fn sorted_objects(v: &Vec<MapObject>, k: SortKey) -> (r: Vec<MapObject>)
    ensures
        object_views(r@) == stable_sort(object_views(v@), k),
{
    let mut r: Vec<MapObject> = Vec::new();
    let mut i: usize = 0;
    let ghost s = object_views(v@);
    assert(object_views(r@) == stable_sort(s.subrange(0, 0), k));
    while i < v.len()
        invariant
            i <= v@.len(),
            s == object_views(v@),
            object_views(r@) == stable_sort(s.subrange(0, i as int), k),
        decreases v@.len() - i,
    {
        proof {
            let t = s.subrange(0, i + 1);
            assert(t.drop_last() == s.subrange(0, i as int));
            assert(t.last() == v@[i as int]@);
        }
        let x = v[i].duplicate();
        insert_object(&mut r, x, k);
        i += 1;
    }
    assert(s.subrange(0, i as int) == s);
    r
}

/// How many of the objects are of the class `class`.
pub open spec fn count_of(s: Seq<MapObjectView>, class: MapObjectClass) -> nat
    decreases s.len(),
{
    if s.len() == 0 {
        0
    } else if s.last().class == class {
        count_of(s.drop_last(), class) + 1
    } else {
        count_of(s.drop_last(), class)
    }
}

/// Counts the objects of one class.
pub fn count_class(v: &Vec<MapObject>, class: MapObjectClass) -> (r: usize)
    ensures
        r == count_of(object_views(v@), class),
{
    let ghost s = object_views(v@);
    let mut r: usize = 0;
    let mut i: usize = 0;
    assert(count_of(s.subrange(0, 0), class) == 0);
    while i < v.len()
        invariant
            i <= v@.len(),
            s == object_views(v@),
            r == count_of(s.subrange(0, i as int), class),
            r <= i,
        decreases v@.len() - i,
    {
        proof {
            let t = s.subrange(0, i + 1);
            assert(t.drop_last() == s.subrange(0, i as int));
            assert(t.last() == v@[i as int]@);
        }
        if v[i].class.rank_of() == class.rank_of() {
            r += 1;
        }
        i += 1;
    }
    assert(s.subrange(0, i as int) == s);
    r
}

} // verus!
