//! One reference pair applied to the timeline.
//!
//! The velocity of a generated point is a decimal value that this library
//! does not compute. The work is therefore in two parts. `plan_two_point_fn`
//! says which points are due and what stands in each but the beat length;
//! `apply_two_point_fn` takes the beat lengths as text, one for each point of
//! the plan, and makes the points.

use crate::lines::{parse_timing_point, timing_point_of, COMMA};
use crate::number::{int_text, is_float, is_float_text, parse_i32, parse_i32_spec, push_int};
use crate::objects::{
    generated, object_views, MapObject, MapObjectClass, MapObjectView, SvtError,
};
use crate::options::{bytes_of, text_bytes, AppOptions, CurveMode};
use crate::text::{copy_range, join_pieces, separated, split, views};
use vstd::prelude::*;

verus! {

/// What the timing points up to some place of the timeline have left in
/// effect.
#[derive(Clone, Copy, Debug)]
pub struct RunningState {
    /// The time of the last tempo line.
    pub last_uni_time: i32,
    /// The time of the last timing point at which kiai time began or ended.
    pub kiai_change_time: i32,
    /// The place of the last tempo line in the timeline.
    pub tempo: Option<usize>,
    /// The place of the last timing point in the timeline.
    pub held: Option<usize>,
    pub meter: i32,
    pub sampleset: i32,
    pub sampleindex: i32,
    pub volume: i32,
    pub effects: i32,
}

/// Whether the effects hold the kiai flag.
pub open spec fn kiai(effects: i32) -> bool {
    effects & 1 == 1
}

/// The state before any timing point.
pub open spec fn initial_state() -> RunningState {
    RunningState {
        last_uni_time: 0,
        kiai_change_time: 0,
        tempo: None,
        held: None,
        meter: 4,
        sampleset: 0,
        sampleindex: 0,
        volume: 100,
        effects: 0,
    }
}

/// The state behind the object `o`, which stands at `index`, where `s` was
/// the state before it. A tempo line sets everything; a velocity line leaves
/// tempo and meter; any other object leaves the state as it is.
pub open spec fn step(s: RunningState, index: int, o: MapObjectView) -> RunningState {
    let kiai_change_time = if kiai(o.effects) != kiai(s.effects) {
        o.time
    } else {
        s.kiai_change_time
    };
    match o.class {
        MapObjectClass::UniPoint => RunningState {
            last_uni_time: o.time,
            kiai_change_time,
            tempo: Some(index as usize),
            held: Some(index as usize),
            meter: o.meter,
            sampleset: o.sampleset,
            sampleindex: o.sampleindex,
            volume: o.volume,
            effects: o.effects,
        },
        MapObjectClass::InhPoint => RunningState {
            kiai_change_time,
            held: Some(index as usize),
            sampleset: o.sampleset,
            sampleindex: o.sampleindex,
            volume: o.volume,
            effects: o.effects,
            ..s
        },
        _ => s,
    }
}

/// The state behind the first `n` objects of the timeline.
pub open spec fn state_at(timeline: Seq<MapObjectView>, n: int) -> RunningState
    decreases n,
{
    if n <= 0 {
        initial_state()
    } else {
        step(state_at(timeline, n - 1), n - 1, timeline[n - 1])
    }
}

/// The place of the last tempo line among the first `n` objects of the
/// timeline whose time is not after `time`.
pub open spec fn tempo_at(timeline: Seq<MapObjectView>, time: i32, n: int) -> Option<int>
    decreases n,
{
    if n <= 0 {
        None
    } else if timeline[n - 1].class == MapObjectClass::UniPoint && timeline[n - 1].time <= time {
        Some(n - 1)
    } else {
        tempo_at(timeline, time, n - 1)
    }
}

/// What `tempo_at` finds is a tempo line of the timeline, not after `time`.
pub proof fn lemma_tempo_at(timeline: Seq<MapObjectView>, time: i32, n: int)
    requires
        n <= timeline.len(),
    ensures
        match tempo_at(timeline, time, n) {
            Some(k) => 0 <= k < n && timeline[k].class == MapObjectClass::UniPoint
                && timeline[k].time <= time,
            None => forall|k: int|
                0 <= k < n ==> !(timeline[k].class == MapObjectClass::UniPoint && timeline[k].time
                    <= time),
        },
    decreases n,
{
    if n > 0 {
        lemma_tempo_at(timeline, time, n - 1);
    }
}

/// Where a tempo is in effect at some time, one is in effect at any later
/// time.
pub proof fn lemma_tempo_later(timeline: Seq<MapObjectView>, early: i32, late: i32, n: int)
    requires
        n <= timeline.len(),
        early <= late,
        tempo_at(timeline, early, n) is Some,
    ensures
        tempo_at(timeline, late, n) is Some,
    decreases n,
{
    if n > 0 && !(timeline[n - 1].class == MapObjectClass::UniPoint && timeline[n - 1].time
        <= early) {
        lemma_tempo_later(timeline, early, late, n - 1);
    }
}

/// What of a reference pair and the options decides which points are made.
#[derive(Clone, Copy, Debug)]
pub struct Span {
    pub start_time: i32,
    pub end_time: i32,
    pub start_volume: i32,
    pub end_volume: i32,
    pub offset: i32,
    pub buffer: i32,
    pub mode: Option<CurveMode>,
    pub vol: bool,
    pub hits: bool,
    pub snappings: bool,
    pub inh_lines: bool,
}

impl Span {
    /// Whether the mode works on timing points only.
    pub open spec fn timing_points_only(self) -> bool {
        match self.mode {
            Some(m) => m.timing_points_only(),
            None => false,
        }
    }

    /// Whether a point is made for `o`: its class is one that was asked for,
    /// and its time lies between the reference points, the buffer counted in
    /// on both sides. A tempo line never gets one.
    pub open spec fn wants(self, o: MapObjectView) -> bool {
        &&& match o.class {
            MapObjectClass::InhPoint => self.inh_lines || self.timing_points_only(),
            MapObjectClass::Snapping => self.snappings && !self.timing_points_only(),
            MapObjectClass::Hit => self.hits && !self.timing_points_only(),
            _ => false,
        }
        &&& self.start_time - self.buffer <= o.time <= self.end_time + self.buffer
    }

    /// Both volumes of the pair lie in 0 to 100.
    pub open spec fn volumes_in_range(self) -> bool {
        0 <= self.start_volume <= 100 && 0 <= self.end_volume <= 100
    }
}

/// The quotient `n / d` as a whole number, a half rounding away from zero.
pub open spec fn round_half_away(n: int, d: int) -> int {
    if n >= 0 {
        (2 * n + d) / (2 * d)
    } else {
        -((2 * (-n) + d) / (2 * d))
    }
}

/// `v` held to what 32 bits without a sign can take.
pub open spec fn clamp_u32(v: int) -> int {
    if v < 0 {
        0
    } else if v > u32::MAX {
        u32::MAX as int
    } else {
        v
    }
}

/// The volume on the straight line from `start_volume` to `end_volume`,
/// `elapsed` milliseconds behind the start of a pair that is `length`
/// milliseconds long: `start_volume + elapsed * (end_volume - start_volume) /
/// length`, rounded, and not below zero.
///
/// A pair of length zero is one instant and has no slope: every point of it
/// has the start volume.
pub open spec fn interpolated_volume(
    start_volume: int,
    end_volume: int,
    elapsed: int,
    length: int,
) -> int {
    if length > 0 {
        clamp_u32(
            round_half_away(
                start_volume * length + elapsed * (end_volume - start_volume),
                length,
            ),
        )
    } else {
        clamp_u32(start_volume)
    }
}

/// At its start the line of volumes has the start volume, and at its end the
/// end volume. A pair of one instant has one volume at that instant, the
/// start volume; so it has the end volume there only where the two are one.
pub proof fn lemma_volume_endpoints(start_volume: int, end_volume: int, length: int)
    requires
        0 <= start_volume <= 100,
        0 <= end_volume <= 100,
        length >= 0,
    ensures
        interpolated_volume(start_volume, end_volume, 0, length) == start_volume,
        length > 0 || start_volume == end_volume ==> interpolated_volume(
            start_volume,
            end_volume,
            length,
            length,
        ) == end_volume,
{
    if length > 0 {
        lemma_round_exact(start_volume, length);
        lemma_round_exact(end_volume, length);
        assert(start_volume * length + 0 * (end_volume - start_volume) == start_volume * length);
        assert(start_volume * length + length * (end_volume - start_volume) == end_volume
            * length) by (nonlinear_arith);
    }
}

/// A whole multiple of the divisor is divided without rounding.
pub proof fn lemma_round_exact(v: int, d: int)
    requires
        v >= 0,
        d > 0,
    ensures
        round_half_away(v * d, d) == v,
{
    assert(v * d >= 0) by (nonlinear_arith)
        requires
            v >= 0,
            d > 0,
    ;
    assert(2 * (v * d) + d == v * (2 * d) + d) by (nonlinear_arith);
    vstd::arithmetic::div_mod::lemma_fundamental_div_mod_converse(2 * (v * d) + d, 2 * d, v, d);
}

/// The line of volumes runs the way the pair runs: where the end volume is
/// not below the start volume, a later point has no lower volume than an
/// earlier one; where it is not above, no higher volume.
pub proof fn lemma_volume_monotonic(
    start_volume: int,
    end_volume: int,
    early: int,
    late: int,
    length: int,
)
    requires
        early <= late,
        length > 0,
    ensures
        start_volume <= end_volume ==> interpolated_volume(start_volume, end_volume, early, length)
            <= interpolated_volume(start_volume, end_volume, late, length),
        start_volume >= end_volume ==> interpolated_volume(start_volume, end_volume, early, length)
            >= interpolated_volume(start_volume, end_volume, late, length),
{
    let rise = end_volume - start_volume;
    let a = start_volume * length + early * rise;
    let b = start_volume * length + late * rise;
    if rise >= 0 {
        assert(a <= b) by (nonlinear_arith)
            requires
                rise >= 0,
                early <= late,
                a == start_volume * length + early * rise,
                b == start_volume * length + late * rise,
        ;
        lemma_round_monotonic(a, b, length);
    }
    if rise <= 0 {
        assert(b <= a) by (nonlinear_arith)
            requires
                rise <= 0,
                early <= late,
                a == start_volume * length + early * rise,
                b == start_volume * length + late * rise,
        ;
        lemma_round_monotonic(b, a, length);
    }
}

/// Between the reference points the volume lies between their volumes.
pub proof fn lemma_volume_between(start_volume: int, end_volume: int, elapsed: int, length: int)
    requires
        0 <= start_volume <= 100,
        0 <= end_volume <= 100,
        0 <= elapsed <= length,
        length > 0,
    ensures
        start_volume <= end_volume ==> start_volume <= interpolated_volume(
            start_volume,
            end_volume,
            elapsed,
            length,
        ) <= end_volume,
        start_volume >= end_volume ==> end_volume <= interpolated_volume(
            start_volume,
            end_volume,
            elapsed,
            length,
        ) <= start_volume,
{
    lemma_volume_endpoints(start_volume, end_volume, length);
    lemma_volume_monotonic(start_volume, end_volume, 0, elapsed, length);
    lemma_volume_monotonic(start_volume, end_volume, elapsed, length, length);
}

/// Rounding keeps the order of the numerators.
pub proof fn lemma_round_monotonic(a: int, b: int, d: int)
    requires
        a <= b,
        d > 0,
    ensures
        round_half_away(a, d) <= round_half_away(b, d),
{
    if a >= 0 {
        vstd::arithmetic::div_mod::lemma_div_is_ordered(2 * a + d, 2 * b + d, 2 * d);
    } else if b < 0 {
        vstd::arithmetic::div_mod::lemma_div_is_ordered(2 * (-b) + d, 2 * (-a) + d, 2 * d);
    } else {
        vstd::arithmetic::div_mod::lemma_div_pos_is_pos(2 * (-a) + d, 2 * d);
        vstd::arithmetic::div_mod::lemma_div_pos_is_pos(2 * b + d, 2 * d);
    }
}

/// The volume on the line from `start_volume` to `end_volume`.
pub fn interpolate_volume(start_volume: i32, end_volume: i32, elapsed: i64, length: i64) -> (r:
    i64)
    ensures
        r == interpolated_volume(
            start_volume as int,
            end_volume as int,
            elapsed as int,
            length as int,
        ),
{
    let rise: i128 = end_volume as i128 - start_volume as i128;
    if length > 0 {
        let d: i128 = length as i128;
        assert(-0x8000_0000 * 0x8000_0000_0000_0000 <= start_volume * d <= 0x8000_0000
            * 0x8000_0000_0000_0000) by (nonlinear_arith)
            requires
                -0x8000_0000 <= start_volume <= 0x8000_0000,
                0 < d <= 0x8000_0000_0000_0000,
        ;
        assert(-0x1_0000_0000 * 0x8000_0000_0000_0000 <= elapsed * rise <= 0x1_0000_0000
            * 0x8000_0000_0000_0000) by (nonlinear_arith)
            requires
                -0x1_0000_0000 <= rise <= 0x1_0000_0000,
                -0x8000_0000_0000_0000 <= elapsed <= 0x8000_0000_0000_0000,
        ;
        let n: i128 = start_volume as i128 * d + elapsed as i128 * rise;
        if n < 0 {
            proof {
                vstd::arithmetic::div_mod::lemma_div_pos_is_pos(2 * (-n) + d, 2 * d);
            }
            0
        } else {
            let q: i128 = (2 * n + d) / (2 * d);
            if q > 0xffff_ffff {
                0xffff_ffff
            } else {
                proof {
                    vstd::arithmetic::div_mod::lemma_div_pos_is_pos(2 * n + d, 2 * d);
                }
                q as i64
            }
        }
    } else if start_volume < 0 {
        0
    } else {
        start_volume as i64
    }
}

/// The time of the point that is made for an object at `time`: moved by the
/// offset, but not to before the last tempo line nor to before the last
/// change of kiai time; held to 32 bits.
pub open spec fn placed_time(time: i32, offset: i32, last_uni_time: i32, kiai_change_time: i32) -> i32 {
    let moved = time + offset;
    let held = if last_uni_time > kiai_change_time {
        last_uni_time
    } else {
        kiai_change_time
    };
    if moved <= held {
        held
    } else if moved > i32::MAX {
        i32::MAX
    } else {
        moved as i32
    }
}

/// The time of the point that is made for an object at `time`.
pub fn place_time(time: i32, offset: i32, last_uni_time: i32, kiai_change_time: i32) -> (r: i32)
    ensures
        r == placed_time(time, offset, last_uni_time, kiai_change_time),
{
    let moved: i64 = time as i64 + offset as i64;
    let held: i32 = if last_uni_time > kiai_change_time {
        last_uni_time
    } else {
        kiai_change_time
    };
    if moved <= held as i64 {
        held
    } else if moved > i32::MAX as i64 {
        i32::MAX
    } else {
        moved as i32
    }
}

/// One point that is due: everything of it but its beat length, and what
/// its beat length is to be computed from.
#[derive(Clone, Copy, Debug)]
pub struct Sample {
    /// The place in the timeline of the object that the point is made for.
    pub object: usize,
    /// The time of that object, counted from the start of the pair.
    pub elapsed: i64,
    /// The place of the tempo line in effect; `None` before the first.
    pub tempo: Option<usize>,
    /// The place of the timing point in effect; `None` before the first.
    pub held: Option<usize>,
    /// The fields of the line that is written for the point.
    pub time: i32,
    pub meter: i32,
    pub sampleset: i32,
    pub sampleindex: i32,
    pub volume: i64,
    pub effects: i32,
}

/// The point that is due for the object `o` at `index`, where `s` is the
/// state behind it.
pub open spec fn sample_for(span: Span, s: RunningState, index: int, o: MapObjectView) -> Sample {
    Sample {
        object: index as usize,
        elapsed: (o.time - span.start_time) as i64,
        tempo: s.tempo,
        held: s.held,
        time: placed_time(o.time, span.offset, s.last_uni_time, s.kiai_change_time),
        meter: s.meter,
        sampleset: s.sampleset,
        sampleindex: s.sampleindex,
        volume: if span.vol {
            interpolated_volume(
                span.start_volume as int,
                span.end_volume as int,
                o.time - span.start_time,
                span.end_time - span.start_time,
            ) as i64
        } else {
            s.volume as i64
        },
        effects: s.effects,
    }
}

/// The points that are due for the first `n` objects of the timeline, in
/// the order of the timeline.
pub open spec fn samples_upto(timeline: Seq<MapObjectView>, span: Span, n: int) -> Seq<Sample>
    decreases n,
{
    if n <= 0 {
        Seq::empty()
    } else if span.wants(timeline[n - 1]) {
        samples_upto(timeline, span, n - 1).push(
            sample_for(span, state_at(timeline, n), n - 1, timeline[n - 1]),
        )
    } else {
        samples_upto(timeline, span, n - 1)
    }
}

/// What is to be done for one reference pair.
#[derive(Debug)]
pub struct Plan {
    pub span: Span,
    /// The beat lengths of the two reference points, as written.
    pub start_beatlength: Vec<u8>,
    pub end_beatlength: Vec<u8>,
    /// The places of the tempo lines in effect at the two reference points.
    pub start_tempo: usize,
    pub end_tempo: usize,
    pub samples: Vec<Sample>,
}

/// A `Plan` as a mathematical value.
pub struct PlanView {
    pub span: Span,
    pub start_beatlength: Seq<u8>,
    pub end_beatlength: Seq<u8>,
    pub start_tempo: usize,
    pub end_tempo: usize,
    pub samples: Seq<Sample>,
}

impl View for Plan {
    type V = PlanView;

    open spec fn view(&self) -> PlanView {
        PlanView {
            span: self.span,
            start_beatlength: self.start_beatlength@,
            end_beatlength: self.end_beatlength@,
            start_tempo: self.start_tempo,
            end_tempo: self.end_tempo,
            samples: self.samples@,
        }
    }
}

/// Whether every number of the options that an apply reads is well formed:
/// the parameter of each mode that is switched on, the offset and the buffer.
pub open spec fn options_well_formed(opt: AppOptions) -> bool {
    &&& opt.pol_sv ==> is_float_text(text_bytes(opt.pol_exp))
    &&& opt.flat_sv && !opt.flat_scaling ==> is_float_text(text_bytes(opt.flat_change))
    &&& opt.flat_sv && opt.flat_scaling ==> is_float_text(text_bytes(opt.flat_scaling_change))
    &&& opt.linear_fit_sv ==> is_float_text(text_bytes(opt.linear_fit_end_sv))
    &&& parse_i32_spec(text_bytes(opt.offset)) is Some
    &&& parse_i32_spec(text_bytes(opt.buffer)) is Some
}

/// What the two reference points and the options give: times and volumes
/// of the points, offset and buffer as numbers, the mode, and what was
/// asked for.
pub open spec fn span_of(start: MapObjectView, end: MapObjectView, opt: AppOptions) -> Span {
    Span {
        start_time: start.time,
        end_time: end.time,
        start_volume: start.volume,
        end_volume: end.volume,
        offset: parse_i32_spec(text_bytes(opt.offset))->0,
        buffer: parse_i32_spec(text_bytes(opt.buffer))->0,
        mode: opt.mode(),
        vol: opt.vol,
        hits: opt.hits,
        snappings: opt.snappings,
        inh_lines: opt.inh_lines,
    }
}

/// The plan for one reference pair, or why there is none. The checks come
/// in this order: the options are well formed; there is a mode or the volume
/// to apply; both lines are timing points; a tempo line stands at or before
/// the start; the start is not after the end.
pub open spec fn plan_of(
    timeline: Seq<MapObjectView>,
    start_line: Seq<u8>,
    end_line: Seq<u8>,
    opt: AppOptions,
) -> Result<PlanView, SvtError> {
    let start = timing_point_of(start_line);
    let end = timing_point_of(end_line);
    if !options_well_formed(opt) {
        Err(SvtError::Format)
    } else if opt.mode() is None && !opt.vol {
        Err(SvtError::NoChanges)
    } else if start is None || end is None {
        Err(SvtError::Format)
    } else if tempo_at(timeline, start->0.time, timeline.len() as int) is None {
        Err(SvtError::NoTempo)
    } else if start->0.time > end->0.time {
        Err(SvtError::Order)
    } else {
        let span = span_of(start->0, end->0, opt);
        Ok(
            PlanView {
                span,
                start_beatlength: start->0.beatlength,
                end_beatlength: end->0.beatlength,
                start_tempo: tempo_at(timeline, start->0.time, timeline.len() as int)->0 as usize,
                end_tempo: tempo_at(timeline, end->0.time, timeline.len() as int)->0 as usize,
                samples: samples_upto(timeline, span, timeline.len() as int),
            },
        )
    }
}

/// The fields of the line that is written for a point: its time, its beat
/// length, the meter, sample set, sample index and volume, the flag of a
/// velocity line, and the effects.
pub open spec fn point_fields(sample: Sample, beatlength: Seq<u8>) -> Seq<Seq<u8>> {
    seq![
        int_text(sample.time as int),
        beatlength,
        int_text(sample.meter as int),
        int_text(sample.sampleset as int),
        int_text(sample.sampleindex as int),
        int_text(sample.volume as int),
        int_text(0),
        int_text(sample.effects as int),
    ]
}

/// The line that is written for a point: its fields with commas between
/// them.
pub open spec fn point_text(sample: Sample, beatlength: Seq<u8>) -> Seq<u8> {
    separated(point_fields(sample, beatlength), COMMA)
}

/// The points that are made from the samples of a plan and their beat
/// lengths.
pub open spec fn generated_points(samples: Seq<Sample>, beatlengths: Seq<Seq<u8>>) -> Seq<
    MapObjectView,
> {
    Seq::new(
        samples.len(),
        |i: int| generated(samples[i].time, point_text(samples[i], beatlengths[i])),
    )
}

/// Whether `beatlengths` holds one decimal value for each sample.
pub open spec fn beatlengths_fit(samples: Seq<Sample>, beatlengths: Seq<Seq<u8>>) -> bool {
    &&& beatlengths.len() == samples.len()
    &&& forall|i: int| 0 <= i < beatlengths.len() ==> is_float_text(#[trigger] beatlengths[i])
}

/// What was computed for a plan.
#[derive(Debug)]
pub struct CurveValues {
    /// Whether the velocities of both reference points are above zero.
    pub sv_positive: bool,
    /// The beat length of each point of the plan, in the order of its samples.
    pub beatlengths: Vec<Vec<u8>>,
}

/// The points that one reference pair adds, or why it adds none. After the
/// checks of the plan: both velocities are positive; both volumes lie in 0
/// to 100; there is one well-formed beat length for each sample.
pub open spec fn applied(
    timeline: Seq<MapObjectView>,
    start_line: Seq<u8>,
    end_line: Seq<u8>,
    opt: AppOptions,
    sv_positive: bool,
    beatlengths: Seq<Seq<u8>>,
) -> Result<Seq<MapObjectView>, SvtError> {
    match plan_of(timeline, start_line, end_line, opt) {
        Err(e) => Err(e),
        Ok(plan) => if !sv_positive {
            Err(SvtError::SvSign)
        } else if !plan.span.volumes_in_range() {
            Err(SvtError::VolumeRange)
        } else if !beatlengths_fit(plan.samples, beatlengths) {
            Err(SvtError::Format)
        } else {
            Ok(generated_points(plan.samples, beatlengths))
        },
    }
}

/// The state behind `o`.
pub fn advance(s: RunningState, index: usize, o: &MapObject) -> (r: RunningState)
    ensures
        r == step(s, index as int, o@),
{
    let kiai_change_time = if (o.effects & 1 == 1) != (s.effects & 1 == 1) {
        o.time
    } else {
        s.kiai_change_time
    };
    match o.class {
        MapObjectClass::UniPoint => RunningState {
            last_uni_time: o.time,
            kiai_change_time,
            tempo: Some(index),
            held: Some(index),
            meter: o.meter,
            sampleset: o.sampleset,
            sampleindex: o.sampleindex,
            volume: o.volume,
            effects: o.effects,
        },
        MapObjectClass::InhPoint => RunningState {
            last_uni_time: s.last_uni_time,
            kiai_change_time,
            tempo: s.tempo,
            held: Some(index),
            meter: s.meter,
            sampleset: o.sampleset,
            sampleindex: o.sampleindex,
            volume: o.volume,
            effects: o.effects,
        },
        _ => s,
    }
}

/// Whether a point is made for `o`.
pub fn wanted(span: &Span, o: &MapObject) -> (r: bool)
    ensures
        r == span.wants(o@),
{
    let timing_only = match span.mode {
        Some(CurveMode::Flat) => true,
        Some(CurveMode::LinearFit) => true,
        _ => false,
    };
    let asked = match o.class {
        MapObjectClass::InhPoint => span.inh_lines || timing_only,
        MapObjectClass::Snapping => span.snappings && !timing_only,
        MapObjectClass::Hit => span.hits && !timing_only,
        _ => false,
    };
    asked && span.start_time as i64 - span.buffer as i64 <= o.time as i64 && o.time as i64
        <= span.end_time as i64 + span.buffer as i64
}

/// The place of the last tempo line of `timeline` that is not after `time`.
pub fn find_tempo(timeline: &Vec<MapObject>, time: i32) -> (r: Option<usize>)
    ensures
        match r {
            Some(k) => tempo_at(object_views(timeline@), time, timeline@.len() as int) == Some(
                k as int,
            ),
            None => tempo_at(object_views(timeline@), time, timeline@.len() as int) is None,
        },
{
    let ghost tl = object_views(timeline@);
    let mut n: usize = timeline.len();
    while n > 0
        invariant
            n <= timeline@.len(),
            tl == object_views(timeline@),
            tempo_at(tl, time, timeline@.len() as int) == tempo_at(tl, time, n as int),
        decreases n,
    {
        let o = &timeline[n - 1];
        assert(tl[n - 1] == o@);
        if class_is_uni(o.class) && o.time <= time {
            return Some(n - 1);
        }
        n -= 1;
    }
    None
}

fn class_is_uni(class: MapObjectClass) -> (r: bool)
    ensures
        r == (class == MapObjectClass::UniPoint),
{
    match class {
        MapObjectClass::UniPoint => true,
        _ => false,
    }
}

/// A whole number in decimal notation.
fn written_int(v: i64) -> (r: Vec<u8>)
    ensures
        r@ == int_text(v as int),
{
    let mut r: Vec<u8> = Vec::new();
    push_int(&mut r, v);
    assert(Seq::<u8>::empty() + int_text(v as int) == int_text(v as int));
    r
}

/// Writes the line of a point.
pub fn write_point(sample: &Sample, beatlength: &[u8]) -> (r: Vec<u8>)
    ensures
        r@ == point_text(*sample, beatlength@),
{
    let mut fields: Vec<Vec<u8>> = Vec::new();
    fields.push(written_int(sample.time as i64));
    assert(beatlength@.subrange(0, beatlength@.len() as int) == beatlength@);
    fields.push(copy_range(beatlength, 0, beatlength.len()));
    fields.push(written_int(sample.meter as i64));
    fields.push(written_int(sample.sampleset as i64));
    fields.push(written_int(sample.sampleindex as i64));
    fields.push(written_int(sample.volume));
    fields.push(written_int(0));
    fields.push(written_int(sample.effects as i64));
    assert(views(fields@) =~= point_fields(*sample, beatlength@));
    join_pieces(&fields, COMMA)
}

/// Whether the options are well formed.
fn check_options(opt: &AppOptions) -> (r: bool)
    ensures
        r == options_well_formed(*opt),
{
    if opt.pol_sv && !is_float(bytes_of(&opt.pol_exp)) {
        return false;
    }
    if opt.flat_sv && !opt.flat_scaling && !is_float(bytes_of(&opt.flat_change)) {
        return false;
    }
    if opt.flat_sv && opt.flat_scaling && !is_float(bytes_of(&opt.flat_scaling_change)) {
        return false;
    }
    if opt.linear_fit_sv && !is_float(bytes_of(&opt.linear_fit_end_sv)) {
        return false;
    }
    parse_i32(bytes_of(&opt.offset)).is_some() && parse_i32(bytes_of(&opt.buffer)).is_some()
}

/// What a beatmap holds and what has been made for it.
#[derive(Debug)]
pub struct SVT {
    /// The timeline: timing points, snappings and hit objects.
    pub all_objs: Vec<MapObject>,
    /// The points made since the beatmap was loaded.
    pub new_objs: Vec<MapObject>,
}

impl Default for SVT {
    /// Nothing loaded, nothing made.
    fn default() -> (r: SVT)
        ensures
            r.timeline() == Seq::<MapObjectView>::empty(),
            r.pending() == Seq::<MapObjectView>::empty(),
    {
        SVT::new()
    }
}

impl SVT {
    /// The timeline as a mathematical value.
    pub open spec fn timeline(&self) -> Seq<MapObjectView> {
        object_views(self.all_objs@)
    }

    /// The points made so far, as a mathematical value.
    pub open spec fn pending(&self) -> Seq<MapObjectView> {
        object_views(self.new_objs@)
    }

    /// Nothing loaded, nothing made.
    pub fn new() -> (r: SVT)
        ensures
            r.timeline() == Seq::<MapObjectView>::empty(),
            r.pending() == Seq::<MapObjectView>::empty(),
    {
        SVT { all_objs: Vec::new(), new_objs: Vec::new() }
    }

    /// Says which points the reference pair of `start_line` and `end_line`
    /// asks for under `opt`, or why it asks for none.
    pub fn plan_two_point_fn(&self, start_line: &[u8], end_line: &[u8], opt: &AppOptions) -> (r:
        Result<Plan, SvtError>)
        ensures
            match r {
                Ok(plan) => plan_of(self.timeline(), start_line@, end_line@, *opt) == Ok::<
                    PlanView,
                    SvtError,
                >(plan@),
                Err(e) => plan_of(self.timeline(), start_line@, end_line@, *opt) == Err::<
                    PlanView,
                    SvtError,
                >(e),
            },
    {
        let ghost tl = self.timeline();
        if !check_options(opt) {
            return Err(SvtError::Format);
        }
        let mode = opt.curve_mode();
        if mode.is_none() && !opt.vol {
            return Err(SvtError::NoChanges);
        }
        let start = match parse_timing_point(start_line) {
            Some(o) => o,
            None => {
                return Err(SvtError::Format);
            },
        };
        let end = match parse_timing_point(end_line) {
            Some(o) => o,
            None => {
                return Err(SvtError::Format);
            },
        };
        let start_tempo = match find_tempo(&self.all_objs, start.time) {
            Some(k) => k,
            None => {
                return Err(SvtError::NoTempo);
            },
        };
        if start.time > end.time {
            return Err(SvtError::Order);
        }
        proof {
            lemma_tempo_later(tl, start.time, end.time, tl.len() as int);
        }
        let end_tempo = match find_tempo(&self.all_objs, end.time) {
            Some(k) => k,
            None => start_tempo,
        };
        let offset = parse_i32(bytes_of(&opt.offset)).unwrap();
        let buffer = parse_i32(bytes_of(&opt.buffer)).unwrap();
        let span = Span {
            start_time: start.time,
            end_time: end.time,
            start_volume: start.volume,
            end_volume: end.volume,
            offset,
            buffer,
            mode,
            vol: opt.vol,
            hits: opt.hits,
            snappings: opt.snappings,
            inh_lines: opt.inh_lines,
        };
        assert(span == span_of(start@, end@, *opt));
        let length: i64 = end.time as i64 - start.time as i64;
        let mut samples: Vec<Sample> = Vec::new();
        let mut state = RunningState {
            last_uni_time: 0,
            kiai_change_time: 0,
            tempo: None,
            held: None,
            meter: 4,
            sampleset: 0,
            sampleindex: 0,
            volume: 100,
            effects: 0,
        };
        let mut i: usize = 0;
        while i < self.all_objs.len()
            invariant
                i <= self.all_objs@.len(),
                tl == object_views(self.all_objs@),
                state == state_at(tl, i as int),
                samples@ == samples_upto(tl, span, i as int),
                length == span.end_time - span.start_time,
            decreases self.all_objs@.len() - i,
        {
            let o = &self.all_objs[i];
            assert(tl[i as int] == o@);
            state = advance(state, i, o);
            if wanted(&span, o) {
                let elapsed: i64 = o.time as i64 - span.start_time as i64;
                let volume: i64 = if span.vol {
                    interpolate_volume(span.start_volume, span.end_volume, elapsed, length)
                } else {
                    state.volume as i64
                };
                samples.push(
                    Sample {
                        object: i,
                        elapsed,
                        tempo: state.tempo,
                        held: state.held,
                        time: place_time(
                            o.time,
                            span.offset,
                            state.last_uni_time,
                            state.kiai_change_time,
                        ),
                        meter: state.meter,
                        sampleset: state.sampleset,
                        sampleindex: state.sampleindex,
                        volume,
                        effects: state.effects,
                    },
                );
            }
            i += 1;
        }
        Ok(
            Plan {
                span,
                start_beatlength: start.beatlength,
                end_beatlength: end.beatlength,
                start_tempo,
                end_tempo,
                samples,
            },
        )
    }

    /// Makes the points that the reference pair of `start_line` and
    /// `end_line` asks for under `opt`, with the beat lengths of `curve`, and
    /// adds them to the points made so far. Where the pair is refused,
    /// nothing is added.
    pub fn apply_two_point_fn(
        &mut self,
        start_line: &[u8],
        end_line: &[u8],
        opt: &AppOptions,
        curve: &CurveValues,
    ) -> (r: Result<(), SvtError>)
        ensures
            final(self).timeline() == old(self).timeline(),
            match r {
                Ok(()) => {
                    &&& applied(
                        old(self).timeline(),
                        start_line@,
                        end_line@,
                        *opt,
                        curve.sv_positive,
                        views(curve.beatlengths@),
                    ) is Ok
                    &&& final(self).pending() == old(self).pending() + applied(
                        old(self).timeline(),
                        start_line@,
                        end_line@,
                        *opt,
                        curve.sv_positive,
                        views(curve.beatlengths@),
                    )->Ok_0
                },
                Err(e) => {
                    &&& applied(
                        old(self).timeline(),
                        start_line@,
                        end_line@,
                        *opt,
                        curve.sv_positive,
                        views(curve.beatlengths@),
                    ) == Err::<Seq<MapObjectView>, SvtError>(e)
                    &&& final(self).pending() == old(self).pending()
                },
            },
    {
        let plan = match self.plan_two_point_fn(start_line, end_line, opt) {
            Ok(plan) => plan,
            Err(e) => {
                return Err(e);
            },
        };
        if !curve.sv_positive {
            return Err(SvtError::SvSign);
        }
        let span = &plan.span;
        if span.start_volume < 0 || span.start_volume > 100 || span.end_volume < 0
            || span.end_volume > 100 {
            return Err(SvtError::VolumeRange);
        }
        if !check_beatlengths(&plan.samples, &curve.beatlengths) {
            return Err(SvtError::Format);
        }
        let ghost texts = views(curve.beatlengths@);
        let ghost points = generated_points(plan.samples@, texts);
        let mut i: usize = 0;
        assert(points.subrange(0, 0) == Seq::<MapObjectView>::empty());
        while i < plan.samples.len()
            invariant
                i <= plan.samples@.len(),
                plan.samples@.len() == curve.beatlengths@.len(),
                texts == views(curve.beatlengths@),
                points == generated_points(plan.samples@, texts),
                self.timeline() == old(self).timeline(),
                self.pending() == old(self).pending() + points.subrange(0, i as int),
            decreases plan.samples@.len() - i,
        {
            let sample = &plan.samples[i];
            let data = write_point(sample, curve.beatlengths[i].as_slice());
            let point = MapObject::new_generated(sample.time, data);
            proof {
                assert(texts[i as int] == curve.beatlengths@[i as int]@);
                assert(point@ == points[i as int]);
                assert(points.subrange(0, i + 1) == points.subrange(0, i as int).push(
                    points[i as int],
                ));
                assert(object_views(self.new_objs@.push(point)) == object_views(
                    self.new_objs@,
                ).push(point@));
            }
            self.new_objs.push(point);
            i += 1;
        }
        assert(points.subrange(0, i as int) == points);
        Ok(())
    }
}

/// Whether `beatlengths` holds one decimal value for each sample.
fn check_beatlengths(samples: &Vec<Sample>, beatlengths: &Vec<Vec<u8>>) -> (r: bool)
    ensures
        r == beatlengths_fit(samples@, views(beatlengths@)),
{
    if beatlengths.len() != samples.len() {
        return false;
    }
    let ghost texts = views(beatlengths@);
    let mut i: usize = 0;
    while i < beatlengths.len()
        invariant
            i <= beatlengths@.len(),
            texts == views(beatlengths@),
            forall|j: int| 0 <= j < i ==> is_float_text(#[trigger] texts[j]),
        decreases beatlengths@.len() - i,
    {
        assert(texts[i as int] == beatlengths@[i as int]@);
        if !is_float(beatlengths[i].as_slice()) {
            return false;
        }
        i += 1;
    }
    true
}

/// The fields of the line of a point are read from it again.
pub proof fn lemma_point_splits(sample: Sample, beatlength: Seq<u8>)
    requires
        is_float_text(beatlength),
    ensures
        split(point_text(sample, beatlength), COMMA) == point_fields(sample, beatlength),
{
    let f = point_fields(sample, beatlength);
    lemma_number_has_no_comma(sample.time as int);
    lemma_number_has_no_comma(sample.meter as int);
    lemma_number_has_no_comma(sample.sampleset as int);
    lemma_number_has_no_comma(sample.sampleindex as int);
    lemma_number_has_no_comma(sample.volume as int);
    lemma_number_has_no_comma(0);
    lemma_number_has_no_comma(sample.effects as int);
    crate::number::lemma_float_bytes(beatlength);
    assert forall|j: int, k: int| 0 <= j < f.len() && 0 <= k < f[j].len() implies (
    #[trigger] f[j][k]) != COMMA by {
        if j == 0 {
        } else if j == 1 {
            assert(crate::number::is_number_byte(beatlength[k]));
        } else if j == 2 {
        } else if j == 3 {
        } else if j == 4 {
        } else if j == 5 {
        } else if j == 6 {
        } else {
        }
    }
    crate::text::lemma_split_separated(f, COMMA);
}

/// The line of a point reads back as a velocity line with the fields of
/// the point: its time, its beat length as it was handed in, and the values
/// in effect. The volume must be one that a line can hold.
pub proof fn lemma_point_reads_back(sample: Sample, beatlength: Seq<u8>)
    requires
        is_float_text(beatlength),
        i32::MIN <= sample.volume <= i32::MAX,
    ensures
        timing_point_of(point_text(sample, beatlength)) == Some(
            MapObjectView {
                class: MapObjectClass::InhPoint,
                time: sample.time,
                beatlength,
                meter: sample.meter,
                sampleset: sample.sampleset,
                sampleindex: sample.sampleindex,
                volume: sample.volume as i32,
                uninherited: 0,
                effects: sample.effects,
                data: point_text(sample, beatlength),
            },
        ),
{
    let line = point_text(sample, beatlength);
    let f = split(line, COMMA);
    lemma_point_splits(sample, beatlength);
    assert(f == point_fields(sample, beatlength));
    assert(f.len() == 8);
    assert(f[0] == int_text(sample.time as int));
    assert(f[1] == beatlength);
    assert(f[2] == int_text(sample.meter as int));
    assert(f[3] == int_text(sample.sampleset as int));
    assert(f[4] == int_text(sample.sampleindex as int));
    assert(f[5] == int_text(sample.volume as int));
    assert(f[6] == int_text(0));
    assert(f[7] == int_text(sample.effects as int));
    assert(crate::time::parse_time_spec(f[0]) == Some(sample.time)) by {
        crate::time::lemma_int_text_time(sample.time as int);
    }
    assert(parse_i32_spec(f[2]) == Some(sample.meter)) by {
        crate::number::lemma_int_text_value(sample.meter as int);
    }
    assert(parse_i32_spec(f[3]) == Some(sample.sampleset)) by {
        crate::number::lemma_int_text_value(sample.sampleset as int);
    }
    assert(parse_i32_spec(f[4]) == Some(sample.sampleindex)) by {
        crate::number::lemma_int_text_value(sample.sampleindex as int);
    }
    assert(parse_i32_spec(f[5]) == Some(sample.volume as i32)) by {
        crate::number::lemma_int_text_value(sample.volume as int);
    }
    assert(parse_i32_spec(f[6]) == Some(0i32)) by {
        crate::number::lemma_int_text_value(0);
    }
    assert(parse_i32_spec(f[7]) == Some(sample.effects)) by {
        crate::number::lemma_int_text_value(sample.effects as int);
    }
    assert(crate::lines::are_timing_fields(f)) by {
        assert forall|i: int| 2 <= i < 8 implies (#[trigger] parse_i32_spec(f[i])) is Some by {
            if i == 2 {
            } else if i == 3 {
            } else if i == 4 {
            } else if i == 5 {
            } else if i == 6 {
            } else {
            }
        }
    }
}

/// A whole number is written without a comma.
proof fn lemma_number_has_no_comma(v: int)
    ensures
        forall|i: int| 0 <= i < int_text(v).len() ==> int_text(v)[i] != COMMA,
{
    crate::number::lemma_int_text_value(v);
    crate::number::lemma_whole_number_bytes(int_text(v));
}

} // verus!
