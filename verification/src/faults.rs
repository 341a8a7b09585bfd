//! What was malformed, where an operation was refused for the form of what
//! it was given.

use crate::apply::{
    applied, beatlengths_fit, options_well_formed, plan_of, CurveValues, PlanView, Sample, SVT,
};
use crate::lines::{parse_timing_point, timing_point_of};
use crate::merge::{spacing_of, MAX_SPACING};
use crate::number::{is_float, is_float_text, parse_i32, parse_i32_spec};
use crate::objects::{MapObjectView, SvtError};
use crate::options::{bytes_of, text_bytes, AppOptions};
use crate::text::views;
use crate::writer::written;
use vstd::prelude::*;

verus! {

/// The field or line that is malformed.
#[derive(Clone, Copy, Debug, PartialEq, Eq)]
pub enum Malformed {
    /// The exponent of the polynomial mode is no decimal value.
    Exponent,
    /// The change of the flat mode is no decimal value.
    FlatChange,
    /// The scaling of the flat mode is no decimal value.
    FlatScalingChange,
    /// The end velocity of the linear fit is no decimal value.
    LinearFitEndSv,
    /// The offset is no whole number.
    Offset,
    /// The buffer is no whole number.
    Buffer,
    /// The first line of the reference pair is no timing point.
    StartLine,
    /// The second line of the reference pair is no timing point.
    EndLine,
    /// There is not one beat length for each point of the plan.
    BeatLengthCount,
    /// The beat length at this place is no decimal value.
    BeatLength(usize),
    /// The minimal spacing is no whole number.
    Spacing,
    /// The minimal spacing is below 0 or above 1000.
    SpacingRange,
}

/// The first of the numbers of the options that is malformed, in the order:
/// the parameter of each mode that is switched on, the offset, the buffer.
pub open spec fn malformed_option(opt: AppOptions) -> Option<Malformed> {
    if opt.pol_sv && !is_float_text(text_bytes(opt.pol_exp)) {
        Some(Malformed::Exponent)
    } else if opt.flat_sv && !opt.flat_scaling && !is_float_text(text_bytes(opt.flat_change)) {
        Some(Malformed::FlatChange)
    } else if opt.flat_sv && opt.flat_scaling && !is_float_text(
        text_bytes(opt.flat_scaling_change),
    ) {
        Some(Malformed::FlatScalingChange)
    } else if opt.linear_fit_sv && !is_float_text(text_bytes(opt.linear_fit_end_sv)) {
        Some(Malformed::LinearFitEndSv)
    } else if parse_i32_spec(text_bytes(opt.offset)) is None {
        Some(Malformed::Offset)
    } else if parse_i32_spec(text_bytes(opt.buffer)) is None {
        Some(Malformed::Buffer)
    } else {
        None
    }
}

/// What a plan is refused for as malformed: the first malformed number of
/// the options, or, where there is something to apply, the first of the two
/// lines that is no timing point.
pub open spec fn malformed_input(start_line: Seq<u8>, end_line: Seq<u8>, opt: AppOptions) -> Option<
    Malformed,
> {
    match malformed_option(opt) {
        Some(f) => Some(f),
        None => if opt.mode() is None && !opt.vol {
            None
        } else if timing_point_of(start_line) is None {
            Some(Malformed::StartLine)
        } else if timing_point_of(end_line) is None {
            Some(Malformed::EndLine)
        } else {
            None
        },
    }
}

/// The place of the first text that is no decimal value, or the number of
/// the texts.
pub open spec fn first_bad(texts: Seq<Seq<u8>>) -> int
    decreases texts.len(),
{
    if texts.len() == 0 || !is_float_text(texts[0]) {
        0
    } else {
        1 + first_bad(texts.drop_first())
    }
}

/// What is wrong with the beat lengths that were handed in for the samples.
pub open spec fn malformed_beatlengths(samples: Seq<Sample>, beatlengths: Seq<Seq<u8>>) -> Option<
    Malformed,
> {
    if beatlengths.len() != samples.len() {
        Some(Malformed::BeatLengthCount)
    } else if first_bad(beatlengths) < beatlengths.len() {
        Some(Malformed::BeatLength(first_bad(beatlengths) as usize))
    } else {
        None
    }
}

/// What an apply is refused for as malformed.
pub open spec fn malformed_in_apply(
    timeline: Seq<MapObjectView>,
    start_line: Seq<u8>,
    end_line: Seq<u8>,
    opt: AppOptions,
    sv_positive: bool,
    beatlengths: Seq<Seq<u8>>,
) -> Option<Malformed> {
    match plan_of(timeline, start_line, end_line, opt) {
        Err(SvtError::Format) => malformed_input(start_line, end_line, opt),
        Err(_) => None,
        Ok(plan) => if sv_positive && plan.span.volumes_in_range() {
            malformed_beatlengths(plan.samples, beatlengths)
        } else {
            None
        },
    }
}

/// What is wrong with a minimal spacing.
pub open spec fn malformed_spacing(text: Seq<u8>) -> Option<Malformed> {
    match parse_i32_spec(text) {
        None => Some(Malformed::Spacing),
        Some(m) => if 0 <= m <= MAX_SPACING {
            None
        } else {
            Some(Malformed::SpacingRange)
        },
    }
}

/// `first_bad` is the least place of a text that is no decimal value.
pub proof fn lemma_first_bad(texts: Seq<Seq<u8>>)
    ensures
        0 <= first_bad(texts) <= texts.len(),
        forall|i: int| 0 <= i < first_bad(texts) ==> is_float_text(#[trigger] texts[i]),
        first_bad(texts) < texts.len() ==> !is_float_text(texts[first_bad(texts)]),
    decreases texts.len(),
{
    if texts.len() > 0 && is_float_text(texts[0]) {
        let rest = texts.drop_first();
        lemma_first_bad(rest);
        assert forall|i: int| 0 <= i < first_bad(texts) implies is_float_text(
            #[trigger] texts[i],
        ) by {
            if i > 0 {
                assert(texts[i] == rest[i - 1]);
            }
        }
        if first_bad(texts) < texts.len() {
            assert(texts[first_bad(texts)] == rest[first_bad(rest)]);
        }
    }
}

/// A place that holds a text that is no decimal value and has none before
/// it is the one `first_bad` gives.
proof fn lemma_first_bad_is(texts: Seq<Seq<u8>>, k: int)
    requires
        0 <= k <= texts.len(),
        forall|i: int| 0 <= i < k ==> is_float_text(#[trigger] texts[i]),
        k < texts.len() ==> !is_float_text(texts[k]),
    ensures
        first_bad(texts) == k,
{
    lemma_first_bad(texts);
    let f = first_bad(texts);
    if f < k {
        assert(is_float_text(texts[f]));
    }
}

/// A plan is refused as malformed where, and only where, something is
/// named as malformed; and the same holds of an apply and of a write.
pub proof fn lemma_malformed_is_named(
    timeline: Seq<MapObjectView>,
    start_line: Seq<u8>,
    end_line: Seq<u8>,
    opt: AppOptions,
    sv_positive: bool,
    beatlengths: Seq<Seq<u8>>,
)
    ensures
        plan_of(timeline, start_line, end_line, opt) == Err::<PlanView, SvtError>(SvtError::Format)
            <==> malformed_input(start_line, end_line, opt) is Some,
        applied(timeline, start_line, end_line, opt, sv_positive, beatlengths) == Err::<
            Seq<MapObjectView>,
            SvtError,
        >(SvtError::Format) <==> malformed_in_apply(
            timeline,
            start_line,
            end_line,
            opt,
            sv_positive,
            beatlengths,
        ) is Some,
{
    assert(options_well_formed(opt) <==> malformed_option(opt) is None);
    match plan_of(timeline, start_line, end_line, opt) {
        Ok(plan) => {
            lemma_first_bad(beatlengths);
            if beatlengths.len() == plan.samples.len() {
                if first_bad(beatlengths) < beatlengths.len() {
                    assert(!is_float_text(beatlengths[first_bad(beatlengths)]));
                    assert(!beatlengths_fit(plan.samples, beatlengths));
                } else {
                    assert(beatlengths_fit(plan.samples, beatlengths));
                }
            }
        },
        Err(_) => {},
    }
}

/// A write is refused as malformed where, and only where, points were made
/// and the spacing is named as malformed.
pub proof fn lemma_malformed_spacing(
    pending: Seq<MapObjectView>,
    timeline: Seq<MapObjectView>,
    spacing_text: Seq<u8>,
    content: Seq<u8>,
    preview: bool,
)
    ensures
        malformed_spacing(spacing_text) is Some <==> spacing_of(spacing_text) is None,
        written(pending, timeline, spacing_text, content, preview) == Err::<
            (int, Seq<u8>),
            SvtError,
        >(SvtError::Format) <==> pending.len() > 0 && malformed_spacing(spacing_text) is Some,
{
}

/// Names the first malformed number of the options.
pub fn find_malformed_option(opt: &AppOptions) -> (r: Option<Malformed>)
    ensures
        r == malformed_option(*opt),
{
    if opt.pol_sv && !is_float(bytes_of(&opt.pol_exp)) {
        Some(Malformed::Exponent)
    } else if opt.flat_sv && !opt.flat_scaling && !is_float(bytes_of(&opt.flat_change)) {
        Some(Malformed::FlatChange)
    } else if opt.flat_sv && opt.flat_scaling && !is_float(bytes_of(&opt.flat_scaling_change)) {
        Some(Malformed::FlatScalingChange)
    } else if opt.linear_fit_sv && !is_float(bytes_of(&opt.linear_fit_end_sv)) {
        Some(Malformed::LinearFitEndSv)
    } else if parse_i32(bytes_of(&opt.offset)).is_none() {
        Some(Malformed::Offset)
    } else if parse_i32(bytes_of(&opt.buffer)).is_none() {
        Some(Malformed::Buffer)
    } else {
        None
    }
}

/// Names what a plan is refused for as malformed.
pub fn find_malformed_input(start_line: &[u8], end_line: &[u8], opt: &AppOptions) -> (r: Option<
    Malformed,
>)
    ensures
        r == malformed_input(start_line@, end_line@, *opt),
{
    match find_malformed_option(opt) {
        Some(f) => Some(f),
        None => {
            if opt.curve_mode().is_none() && !opt.vol {
                None
            } else if parse_timing_point(start_line).is_none() {
                Some(Malformed::StartLine)
            } else if parse_timing_point(end_line).is_none() {
                Some(Malformed::EndLine)
            } else {
                None
            }
        },
    }
}

/// Names what is wrong with the beat lengths.
pub fn find_malformed_beatlengths(samples: &Vec<Sample>, beatlengths: &Vec<Vec<u8>>) -> (r: Option<
    Malformed,
>)
    ensures
        r == malformed_beatlengths(samples@, views(beatlengths@)),
{
    if beatlengths.len() != samples.len() {
        return Some(Malformed::BeatLengthCount);
    }
    let ghost texts = views(beatlengths@);
    let mut i: usize = 0;
    while i < beatlengths.len()
        invariant
            i <= beatlengths@.len(),
            beatlengths@.len() == samples@.len(),
            texts == views(beatlengths@),
            forall|j: int| 0 <= j < i ==> is_float_text(#[trigger] texts[j]),
        decreases beatlengths@.len() - i,
    {
        assert(texts[i as int] == beatlengths@[i as int]@);
        if !is_float(beatlengths[i].as_slice()) {
            proof {
                lemma_first_bad_is(texts, i as int);
            }
            return Some(Malformed::BeatLength(i));
        }
        i += 1;
    }
    proof {
        lemma_first_bad_is(texts, i as int);
    }
    None
}

/// Names what is wrong with a minimal spacing.
pub fn find_malformed_spacing(text: &[u8]) -> (r: Option<Malformed>)
    ensures
        r == malformed_spacing(text@),
{
    match parse_i32(text) {
        None => Some(Malformed::Spacing),
        Some(m) => if 0 <= m && m <= MAX_SPACING {
            None
        } else {
            Some(Malformed::SpacingRange)
        },
    }
}

impl SVT {
    /// Names what `apply_two_point_fn` is refused for where it is refused
    /// as malformed; `None` where it is not refused so.
    pub fn malformed_two_point_fn(
        &self,
        start_line: &[u8],
        end_line: &[u8],
        opt: &AppOptions,
        curve: &CurveValues,
    ) -> (r: Option<Malformed>)
        ensures
            r == malformed_in_apply(
                self.timeline(),
                start_line@,
                end_line@,
                *opt,
                curve.sv_positive,
                views(curve.beatlengths@),
            ),
            r is Some <==> applied(
                self.timeline(),
                start_line@,
                end_line@,
                *opt,
                curve.sv_positive,
                views(curve.beatlengths@),
            ) == Err::<Seq<MapObjectView>, SvtError>(SvtError::Format),
    {
        proof {
            lemma_malformed_is_named(
                self.timeline(),
                start_line@,
                end_line@,
                *opt,
                curve.sv_positive,
                views(curve.beatlengths@),
            );
        }
        match self.plan_two_point_fn(start_line, end_line, opt) {
            Err(SvtError::Format) => find_malformed_input(start_line, end_line, opt),
            Err(_) => None,
            Ok(plan) => {
                let span = &plan.span;
                let in_range = 0 <= span.start_volume && span.start_volume <= 100 && 0
                    <= span.end_volume && span.end_volume <= 100;
                if curve.sv_positive && in_range {
                    find_malformed_beatlengths(&plan.samples, &curve.beatlengths)
                } else {
                    None
                }
            },
        }
    }
}

} // verus!
