use svt::apply::{advance, find_tempo, interpolate_volume, place_time, wanted, write_point};
use svt::lines::parse_timing_point;
use svt::{
    AppOptions, CurveMode, CurveValues, MapObject, MapObjectClass, Plan, RunningState, Sample, Span,
    SvtError, SVT,
};

const MAP: &str = "[TimingPoints]\n0,500.0,4,0,0,100,1,0\n1000,-100,4,0,0,100,0,0\n\n[HitObjects]\n256,192,1000,1,0,0:0:0:0:\n256,192,2000,1,0,0:0:0:0:\n256,192,3000,1,0,0:0:0:0:\n";

fn options() -> AppOptions {
    let mut opt = AppOptions::first_start(0, 0);
    opt.vol = true;
    opt.hits = true;
    opt.snappings = true;
    opt.inh_lines = true;
    opt.offset = String::from("0");
    opt.buffer = String::from("0");
    opt
}

fn loaded(map: &str, snappings: Vec<i32>) -> SVT {
    let mut svt = SVT::new();
    svt.load_osu(map.as_bytes(), &snappings);
    svt
}

fn beat(text: &[u8]) -> f32 {
    std::str::from_utf8(text).unwrap().parse::<f32>().unwrap_or(0.0)
}

/// The beat lengths of a plan on the straight line between the velocities of
/// its reference points.
fn linear(svt: &SVT, plan: &Plan) -> CurveValues {
    let s_bpm = 60000.0 / beat(&svt.all_objs[plan.start_tempo].beatlength);
    let e_bpm = 60000.0 / beat(&svt.all_objs[plan.end_tempo].beatlength);
    let s_sv = -100.0 * s_bpm / beat(&plan.start_beatlength);
    let e_sv = -100.0 * e_bpm / beat(&plan.end_beatlength);
    let length = (plan.span.end_time - plan.span.start_time) as f32;
    let per_ms = (e_sv - s_sv) / length;
    let mut beatlengths = Vec::new();
    for sample in plan.samples.iter() {
        let bpm = match sample.tempo {
            Some(k) => 60000.0 / beat(&svt.all_objs[k].beatlength),
            None => 160.0,
        };
        let sv = s_sv + sample.elapsed as f32 * per_ms;
        beatlengths.push(format!("{}", -100.0 / (sv / bpm)).into_bytes());
    }
    CurveValues { sv_positive: !(s_sv <= 0.0 || e_sv <= 0.0), beatlengths }
}

fn lines(svt: &SVT) -> Vec<String> {
    svt.new_objs.iter().map(|o| String::from_utf8(o.data.clone()).unwrap()).collect()
}

#[test]
fn a_linear_pair_reaches_both_ends() {
    let mut svt = loaded(MAP, Vec::new());
    let opt = options();
    let start = b"1000,-100,4,0,0,80,0,0";
    let end = b"3000,-50,4,0,0,100,0,0";
    let plan = svt.plan_two_point_fn(start, end, &opt).unwrap();
    let curve = linear(&svt, &plan);
    assert!(curve.sv_positive);
    assert_eq!(svt.apply_two_point_fn(start, end, &opt, &curve), Ok(()));
    assert_eq!(
        lines(&svt),
        vec![
            "1000,-100,4,0,0,80,0,0",
            "1000,-100,4,0,0,80,0,0",
            "2000,-66.666664,4,0,0,90,0,0",
            "3000,-50,4,0,0,100,0,0",
        ]
    );
    assert!(svt.new_objs.iter().all(|o| o.class == MapObjectClass::Generated));
    assert_eq!(svt.new_objs[0].time, 1000);
    assert_eq!(svt.new_objs[3].time, 3000);
    assert!(svt.new_objs.iter().all(|o| o.uninherited == 0 && o.beatlength.is_empty()));
}

#[test]
fn a_plan_names_what_each_point_is_computed_from() {
    let svt = loaded(MAP, vec![0, 500]);
    let plan = svt
        .plan_two_point_fn(b"1000,-100,4,0,0,80,0,0", b"3000,-50,4,0,0,100,0,0", &options())
        .unwrap();
    assert_eq!(plan.span.start_time, 1000);
    assert_eq!(plan.span.end_time, 3000);
    assert_eq!(plan.span.start_volume, 80);
    assert_eq!(plan.span.end_volume, 100);
    assert_eq!(plan.span.mode, Some(CurveMode::Linear));
    assert_eq!(plan.start_beatlength, b"-100");
    assert_eq!(plan.end_beatlength, b"-50");
    assert_eq!(plan.start_tempo, 0);
    assert_eq!(plan.end_tempo, 0);
    let seen: Vec<(usize, i64, Option<usize>, Option<usize>, i32, i64)> = plan
        .samples
        .iter()
        .map(|s| (s.object, s.elapsed, s.tempo, s.held, s.time, s.volume))
        .collect();
    assert_eq!(
        seen,
        vec![
            (3, 0, Some(0), Some(3), 1000, 80),
            (4, 0, Some(0), Some(3), 1000, 80),
            (5, 1000, Some(0), Some(3), 2000, 90),
            (6, 2000, Some(0), Some(3), 3000, 100),
        ]
    );
}

#[test]
fn a_pair_that_starts_after_it_ends_is_refused() {
    let mut svt = loaded(MAP, Vec::new());
    let opt = options();
    let start = b"3000,-100,4,0,0,80,0,0";
    let end = b"1000,-50,4,0,0,100,0,0";
    assert_eq!(svt.plan_two_point_fn(start, end, &opt).err(), Some(SvtError::Order));
    let curve = CurveValues { sv_positive: true, beatlengths: Vec::new() };
    assert_eq!(svt.apply_two_point_fn(start, end, &opt, &curve), Err(SvtError::Order));
    assert!(svt.new_objs.is_empty());
    assert_eq!(svt.all_objs.len(), 5);
}

#[test]
fn a_pair_of_one_instant_is_taken() {
    let svt = loaded(MAP, Vec::new());
    let plan = svt
        .plan_two_point_fn(b"1000,-100,4,0,0,80,0,0", b"1000,-50,4,0,0,100,0,0", &options())
        .unwrap();
    assert_eq!(plan.samples.len(), 2);
    assert_eq!(plan.samples[0].volume, 80);
    assert_eq!(plan.samples[1].volume, 80);
    let mut opt = options();
    opt.buffer = String::from("3000");
    let plan = svt
        .plan_two_point_fn(b"1000,-100,4,0,0,80,0,0", b"1000,-50,4,0,0,100,0,0", &opt)
        .unwrap();
    let volumes: Vec<i64> = plan.samples.iter().map(|s| s.volume).collect();
    assert_eq!(volumes, vec![80, 80, 80, 80]);
}

#[test]
fn malformed_reference_lines_are_refused() {
    let svt = loaded(MAP, Vec::new());
    let opt = options();
    let good = b"1000,-100,4,0,0,80,0,0";
    assert_eq!(svt.plan_two_point_fn(b"1000,-100,4,0,0,80,0", good, &opt).err(), Some(SvtError::Format));
    assert_eq!(svt.plan_two_point_fn(good, b"", &opt).err(), Some(SvtError::Format));
    assert_eq!(svt.plan_two_point_fn(good, b"x,-100,4,0,0,80,0,0", &opt).err(), Some(SvtError::Format));
    assert_eq!(svt.plan_two_point_fn(b"1000,-100,4,0,0,80,0,0,1", good, &opt).err(), Some(SvtError::Format));
}

#[test]
fn malformed_options_are_refused() {
    let svt = loaded(MAP, Vec::new());
    let start = b"1000,-100,4,0,0,80,0,0";
    let end = b"3000,-50,4,0,0,100,0,0";
    let mut opt = options();
    opt.offset = String::from("1.5");
    assert_eq!(svt.plan_two_point_fn(start, end, &opt).err(), Some(SvtError::Format));
    let mut opt = options();
    opt.buffer = String::from("");
    assert_eq!(svt.plan_two_point_fn(start, end, &opt).err(), Some(SvtError::Format));
    let mut opt = options();
    opt.pol_exp = String::from("half");
    assert!(svt.plan_two_point_fn(start, end, &opt).is_ok());
    opt.pol_sv = true;
    assert_eq!(svt.plan_two_point_fn(start, end, &opt).err(), Some(SvtError::Format));
    let mut opt = options();
    opt.flat_sv = true;
    opt.flat_change = String::from("?");
    assert_eq!(svt.plan_two_point_fn(start, end, &opt).err(), Some(SvtError::Format));
    opt.flat_scaling = true;
    assert!(svt.plan_two_point_fn(start, end, &opt).is_ok());
    opt.flat_scaling_change = String::from("?");
    assert_eq!(svt.plan_two_point_fn(start, end, &opt).err(), Some(SvtError::Format));
    let mut opt = options();
    opt.linear_fit_sv = true;
    opt.linear_fit_end_sv = String::from("1,5");
    assert_eq!(svt.plan_two_point_fn(start, end, &opt).err(), Some(SvtError::Format));
}

#[test]
fn nothing_to_apply_is_refused() {
    let svt = loaded(MAP, Vec::new());
    let mut opt = options();
    opt.lin_sv = false;
    opt.vol = false;
    assert_eq!(
        svt.plan_two_point_fn(b"1000,-100,4,0,0,80,0,0", b"3000,-50,4,0,0,100,0,0", &opt).err(),
        Some(SvtError::NoChanges)
    );
    opt.vol = true;
    let plan = svt
        .plan_two_point_fn(b"1000,-100,4,0,0,80,0,0", b"3000,-50,4,0,0,100,0,0", &opt)
        .unwrap();
    assert_eq!(plan.span.mode, None);
    assert_eq!(plan.samples.len(), 4);
}

#[test]
fn a_pair_before_the_first_tempo_line_is_refused() {
    let svt = loaded("[TimingPoints]\n500,500.0,4,0,0,100,1,0\n", Vec::new());
    let opt = options();
    assert_eq!(
        svt.plan_two_point_fn(b"499,-100,4,0,0,80,0,0", b"3000,-50,4,0,0,100,0,0", &opt).err(),
        Some(SvtError::NoTempo)
    );
    assert!(svt.plan_two_point_fn(b"500,-100,4,0,0,80,0,0", b"3000,-50,4,0,0,100,0,0", &opt).is_ok());
    let empty = SVT::new();
    assert_eq!(
        empty.plan_two_point_fn(b"499,-100,4,0,0,80,0,0", b"3000,-50,4,0,0,100,0,0", &opt).err(),
        Some(SvtError::NoTempo)
    );
}

#[test]
fn a_velocity_that_is_not_positive_is_refused() {
    let mut svt = loaded(MAP, Vec::new());
    let opt = options();
    let start = b"1000,100,4,0,0,80,0,0";
    let end = b"3000,-50,4,0,0,100,0,0";
    let plan = svt.plan_two_point_fn(start, end, &opt).unwrap();
    let curve = linear(&svt, &plan);
    assert!(!curve.sv_positive);
    assert_eq!(svt.apply_two_point_fn(start, end, &opt, &curve), Err(SvtError::SvSign));
    assert!(svt.new_objs.is_empty());
}

#[test]
fn a_volume_out_of_range_is_refused() {
    let mut svt = loaded(MAP, Vec::new());
    let opt = options();
    let end = b"3000,-50,4,0,0,100,0,0";
    for start in ["1000,-100,4,0,0,101,0,0", "1000,-100,4,0,0,-1,0,0"] {
        let plan = svt.plan_two_point_fn(start.as_bytes(), end, &opt).unwrap();
        let curve = linear(&svt, &plan);
        assert_eq!(
            svt.apply_two_point_fn(start.as_bytes(), end, &opt, &curve),
            Err(SvtError::VolumeRange)
        );
    }
    let start = b"1000,-100,4,0,0,80,0,0";
    let end = b"3000,-50,4,0,0,101,0,0";
    let plan = svt.plan_two_point_fn(start, end, &opt).unwrap();
    let mut curve = linear(&svt, &plan);
    assert_eq!(svt.apply_two_point_fn(start, end, &opt, &curve), Err(SvtError::VolumeRange));
    curve.sv_positive = false;
    assert_eq!(svt.apply_two_point_fn(start, end, &opt, &curve), Err(SvtError::SvSign));
    assert!(svt.new_objs.is_empty());
}

#[test]
fn beat_lengths_that_do_not_fit_the_plan_are_refused() {
    let mut svt = loaded(MAP, Vec::new());
    let opt = options();
    let start = b"1000,-100,4,0,0,80,0,0";
    let end = b"3000,-50,4,0,0,100,0,0";
    let plan = svt.plan_two_point_fn(start, end, &opt).unwrap();
    let mut curve = linear(&svt, &plan);
    curve.beatlengths.pop();
    assert_eq!(svt.apply_two_point_fn(start, end, &opt, &curve), Err(SvtError::Format));
    let mut curve = linear(&svt, &plan);
    curve.beatlengths[2] = b"-1,0".to_vec();
    assert_eq!(svt.apply_two_point_fn(start, end, &opt, &curve), Err(SvtError::Format));
    assert!(svt.new_objs.is_empty());
    let mut curve = linear(&svt, &plan);
    curve.beatlengths[2] = b"NaN".to_vec();
    assert_eq!(svt.apply_two_point_fn(start, end, &opt, &curve), Ok(()));
    assert_eq!(lines(&svt)[2], "2000,NaN,4,0,0,90,0,0");
}

#[test]
fn pairs_add_up() {
    let mut svt = loaded(MAP, Vec::new());
    let mut opt = options();
    opt.inh_lines = false;
    for (start, end) in [
        ("1000,-100,4,0,0,80,0,0", "2000,-50,4,0,0,100,0,0"),
        ("2500,-100,4,0,0,10,0,0", "3000,-50,4,0,0,20,0,0"),
    ] {
        let plan = svt.plan_two_point_fn(start.as_bytes(), end.as_bytes(), &opt).unwrap();
        let curve = linear(&svt, &plan);
        svt.apply_two_point_fn(start.as_bytes(), end.as_bytes(), &opt, &curve).unwrap();
    }
    assert_eq!(
        lines(&svt),
        vec!["1000,-100,4,0,0,80,0,0", "2000,-50,4,0,0,100,0,0", "3000,-50,4,0,0,20,0,0"]
    );
}

#[test]
fn only_the_classes_that_were_asked_for_get_points() {
    let svt = loaded(MAP, vec![1000, 1500]);
    let start = b"1000,-100,4,0,0,80,0,0";
    let end = b"3000,-50,4,0,0,100,0,0";
    let classes = |opt: &AppOptions| -> Vec<MapObjectClass> {
        let plan = svt.plan_two_point_fn(start, end, opt).unwrap();
        plan.samples.iter().map(|s| svt.all_objs[s.object].class).collect()
    };
    let mut opt = options();
    opt.hits = false;
    opt.snappings = false;
    assert_eq!(classes(&opt), vec![MapObjectClass::InhPoint]);
    opt.inh_lines = false;
    assert_eq!(classes(&opt), Vec::<MapObjectClass>::new());
    opt.snappings = true;
    assert_eq!(classes(&opt), vec![MapObjectClass::Snapping, MapObjectClass::Snapping]);
    opt.snappings = false;
    opt.hits = true;
    assert_eq!(classes(&opt), vec![MapObjectClass::Hit, MapObjectClass::Hit, MapObjectClass::Hit]);
    opt.set_sv_mode(CurveMode::Flat);
    assert_eq!(classes(&opt), vec![MapObjectClass::InhPoint]);
    opt.set_sv_mode(CurveMode::LinearFit);
    opt.snappings = true;
    assert_eq!(classes(&opt), vec![MapObjectClass::InhPoint]);
}

#[test]
fn the_buffer_widens_the_pair_on_both_sides() {
    let svt = loaded(MAP, Vec::new());
    let mut opt = options();
    opt.inh_lines = false;
    let times = |opt: &AppOptions| -> Vec<i32> {
        let plan = svt
            .plan_two_point_fn(b"1003,-100,4,0,0,80,0,0", b"2997,-50,4,0,0,100,0,0", opt)
            .unwrap();
        plan.samples.iter().map(|s| s.time).collect()
    };
    assert_eq!(times(&opt), vec![2000]);
    opt.buffer = String::from("2");
    assert_eq!(times(&opt), vec![2000]);
    opt.buffer = String::from("3");
    assert_eq!(times(&opt), vec![1000, 2000, 3000]);
    opt.buffer = String::from("-1000");
    assert_eq!(times(&opt), Vec::<i32>::new());
}

#[test]
fn the_offset_moves_points_but_not_before_what_governs_them() {
    let map = "[TimingPoints]\n0,500,4,0,0,100,1,0\n990,400,3,1,2,70,1,0\n1000,-100,4,0,0,60,0,1\n\n[HitObjects]\n1,1,995\n1,1,1003\n1,1,2000\n";
    let svt = loaded(map, Vec::new());
    let mut opt = options();
    opt.vol = false;
    opt.inh_lines = false;
    opt.offset = String::from("-10");
    let plan = svt
        .plan_two_point_fn(b"900,-100,4,0,0,80,0,0", b"3000,-50,4,0,0,100,0,0", &opt)
        .unwrap();
    let seen: Vec<(i32, i32, i32, i32, i64, i32)> = plan
        .samples
        .iter()
        .map(|s| (s.time, s.meter, s.sampleset, s.sampleindex, s.volume, s.effects))
        .collect();
    assert_eq!(
        seen,
        vec![(990, 3, 1, 2, 70, 0), (1000, 3, 0, 0, 60, 1), (1990, 3, 0, 0, 60, 1)]
    );
    assert_eq!(plan.samples[0].tempo, Some(1));
    assert_eq!(plan.samples[0].held, Some(1));
    assert_eq!(plan.samples[1].held, Some(3));
    assert_eq!(plan.start_tempo, 0);
    assert_eq!(plan.end_tempo, 1);
}

#[test]
fn times_are_placed_after_tempo_and_kiai_changes() {
    assert_eq!(place_time(1000, -5, 0, 0), 995);
    assert_eq!(place_time(1000, -5, 998, 0), 998);
    assert_eq!(place_time(1000, -5, 998, 999), 999);
    assert_eq!(place_time(1000, 5, 998, 2000), 2000);
    assert_eq!(place_time(i32::MAX, 5, 0, 0), i32::MAX);
    assert_eq!(place_time(i32::MIN, -5, i32::MIN, i32::MIN), i32::MIN);
}

#[test]
fn the_volume_lies_on_the_line_between_the_ends() {
    assert_eq!(interpolate_volume(80, 100, 0, 2000), 80);
    assert_eq!(interpolate_volume(80, 100, 2000, 2000), 100);
    assert_eq!(interpolate_volume(80, 100, 1000, 2000), 90);
    assert_eq!(interpolate_volume(100, 0, 500, 2000), 75);
    assert_eq!(interpolate_volume(0, 1, 1, 2), 1);
    assert_eq!(interpolate_volume(0, 1, 49, 100), 0);
    assert_eq!(interpolate_volume(0, 1, 50, 100), 1);
    assert_eq!(interpolate_volume(1, 0, 50, 100), 1);
    assert_eq!(interpolate_volume(1, 0, 51, 100), 0);
}

#[test]
fn the_volume_outside_the_pair_follows_the_line_and_stays_above_zero() {
    assert_eq!(interpolate_volume(0, 100, -3, 100), 0);
    assert_eq!(interpolate_volume(0, 100, 103, 100), 103);
    assert_eq!(interpolate_volume(100, 0, 103, 100), 0);
    assert_eq!(interpolate_volume(0, 100, 4294967295, 1), 4294967295);
}

#[test]
fn a_pair_of_one_instant_has_the_start_volume() {
    assert_eq!(interpolate_volume(80, 100, 0, 0), 80);
    assert_eq!(interpolate_volume(80, 80, 5, 0), 80);
    assert_eq!(interpolate_volume(80, 100, 5, 0), 80);
    assert_eq!(interpolate_volume(80, 100, -5, 0), 80);
    assert_eq!(interpolate_volume(100, 80, -1, 0), 100);
    assert_eq!(interpolate_volume(0, 100, 1, 0), 0);
    assert_eq!(interpolate_volume(-7, 100, 1, 0), 0);
    assert_eq!(interpolate_volume(80, 100, 1, -5), 80);
}

#[test]
fn the_volume_agrees_with_the_rounded_float() {
    for (start, end, elapsed, length) in
        [(80, 100, 333, 2000), (100, 0, 1234, 5000), (0, 100, 1, 3), (37, 91, 977, 1000), (5, 5, 10, 20)]
    {
        let per_ms = (end - start) as f32 / length as f32;
        let expected = (start as f32 + elapsed as f32 * per_ms).round() as u32;
        assert_eq!(interpolate_volume(start, end, elapsed, length), expected as i64);
    }
}

#[test]
fn the_line_of_a_point_holds_its_eight_fields() {
    let sample = Sample {
        object: 7,
        elapsed: 12,
        tempo: Some(0),
        held: None,
        time: -250,
        meter: 3,
        sampleset: 1,
        sampleindex: 2,
        volume: 55,
        effects: 9,
    };
    assert_eq!(write_point(&sample, b"-76.92308"), b"-250,-76.92308,3,1,2,55,0,9");
    assert_eq!(write_point(&sample, b""), b"-250,,3,1,2,55,0,9");
}

#[test]
fn the_line_of_a_point_reads_back_as_a_velocity_line() {
    let sample = Sample {
        object: 0,
        elapsed: 0,
        tempo: None,
        held: None,
        time: i32::MIN,
        meter: i32::MAX,
        sampleset: -1,
        sampleindex: 0,
        volume: 100,
        effects: 1,
    };
    let line = write_point(&sample, b"1.5e-3");
    let point = parse_timing_point(&line).unwrap();
    assert_eq!(point.class, MapObjectClass::InhPoint);
    assert_eq!(point.time, i32::MIN);
    assert_eq!(point.beatlength, b"1.5e-3");
    assert_eq!(point.meter, i32::MAX);
    assert_eq!(point.sampleset, -1);
    assert_eq!(point.sampleindex, 0);
    assert_eq!(point.volume, 100);
    assert_eq!(point.uninherited, 0);
    assert_eq!(point.effects, 1);
    assert_eq!(point.data, line);
}

#[test]
fn between_the_reference_points_the_volume_stays_between_their_volumes() {
    for (start, end) in [(0, 100), (100, 0), (37, 37), (5, 6)] {
        let mut last = interpolate_volume(start, end, 0, 977);
        assert_eq!(last, start as i64);
        for elapsed in 1..=977 {
            let v = interpolate_volume(start, end, elapsed, 977);
            assert!(v >= start.min(end) as i64 && v <= start.max(end) as i64);
            if start <= end {
                assert!(v >= last);
            } else {
                assert!(v <= last);
            }
            last = v;
        }
        assert_eq!(last, end as i64);
    }
}

fn start_state() -> RunningState {
    RunningState {
        last_uni_time: 0,
        kiai_change_time: 0,
        tempo: None,
        held: None,
        meter: 4,
        sampleset: 0,
        sampleindex: 0,
        volume: 100,
        effects: 0,
    }
}

fn state_fields(s: &RunningState) -> (i32, i32, Option<usize>, Option<usize>, i32, i32, i32, i32, i32) {
    (
        s.last_uni_time,
        s.kiai_change_time,
        s.tempo,
        s.held,
        s.meter,
        s.sampleset,
        s.sampleindex,
        s.volume,
        s.effects,
    )
}

#[test]
fn a_tempo_line_sets_everything_and_a_velocity_line_leaves_tempo_and_meter() {
    let uni = parse_timing_point(b"100,400,3,1,2,70,1,0").unwrap();
    let inh = parse_timing_point(b"200,-50,7,2,3,60,0,1").unwrap();
    let calm = parse_timing_point(b"300,-50,7,2,3,60,0,8").unwrap();
    let hit = MapObject::new_bare(MapObjectClass::Hit, 250);
    let s0 = start_state();
    let s1 = advance(s0, 5, &uni);
    assert_eq!(state_fields(&s1), (100, 0, Some(5), Some(5), 3, 1, 2, 70, 0));
    let s2 = advance(s1, 6, &hit);
    assert_eq!(state_fields(&s2), state_fields(&s1));
    let s3 = advance(s2, 7, &inh);
    assert_eq!(state_fields(&s3), (100, 200, Some(5), Some(7), 3, 2, 3, 60, 1));
    let s4 = advance(s3, 8, &calm);
    assert_eq!(state_fields(&s4), (100, 300, Some(5), Some(8), 3, 2, 3, 60, 8));
    let s5 = advance(s4, 9, &calm);
    assert_eq!(state_fields(&s5), (100, 300, Some(5), Some(9), 3, 2, 3, 60, 8));
}

#[test]
fn the_tempo_in_effect_is_the_last_tempo_line_not_after_the_time() {
    let svt = loaded(
        "[TimingPoints]\n10,500,4,0,0,100,1,0\n10,400,4,0,0,100,1,0\n20,-100,4,0,0,100,0,0\n30,300,4,0,0,100,1,0\n",
        Vec::new(),
    );
    assert_eq!(find_tempo(&svt.all_objs, 9), None);
    assert_eq!(find_tempo(&svt.all_objs, 10), Some(1));
    assert_eq!(find_tempo(&svt.all_objs, 29), Some(1));
    assert_eq!(find_tempo(&svt.all_objs, 30), Some(3));
    assert_eq!(find_tempo(&svt.all_objs, i32::MAX), Some(3));
    assert_eq!(find_tempo(&Vec::new(), 0), None);
}

#[test]
fn a_point_is_wanted_for_a_class_that_was_asked_for_inside_the_pair() {
    let span = Span {
        start_time: 100,
        end_time: 200,
        start_volume: 0,
        end_volume: 0,
        offset: 0,
        buffer: 5,
        mode: Some(CurveMode::Linear),
        vol: false,
        hits: true,
        snappings: false,
        inh_lines: false,
    };
    assert!(wanted(&span, &MapObject::new_bare(MapObjectClass::Hit, 95)));
    assert!(wanted(&span, &MapObject::new_bare(MapObjectClass::Hit, 205)));
    assert!(!wanted(&span, &MapObject::new_bare(MapObjectClass::Hit, 94)));
    assert!(!wanted(&span, &MapObject::new_bare(MapObjectClass::Hit, 206)));
    assert!(!wanted(&span, &MapObject::new_bare(MapObjectClass::Snapping, 150)));
    assert!(!wanted(&span, &MapObject::new_bare(MapObjectClass::InhPoint, 150)));
    assert!(!wanted(&span, &MapObject::new_bare(MapObjectClass::UniPoint, 150)));
    assert!(!wanted(&span, &MapObject::new_bare(MapObjectClass::Generated, 150)));
    let flat = Span { mode: Some(CurveMode::Flat), ..span };
    assert!(wanted(&flat, &MapObject::new_bare(MapObjectClass::InhPoint, 150)));
    assert!(!wanted(&flat, &MapObject::new_bare(MapObjectClass::Hit, 150)));
    let wide = Span { start_time: i32::MIN, end_time: i32::MAX, buffer: i32::MAX, ..span };
    assert!(wanted(&wide, &MapObject::new_bare(MapObjectClass::Hit, i32::MIN)));
    assert!(wanted(&wide, &MapObject::new_bare(MapObjectClass::Hit, i32::MAX)));
}
