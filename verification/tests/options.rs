use svt::options::{window_position, window_size, window_start};
use svt::preview::preview_file_name;
use svt::{AppOptions, CurveMode};

#[test]
fn a_first_start_has_the_default_settings() {
    let opt = AppOptions::first_start(1920, 1080);
    assert!(opt.lin_sv && !opt.exp_sv && !opt.pol_sv && !opt.sin_sv && !opt.flat_sv && !opt.linear_fit_sv);
    assert!(!opt.vol && opt.hits && !opt.snappings && !opt.inh_lines && !opt.ignore_bpm);
    assert_eq!(opt.offset, "-1");
    assert_eq!(opt.buffer, "3");
    assert_eq!(opt.min_spacing, "3");
    assert_eq!(opt.pol_exp, "0.5");
    assert_eq!(opt.flat_change, "0.0");
    assert_eq!(opt.map, "");
    assert_eq!(opt.inh_times, "");
    assert_eq!(opt.pos_x, 810);
    assert_eq!(opt.pos_y, 390);
    assert_eq!(opt.width, 300);
    assert_eq!(opt.height, 300);
}

#[test]
fn the_window_never_starts_off_the_monitor() {
    assert_eq!(AppOptions::first_start(200, 0).pos_x, 0);
    assert_eq!(AppOptions::first_start(200, 0).pos_y, 0);
    assert_eq!(AppOptions::first_start(-500, i32::MIN).pos_x, 0);
    assert_eq!(AppOptions::first_start(-500, i32::MIN).pos_y, 0);
    assert_eq!(AppOptions::first_start(301, 303).pos_x, 0);
    assert_eq!(AppOptions::first_start(302, 303).pos_x, 1);
    assert_eq!(AppOptions::first_start(i32::MAX, 1).pos_x, 1073741673);
}

#[test]
fn the_first_switch_that_is_set_selects_the_mode() {
    let mut opt = AppOptions::first_start(0, 0);
    assert_eq!(opt.curve_mode(), Some(CurveMode::Linear));
    opt.flat_sv = true;
    assert_eq!(opt.curve_mode(), Some(CurveMode::Linear));
    opt.lin_sv = false;
    assert_eq!(opt.curve_mode(), Some(CurveMode::Flat));
    opt.sin_sv = true;
    assert_eq!(opt.curve_mode(), Some(CurveMode::Sinusoidal));
    opt.pol_sv = true;
    assert_eq!(opt.curve_mode(), Some(CurveMode::Polynomial));
    opt.exp_sv = true;
    assert_eq!(opt.curve_mode(), Some(CurveMode::Exponential));
    opt.exp_sv = false;
    opt.pol_sv = false;
    opt.sin_sv = false;
    opt.flat_sv = false;
    assert_eq!(opt.curve_mode(), None);
    opt.linear_fit_sv = true;
    assert_eq!(opt.curve_mode(), Some(CurveMode::LinearFit));
}

#[test]
fn setting_a_mode_clears_the_others() {
    let mut opt = AppOptions::first_start(0, 0);
    opt.exp_sv = true;
    opt.flat_sv = true;
    opt.vol = true;
    opt.offset = String::from("7");
    for mode in [
        CurveMode::Linear,
        CurveMode::Exponential,
        CurveMode::Polynomial,
        CurveMode::Sinusoidal,
        CurveMode::Flat,
        CurveMode::LinearFit,
    ] {
        opt.set_sv_mode(mode);
        assert_eq!(opt.curve_mode(), Some(mode));
        let set = [opt.lin_sv, opt.exp_sv, opt.pol_sv, opt.sin_sv, opt.flat_sv, opt.linear_fit_sv];
        assert_eq!(set.iter().filter(|b| **b).count(), 1);
        assert!(opt.vol);
        assert_eq!(opt.offset, "7");
    }
}

#[test]
fn a_window_that_would_leave_the_monitor_is_put_in_the_middle() {
    assert_eq!(window_position(100, 1920, 300), 100);
    assert_eq!(window_position(0, 1920, 300), 0);
    assert_eq!(window_position(1620, 1920, 300), 1620);
    assert_eq!(window_position(1621, 1920, 300), 810);
    assert_eq!(window_position(-1, 1920, 300), 810);
    assert_eq!(window_position(1080, 1080, 0), 1080);
    assert_eq!(window_position(1081, 1080, 0), 390);
    assert_eq!(window_position(5, i32::MIN, i32::MAX), 0);
    assert_eq!(window_start(1920), 810);
    assert_eq!(window_start(299), 0);
}

#[test]
fn the_window_keeps_its_width_and_a_least_height() {
    assert_eq!(window_size(0), (300, 300));
    assert_eq!(window_size(299), (300, 300));
    assert_eq!(window_size(300), (300, 300));
    assert_eq!(window_size(750), (300, 750));
}

#[test]
fn a_preview_is_named_after_the_beatmap() {
    assert_eq!(
        preview_file_name(b"Artist - Title (Mapper) [Hard].osu"),
        b"Artist - Title (Mapper) [preview].osu"
    );
    assert_eq!(preview_file_name(b"map.osu"), b"map[preview].osu");
    assert_eq!(preview_file_name(b"a.b[c].osu"), b"a.b[preview].osu");
    assert_eq!(preview_file_name(b"plain"), b"plain[preview].osu");
    assert_eq!(preview_file_name(b""), b"[preview].osu");
    assert_eq!(preview_file_name(b"[x].osu"), b"[preview].osu");
}
