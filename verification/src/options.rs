//! The settings of one apply cycle.

use vstd::prelude::*;

verus! {

/// The curve along which the velocity changes between the two reference
/// points.
#[derive(Clone, Copy, Debug, PartialEq, Eq, Structural)]
pub enum CurveMode {
    Linear,
    Exponential,
    Polynomial,
    Sinusoidal,
    /// One change for every timing point; works on timing points only.
    Flat,
    /// Scales the velocity each timing point has; works on timing points only.
    LinearFit,
}

impl CurveMode {
    /// Whether the mode leaves snappings and hit objects alone and takes
    /// every velocity line in range.
    pub open spec fn timing_points_only(self) -> bool {
        self == CurveMode::Flat || self == CurveMode::LinearFit
    }
}

/// The settings as they are entered and stored: switches, and numbers as
/// text.
#[derive(Debug)]
pub struct AppOptions {
    pub map: String,
    /// The reference pairs.
    pub inh_times: String,
    pub lin_sv: bool,
    pub exp_sv: bool,
    pub pol_sv: bool,
    pub sin_sv: bool,
    pub flat_sv: bool,
    pub linear_fit_sv: bool,
    /// With `flat_sv`: scale by `flat_scaling_change` in place of adding
    /// `flat_change`.
    pub flat_scaling: bool,
    /// Interpolate the volume.
    pub vol: bool,
    pub hits: bool,
    pub snappings: bool,
    pub inh_lines: bool,
    pub offset: String,
    pub buffer: String,
    pub min_spacing: String,
    pub pol_exp: String,
    pub flat_change: String,
    pub flat_scaling_change: String,
    pub linear_fit_end_sv: String,
    /// Take the tempo at the start for the end point too.
    pub ignore_bpm: bool,
    pub snapping_numer: String,
    pub snapping_denom: String,
    pub pos_x: i32,
    pub pos_y: i32,
    pub width: u32,
    pub height: u32,
    pub experimental: String,
}

/// The bytes that a text is stored as.
pub open spec fn text_bytes(s: String) -> Seq<u8> {
    vstd::utf8::encode_utf8(s@)
}

/// The bytes of `s`.
pub fn bytes_of(s: &String) -> (b: &[u8])
    ensures
        b@ == text_bytes(*s),
{
    s.as_str().as_bytes()
}

/// The width of the window.
pub const DEFAULT_WINDOW_WIDTH: u32 = 300;

/// The height of the window when it is first shown, and its least height.
pub const DEFAULT_WINDOW_HEIGHT: u32 = 300;

/// Where a window of default size starts so that it stands in the middle of
/// `extent`; never before 0.
pub open spec fn centered(extent: i32) -> int {
    let half: int = if extent >= 0 {
        extent / 2
    } else {
        -((-extent) / 2)
    };
    if half - 150 > 0 {
        half - 150
    } else {
        0
    }
}

impl AppOptions {
    /// The mode that the switches select. Where more than one is set, the
    /// first of linear, exponential, polynomial, sinusoidal, flat, linear fit
    /// counts; `None` where none is set.
    pub open spec fn mode(self) -> Option<CurveMode> {
        if self.lin_sv {
            Some(CurveMode::Linear)
        } else if self.exp_sv {
            Some(CurveMode::Exponential)
        } else if self.pol_sv {
            Some(CurveMode::Polynomial)
        } else if self.sin_sv {
            Some(CurveMode::Sinusoidal)
        } else if self.flat_sv {
            Some(CurveMode::Flat)
        } else if self.linear_fit_sv {
            Some(CurveMode::LinearFit)
        } else {
            None
        }
    }

    /// Whether exactly the switch of `mode` is set.
    pub open spec fn selects_only(self, mode: CurveMode) -> bool {
        &&& self.lin_sv == (mode == CurveMode::Linear)
        &&& self.exp_sv == (mode == CurveMode::Exponential)
        &&& self.pol_sv == (mode == CurveMode::Polynomial)
        &&& self.sin_sv == (mode == CurveMode::Sinusoidal)
        &&& self.flat_sv == (mode == CurveMode::Flat)
        &&& self.linear_fit_sv == (mode == CurveMode::LinearFit)
    }

    /// The mode that the switches select.
    pub fn curve_mode(&self) -> (r: Option<CurveMode>)
        ensures
            r == self.mode(),
    {
        if self.lin_sv {
            Some(CurveMode::Linear)
        } else if self.exp_sv {
            Some(CurveMode::Exponential)
        } else if self.pol_sv {
            Some(CurveMode::Polynomial)
        } else if self.sin_sv {
            Some(CurveMode::Sinusoidal)
        } else if self.flat_sv {
            Some(CurveMode::Flat)
        } else if self.linear_fit_sv {
            Some(CurveMode::LinearFit)
        } else {
            None
        }
    }

    /// Sets the switch of `mode` and clears those of the other modes, so
    /// that the selection is exclusive. Nothing else changes.
    pub fn set_sv_mode(&mut self, mode: CurveMode)
        ensures
            final(self).selects_only(mode),
            final(self).mode() == Some(mode),
            *final(self) == (AppOptions {
                lin_sv: final(self).lin_sv,
                exp_sv: final(self).exp_sv,
                pol_sv: final(self).pol_sv,
                sin_sv: final(self).sin_sv,
                flat_sv: final(self).flat_sv,
                linear_fit_sv: final(self).linear_fit_sv,
                ..*old(self)
            }),
    {
        self.lin_sv = mode == CurveMode::Linear;
        self.exp_sv = mode == CurveMode::Exponential;
        self.pol_sv = mode == CurveMode::Polynomial;
        self.sin_sv = mode == CurveMode::Sinusoidal;
        self.flat_sv = mode == CurveMode::Flat;
        self.linear_fit_sv = mode == CurveMode::LinearFit;
    }

    /// The settings of a first start, with the window in the middle of a
    /// monitor of the given size: linear mode on hit objects, an offset of
    /// -1, a buffer and a minimal spacing of 3.
    pub fn first_start(monitor_width: i32, monitor_height: i32) -> (r: AppOptions)
        ensures
            r.selects_only(CurveMode::Linear),
            !r.flat_scaling && !r.vol && r.hits && !r.snappings && !r.inh_lines && !r.ignore_bpm,
            r.map@ == ""@ && r.inh_times@ == ""@ && r.experimental@ == ""@,
            r.offset@ == "-1"@ && r.buffer@ == "3"@ && r.min_spacing@ == "3"@,
            r.pol_exp@ == "0.5"@ && r.flat_change@ == "0.0"@,
            r.flat_scaling_change@ == "1.0"@ && r.linear_fit_end_sv@ == "1.0"@,
            r.snapping_numer@ == "1"@ && r.snapping_denom@ == "1"@,
            r.pos_x == centered(monitor_width) && r.pos_y == centered(monitor_height),
            r.width == DEFAULT_WINDOW_WIDTH && r.height == DEFAULT_WINDOW_HEIGHT,
    {
        AppOptions {
            map: "".to_owned(),
            inh_times: "".to_owned(),
            lin_sv: true,
            exp_sv: false,
            pol_sv: false,
            sin_sv: false,
            flat_sv: false,
            linear_fit_sv: false,
            flat_scaling: false,
            vol: false,
            hits: true,
            snappings: false,
            inh_lines: false,
            offset: "-1".to_owned(),
            buffer: "3".to_owned(),
            min_spacing: "3".to_owned(),
            pol_exp: "0.5".to_owned(),
            flat_change: "0.0".to_owned(),
            flat_scaling_change: "1.0".to_owned(),
            linear_fit_end_sv: "1.0".to_owned(),
            ignore_bpm: false,
            snapping_numer: "1".to_owned(),
            snapping_denom: "1".to_owned(),
            pos_x: window_start(monitor_width),
            pos_y: window_start(monitor_height),
            width: DEFAULT_WINDOW_WIDTH,
            height: DEFAULT_WINDOW_HEIGHT,
            experimental: "".to_owned(),
        }
    }
}

/// Where a window of default size starts on a monitor of the given extent.
pub fn window_start(extent: i32) -> (r: i32)
    ensures
        r == centered(extent),
{
    let half: i32 = if extent >= 0 {
        extent / 2
    } else if extent == i32::MIN {
        -1073741824
    } else {
        -((-extent) / 2)
    };
    if half > 150 {
        half - 150
    } else {
        0
    }
}

/// Where the window stands along one side of the monitor: at `pos` where
/// that leaves it on the monitor, `reserve` kept free behind it; else in the
/// middle.
pub open spec fn placed(pos: i32, extent: i32, reserve: i32) -> int {
    if pos < 0 || pos > extent - reserve {
        centered(extent)
    } else {
        pos as int
    }
}

/// Where the window stands along one side of the monitor.
pub fn window_position(pos: i32, extent: i32, reserve: i32) -> (r: i32)
    ensures
        r == placed(pos, extent, reserve),
{
    if pos < 0 || pos as i64 > extent as i64 - reserve as i64 {
        window_start(extent)
    } else {
        pos
    }
}

/// The size that a window of the given height is held to: the default
/// width, and no less than the default height.
pub fn window_size(height: u32) -> (r: (u32, u32))
    ensures
        r.0 == DEFAULT_WINDOW_WIDTH,
        r.1 == if height < DEFAULT_WINDOW_HEIGHT {
            DEFAULT_WINDOW_HEIGHT
        } else {
            height
        },
{
    if height < DEFAULT_WINDOW_HEIGHT {
        (DEFAULT_WINDOW_WIDTH, DEFAULT_WINDOW_HEIGHT)
    } else {
        (DEFAULT_WINDOW_WIDTH, height)
    }
}

} // verus!
