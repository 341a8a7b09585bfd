//! Interpolated slider-velocity and volume points for beatmap timing sections.
//!
//! A beatmap is loaded into a timeline (`SVT::load_osu`). For each reference
//! pair, `SVT::plan_two_point_fn` says which points are due, and
//! `SVT::apply_two_point_fn` makes them from the beat lengths that the caller
//! has computed. `SVT::write_output_points` thins the points out, merges them
//! with the timing points of the beatmap and gives the new text of the file.
//!
//! Beat lengths and velocities are decimal values. The library carries them
//! as text and leaves all arithmetic on them to its caller; times, volumes
//! and every other field are whole numbers and are computed here.
//!
//! Where an operation is refused as malformed, the module `faults` names
//! the field or line that is. The modules `roundtrip` and `reload` hold what
//! is proved of writing a beatmap and reading or loading it again.

pub mod apply;
pub mod command;
pub mod faults;
pub mod lines;
pub mod loader;
pub mod merge;
pub mod number;
pub mod objects;
pub mod options;
pub mod preview;
pub mod reload;
pub mod roundtrip;
pub mod sections;
pub mod text;
pub mod time;
pub mod writer;

pub use apply::{CurveValues, Plan, RunningState, Sample, Span, SVT};
pub use faults::Malformed;
pub use objects::{MapObject, MapObjectClass, SortKey, SvtError};
pub use options::{AppOptions, CurveMode};
