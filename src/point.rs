//! Measured data points.

use vstd::prelude::*;

use crate::timing::Duration;

verus! {

/// A Velodyne point in the sensor's spherical coordinates.
///
/// The Cartesian coordinates follow from these: with `r` the distance, `v` the vertical angle
/// and `a` the azimuth, `x = r cos(v) sin(a)`, `y = r cos(v) cos(a)` and `z = r sin(v)`.
#[derive(Clone, Copy, Debug, PartialEq, Eq, Structural)]
pub struct Point {
    /// The distance of the reflecting object, in units of 2 mm; zero when nothing returned.
    pub return_distance: u16,
    /// The vertical angle of the laser, in degrees, positive upward.
    pub vertical_angle: i32,
    /// The calibrated reflectivity of the point.
    pub reflectivity: u8,
    /// The laser channel.
    pub channel: u8,
    /// The azimuth of the firing.
    pub azimuth: Azimuth,
    /// The kind of return.
    pub return_type: ReturnType,
    /// The time of the firing.
    pub time: Time,
}

/// The type of laser return.
#[derive(Clone, Copy, Debug, PartialEq, Eq, Structural)]
pub enum ReturnType {
    /// The strongest return.
    Strongest,
    /// The last return, which may also be the strongest.
    Last,
    /// The strongest return or, when the strongest return was the last one, the
    /// second-strongest.
    Secondary,
}

/// The azimuth of a firing, in hundredths of a degree, with how it was obtained.
#[derive(Clone, Copy, Debug, PartialEq, Eq, Structural)]
pub enum Azimuth {
    /// The azimuth was part of the data packet.
    Measured(i32),
    /// The azimuth was interpolated between two data blocks.
    Interpolated(i32),
    /// The azimuth was extrapolated beyond the last data block.
    Extrapolated(i32),
}

/// The time of a measurement.
#[derive(Clone, Copy, Debug, PartialEq, Eq, Structural)]
pub enum Time {
    /// The time since the top of the hour, as the data packet counts it.
    Offset(Duration),
}

} // verus!
