//! Decoding of the UDP packets of Velodyne LiDAR sensors (VLP-16, HDL-32E).
//!
//! The library classifies and decodes raw packets, reconstructs the azimuth and the
//! firing time of each laser shot, and parses the NMEA `$GPRMC` sentence that position
//! packets carry. All quantities are kept as integers in the units that the wire uses.

pub mod error;
pub mod io;
pub mod nmea;
pub mod point;
pub mod source;
pub mod timing;
pub mod vlp_16;

pub use error::Error;
pub use point::Point;
