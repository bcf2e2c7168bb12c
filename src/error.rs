//! The library's error type.

use vstd::prelude::*;

verus! {

/// What is wrong with an NMEA sentence as a whole.
#[derive(Clone, Copy, Debug, PartialEq, Eq, Structural)]
pub enum NmeaProblem {
    /// The sentence holds characters outside ASCII.
    NotAscii,
    /// The sentence does not split into thirteen comma-separated fields.
    FieldCount,
    /// The first field is not `$GPRMC`.
    NotGprmc,
    /// No `*` introduces the checksum.
    NoStar,
    /// The two characters after the `*` are not the checksum of the sentence.
    Checksum,
}

/// Errors of the decoder and the NMEA parser.
#[derive(Clone, Debug)]
pub enum Error {
    /// The payload is shorter than a full packet.
    TooShort,
    /// A data block did not begin with the start identifier; holds what it began with.
    InvalidStartIdentifier(u16),
    /// The return-mode byte is not a known code.
    InvalidReturnMode(u8),
    /// The sensor byte is not a known code.
    InvalidSensor(u8),
    /// The NMEA sentence is malformed.
    NmeaMalformed(NmeaProblem),
    /// A field of the NMEA sentence did not parse; holds its index and its text.
    NmeaFieldParse(usize, String),
    /// The byte-stream source failed; holds its message.
    SourceIo(String),
}

} // verus!
