//! Time offsets and the firing-time model.

use vstd::prelude::*;

verus! {

/// Nanoseconds between two consecutive firings of one laser (one firing sequence).
pub const SEQUENCE_DURATION_NS: i64 = 55_296;

/// Nanoseconds between two consecutive lasers of one firing sequence.
pub const FIRING_DURATION_NS: i64 = 2_304;

/// A signed span of time, counted in nanoseconds.
#[derive(Clone, Copy, Debug, PartialEq, Eq, Structural)]
pub struct Duration {
    /// The span in nanoseconds.
    pub nanos: i64,
}

impl Duration {
    /// The span of `ns` nanoseconds.
    pub fn nanoseconds(ns: i64) -> (r: Duration)
        ensures
            r.nanos == ns,
    {
        Duration { nanos: ns }
    }

    /// The span of `us` microseconds.
    pub fn microseconds(us: i64) -> (r: Duration)
        requires
            i64::MIN <= us * 1000 <= i64::MAX,
        ensures
            r.nanos == us * 1000,
    {
        Duration { nanos: us * 1000 }
    }

    /// The span in whole nanoseconds.
    pub fn num_nanoseconds(&self) -> (r: i64)
        ensures
            r == self.nanos,
    {
        self.nanos
    }
}

/// Nanoseconds after the packet timestamp at which laser `channel` fires in firing sequence
/// `sequence_index` of a packet.
pub open spec fn firing_offset_ns(sequence_index: int, channel: int) -> int {
    sequence_index * SEQUENCE_DURATION_NS + channel * FIRING_DURATION_NS
}

/// The time of a firing: the packet timestamp plus `sequence_index` sequence durations plus
/// `data_point_index` firing durations.
pub fn firing_time(timestamp: Duration, sequence_index: i64, data_point_index: i64) -> (r: Duration)
    requires
        0 <= sequence_index <= 23,
        0 <= data_point_index <= 15,
        timestamp.nanos + firing_offset_ns(sequence_index as int, data_point_index as int) <= i64::MAX,
    ensures
        r.nanos == timestamp.nanos + firing_offset_ns(sequence_index as int, data_point_index as int),
{
    Duration { nanos: timestamp.nanos + FIRING_DURATION_NS * data_point_index + SEQUENCE_DURATION_NS * sequence_index }
}

} // verus!
