//! Sources of raw packets.

use vstd::prelude::*;

use crate::error::Error;

verus! {

/// Something that produces the raw bytes of Velodyne packets, one packet at a time.
pub trait Read {
    /// The bytes of the next packet, network-capture header included; `None` at the end of
    /// the stream.
    fn read(&mut self) -> Option<Result<Vec<u8>, Error>>;
}

} // verus!
