//! Packets of the Velodyne Puck 16.

use vstd::prelude::*;
use vstd::utf8::*;

use crate::error::Error;
use crate::nmea::{datetime_format, datetime_of, date_text, is_position_result, parsed_datetime, Position};
use crate::point::{Azimuth, Point, ReturnType, Time};
use crate::timing::{firing_offset_ns, firing_time, Duration};

verus! {

/// Length of the network-capture header (Ethernet, IP, UDP) in front of the sensor payload.
pub const PACKET_HEADER_LEN: usize = 42;

/// Length of a whole packet, header included.
pub const PACKET_LEN: usize = 1248;

/// Number of data blocks in a data packet.
pub const NUM_DATA_BLOCKS: usize = 12;

/// Number of lasers of the VLP-16.
pub const NUM_LASERS: usize = 16;

/// Length of one data block on the wire.
pub const DATA_BLOCK_LEN: usize = 100;

/// The two bytes that open every data block, read little-endian.
pub const START_IDENTIFIER: u16 = 0xeeff;

/// Offset of the timestamp of a position packet.
pub const POSITION_TIMESTAMP_OFFSET: usize = 240;

/// Offset of the NMEA sentence of a position packet.
pub const NMEA_OFFSET: usize = 248;

/// Room for the NMEA sentence of a position packet.
pub const NMEA_LEN: usize = 72;

/// The little-endian 16-bit integer at `i`.
pub open spec fn le_u16(b: Seq<u8>, i: int) -> int {
    b[i] + 256 * b[i + 1]
}

/// The little-endian 32-bit integer at `i`.
pub open spec fn le_u32(b: Seq<u8>, i: int) -> int {
    le_u16(b, i) + 65536 * le_u16(b, i + 2)
}

/// Offset of data block `block` in a packet.
pub open spec fn block_offset(block: int) -> int {
    PACKET_HEADER_LEN + DATA_BLOCK_LEN * block
}

/// Offset of the record of laser `channel` in firing sequence `sequence` of data block `block`.
pub open spec fn record_offset(block: int, sequence: int, channel: int) -> int {
    block_offset(block) + 4 + 3 * (NUM_LASERS * sequence + channel)
}

/// Offset of the timestamp of a data packet.
pub open spec fn data_timestamp_offset() -> int {
    block_offset(NUM_DATA_BLOCKS as int)
}

/// Whether the payload carries `$GPRMC` at the offset of the NMEA sentence.
pub open spec fn is_position_payload(b: Seq<u8>) -> bool {
    &&& b[NMEA_OFFSET as int] == 0x24
    &&& b[NMEA_OFFSET + 1] == 0x47
    &&& b[NMEA_OFFSET + 2] == 0x50
    &&& b[NMEA_OFFSET + 3] == 0x52
    &&& b[NMEA_OFFSET + 4] == 0x4d
    &&& b[NMEA_OFFSET + 5] == 0x43
}

/// Whether data block `block` opens with the start identifier.
pub open spec fn start_ok(b: Seq<u8>, block: int) -> bool {
    le_u16(b, block_offset(block)) == START_IDENTIFIER
}

/// The record that the wire holds for laser `channel` of sequence `sequence` of block `block`.
pub open spec fn wire_record(b: Seq<u8>, block: int, sequence: int, channel: int) -> DataRecord {
    DataRecord {
        return_distance: le_u16(b, record_offset(block, sequence, channel)) as u16,
        calibrated_reflectivity: b[record_offset(block, sequence, channel) + 2],
    }
}

/// Whether `d` is data block `block` of the payload.
pub open spec fn is_wire_block(d: DataBlock, b: Seq<u8>, block: int) -> bool {
    &&& d.azimuth as int == le_u16(b, block_offset(block) + 2)
    &&& forall|s: int, c: int|
        0 <= s < 2 && 0 <= c < NUM_LASERS ==> #[trigger] d.data_records@[s]@[c] == wire_record(b, block, s, c)
}

/// Length of the text in `s` that ends at its first NUL byte, or at its end.
pub open spec fn nul_terminated_len(s: Seq<u8>) -> nat
    decreases s.len(),
{
    if s.len() == 0 || s[0] == 0 {
        0
    } else {
        1 + nul_terminated_len(s.drop_first())
    }
}

/// The bytes of the NMEA sentence of a position packet.
pub open spec fn nmea_bytes(b: Seq<u8>) -> Seq<u8> {
    let field = b.subrange(NMEA_OFFSET as int, NMEA_OFFSET + NMEA_LEN);
    field.subrange(0, nul_terminated_len(field) as int)
}

/// What the bytes decode to as text: valid UTF-8 as it stands, each invalid sequence replaced
/// by U+FFFD.
pub uninterp spec fn lossy_text(b: Seq<u8>) -> Seq<char>;

/// Relies on `String::from_utf8_lossy`: the text of `b`, which is `b` decoded where `b` is
/// valid UTF-8.
#[verifier::external_body]
fn text_of(b: &[u8]) -> (r: String)
    ensures
        r@ == lossy_text(b@),
        valid_utf8(b@) ==> r@ == decode_utf8(b@),
{
    String::from_utf8_lossy(b).into_owned()
}

/// The modes by which the instrument reports returns.
#[derive(Clone, Copy, Debug, PartialEq, Eq, Structural)]
pub enum ReturnMode {
    /// The strongest return by light energy.
    StrongestReturn,
    /// The last return of each laser pulse.
    LastReturn,
    /// The strongest and the last return.
    DualReturn,
}

/// The sensor that produced the data.
#[allow(non_camel_case_types)]
#[derive(Clone, Copy, Debug, PartialEq, Eq, Structural)]
pub enum Sensor {
    /// HDL-32E.
    HDL_32E,
    /// VLP-16.
    VLP_16,
}

/// The return mode that a factory byte encodes, if any.
pub open spec fn return_mode_of(n: u8) -> Option<ReturnMode> {
    if n == 0x37 {
        Some(ReturnMode::StrongestReturn)
    } else if n == 0x38 {
        Some(ReturnMode::LastReturn)
    } else if n == 0x39 {
        Some(ReturnMode::DualReturn)
    } else {
        None
    }
}

/// The sensor that a factory byte encodes, if any.
pub open spec fn sensor_of(n: u8) -> Option<Sensor> {
    if n == 0x21 {
        Some(Sensor::HDL_32E)
    } else if n == 0x22 {
        Some(Sensor::VLP_16)
    } else {
        None
    }
}

impl ReturnMode {
    /// Decodes a return-mode byte.
    pub fn from_u8(n: u8) -> (r: Result<ReturnMode, Error>)
        ensures
            return_mode_of(n) is Some ==> r == Ok::<ReturnMode, Error>(return_mode_of(n)->0),
            return_mode_of(n) is None ==> r == Err::<ReturnMode, Error>(Error::InvalidReturnMode(n)),
    {
        match n {
            0x37 => Ok(ReturnMode::StrongestReturn),
            0x38 => Ok(ReturnMode::LastReturn),
            0x39 => Ok(ReturnMode::DualReturn),
            _ => Err(Error::InvalidReturnMode(n)),
        }
    }
}

impl Sensor {
    /// Decodes a sensor byte.
    pub fn from_u8(n: u8) -> (r: Result<Sensor, Error>)
        ensures
            sensor_of(n) is Some ==> r == Ok::<Sensor, Error>(sensor_of(n)->0),
            sensor_of(n) is None ==> r == Err::<Sensor, Error>(Error::InvalidSensor(n)),
    {
        match n {
            0x21 => Ok(Sensor::HDL_32E),
            0x22 => Ok(Sensor::VLP_16),
            _ => Err(Error::InvalidSensor(n)),
        }
    }
}

/// A measurement of range and reflectivity.
#[derive(Clone, Copy, Debug, PartialEq, Eq, Structural)]
pub struct DataRecord {
    /// The distance of the reflecting object, in units of 2 mm; zero when nothing returned.
    pub return_distance: u16,
    /// The calibrated reflectivity.
    ///
    /// A black, absorbent diffuse reflector is 0, a white diffuse reflector 100, a
    /// retro-reflector under a semi-transparent white surface 101 and a bare
    /// retro-reflector 255.
    pub calibrated_reflectivity: u8,
}

/// A block of laser measurements.
#[derive(Clone, Copy, Debug)]
pub struct DataBlock {
    /// The azimuth of the first firing of the block, in hundredths of a degree.
    pub azimuth: u16,
    /// Two firing sequences of sixteen records, one per laser.
    pub data_records: [[DataRecord; NUM_LASERS]; 2],
}

/// A Velodyne packet.
#[derive(Clone, Debug)]
pub enum Packet {
    /// Data packets carry laser range measurements.
    Data {
        /// The twelve data blocks.
        data_blocks: [DataBlock; NUM_DATA_BLOCKS],
        /// The time from the top of the hour to the first firing of the packet.
        timestamp: Duration,
        /// The return mode of the sensor.
        return_mode: ReturnMode,
        /// The sensor type.
        sensor: Sensor,
    },
    /// A position packet echoes what a GNSS receiver sent.
    Position {
        /// The time from the top of the hour at which the NMEA sentence was received.
        timestamp: Duration,
        /// The NMEA `$GPRMC` sentence.
        nmea: String,
    },
}

/// Whether `p` is the data packet that the payload `b` encodes.
pub open spec fn is_wire_data_packet(p: Packet, b: Seq<u8>) -> bool {
    match p {
        Packet::Data { data_blocks, timestamp, return_mode, sensor } => {
            &&& forall|k: int| 0 <= k < NUM_DATA_BLOCKS ==> #[trigger] is_wire_block(data_blocks@[k], b, k)
            &&& timestamp.nanos == 1000 * le_u32(b, data_timestamp_offset())
            &&& return_mode_of(b[data_timestamp_offset() + 4]) == Some(return_mode)
            &&& sensor_of(b[data_timestamp_offset() + 5]) == Some(sensor)
        },
        Packet::Position { .. } => false,
    }
}

/// Whether `p` is the position packet that the payload `b` encodes.
pub open spec fn is_wire_position_packet(p: Packet, b: Seq<u8>) -> bool {
    match p {
        Packet::Position { timestamp, nmea } => {
            &&& timestamp.nanos == 1000 * le_u32(b, POSITION_TIMESTAMP_OFFSET as int)
            &&& nmea@ == lossy_text(nmea_bytes(b))
        },
        Packet::Data { .. } => false,
    }
}

/// Whether `e` is the error that decoding the data payload `b` fails with, given that it fails.
pub open spec fn is_data_error(e: Error, b: Seq<u8>) -> bool {
    if exists|k: int| 0 <= k < NUM_DATA_BLOCKS && !start_ok(b, k) {
        exists|k: int|
            0 <= k < NUM_DATA_BLOCKS && !start_ok(b, k) && (forall|j: int| 0 <= j < k ==> start_ok(b, j))
                && e == Error::InvalidStartIdentifier(le_u16(b, block_offset(k)) as u16)
    } else if return_mode_of(b[data_timestamp_offset() + 4]) is None {
        e == Error::InvalidReturnMode(b[data_timestamp_offset() + 4])
    } else {
        e == Error::InvalidSensor(b[data_timestamp_offset() + 5])
    }
}

/// Whether the data payload `b` decodes: every block opens with the start identifier and the
/// return mode and the sensor are known.
pub open spec fn is_valid_data_payload(b: Seq<u8>) -> bool {
    &&& forall|k: int| 0 <= k < NUM_DATA_BLOCKS ==> start_ok(b, k)
    &&& return_mode_of(b[data_timestamp_offset() + 4]) is Some
    &&& sensor_of(b[data_timestamp_offset() + 5]) is Some
}

/// Whether the payload `b` decodes to a packet.
pub open spec fn decodes(b: Seq<u8>) -> bool {
    b.len() >= PACKET_LEN && (is_position_payload(b) || is_valid_data_payload(b))
}

/// Whether `p` is the packet that the payload `b` decodes to.
pub open spec fn is_decoded(p: Packet, b: Seq<u8>) -> bool {
    if is_position_payload(b) {
        is_wire_position_packet(p, b)
    } else {
        is_wire_data_packet(p, b)
    }
}

/// Whether `e` is the error that decoding the payload `b` fails with, given that it fails.
pub open spec fn is_decode_error(e: Error, b: Seq<u8>) -> bool {
    if b.len() < PACKET_LEN {
        e == Error::TooShort
    } else {
        is_data_error(e, b)
    }
}

/// Whether the payload `b` is a data packet in dual-return mode.
pub open spec fn is_dual_data_payload(b: Seq<u8>) -> bool {
    &&& b.len() >= PACKET_LEN
    &&& !is_position_payload(b)
    &&& return_mode_of(b[data_timestamp_offset() + 4]) == Some(ReturnMode::DualReturn)
}

/// Reads the little-endian 16-bit integer at `i`.
fn read_u16(b: &[u8], i: usize) -> (r: u16)
    requires
        i + 1 < b@.len(),
    ensures
        r as int == le_u16(b@, i as int),
{
    b[i] as u16 + 256 * (b[i + 1] as u16)
}

/// Reads the little-endian 32-bit integer at `i`.
fn read_u32(b: &[u8], i: usize) -> (r: u32)
    requires
        i + 3 < b@.len(),
    ensures
        r as int == le_u32(b@, i as int),
{
    let low = b[i] as u32 + 256 * (b[i + 1] as u32);
    let high = b[i + 2] as u32 + 256 * (b[i + 3] as u32);
    low + 65536 * high
}

impl DataRecord {
    /// Reads the record of laser `channel` of sequence `sequence` of block `block`.
    fn read_from(b: &[u8], block: usize, sequence: usize, channel: usize) -> (r: DataRecord)
        requires
            b@.len() >= PACKET_LEN,
            block < NUM_DATA_BLOCKS,
            sequence < 2,
            channel < NUM_LASERS,
        ensures
            r == wire_record(b@, block as int, sequence as int, channel as int),
    {
        let at = PACKET_HEADER_LEN + DATA_BLOCK_LEN * block + 4 + 3 * (NUM_LASERS * sequence + channel);
        DataRecord { return_distance: read_u16(b, at), calibrated_reflectivity: b[at + 2] }
    }
}

impl DataBlock {
    /// Reads the records of one firing sequence of block `block`.
    fn read_sequence(b: &[u8], block: usize, sequence: usize) -> (r: [DataRecord; NUM_LASERS])
        requires
            b@.len() >= PACKET_LEN,
            block < NUM_DATA_BLOCKS,
            sequence < 2,
        ensures
            forall|c: int| 0 <= c < NUM_LASERS ==> #[trigger] r@[c] == wire_record(b@, block as int, sequence as int, c),
    {
        let mut records = [DataRecord { return_distance: 0, calibrated_reflectivity: 0 }; NUM_LASERS];
        let mut channel: usize = 0;
        while channel < NUM_LASERS
            invariant
                b@.len() >= PACKET_LEN,
                block < NUM_DATA_BLOCKS,
                sequence < 2,
                channel <= NUM_LASERS,
                forall|c: int| 0 <= c < channel ==> #[trigger] records@[c] == wire_record(b@, block as int, sequence as int, c),
            decreases NUM_LASERS - channel,
        {
            records[channel] = DataRecord::read_from(b, block, sequence, channel);
            channel += 1;
        }
        records
    }

    /// Reads data block `block`, which must open with the start identifier.
    fn read_from(b: &[u8], block: usize) -> (r: Result<DataBlock, Error>)
        requires
            b@.len() >= PACKET_LEN,
            block < NUM_DATA_BLOCKS,
        ensures
            start_ok(b@, block as int) ==> (r matches Ok(d) && is_wire_block(d, b@, block as int)),
            !start_ok(b@, block as int) ==> r == Err::<DataBlock, Error>(
                Error::InvalidStartIdentifier(le_u16(b@, block_offset(block as int)) as u16),
            ),
    {
        let at = PACKET_HEADER_LEN + DATA_BLOCK_LEN * block;
        let start_identifier = read_u16(b, at);
        if start_identifier != START_IDENTIFIER {
            return Err(Error::InvalidStartIdentifier(start_identifier));
        }
        let azimuth = read_u16(b, at + 2);
        let first = DataBlock::read_sequence(b, block, 0);
        let second = DataBlock::read_sequence(b, block, 1);
        let d = DataBlock { azimuth, data_records: [first, second] };
        assert forall|s: int, c: int| 0 <= s < 2 && 0 <= c < NUM_LASERS implies #[trigger] d.data_records@[s]@[c]
            == wire_record(b@, block as int, s, c) by {
            if s == 0 {
                assert(first@[c] == wire_record(b@, block as int, 0, c));
            } else {
                assert(second@[c] == wire_record(b@, block as int, 1, c));
            }
        }
        Ok(d)
    }
}

/// A prefix of `s` without NUL that ends at the end of `s` or before a NUL is the text of `s`.
proof fn lemma_nul_terminated_len(s: Seq<u8>, k: int)
    requires
        0 <= k <= s.len(),
        forall|j: int| 0 <= j < k ==> s[j] != 0,
        k == s.len() || s[k] == 0,
    ensures
        nul_terminated_len(s) == k,
    decreases k,
{
    if k > 0 {
        lemma_nul_terminated_len(s.drop_first(), k - 1);
    }
}

impl Packet {
    /// Decodes a packet from its bytes, network-capture header included.
    ///
    /// A payload that carries `$GPRMC` at offset 248 is a position packet; any other is a
    /// data packet.
    pub fn new(bytes: &[u8]) -> (r: Result<Packet, Error>)
        ensures
            bytes@.len() < PACKET_LEN ==> r == Err::<Packet, Error>(Error::TooShort),
            bytes@.len() >= PACKET_LEN && is_position_payload(bytes@) ==> (r matches Ok(p)
                && is_wire_position_packet(p, bytes@)),
            bytes@.len() >= PACKET_LEN && !is_position_payload(bytes@) ==> {
                &&& r is Ok <==> is_valid_data_payload(bytes@)
                &&& r matches Ok(p) ==> is_wire_data_packet(p, bytes@)
                &&& r matches Err(e) ==> is_data_error(e, bytes@)
            },
    {
        if bytes.len() < PACKET_LEN {
            return Err(Error::TooShort);
        }
        if bytes[NMEA_OFFSET] == 0x24 && bytes[NMEA_OFFSET + 1] == 0x47 && bytes[NMEA_OFFSET + 2] == 0x50
            && bytes[NMEA_OFFSET + 3] == 0x52 && bytes[NMEA_OFFSET + 4] == 0x4d && bytes[NMEA_OFFSET + 5] == 0x43 {
            Ok(Packet::new_position(bytes))
        } else {
            Packet::new_data(bytes)
        }
    }

    /// Decodes a position packet: its timestamp, and its sentence up to the first NUL.
    fn new_position(bytes: &[u8]) -> (r: Packet)
        requires
            bytes@.len() >= PACKET_LEN,
        ensures
            is_wire_position_packet(r, bytes@),
    {
        let timestamp = Duration { nanos: 1000 * read_u32(bytes, POSITION_TIMESTAMP_OFFSET) as i64 };
        let ghost field = bytes@.subrange(NMEA_OFFSET as int, NMEA_OFFSET + NMEA_LEN);
        let mut len: usize = 0;
        while len < NMEA_LEN && bytes[NMEA_OFFSET + len] != 0
            invariant
                bytes@.len() >= PACKET_LEN,
                len <= NMEA_LEN,
                field == bytes@.subrange(NMEA_OFFSET as int, NMEA_OFFSET + NMEA_LEN),
                forall|j: int| 0 <= j < len ==> field[j] != 0,
            decreases NMEA_LEN - len,
        {
            len += 1;
        }
        proof {
            lemma_nul_terminated_len(field, len as int);
        }
        let text = &bytes[NMEA_OFFSET..NMEA_OFFSET + len];
        assert(text@ == nmea_bytes(bytes@));
        Packet::Position { timestamp, nmea: text_of(text) }
    }

    /// Decodes a data packet.
    fn new_data(bytes: &[u8]) -> (r: Result<Packet, Error>)
        requires
            bytes@.len() >= PACKET_LEN,
        ensures
            r is Ok <==> is_valid_data_payload(bytes@),
            r matches Ok(p) ==> is_wire_data_packet(p, bytes@),
            r matches Err(e) ==> is_data_error(e, bytes@),
    {
        let empty = DataRecord { return_distance: 0, calibrated_reflectivity: 0 };
        let mut data_blocks = [DataBlock { azimuth: 0, data_records: [[empty; NUM_LASERS]; 2] }; NUM_DATA_BLOCKS];
        let mut block: usize = 0;
        while block < NUM_DATA_BLOCKS
            invariant
                bytes@.len() >= PACKET_LEN,
                block <= NUM_DATA_BLOCKS,
                forall|k: int| 0 <= k < block ==> start_ok(bytes@, k),
                forall|k: int| 0 <= k < block ==> #[trigger] is_wire_block(data_blocks@[k], bytes@, k),
            decreases NUM_DATA_BLOCKS - block,
        {
            match DataBlock::read_from(bytes, block) {
                Ok(d) => {
                    data_blocks[block] = d;
                },
                Err(e) => {
                    assert(!start_ok(bytes@, block as int));
                    assert(is_data_error(e, bytes@));
                    return Err(e);
                },
            }
            block += 1;
        }
        let end = PACKET_HEADER_LEN + DATA_BLOCK_LEN * NUM_DATA_BLOCKS;
        let timestamp = Duration { nanos: 1000 * read_u32(bytes, end) as i64 };
        let return_mode = match ReturnMode::from_u8(bytes[end + 4]) {
            Ok(m) => m,
            Err(e) => {
                return Err(e);
            },
        };
        let sensor = match Sensor::from_u8(bytes[end + 5]) {
            Ok(s) => s,
            Err(e) => {
                return Err(e);
            },
        };
        Ok(Packet::Data { data_blocks, timestamp, return_mode, sensor })
    }
}

/// Number of laser slots in one firing sequence: a sequence lasts 55.296 µs and the lasers
/// fire 2.304 µs apart.
pub const SLOTS_PER_SEQUENCE: u32 = 24;

/// A full turn, in hundredths of a degree.
pub const FULL_TURN: u32 = 36000;

/// The vertical angle of a VLP-16 laser channel, in degrees: the lasers fire alternately
/// below and above the horizon.
pub open spec fn channel_vertical_angle(channel: int) -> int {
    if channel % 2 == 1 {
        channel
    } else {
        channel - 15
    }
}

/// `n / d` rounded to the nearest integer, halves away from zero, for `n >= 0`.
pub open spec fn round_div(n: int, d: int) -> int {
    (2 * n + d) / (2 * d)
}

/// The azimuth, in hundredths of a degree, at which laser `channel` of sequence `sequence` of
/// block `block` fires.
///
/// The rotation rate comes from the next block, or for the last block from the one before it;
/// the azimuth advances at that rate for each laser slot elapsed since the first firing of the
/// block, is rounded to a hundredth of a degree, and is brought back below a full turn.
pub open spec fn predicted_azimuth(blocks: Seq<DataBlock>, block: int, sequence: int, channel: int) -> int {
    let slots = SLOTS_PER_SEQUENCE * sequence + channel;
    let span = 2 * SLOTS_PER_SEQUENCE;
    let base = blocks[block].azimuth as int;
    let unwrapped = if block < NUM_DATA_BLOCKS - 1 {
        let next = blocks[block + 1].azimuth as int;
        let next = if next < base { next + FULL_TURN } else { next };
        round_div(span * base + (next - base) * slots, span)
    } else {
        let previous = blocks[block - 1].azimuth as int;
        let base = if previous > base { base + FULL_TURN } else { base };
        round_div(span * base + (base - previous) * slots, span)
    };
    if unwrapped > FULL_TURN {
        unwrapped - FULL_TURN
    } else {
        unwrapped
    }
}

/// How the azimuth of a firing was obtained, holding the azimuth `az`.
pub open spec fn azimuth_tag(block: int, sequence: int, channel: int, az: i32) -> Azimuth {
    if block == 0 && sequence == 0 && channel == 0 {
        Azimuth::Measured(az)
    } else if block < NUM_DATA_BLOCKS - 1 {
        Azimuth::Interpolated(az)
    } else {
        Azimuth::Extrapolated(az)
    }
}

/// The kind of return that a single-return mode reports.
pub open spec fn return_type_of(mode: ReturnMode) -> ReturnType {
    match mode {
        ReturnMode::StrongestReturn => ReturnType::Strongest,
        _ => ReturnType::Last,
    }
}

/// The point of laser `channel` of sequence `sequence` of block `block`.
pub open spec fn firing_point(
    blocks: Seq<DataBlock>,
    timestamp: Duration,
    mode: ReturnMode,
    block: int,
    sequence: int,
    channel: int,
) -> Point {
    let record = blocks[block].data_records@[sequence]@[channel];
    Point {
        return_distance: record.return_distance,
        vertical_angle: channel_vertical_angle(channel) as i32,
        reflectivity: record.calibrated_reflectivity,
        channel: channel as u8,
        azimuth: azimuth_tag(block, sequence, channel, predicted_azimuth(blocks, block, sequence, channel) as i32),
        return_type: return_type_of(mode),
        time: Time::Offset(
            Duration { nanos: (timestamp.nanos + firing_offset_ns(2 * block + sequence, channel)) as i64 },
        ),
    }
}

/// Number of points of a data packet.
pub const POINTS_PER_PACKET: usize = 384;

/// The point at position `i` of the points of a data packet: block-major, then sequence,
/// then channel.
pub open spec fn packet_point(blocks: Seq<DataBlock>, timestamp: Duration, mode: ReturnMode, i: int) -> Point {
    firing_point(blocks, timestamp, mode, i / 32, (i % 32) / 16, i % 16)
}

/// Whether the points of `p` can be enumerated: it is a data packet in a single-return mode,
/// and its last firing time fits.
pub open spec fn has_points(p: Packet) -> bool {
    match p {
        Packet::Data { timestamp, return_mode, .. } => {
            &&& return_mode != ReturnMode::DualReturn
            &&& timestamp.nanos + firing_offset_ns(23, 15) <= i64::MAX
        },
        Packet::Position { .. } => false,
    }
}

/// The vertical angle of a laser channel, in degrees.
pub fn vertical_angle(channel: usize) -> (r: i32)
    requires
        channel < NUM_LASERS,
    ensures
        r as int == channel_vertical_angle(channel as int),
{
    if channel % 2 == 1 {
        channel as i32
    } else {
        channel as i32 - 15
    }
}

/// Predicts the azimuth of each firing of a data packet from the azimuths of its blocks.
#[derive(Clone, Copy, Debug)]
pub struct AzimuthModel {
    /// The blocks of the packet.
    pub data_blocks: [DataBlock; NUM_DATA_BLOCKS],
}

impl AzimuthModel {
    /// The model of the packet that holds these blocks.
    pub fn new(data_blocks: [DataBlock; NUM_DATA_BLOCKS]) -> (r: AzimuthModel)
        ensures
            r.data_blocks@ == data_blocks@,
    {
        AzimuthModel { data_blocks }
    }

    /// The azimuth, in hundredths of a degree, of laser `channel` of sequence `sequence` of
    /// block `data_block`.
    pub fn predict(&self, data_block: usize, sequence: usize, channel: usize) -> (r: i32)
        requires
            data_block < NUM_DATA_BLOCKS,
            sequence < 2,
            channel < NUM_LASERS,
        ensures
            r as int == predicted_azimuth(self.data_blocks@, data_block as int, sequence as int, channel as int),
    {
        let slots: i64 = if sequence == 0 {
            channel as i64
        } else {
            SLOTS_PER_SEQUENCE as i64 + channel as i64
        };
        let span: i64 = 2 * SLOTS_PER_SEQUENCE as i64;
        let base = self.data_blocks[data_block].azimuth as i64;
        let (base, delta) = if data_block < NUM_DATA_BLOCKS - 1 {
            let next = self.data_blocks[data_block + 1].azimuth as i64;
            let next = if next < base { next + FULL_TURN as i64 } else { next };
            (base, next - base)
        } else {
            let previous = self.data_blocks[data_block - 1].azimuth as i64;
            let base = if previous > base { base + FULL_TURN as i64 } else { base };
            (base, base - previous)
        };
        assert(-65535 * 39 <= delta * slots <= 101535 * 39) by (nonlinear_arith)
            requires
                -65535 <= delta <= 101535,
                0 <= slots <= 39,
        ;
        let numerator = 2 * (span * base + delta * slots) + span;
        let unwrapped = if numerator >= 0 {
            numerator / (2 * span)
        } else {
            -((2 * span - 1 - numerator) / (2 * span))
        };
        proof {
            let n = numerator as int;
            if n < 0 {
                let q = (2 * span - 1 - n) / (2 * span as int);
                assert(q * 96 <= 95 - n < q * 96 + 96);
                assert((-q) * 96 <= n < (-q) * 96 + 96);
                vstd::arithmetic::div_mod::lemma_fundamental_div_mod_converse(n, 96, -q, n - (-q) * 96);
            }
            assert(-60000 <= unwrapped <= 200000);
        }
        assert(unwrapped == round_div(span * base + delta * slots, span as int));
        if unwrapped > FULL_TURN as i64 {
            (unwrapped - FULL_TURN as i64) as i32
        } else {
            unwrapped as i32
        }
    }
}

impl Packet {
    /// The points of this data packet, in firing order: block-major, then sequence, then
    /// channel; `None` for a position packet.
    pub fn points(&self) -> (r: Option<Vec<Point>>)
        requires
            self is Data ==> has_points(*self),
        ensures
            self is Position ==> r is None,
            *self matches Packet::Data { data_blocks, timestamp, return_mode, .. } ==> (r matches Some(v) && v@.len()
                == POINTS_PER_PACKET && forall|i: int|
                0 <= i < POINTS_PER_PACKET ==> #[trigger] v@[i] == packet_point(data_blocks@, timestamp, return_mode, i)),
    {
        match self {
            Packet::Data { data_blocks, timestamp, return_mode, .. } => {
                let model = AzimuthModel::new(*data_blocks);
                let return_type = match return_mode {
                    ReturnMode::StrongestReturn => ReturnType::Strongest,
                    _ => ReturnType::Last,
                };
                let mut points: Vec<Point> = Vec::new();
                let mut i: usize = 0;
                while i < POINTS_PER_PACKET
                    invariant
                        has_points(*self),
                        model.data_blocks@ == data_blocks@,
                        return_type == return_type_of(*return_mode),
                        timestamp.nanos + firing_offset_ns(23, 15) <= i64::MAX,
                        i <= POINTS_PER_PACKET,
                        points@.len() == i,
                        forall|j: int| 0 <= j < i ==> #[trigger] points@[j] == packet_point(data_blocks@, *timestamp, *return_mode, j),
                    decreases POINTS_PER_PACKET - i,
                {
                    let block = i / 32;
                    let sequence = (i % 32) / 16;
                    let channel = i % 16;
                    let record = data_blocks[block].data_records[sequence][channel];
                    let az = model.predict(block, sequence, channel);
                    let azimuth = if block == 0 && sequence == 0 && channel == 0 {
                        Azimuth::Measured(az)
                    } else if block < NUM_DATA_BLOCKS - 1 {
                        Azimuth::Interpolated(az)
                    } else {
                        Azimuth::Extrapolated(az)
                    };
                    let time = firing_time(*timestamp, (2 * block + sequence) as i64, channel as i64);
                    let point = Point {
                        return_distance: record.return_distance,
                        vertical_angle: vertical_angle(channel),
                        reflectivity: record.calibrated_reflectivity,
                        channel: channel as u8,
                        azimuth,
                        return_type,
                        time: Time::Offset(time),
                    };
                    points.push(point);
                    i += 1;
                }
                Some(points)
            },
            Packet::Position { .. } => None,
        }
    }
}

impl Packet {
    /// Whether this is a data packet.
    pub fn is_data(&self) -> (r: bool)
        ensures
            r == (*self is Data),
    {
        match self {
            Packet::Data { .. } => true,
            Packet::Position { .. } => false,
        }
    }

    /// Whether this is a position packet.
    pub fn is_position(&self) -> (r: bool)
        ensures
            r == (*self is Position),
    {
        !self.is_data()
    }

    /// The data blocks of a data packet; `None` for a position packet.
    pub fn data_blocks(&self) -> (r: Option<[DataBlock; NUM_DATA_BLOCKS]>)
        ensures
            *self matches Packet::Data { data_blocks, .. } ==> r matches Some(d) && d@ == data_blocks@,
            *self is Position ==> r is None,
    {
        match self {
            Packet::Data { data_blocks, .. } => Some(*data_blocks),
            Packet::Position { .. } => None,
        }
    }

    /// The time from the top of the hour that the packet carries.
    pub fn timestamp(&self) -> (r: Duration)
        ensures
            *self matches Packet::Data { timestamp, .. } ==> r == timestamp,
            *self matches Packet::Position { timestamp, .. } ==> r == timestamp,
    {
        match self {
            Packet::Data { timestamp, .. } | Packet::Position { timestamp, .. } => *timestamp,
        }
    }

    /// The return mode of a data packet; `None` for a position packet.
    pub fn return_mode(&self) -> (r: Option<ReturnMode>)
        ensures
            *self matches Packet::Data { return_mode, .. } ==> r == Some(return_mode),
            *self is Position ==> r is None,
    {
        match self {
            Packet::Data { return_mode, .. } => Some(*return_mode),
            Packet::Position { .. } => None,
        }
    }

    /// The sensor of a data packet; `None` for a position packet.
    pub fn sensor(&self) -> (r: Option<Sensor>)
        ensures
            *self matches Packet::Data { sensor, .. } ==> r == Some(sensor),
            *self is Position ==> r is None,
    {
        match self {
            Packet::Data { sensor, .. } => Some(*sensor),
            Packet::Position { .. } => None,
        }
    }

    /// The NMEA sentence of a position packet; `None` for a data packet.
    pub fn nmea(&self) -> (r: Option<&str>)
        ensures
            *self matches Packet::Position { nmea, .. } ==> r matches Some(s) && s@ == nmea@,
            *self is Data ==> r is None,
    {
        match self {
            Packet::Data { .. } => None,
            Packet::Position { nmea, .. } => Some(nmea.as_str()),
        }
    }
}

impl Packet {
    /// The position that the NMEA sentence of a position packet holds; `None` for a data
    /// packet.
    pub fn position(&self) -> (r: Option<Result<Position, Error>>)
        ensures
            *self is Data ==> r is None,
            *self matches Packet::Position { nmea, .. } ==> r matches Some(q) && is_position_result(
                q,
                nmea@,
                datetime_of(parsed_datetime(date_text(nmea@), datetime_format())),
            ),
    {
        match self.nmea() {
            Some(nmea) => Some(Position::new(nmea)),
            None => None,
        }
    }
}

/// Classification looks at nothing but the six bytes at the offset of the NMEA sentence: two
/// payloads that agree there are both position payloads or both not.
pub proof fn lemma_classification_reads_sentence_bytes(b1: Seq<u8>, b2: Seq<u8>)
    requires
        b1.len() >= PACKET_LEN,
        b2.len() >= PACKET_LEN,
        b1.subrange(NMEA_OFFSET as int, NMEA_OFFSET + 6) == b2.subrange(NMEA_OFFSET as int, NMEA_OFFSET + 6),
    ensures
        is_position_payload(b1) == is_position_payload(b2),
{
    let s1 = b1.subrange(NMEA_OFFSET as int, NMEA_OFFSET + 6);
    let s2 = b2.subrange(NMEA_OFFSET as int, NMEA_OFFSET + 6);
    assert(s1[0] == s2[0] && s1[1] == s2[1] && s1[2] == s2[2] && s1[3] == s2[3] && s1[4] == s2[4] && s1[5] == s2[5]);
}

/// The payload `b` with the start identifier of block `block` replaced by `v`.
pub open spec fn with_start_identifier(b: Seq<u8>, block: int, v: u16) -> Seq<u8> {
    b.update(block_offset(block), (v % 256) as u8).update(block_offset(block) + 1, (v / 256) as u8)
}

/// Every block of a decodable data payload opens with the start identifier; replacing the start
/// identifier of any one block by another value makes decoding fail with that value.
pub proof fn lemma_start_identifier_checked(b: Seq<u8>, block: int, v: u16)
    requires
        b.len() >= PACKET_LEN,
        !is_position_payload(b),
        is_valid_data_payload(b),
        0 <= block < NUM_DATA_BLOCKS,
        v != START_IDENTIFIER,
    ensures
        forall|k: int| 0 <= k < NUM_DATA_BLOCKS ==> start_ok(b, k),
        !is_position_payload(with_start_identifier(b, block, v)),
        !is_valid_data_payload(with_start_identifier(b, block, v)),
        forall|e: Error| is_data_error(e, with_start_identifier(b, block, v)) <==> e == Error::InvalidStartIdentifier(v),
{
    let c = with_start_identifier(b, block, v);
    assert(c.len() == b.len());
    assert(le_u16(c, block_offset(block)) == v) by {
        assert(c[block_offset(block)] == (v % 256) as u8);
        assert(c[block_offset(block) + 1] == (v / 256) as u8);
    }
    assert(!start_ok(c, block));
    assert forall|k: int| 0 <= k < NUM_DATA_BLOCKS && k != block implies start_ok(c, k) by {
        assert(start_ok(b, k));
        assert(c[block_offset(k)] == b[block_offset(k)]);
        assert(c[block_offset(k) + 1] == b[block_offset(k) + 1]);
    }
    assert forall|e: Error| is_data_error(e, c) <==> e == Error::InvalidStartIdentifier(v) by {
        if e == Error::InvalidStartIdentifier(v) {
            assert(forall|j: int| 0 <= j < block ==> start_ok(c, j));
        }
        if is_data_error(e, c) {
            let k = choose|k: int|
                0 <= k < NUM_DATA_BLOCKS && !start_ok(c, k) && (forall|j: int| 0 <= j < k ==> start_ok(c, j))
                    && e == Error::InvalidStartIdentifier(le_u16(c, block_offset(k)) as u16);
            if k < block {
                assert(start_ok(c, k));
            }
            if k > block {
                assert(start_ok(c, block));
            }
        }
    }
}

/// Distance from azimuth `a` forward to azimuth `b`, in hundredths of a degree, within a
/// full turn.
pub open spec fn forward_gap(a: int, b: int) -> int {
    (b - a) % (FULL_TURN as int)
}

/// For a block that is followed by another, every firing of the block lies, going forward
/// around the circle, no farther from the block's azimuth than the next block's azimuth does.
pub proof fn lemma_interpolation_stays_between_blocks(blocks: Seq<DataBlock>, block: int, sequence: int, channel: int)
    requires
        blocks.len() == NUM_DATA_BLOCKS,
        forall|k: int| 0 <= k < NUM_DATA_BLOCKS ==> (#[trigger] blocks[k]).azimuth < FULL_TURN,
        0 <= block < NUM_DATA_BLOCKS - 1,
        0 <= sequence < 2,
        0 <= channel < NUM_LASERS,
    ensures
        forward_gap(blocks[block].azimuth as int, predicted_azimuth(blocks, block, sequence, channel))
            <= forward_gap(blocks[block].azimuth as int, blocks[block + 1].azimuth as int),
{
    let base = blocks[block].azimuth as int;
    let next = blocks[block + 1].azimuth as int;
    let next2 = if next < base { next + 36000 } else { next };
    let delta = next2 - base;
    let slots = 24 * sequence + channel;
    assert(0 <= delta < 36000);
    assert(0 <= delta * slots <= delta * 39) by (nonlinear_arith)
        requires
            0 <= delta,
            0 <= slots <= 39,
    ;
    let n = 48 * base + delta * slots;
    let x = 2 * (delta * slots) + 48;
    let o = x / 96;
    vstd::arithmetic::div_mod::lemma_fundamental_div_mod(x, 96);
    vstd::arithmetic::div_mod::lemma_mod_pos_bound(x, 96);
    vstd::arithmetic::div_mod::lemma_fundamental_div_mod_converse(2 * n + 48, 96, base + o, x % 96);
    assert(round_div(n, 48) == base + o);
    assert(0 <= o <= delta);
    if next < base {
        vstd::arithmetic::div_mod::lemma_fundamental_div_mod_converse(next - base, 36000, -1, delta);
    } else {
        vstd::arithmetic::div_mod::lemma_fundamental_div_mod_converse(next - base, 36000, 0, delta);
    }
    let predicted = predicted_azimuth(blocks, block, sequence, channel);
    if predicted == base + o {
        vstd::arithmetic::div_mod::lemma_fundamental_div_mod_converse(o, 36000, 0, o);
    } else {
        vstd::arithmetic::div_mod::lemma_fundamental_div_mod_converse(o - 36000, 36000, -1, o);
    }
}

/// The two bytes of `v`, least significant first.
pub open spec fn le_bytes(v: int) -> Seq<u8> {
    seq![(v % 256) as u8, (v / 256) as u8]
}

/// The wire bytes of a record: the distance, then the reflectivity.
pub open spec fn encode_record(r: DataRecord) -> Seq<u8> {
    le_bytes(r.return_distance as int).push(r.calibrated_reflectivity)
}

/// The wire bytes of a block: the start identifier, the azimuth, then the records of the
/// first sequence and of the second, each in channel order.
pub open spec fn encode_block(d: DataBlock) -> Seq<u8> {
    le_bytes(START_IDENTIFIER as int) + le_bytes(d.azimuth as int) + Seq::new(
        96,
        |j: int| encode_record(d.data_records@[j / 48]@[(j % 48) / 3])[j % 3],
    )
}

/// The wire bytes of blocks laid one after the other.
pub open spec fn encode_blocks(blocks: Seq<DataBlock>) -> Seq<u8> {
    Seq::new(blocks.len() * (DATA_BLOCK_LEN as nat), |i: int| encode_block(blocks[i / 100])[i % 100])
}

/// The two bytes of a little-endian 16-bit integer are its low and high byte.
proof fn lemma_le_u16_bytes(b: Seq<u8>, at: int)
    requires
        0 <= at,
        at + 1 < b.len(),
    ensures
        b[at] == le_u16(b, at) % 256,
        b[at + 1] == le_u16(b, at) / 256,
        0 <= le_u16(b, at) <= 65535,
{
    vstd::arithmetic::div_mod::lemma_fundamental_div_mod_converse(le_u16(b, at), 256, b[at + 1] as int, b[at] as int);
}

/// Encoding the blocks of a decoded data packet gives back the bytes they were decoded from.
pub proof fn lemma_blocks_reencode(p: Packet, b: Seq<u8>)
    requires
        b.len() >= PACKET_LEN,
        is_valid_data_payload(b),
        is_wire_data_packet(p, b),
    ensures
        p matches Packet::Data { data_blocks, .. } && encode_blocks(data_blocks@) == b.subrange(
            PACKET_HEADER_LEN as int,
            data_timestamp_offset(),
        ),
{
    if let Packet::Data { data_blocks, .. } = p {
        let e = encode_blocks(data_blocks@);
        let w = b.subrange(PACKET_HEADER_LEN as int, data_timestamp_offset());
        assert forall|i: int| 0 <= i < 1200 implies #[trigger] e[i] == w[i] by {
            let k = i / 100;
            let j = i % 100;
            vstd::arithmetic::div_mod::lemma_fundamental_div_mod(i, 100);
            vstd::arithmetic::div_mod::lemma_mod_pos_bound(i, 100);
            assert(0 <= k < 12);
            let d = data_blocks@[k];
            assert(is_wire_block(d, b, k));
            let off = block_offset(k);
            assert(w[i] == b[off + j]);
            assert(start_ok(b, k));
            lemma_le_u16_bytes(b, off);
            lemma_le_u16_bytes(b, off + 2);
            if j >= 4 {
                let q = j - 4;
                let s = q / 48;
                let rest = q % 48;
                let c = rest / 3;
                let part = rest % 3;
                vstd::arithmetic::div_mod::lemma_fundamental_div_mod(q, 48);
                vstd::arithmetic::div_mod::lemma_mod_pos_bound(q, 48);
                vstd::arithmetic::div_mod::lemma_fundamental_div_mod(rest, 3);
                vstd::arithmetic::div_mod::lemma_mod_pos_bound(rest, 3);
                vstd::arithmetic::div_mod::lemma_fundamental_div_mod_converse(q, 3, 16 * s + c, part);
                assert(0 <= s < 2 && 0 <= c < 16);
                let ro = record_offset(k, s, c);
                assert(ro + part == off + j);
                assert(d.data_records@[s]@[c] == wire_record(b, k, s, c));
                lemma_le_u16_bytes(b, ro);
                assert(encode_block(d)[j] == encode_record(d.data_records@[s]@[c])[part]);
            }
        }
        assert(e =~= w);
    }
}

} // verus!
