use velodyne::point::{Azimuth, ReturnType, Time};
use velodyne::timing::Duration;
use velodyne::vlp_16::{vertical_angle, AzimuthModel, Packet, ReturnMode, Sensor};
use velodyne::Error;

const SENTENCE: &str = "$GPRMC,214106,A,3707.8178,N,12139.2690,W,010.3,188.2,230715,013.8,E,D*05";

const AZIMUTHS: [u16; 12] = [
    22970, 23008, 23048, 23088, 23128, 23168, 23208, 23248, 23288, 23328, 23366, 23408,
];

fn put_u16(bytes: &mut [u8], at: usize, v: u16) {
    bytes[at] = (v % 256) as u8;
    bytes[at + 1] = (v / 256) as u8;
}

fn put_u32(bytes: &mut [u8], at: usize, v: u32) {
    put_u16(bytes, at, (v % 65536) as u16);
    put_u16(bytes, at + 2, (v / 65536) as u16);
}

fn record_at(block: usize, sequence: usize, channel: usize) -> usize {
    42 + 100 * block + 4 + 3 * (16 * sequence + channel)
}

/// A VLP-16 data packet in strongest-return mode.
fn data_packet_bytes() -> Vec<u8> {
    let mut bytes = vec![0u8; 1248];
    for block in 0..12 {
        put_u16(&mut bytes, 42 + 100 * block, 0xeeff);
        put_u16(&mut bytes, 42 + 100 * block + 2, AZIMUTHS[block]);
        for sequence in 0..2 {
            for channel in 0..16 {
                let at = record_at(block, sequence, channel);
                put_u16(&mut bytes, at, (1000 + 37 * block + 11 * sequence + channel) as u16);
                bytes[at + 2] = (block + channel) as u8;
            }
        }
    }
    let at = record_at(0, 0, 0);
    put_u16(&mut bytes, at, 3262);
    bytes[at + 2] = 4;
    let at = record_at(11, 1, 12);
    put_u16(&mut bytes, at, 25735);
    bytes[at + 2] = 9;
    put_u32(&mut bytes, 1242, 2_467_108_343);
    bytes[1246] = 0x37;
    bytes[1247] = 0x22;
    bytes
}

/// A VLP-16 position packet carrying `sentence`.
fn position_packet_bytes(sentence: &[u8], timestamp: u32) -> Vec<u8> {
    let mut bytes = vec![0u8; 1248];
    put_u32(&mut bytes, 240, timestamp);
    bytes[248..248 + sentence.len()].copy_from_slice(sentence);
    bytes
}

fn vlp_16_position_packet() -> Vec<u8> {
    position_packet_bytes(SENTENCE.as_bytes(), 2_467_110_195)
}

#[test]
fn data_packet() {
    let packet = Packet::new(&data_packet_bytes()).unwrap();
    assert!(packet.is_data());
}

#[test]
fn position_packet() {
    let packet = Packet::new(&vlp_16_position_packet()).unwrap();
    assert!(packet.is_position());
}

#[test]
fn azimuth() {
    let data_blocks = Packet::new(&data_packet_bytes()).unwrap().data_blocks().unwrap();
    assert_eq!(229.70, data_blocks[0].azimuth as f32 / 100.);
    assert_eq!(234.08, data_blocks[11].azimuth as f32 / 100.);
}

#[test]
fn data_record() {
    let data_blocks = Packet::new(&data_packet_bytes()).unwrap().data_blocks().unwrap();
    let data_record = data_blocks[0].data_records[0][0];
    assert_eq!(6.524, data_record.return_distance as f32 * 0.002);
    assert_eq!(4, data_record.calibrated_reflectivity);
    let data_record = data_blocks[11].data_records[1][12];
    assert_eq!(51.470, data_record.return_distance as f32 * 0.002);
    assert_eq!(9, data_record.calibrated_reflectivity);
}

#[test]
fn timestamp() {
    let packet = Packet::new(&data_packet_bytes()).unwrap();
    assert_eq!(Duration::microseconds(2_467_108_343), packet.timestamp());
    let packet = Packet::new(&vlp_16_position_packet()).unwrap();
    assert_eq!(Duration::microseconds(2_467_110_195), packet.timestamp());
}

#[test]
fn factory_byte() {
    let packet = Packet::new(&data_packet_bytes()).unwrap();
    assert_eq!(ReturnMode::StrongestReturn, packet.return_mode().unwrap());
    assert_eq!(Sensor::VLP_16, packet.sensor().unwrap());
}

#[test]
fn azimuth_model() {
    let packet = Packet::new(&data_packet_bytes()).unwrap();
    let azimuth_model = AzimuthModel::new(packet.data_blocks().unwrap());
    assert_eq!(229.70, azimuth_model.predict(0, 0, 0) as f32 / 100.);
    assert_eq!(229.71, azimuth_model.predict(0, 0, 1) as f32 / 100.);
    assert_eq!(229.89, azimuth_model.predict(0, 1, 0) as f32 / 100.);
    assert_eq!(234.00, azimuth_model.predict(10, 1, 15) as f32 / 100.);
    assert_eq!(234.08, azimuth_model.predict(11, 0, 0) as f32 / 100.);
    assert_eq!(234.09, azimuth_model.predict(11, 0, 1) as f32 / 100.);
}

#[test]
fn nmea() {
    let packet = Packet::new(&vlp_16_position_packet()).unwrap();
    assert_eq!(
        "$GPRMC,214106,A,3707.8178,N,12139.2690,W,010.3,188.2,230715,013.8,E,D*05",
        packet.nmea().unwrap()
    );
}

#[test]
fn first_data_block() {
    let data_block = Packet::new(&data_packet_bytes()).unwrap().data_blocks().unwrap()[0];
    assert_eq!(229.7, data_block.azimuth as f32 / 100.);
    let data_record = data_block.data_records[0][0];
    assert_eq!(6.524, data_record.return_distance as f32 * 0.002);
    assert_eq!(4, data_record.calibrated_reflectivity);
}

#[test]
fn data_metadata() {
    let packet = Packet::new(&data_packet_bytes()).unwrap();
    assert_eq!(Duration::microseconds(2467108343), packet.timestamp());
    assert_eq!(ReturnMode::StrongestReturn, packet.return_mode().unwrap());
    assert_eq!(Sensor::VLP_16, packet.sensor().unwrap());
}

#[test]
fn packet_position() {
    let packet = Packet::new(&vlp_16_position_packet()).unwrap();
    assert_eq!(Duration::microseconds(2467110195), packet.timestamp());
    assert_eq!(
        "$GPRMC,214106,A,3707.8178,N,12139.2690,W,010.3,188.2,230715,013.8,E,D*05",
        packet.nmea().unwrap()
    );
}

#[test]
fn too_short_payload_is_refused() {
    let bytes = data_packet_bytes();
    assert!(matches!(Packet::new(&bytes[..1247]), Err(Error::TooShort)));
    assert!(matches!(Packet::new(&[]), Err(Error::TooShort)));
}

#[test]
fn bad_start_identifier_reports_its_value() {
    for block in [0usize, 5, 11] {
        let mut bytes = data_packet_bytes();
        put_u16(&mut bytes, 42 + 100 * block, 0x1234);
        assert!(matches!(Packet::new(&bytes), Err(Error::InvalidStartIdentifier(0x1234))));
    }
    let mut bytes = data_packet_bytes();
    put_u16(&mut bytes, 42 + 100 * 7, 0xeefe);
    put_u16(&mut bytes, 42 + 100 * 9, 0x0001);
    assert!(matches!(Packet::new(&bytes), Err(Error::InvalidStartIdentifier(0xeefe))));
}

#[test]
fn unknown_codes_are_refused() {
    let mut bytes = data_packet_bytes();
    bytes[1246] = 0x36;
    assert!(matches!(Packet::new(&bytes), Err(Error::InvalidReturnMode(0x36))));
    let mut bytes = data_packet_bytes();
    bytes[1247] = 0x23;
    assert!(matches!(Packet::new(&bytes), Err(Error::InvalidSensor(0x23))));
    let mut bytes = data_packet_bytes();
    bytes[1246] = 0x00;
    bytes[1247] = 0x00;
    assert!(matches!(Packet::new(&bytes), Err(Error::InvalidReturnMode(0x00))));
}

#[test]
fn other_codes_decode() {
    let mut bytes = data_packet_bytes();
    bytes[1246] = 0x38;
    bytes[1247] = 0x21;
    let packet = Packet::new(&bytes).unwrap();
    assert_eq!(Some(ReturnMode::LastReturn), packet.return_mode());
    assert_eq!(Some(Sensor::HDL_32E), packet.sensor());
    bytes[1246] = 0x39;
    assert_eq!(Some(ReturnMode::DualReturn), Packet::new(&bytes).unwrap().return_mode());
}

#[test]
fn every_record_is_decoded() {
    let bytes = data_packet_bytes();
    let blocks = Packet::new(&bytes).unwrap().data_blocks().unwrap();
    for block in 0..12 {
        assert_eq!(AZIMUTHS[block], blocks[block].azimuth);
        for sequence in 0..2 {
            for channel in 0..16 {
                let at = record_at(block, sequence, channel);
                let record = blocks[block].data_records[sequence][channel];
                assert_eq!(bytes[at] as u16 + 256 * bytes[at + 1] as u16, record.return_distance);
                assert_eq!(bytes[at + 2], record.calibrated_reflectivity);
            }
        }
    }
}

#[test]
fn classification_reads_only_the_sentence_offset() {
    let mut bytes = data_packet_bytes();
    bytes[248..254].copy_from_slice(b"$GPRMC");
    let packet = Packet::new(&bytes).unwrap();
    assert!(packet.is_position());
    let mut other = vlp_16_position_packet();
    other[0] = 0xaa;
    other[1000] = 0x55;
    assert!(Packet::new(&other).unwrap().is_position());
    other[253] = b'Z';
    assert!(matches!(Packet::new(&other), Err(Error::InvalidStartIdentifier(0))));
}

#[test]
fn sentence_stops_at_first_nul() {
    let bytes = position_packet_bytes(b"$GPRMC,1,2", 7);
    let packet = Packet::new(&bytes).unwrap();
    assert_eq!(Some("$GPRMC,1,2"), packet.nmea());
    assert_eq!(Duration::microseconds(7), packet.timestamp());
    assert!(packet.data_blocks().is_none());
    assert!(packet.return_mode().is_none());
    assert!(packet.sensor().is_none());
    assert!(packet.points().is_none());
}

#[test]
fn invalid_utf8_in_sentence_is_replaced() {
    let bytes = position_packet_bytes(b"$GPRMC,\xff,x", 0);
    let packet = Packet::new(&bytes).unwrap();
    assert_eq!(Some("$GPRMC,\u{fffd},x"), packet.nmea());
    assert!(matches!(packet.position(), Some(Err(Error::NmeaMalformed(_)))));
}

#[test]
fn data_packet_has_no_sentence() {
    let packet = Packet::new(&data_packet_bytes()).unwrap();
    assert!(packet.nmea().is_none());
    assert!(packet.position().is_none());
}

#[test]
fn position_packet_yields_position() {
    let packet = Packet::new(&vlp_16_position_packet()).unwrap();
    let position = packet.position().unwrap().unwrap();
    assert!(position.valid);
    assert_eq!(2015, position.datetime.year);
}

#[test]
fn vertical_angles_follow_firing_order() {
    let expected = [-15, 1, -13, 3, -11, 5, -9, 7, -7, 9, -5, 11, -3, 13, -1, 15];
    for channel in 0..16 {
        assert_eq!(expected[channel], vertical_angle(channel));
    }
}

#[test]
fn interpolated_azimuths_lie_between_blocks() {
    let packet = Packet::new(&data_packet_bytes()).unwrap();
    let model = AzimuthModel::new(packet.data_blocks().unwrap());
    for block in 0..11 {
        let gap = AZIMUTHS[block + 1] as i32 - AZIMUTHS[block] as i32;
        for sequence in 0..2 {
            for channel in 0..16 {
                let step = model.predict(block, sequence, channel) - AZIMUTHS[block] as i32;
                assert!(0 <= step && step <= gap);
            }
        }
    }
}

#[test]
fn azimuth_wraps_past_full_turn() {
    let mut bytes = data_packet_bytes();
    put_u16(&mut bytes, 42 + 2, 35990);
    put_u16(&mut bytes, 42 + 100 + 2, 30);
    let model = AzimuthModel::new(Packet::new(&bytes).unwrap().data_blocks().unwrap());
    // 40 hundredths per block: half of it after one sequence.
    assert_eq!(10, model.predict(0, 1, 0));
    assert_eq!(35990, model.predict(0, 0, 0));
    assert_eq!(35991, model.predict(0, 0, 1));
}

#[test]
fn points_follow_firing_order() {
    let packet = Packet::new(&data_packet_bytes()).unwrap();
    let points = packet.points().unwrap();
    assert_eq!(384, points.len());
    let first = points[0];
    assert_eq!(3262, first.return_distance);
    assert_eq!(4, first.reflectivity);
    assert_eq!(0, first.channel);
    assert_eq!(-15, first.vertical_angle);
    assert_eq!(Azimuth::Measured(22970), first.azimuth);
    assert_eq!(ReturnType::Strongest, first.return_type);
    assert_eq!(Time::Offset(Duration::nanoseconds(2_467_108_343_000)), first.time);
    let second = points[1];
    assert_eq!(1, second.channel);
    assert_eq!(1, second.vertical_angle);
    assert_eq!(Azimuth::Interpolated(22971), second.azimuth);
    assert_eq!(Time::Offset(Duration::nanoseconds(2_467_108_343_000 + 2_304)), second.time);
    let last_block_first = points[11 * 32];
    assert_eq!(Azimuth::Extrapolated(23408), last_block_first.azimuth);
    let last = points[383];
    assert_eq!(15, last.channel);
    assert_eq!(
        Time::Offset(Duration::nanoseconds(2_467_108_343_000 + 23 * 55_296 + 15 * 2_304)),
        last.time
    );
    let s2 = points[11 * 32 + 16 + 12];
    assert_eq!(25735, s2.return_distance);
    assert_eq!(9, s2.reflectivity);
}

#[test]
fn last_return_mode_tags_points_last() {
    let mut bytes = data_packet_bytes();
    bytes[1246] = 0x38;
    let points = Packet::new(&bytes).unwrap().points().unwrap();
    assert!(points.iter().all(|p| p.return_type == ReturnType::Last));
}
