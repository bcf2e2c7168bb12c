use velodyne::source::Source;
use velodyne::Error;

fn put_u16(bytes: &mut [u8], at: usize, v: u16) {
    bytes[at] = (v % 256) as u8;
    bytes[at + 1] = (v / 256) as u8;
}

fn data_packet_bytes(mode: u8, first_distance: u16) -> Vec<u8> {
    let mut bytes = vec![0u8; 1248];
    for block in 0..12 {
        put_u16(&mut bytes, 42 + 100 * block, 0xeeff);
        put_u16(&mut bytes, 42 + 100 * block + 2, (100 + 40 * block) as u16);
    }
    put_u16(&mut bytes, 42 + 4, first_distance);
    bytes[1246] = mode;
    bytes[1247] = 0x22;
    bytes
}

fn position_packet_bytes() -> Vec<u8> {
    let mut bytes = vec![0u8; 1248];
    bytes[248..254].copy_from_slice(b"$GPRMC");
    bytes
}

#[test]
fn points_come_packet_after_packet() {
    let mut source = Source::new();
    source.push(&data_packet_bytes(0x37, 11)).unwrap();
    source.push(&position_packet_bytes()).unwrap();
    source.push(&data_packet_bytes(0x38, 22)).unwrap();
    let mut points = source.points();
    let first = points.next().unwrap();
    assert_eq!(11, first.return_distance);
    let mut count = 1;
    let mut last_first = None;
    while let Some(p) = points.next() {
        if count == 384 {
            last_first = Some(p);
        }
        count += 1;
    }
    assert_eq!(768, count);
    assert_eq!(22, last_first.unwrap().return_distance);
    assert!(points.next().is_none());
    assert!(source.points().next().is_none());
}

#[test]
fn refused_packets_leave_source_unchanged() {
    let mut source = Source::new();
    assert!(matches!(source.push(&[0u8; 10]), Err(Error::TooShort)));
    assert!(matches!(source.push(&data_packet_bytes(0x39, 1)), Err(Error::InvalidReturnMode(0x39))));
    assert!(matches!(source.push(&data_packet_bytes(0x40, 1)), Err(Error::InvalidReturnMode(0x40))));
    assert!(source.points().next().is_none());
}
