use velodyne::error::NmeaProblem;
use velodyne::nmea::{DateTime, Decimal, Degrees, Knots, Position};
use velodyne::Error;

fn to_f32(d: Decimal) -> f32 {
    d.mantissa as f32 / 10f32.powi(d.scale as i32)
}

fn to_f64(d: Decimal) -> f64 {
    d.mantissa as f64 / 10f64.powi(d.scale as i32)
}

/// `body` between `$` and `*`, framed and followed by its checksum.
fn sentence(body: &str) -> String {
    let checksum = body.bytes().fold(0u8, |acc, b| acc ^ b);
    format!("${}*{:02x}", body, checksum)
}

#[test]
fn nmea_position() {
    let nmea = "$GPRMC,214106,A,3707.8178,N,12139.2690,W,010.3,188.2,230715,013.8,E,D*05";
    let position = Position::new(nmea).unwrap();
    println!("{:?}", position);
    assert_eq!(
        DateTime { year: 2015, month: 7, day: 23, hour: 21, minute: 41, second: 6 },
        position.datetime
    );
    assert!(position.valid);
    assert!((37.1303 - to_f64(position.latitude)).abs() < 1e-4);
    assert!((-121.6545 - to_f64(position.longitude)).abs() < 1e-4);
    assert_eq!(10.3, to_f32(position.speed.0));
    assert_eq!(188.2, to_f32(position.true_course.0));
    assert_eq!(13.8, to_f32(position.variation));
}

#[test]
fn bad_checksum() {
    let nmea = "$GPRMC,214106,A,3707.8178,N,12139.2690,W,010.3,188.2,230715,013.9,E,D*05";
    assert!(Position::new(nmea).is_err());
}

#[test]
fn too_few_words() {
    let nmea = "$GPRMC,214106,A,3707.8178,N,12139.2690,W,010.3,188.2,230715,013.9,E";
    assert!(Position::new(nmea).is_err());
}

#[test]
fn not_gprmc() {
    let nmea = "$GPRMZ,214106,A,3707.8178,N,12139.2690,W,010.3,188.2,230715,013.9,E,D*05";
    assert!(Position::new(nmea).is_err());
}

#[test]
fn malformed_sentences_name_their_problem() {
    let bad_checksum = "$GPRMC,214106,A,3707.8178,N,12139.2690,W,010.3,188.2,230715,013.9,E,D*05";
    assert!(matches!(Position::new(bad_checksum), Err(Error::NmeaMalformed(NmeaProblem::Checksum))));
    let too_few = "$GPRMC,214106,A,3707.8178,N,12139.2690,W,010.3,188.2,230715,013.9,E";
    assert!(matches!(Position::new(too_few), Err(Error::NmeaMalformed(NmeaProblem::FieldCount))));
    let not_gprmc = "$GPRMZ,214106,A,3707.8178,N,12139.2690,W,010.3,188.2,230715,013.9,E,D*05";
    assert!(matches!(Position::new(not_gprmc), Err(Error::NmeaMalformed(NmeaProblem::NotGprmc))));
    let no_star = "$GPRMC,214106,A,3707.8178,N,12139.2690,W,010.3,188.2,230715,013.8,E,D05";
    assert!(matches!(Position::new(no_star), Err(Error::NmeaMalformed(NmeaProblem::NoStar))));
    let not_ascii = "$GPRMC,214106,A,3707.8178,N,12139.2690,W,010.3,188.2,230715,013.8,E,\u{e9}*05";
    assert!(matches!(Position::new(not_ascii), Err(Error::NmeaMalformed(NmeaProblem::NotAscii))));
}

#[test]
fn checksum_is_lowercase_hex_after_last_star() {
    let good = sentence("GPRMC,000000,V,0000.0000,N,00000.0000,E,0.0,0.0,010100,0.0,E,N");
    assert!(Position::new(&good).is_ok());
    let body = ["A", "B", "C", "D", "E", "F", "G", "H", "Q", "Z"]
        .iter()
        .map(|m| format!("GPRMC,000000,V,0000.0000,N,00000.0000,E,0.0,0.0,010100,0.0,E,{}", m))
        .find(|b| {
            let c = b.bytes().fold(0u8, |acc, x| acc ^ x);
            format!("{:02x}", c) != format!("{:02X}", c)
        })
        .unwrap();
    let checksum = body.bytes().fold(0u8, |acc, b| acc ^ b);
    let upper = format!("${}*{:02X}", body, checksum);
    assert!(matches!(Position::new(&upper), Err(Error::NmeaMalformed(NmeaProblem::Checksum))));
    let lower = format!("${}*{:02x}", body, checksum);
    assert!(Position::new(&lower).is_ok());
    let trailing = format!("{}\r\n", lower);
    assert!(matches!(Position::new(&trailing), Err(Error::NmeaMalformed(NmeaProblem::Checksum))));
}

#[test]
fn field_errors_name_the_field() {
    let s = sentence("GPRMC,214106,A,37x7.8178,N,12139.2690,W,010.3,188.2,230715,013.8,E,D");
    match Position::new(&s) {
        Err(Error::NmeaFieldParse(3, raw)) => assert_eq!("37x7.8178", raw),
        other => panic!("{:?}", other),
    }
    let s = sentence("GPRMC,214106,A,3707.8178,N,,W,010.3,188.2,230715,013.8,E,D");
    assert!(matches!(Position::new(&s), Err(Error::NmeaFieldParse(5, _))));
    let s = sentence("GPRMC,214106,A,3707.8178,N,12139.2690,W,010.3,188.2,230715,1.3.8,E,D");
    assert!(matches!(Position::new(&s), Err(Error::NmeaFieldParse(10, _))));
    let s = sentence("GPRMC,214106,A,3707.8178,N,12139.2690,W,010.3,188.2,320715,013.8,E,D");
    match Position::new(&s) {
        Err(Error::NmeaFieldParse(9, raw)) => assert_eq!("320715", raw),
        other => panic!("{:?}", other),
    }
    let s = sentence("GPRMC,214106,A,3707.8178,N,12139.2690,W,fast,188.2,230715,013.8,E,D");
    assert!(matches!(Position::new(&s), Err(Error::NmeaFieldParse(7, _))));
    let s = sentence("GPRMC,214106,A,3707.8178,N,12139.2690,W,010.3,-1,230715,013.8,E,D");
    assert!(matches!(Position::new(&s), Err(Error::NmeaFieldParse(8, _))));
}

#[test]
fn signs_follow_hemispheres() {
    let s = sentence("GPRMC,235959,V,4530.0000,S,00030.0000,E,1,2.5,311299,7,W,A");
    let p = Position::new(&s).unwrap();
    assert!(!p.valid);
    assert_eq!(Decimal { mantissa: -45_500_000_000, scale: 9 }, p.latitude);
    assert_eq!(Decimal { mantissa: 500_000_000, scale: 9 }, p.longitude);
    assert_eq!(Knots(Decimal { mantissa: 1, scale: 0 }), p.speed);
    assert_eq!(Degrees(Decimal { mantissa: 25, scale: 1 }), p.true_course);
    assert_eq!(Decimal { mantissa: -7, scale: 0 }, p.variation);
    assert_eq!(DateTime { year: 1999, month: 12, day: 31, hour: 23, minute: 59, second: 59 }, p.datetime);
}

#[test]
fn coordinates_truncate_to_nine_places() {
    let p = Position::new("$GPRMC,214106,A,3707.8178,N,12139.2690,W,010.3,188.2,230715,013.8,E,D*05").unwrap();
    // 37 degrees and 7.8178 minutes; 121 degrees and 39.2690 minutes.
    assert_eq!(Decimal { mantissa: 37_130_296_666, scale: 9 }, p.latitude);
    assert_eq!(Decimal { mantissa: -121_654_483_333, scale: 9 }, p.longitude);
}

#[test]
fn from_sentence_takes_the_datetime_as_given() {
    let nmea = "$GPRMC,214106,A,3707.8178,N,12139.2690,W,010.3,188.2,230715,013.8,E,D*05";
    let when = DateTime { year: 2001, month: 2, day: 3, hour: 4, minute: 5, second: 6 };
    assert_eq!(when, Position::from_sentence(nmea, Some(when)).unwrap().datetime);
    match Position::from_sentence(nmea, None) {
        Err(Error::NmeaFieldParse(9, raw)) => assert_eq!("230715", raw),
        other => panic!("{:?}", other),
    }
}
