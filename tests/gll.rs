use nmea_gll::{
    parse_coordinate, parse_gll, parse_time, Coordinate, GLLDataStatus, GllData, GllField,
    NmeaError, NmeaSentence, PosSystemIndicator, TimeOfDay,
};

fn degrees(c: &Coordinate) -> f64 {
    let mut unit = 1.0f64;
    for _ in 0..c.minutes_scale {
        unit *= 10.0;
    }
    let v = c.degrees as f64 + (c.minutes as f64 / unit) / 60.0;
    if c.negative {
        -v
    } else {
        v
    }
}

fn assert_close(a: f64, b: f64) {
    assert!((a - b).abs() <= 1e-12 * b.abs().max(1.0), "{} != {}", a, b);
}

fn gll(data: &[u8]) -> Result<GllData, NmeaError> {
    parse_gll(NmeaSentence { message_id: b"GLL", data, checksum: 0 })
}

#[test]
fn test_parse_gpgll() {
    let s = NmeaSentence {
        message_id: b"GLL",
        data: b"5107.0013414,N,11402.3279144,W,205412.00,A,A",
        checksum: 0x73,
    };
    assert_eq!(s.checksum, 0x73);

    let gll_data = parse_gll(s).unwrap();
    assert_close(degrees(&gll_data.latitude), 51.0 + (7.0013414 / 60.0));
    assert_close(degrees(&gll_data.longitude), -(114.0 + (2.3279144 / 60.0)));
    assert_eq!(
        gll_data.fix_time,
        TimeOfDay { hour: 20, minute: 54, second: 12, millisecond: 000 }
    );
    assert_eq!(gll_data.data_state, GLLDataStatus::Valid);
    assert_eq!(gll_data.mode, Some(PosSystemIndicator::Autonomous));
}

#[test]
fn test_parse_void_gngll() {
    let s = NmeaSentence {
        message_id: b"GLL",
        data: b"5107.0014143,N,11402.3278489,W,205122.00,V,E",
        checksum: 0x7D,
    };
    assert_eq!(s.checksum, 0x7D);

    let gll_data = parse_gll(s).unwrap();
    assert_close(degrees(&gll_data.latitude), 51.0 + (7.0014143 / 60.0));
    assert_close(degrees(&gll_data.longitude), -(114.0 + (2.3278489 / 60.0)));
    assert_eq!(
        gll_data.fix_time,
        TimeOfDay { hour: 20, minute: 51, second: 22, millisecond: 000 }
    );
    assert_eq!(gll_data.data_state, GLLDataStatus::Invalid);
    assert_eq!(gll_data.mode, Some(PosSystemIndicator::EstimatedMode));
}

#[test]
fn coordinates_are_kept_exactly() {
    let r = gll(b"5107.0013414,N,11402.3279144,W,205412.00,A,A").unwrap();
    assert_eq!(
        r.latitude,
        Coordinate { negative: false, degrees: 51, minutes: 70013414, minutes_scale: 7 }
    );
    assert_eq!(
        r.longitude,
        Coordinate { negative: true, degrees: 114, minutes: 23279144, minutes_scale: 7 }
    );
}

#[test]
fn southern_and_eastern_hemispheres() {
    let r = gll(b"3352.5,S,01812.25,E,101010,A,D").unwrap();
    assert!(r.latitude.negative);
    assert!(!r.longitude.negative);
    assert_close(degrees(&r.latitude), -(33.0 + 52.5 / 60.0));
    assert_close(degrees(&r.longitude), 18.0 + 12.25 / 60.0);
    assert_eq!(r.mode, Some(PosSystemIndicator::Differential));
}

#[test]
fn north_and_east_are_not_negative() {
    let r = gll(b"0000.0,N,00000.0,E,000000,A,A").unwrap();
    assert!(degrees(&r.latitude) >= 0.0);
    assert!(degrees(&r.longitude) >= 0.0);
    let r = gll(b"4500,N,09030,E,000000,A,A").unwrap();
    assert_eq!(r.latitude.minutes_scale, 0);
    assert_close(degrees(&r.latitude), 45.0);
    assert_close(degrees(&r.longitude), 90.5);
}

#[test]
fn mode_manual_input() {
    let r = gll(b"5107.0,N,11402.3,W,205412.00,V,M").unwrap();
    assert_eq!(r.mode, Some(PosSystemIndicator::ManualInput));
    assert_eq!(r.data_state, GLLDataStatus::Invalid);
}

#[test]
fn mode_omitted_is_absent() {
    let r = gll(b"5107.0013414,N,11402.3279144,W,205412.00,A,").unwrap();
    assert_eq!(r.mode, None);
    assert_eq!(r.data_state, GLLDataStatus::Valid);
}

#[test]
fn mode_not_valid_letter_is_absent() {
    let r = gll(b"5107.0013414,N,11402.3279144,W,205412.00,V,N").unwrap();
    assert_eq!(r.mode, None);
    let r = gll(b"5107.0013414,N,11402.3279144,W,205412.00,V,Z").unwrap();
    assert_eq!(r.mode, None);
}

#[test]
fn status_outside_alphabet_fails() {
    let r = gll(b"5107.0013414,N,11402.3279144,W,205412.00,X,A");
    assert_eq!(r, Err(NmeaError::ParsingError { field: GllField::DataStatus, position: 41 }));
}

#[test]
fn status_missing_fails() {
    let r = gll(b"5107.0013414,N,11402.3279144,W,205412.00,");
    assert_eq!(r, Err(NmeaError::ParsingError { field: GllField::DataStatus, position: 41 }));
}

#[test]
fn separator_after_status_is_required() {
    let r = gll(b"5107.0013414,N,11402.3279144,W,205412.00,A");
    assert_eq!(r, Err(NmeaError::ParsingError { field: GllField::Separator, position: 42 }));
}

#[test]
fn wrong_identifier_fails_before_payload() {
    let s = NmeaSentence {
        message_id: b"GLX",
        data: b"5107.0013414,N,11402.3279144,W,205412.00,A,A",
        checksum: 0,
    };
    assert_eq!(
        parse_gll(s),
        Err(NmeaError::WrongSentenceHeader { expected: b"GLL".to_vec(), found: b"GLX".to_vec() })
    );
    let s = NmeaSentence { message_id: b"RMC", data: b"garbage", checksum: 0 };
    assert_eq!(
        parse_gll(s),
        Err(NmeaError::WrongSentenceHeader { expected: b"GLL".to_vec(), found: b"RMC".to_vec() })
    );
}

#[test]
fn malformed_position_fails() {
    let r = gll(b"51A7.0013414,N,11402.3279144,W,205412.00,A,A");
    assert_eq!(r, Err(NmeaError::ParsingError { field: GllField::Position, position: 0 }));
    let r = gll(b"5107.0013414,E,11402.3279144,W,205412.00,A,A");
    assert_eq!(r, Err(NmeaError::ParsingError { field: GllField::Position, position: 0 }));
    let r = gll(b"5107.0013414,N,11402.3279144,N,205412.00,A,A");
    assert_eq!(r, Err(NmeaError::ParsingError { field: GllField::Position, position: 0 }));
    let r = gll(b"");
    assert_eq!(r, Err(NmeaError::ParsingError { field: GllField::Position, position: 0 }));
}

#[test]
fn overlong_minutes_fail() {
    let r = gll(b"5107.0013414123,N,11402.3279144,W,205412.00,A,A");
    assert_eq!(r, Err(NmeaError::ParsingError { field: GllField::Position, position: 0 }));
}

#[test]
fn missing_separator_before_time_fails() {
    let r = gll(b"5107.0013414,N,11402.3279144,W205412.00,A,A");
    assert_eq!(r, Err(NmeaError::ParsingError { field: GllField::Separator, position: 30 }));
}

#[test]
fn out_of_range_time_fails() {
    let r = gll(b"5107.0013414,N,11402.3279144,W,255412.00,A,A");
    assert_eq!(r, Err(NmeaError::ParsingError { field: GllField::FixTime, position: 31 }));
    let r = gll(b"5107.0013414,N,11402.3279144,W,240000,A,A");
    assert_eq!(r, Err(NmeaError::ParsingError { field: GllField::FixTime, position: 31 }));
    let r = gll(b"5107.0013414,N,11402.3279144,W,206012,A,A");
    assert_eq!(r, Err(NmeaError::ParsingError { field: GllField::FixTime, position: 31 }));
    let r = gll(b"5107.0013414,N,11402.3279144,W,205460,A,A");
    assert_eq!(r, Err(NmeaError::ParsingError { field: GllField::FixTime, position: 31 }));
}

#[test]
fn short_time_fails() {
    let r = gll(b"5107.0013414,N,11402.3279144,W,2054,A,A");
    assert_eq!(r, Err(NmeaError::ParsingError { field: GllField::FixTime, position: 31 }));
}

#[test]
fn time_trailer_is_skipped() {
    let r = gll(b"5107.0013414,N,11402.3279144,W,235959.999xyz,A,A").unwrap();
    assert_eq!(r.fix_time, TimeOfDay { hour: 23, minute: 59, second: 59, millisecond: 999 });
    assert_eq!(r.data_state, GLLDataStatus::Valid);
}

#[test]
fn trailer_without_separator_fails() {
    let r = gll(b"5107.0013414,N,11402.3279144,W,205412.00");
    assert_eq!(r, Err(NmeaError::ParsingError { field: GllField::Separator, position: 40 }));
}

#[test]
fn time_milliseconds() {
    let t = parse_time(b"205412.5", 0).unwrap();
    assert_eq!(t, (TimeOfDay { hour: 20, minute: 54, second: 12, millisecond: 500 }, 8));
    let t = parse_time(b"205412.12345,", 0).unwrap();
    assert_eq!(t, (TimeOfDay { hour: 20, minute: 54, second: 12, millisecond: 123 }, 12));
    let t = parse_time(b"000000.", 0).unwrap();
    assert_eq!(t, (TimeOfDay { hour: 0, minute: 0, second: 0, millisecond: 0 }, 7));
    assert_eq!(parse_time(b"2a5412", 0), None);
}

#[test]
fn coordinate_decoder() {
    let c = parse_coordinate(b"x4807.038,N,", 1, 2, b'N', b'S').unwrap();
    assert_eq!(
        c,
        (Coordinate { negative: false, degrees: 48, minutes: 7038, minutes_scale: 3 }, 11)
    );
    assert_eq!(parse_coordinate(b"4807.038,X", 0, 2, b'N', b'S'), None);
    assert_eq!(parse_coordinate(b"48.5,N", 0, 2, b'N', b'S'), None);
}

#[test]
fn letters_to_indicator() {
    assert_eq!(PosSystemIndicator::from('A'), PosSystemIndicator::Autonomous);
    assert_eq!(PosSystemIndicator::from('D'), PosSystemIndicator::Differential);
    assert_eq!(PosSystemIndicator::from('E'), PosSystemIndicator::EstimatedMode);
    assert_eq!(PosSystemIndicator::from('M'), PosSystemIndicator::ManualInput);
    assert_eq!(PosSystemIndicator::from('N'), PosSystemIndicator::DataNotValid);
    assert_eq!(PosSystemIndicator::from('Q'), PosSystemIndicator::DataNotValid);
}

#[test]
fn letters_to_status() {
    assert_eq!(GLLDataStatus::from('A'), GLLDataStatus::Valid);
    assert_eq!(GLLDataStatus::from('V'), GLLDataStatus::Invalid);
    assert_eq!(GLLDataStatus::from('x'), GLLDataStatus::Invalid);
}
