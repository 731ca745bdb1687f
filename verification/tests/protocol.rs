use pen_plotter::config::{ArgsError, ArgsOutcome, Config, DEFAULT_BAUD};
use pen_plotter::csv_text::{parse_points, IntErrorKind, PointsError};
use pen_plotter::packet::{
    build_segments, crc8, encode_packet, offsets_fit_check, MotionSegment, Packet,
    PACKET_KIND_DRAW, PACKET_KIND_MOVE,
};
use pen_plotter::paths::{
    has_csv_extension, is_trajectory_csv, newest_index, resolve_csv_path, search_dir, CsvSource,
};
use pen_plotter::trajectory::{sort_by_timestamp, Point};

fn p(x: i32, y: i32, t: u128) -> Point {
    Point { x, y, timestamp_ms: t }
}

#[test]
fn crc_is_xor_of_bytes() {
    assert_eq!(crc8(&[]), 0);
    assert_eq!(crc8(&[1, 2, 3]), 0);
    assert_eq!(crc8(&[0xF0, 0x0F, 0x01]), 0xFE);
}

#[test]
fn packet_bytes_little_endian_twos_complement() {
    let bytes = encode_packet(&Packet { kind: 1, steps_x: -2, steps_y: 300, dt_ms: 16 });
    assert_eq!(bytes, [0xAA, 0x55, 0x01, 0xFE, 0xFF, 0x2C, 0x01, 0x10, 0x00, 0x3D]);
}

#[test]
fn packet_extremes() {
    let bytes = encode_packet(&Packet { kind: 0, steps_x: i16::MIN, steps_y: i16::MAX, dt_ms: u16::MAX });
    assert_eq!(bytes, [0xAA, 0x55, 0x00, 0x00, 0x80, 0xFF, 0x7F, 0xFF, 0xFF, 0x00]);
}

#[test]
fn packet_checksum_cancels() {
    for (kind, sx, sy, dt) in [(0u8, 0i16, 0i16, 0u16), (1, -123, 4567, 890), (1, 32767, -32768, 65535)] {
        let bytes = encode_packet(&Packet { kind, steps_x: sx, steps_y: sy, dt_ms: dt });
        assert_eq!(crc8(&bytes[2..10]), 0);
    }
}

#[test]
fn packet_single_byte_error_detected() {
    let bytes = encode_packet(&Packet { kind: 1, steps_x: 17, steps_y: -3, dt_ms: 40 });
    for i in 2..9 {
        let mut bad = bytes;
        bad[i] ^= 0x20;
        assert_ne!(crc8(&bad[2..9]), bad[9]);
    }
}

#[test]
fn segments_from_points() {
    let pts = vec![p(10, 20, 5), p(13, 18, 25), p(13, 18, 100_000), p(0, 0, 50)];
    let segs = build_segments(&pts);
    assert_eq!(
        segs,
        vec![
            MotionSegment { kind: PACKET_KIND_MOVE, dx_px: 10, dy_px: 20, dt_ms: 0 },
            MotionSegment { kind: PACKET_KIND_DRAW, dx_px: 3, dy_px: -2, dt_ms: 20 },
            MotionSegment { kind: PACKET_KIND_DRAW, dx_px: 0, dy_px: 0, dt_ms: 65535 },
            MotionSegment { kind: PACKET_KIND_DRAW, dx_px: -13, dy_px: -18, dt_ms: 0 },
        ]
    );
}

#[test]
fn csv_with_header_crlf_and_blanks() {
    let text = "x,y,timestamp_ms\r\n10,20,300\r\n\r\n  -5 , 7 ,100 \n\u{3000}1,2,200,extra\n";
    let pts = parse_points(text).unwrap();
    assert_eq!(pts, vec![p(-5, 7, 100), p(1, 2, 200), p(10, 20, 300)]);
}

#[test]
fn csv_without_header_or_final_newline() {
    let pts = parse_points("3,4,5\n+6,-7,8").unwrap();
    assert_eq!(pts, vec![p(3, 4, 5), p(6, -7, 8)]);
}

#[test]
fn csv_empty_file() {
    assert_eq!(parse_points("").unwrap(), vec![]);
    assert_eq!(parse_points("x,y,timestamp_ms\n").unwrap(), vec![]);
}

#[test]
fn csv_sort_keeps_ties_in_file_order() {
    let pts = parse_points("1,1,50\n2,2,10\n3,3,50\n4,4,10").unwrap();
    assert_eq!(pts, vec![p(2, 2, 10), p(4, 4, 10), p(1, 1, 50), p(3, 3, 50)]);
}

#[test]
fn csv_missing_fields() {
    assert_eq!(parse_points("1\n"), Err(PointsError::MissingY));
    assert_eq!(parse_points("1,2\n"), Err(PointsError::MissingTimestamp));
}

#[test]
fn csv_bad_integers() {
    let bad = |k| Err(PointsError::BadInteger(k));
    assert_eq!(parse_points("a,2,3"), bad(IntErrorKind::InvalidDigit));
    assert_eq!(parse_points(",2,3"), bad(IntErrorKind::Empty));
    assert_eq!(parse_points("1,2,"), bad(IntErrorKind::Empty));
    assert_eq!(parse_points("-,2,3"), bad(IntErrorKind::InvalidDigit));
    assert_eq!(parse_points("2147483648,2,3"), bad(IntErrorKind::PosOverflow));
    assert_eq!(parse_points("-2147483649,2,3"), bad(IntErrorKind::NegOverflow));
    assert_eq!(parse_points("99999999999x,2,3"), bad(IntErrorKind::PosOverflow));
    assert_eq!(parse_points("1,2,-5"), bad(IntErrorKind::InvalidDigit));
    assert_eq!(parse_points("1 2,2,3"), bad(IntErrorKind::InvalidDigit));
    assert_eq!(parse_points("1,2,340282366920938463463374607431768211456"), bad(IntErrorKind::PosOverflow));
}

#[test]
fn csv_integer_limits() {
    let pts = parse_points("-2147483648,2147483647,340282366920938463463374607431768211455").unwrap();
    assert_eq!(pts, vec![p(i32::MIN, i32::MAX, u128::MAX)]);
}

#[test]
fn csv_header_only_on_first_line() {
    assert_eq!(
        parse_points("1,2,3\nx,y,timestamp_ms\n"),
        Err(PointsError::BadInteger(IntErrorKind::InvalidDigit))
    );
}

#[test]
fn csv_first_error_wins() {
    assert_eq!(parse_points("1,2,3\n4\n5,6\n"), Err(PointsError::MissingY));
}

#[test]
fn sort_by_timestamp_is_stable() {
    let sorted = sort_by_timestamp(vec![p(0, 0, 3), p(1, 0, 1), p(2, 0, 3), p(3, 0, 2)]);
    assert_eq!(sorted, vec![p(1, 0, 1), p(3, 0, 2), p(0, 0, 3), p(2, 0, 3)]);
}

#[test]
fn csv_extension_rules() {
    assert!(has_csv_extension("trajectory_1.csv"));
    assert!(has_csv_extension("a.b.csv"));
    assert!(has_csv_extension("..csv"));
    assert!(!has_csv_extension(".csv"));
    assert!(!has_csv_extension("a.CSV"));
    assert!(!has_csv_extension("a.csv.bak"));
    assert!(!has_csv_extension("csv"));
    assert!(!has_csv_extension(".."));
    assert!(!has_csv_extension(""));
}

#[test]
fn only_trajectory_files_are_candidates() {
    assert!(is_trajectory_csv("trajectory_1.csv"));
    assert!(is_trajectory_csv("trajectory_20240101_120000.csv"));
    assert!(is_trajectory_csv("trajectory_.csv"));
    assert!(!is_trajectory_csv("notes.csv"));
    assert!(!is_trajectory_csv("trajectory.csv"));
    assert!(!is_trajectory_csv("Trajectory_1.csv"));
    assert!(!is_trajectory_csv("trajectory_1.txt"));
    assert!(!is_trajectory_csv("trajectory_1.CSV"));
    assert!(!is_trajectory_csv("my_trajectory_1.csv"));
}

#[test]
fn newer_notes_file_does_not_win() {
    // output/ holds trajectory_1.csv (older) and notes.csv (newer)
    let entries = [("trajectory_1.csv", 100i128), ("notes.csv", 200i128)];
    let candidates: Vec<(&str, i128)> =
        entries.iter().copied().filter(|(name, _)| is_trajectory_csv(name)).collect();
    let times: Vec<i128> = candidates.iter().map(|(_, t)| *t).collect();
    let chosen = newest_index(&times).map(|i| candidates[i].0);
    assert_eq!(chosen, Some("trajectory_1.csv"));
}

#[test]
fn newest_is_first_of_the_latest() {
    assert_eq!(newest_index(&[]), None);
    assert_eq!(newest_index(&[5, 9, 9, 1]), Some(1));
    assert_eq!(newest_index(&[-3]), Some(0));
    assert_eq!(newest_index(&[1, 2, 3]), Some(2));
}

#[test]
fn resolving_the_csv_path() {
    match resolve_csv_path(Some("given.csv".to_string()), &[]) {
        CsvSource::Use(p) => assert_eq!(p, "given.csv"),
        other => panic!("{:?}", other),
    }
    assert!(matches!(resolve_csv_path(None, &[]), CsvSource::Search(0)));
    assert!(matches!(resolve_csv_path(None, &[None]), CsvSource::Search(1)));
    assert!(matches!(resolve_csv_path(None, &[None, None]), CsvSource::NotFound));
    match resolve_csv_path(None, &[None, Some("../output/t.csv".to_string())]) {
        CsvSource::Use(p) => assert_eq!(p, "../output/t.csv"),
        other => panic!("{:?}", other),
    }
    assert_eq!(search_dir(0), "output");
    assert_eq!(search_dir(1), "../output");
}

fn args(list: &[&str]) -> Vec<String> {
    list.iter().map(|s| s.to_string()).collect()
}

#[test]
fn config_defaults() {
    match Config::from_args(&args(&[])) {
        Ok(ArgsOutcome::Run(c)) => {
            assert_eq!(c.csv_path, None);
            assert_eq!(c.port, "/dev/ttyUSB0");
            assert_eq!(c.baud, DEFAULT_BAUD);
        },
        other => panic!("{:?}", other),
    }
}

#[test]
fn config_options() {
    match Config::from_args(&args(&["--port", "/dev/ttyACM1", "--baud", "9600", "path.csv"])) {
        Ok(ArgsOutcome::Run(c)) => {
            assert_eq!(c.csv_path, Some("path.csv".to_string()));
            assert_eq!(c.port, "/dev/ttyACM1");
            assert_eq!(c.baud, 9600);
        },
        other => panic!("{:?}", other),
    }
    match Config::from_args(&args(&["a.csv", "--csv", "b.csv"])) {
        Ok(ArgsOutcome::Run(c)) => assert_eq!(c.csv_path, Some("b.csv".to_string())),
        other => panic!("{:?}", other),
    }
}

#[test]
fn config_help_stops_reading() {
    assert!(matches!(Config::from_args(&args(&["-h", "--bogus"])), Ok(ArgsOutcome::Help)));
    assert!(matches!(Config::from_args(&args(&["--help"])), Ok(ArgsOutcome::Help)));
}

#[test]
fn config_errors() {
    assert!(matches!(Config::from_args(&args(&["--csv"])), Err(ArgsError::MissingCsvPath)));
    assert!(matches!(Config::from_args(&args(&["--port"])), Err(ArgsError::MissingPort)));
    assert!(matches!(Config::from_args(&args(&["--baud"])), Err(ArgsError::MissingBaud)));
    assert!(matches!(
        Config::from_args(&args(&["--baud", "fast"])),
        Err(ArgsError::BadBaud(IntErrorKind::InvalidDigit))
    ));
    assert!(matches!(
        Config::from_args(&args(&["--baud", "4294967296"])),
        Err(ArgsError::BadBaud(IntErrorKind::PosOverflow))
    ));
    match Config::from_args(&args(&["--verbose"])) {
        Err(ArgsError::UnknownOption(o)) => assert_eq!(o, "--verbose"),
        other => panic!("{:?}", other),
    }
    match Config::from_args(&args(&["a.csv", "b.csv"])) {
        Err(ArgsError::UnexpectedArgument(o)) => assert_eq!(o, "b.csv"),
        other => panic!("{:?}", other),
    }
}

#[test]
fn segments_walk_the_pen_through_the_samples() {
    let pts = vec![p(10, 20, 0), p(-4, 7, 10), p(300, -200, 20), p(301, -199, 20)];
    let segs = build_segments(&pts);
    let (mut x, mut y) = (0i64, 0i64);
    for (s, q) in segs.iter().zip(pts.iter()) {
        x += s.dx_px as i64;
        y += s.dy_px as i64;
        assert_eq!((x, y), (q.x as i64, q.y as i64));
    }
}

#[test]
fn sorting_sorted_samples_changes_nothing() {
    let pts = vec![p(5, 5, 1), p(4, 4, 1), p(3, 3, 2), p(9, 9, 7)];
    assert_eq!(sort_by_timestamp(pts.clone()), pts);
}

#[test]
fn crc_of_concatenation_is_xor_of_crcs() {
    let a = [0x12u8, 0x34, 0x56];
    let b = [0xABu8, 0xCD];
    let ab = [0x12u8, 0x34, 0x56, 0xAB, 0xCD];
    assert_eq!(crc8(&ab), crc8(&a) ^ crc8(&b));
}

#[test]
fn distinct_packets_encode_differently() {
    let base = Packet { kind: 1, steps_x: 100, steps_y: -100, dt_ms: 20 };
    let variants = [
        Packet { kind: 0, ..base },
        Packet { steps_x: 101, ..base },
        Packet { steps_x: -100, ..base },
        Packet { steps_y: 100, ..base },
        Packet { dt_ms: 276, ..base },
    ];
    let reference = encode_packet(&base);
    for v in variants.iter() {
        assert_ne!(encode_packet(v), reference);
    }
}

#[test]
fn crc_ignores_byte_order() {
    assert_eq!(crc8(&[0x01, 0x80, 0x33, 0x33, 0x7E]), crc8(&[0x33, 0x7E, 0x01, 0x33, 0x80]));
}

#[test]
fn appending_the_crc_gives_zero() {
    for bytes in [vec![], vec![0x5Au8], vec![1, 2, 4, 8, 16, 200]] {
        let mut with_crc = bytes.clone();
        with_crc.push(crc8(&bytes));
        assert_eq!(crc8(&with_crc), 0);
    }
}

#[test]
fn offsets_fit_check_cases() {
    assert!(offsets_fit_check(&[]));
    assert!(offsets_fit_check(&[p(i32::MIN, 0, 0)]));
    assert!(offsets_fit_check(&[p(-5, 7, 0), p(10, -3, 1)]));
    assert!(offsets_fit_check(&[p(0, 0, 0), p(i32::MIN, i32::MAX, 1)]));
    assert!(!offsets_fit_check(&[p(-1, 0, 0), p(i32::MAX, 0, 1)]));
    assert!(!offsets_fit_check(&[p(0, 0, 0), p(0, 1, 1), p(0, i32::MIN, 2)]));
}
