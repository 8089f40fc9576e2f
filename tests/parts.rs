use som_eom::clock::{get_frame_per_timestamp, get_timecode, MAX_FRAME};
use som_eom::decimal::{parse_decimal, Decimal};
use som_eom::duration::parse_video_duration;
use som_eom::error::SomEomError;
use som_eom::lookup::get_filter_value;
use som_eom::text::{extract_filter_prefix, get_value_from_string};

#[test]
fn timecode_at_minute_and_ten_minute_marks() {
    assert_eq!(get_timecode(0).unwrap(), "00:00:00;00");
    assert_eq!(get_timecode(1800).unwrap(), "00:01:00;02");
    assert_eq!(get_timecode(1828).unwrap(), "00:01:01;00");
    assert_eq!(get_timecode(17982).unwrap(), "00:10:00;00");
    assert_eq!(get_timecode(107892).unwrap(), "01:00:00;00");
}

#[test]
fn timecode_skips_only_minute_starts() {
    assert_eq!(get_timecode(1109).unwrap(), "00:00:36;29");
    assert_eq!(get_timecode(1799).unwrap(), "00:00:59;29");
    assert_eq!(get_timecode(17981).unwrap(), "00:09:59;29");
    assert_eq!(get_timecode(17982).unwrap(), "00:10:00;00");
    assert_eq!(get_timecode(17983).unwrap(), "00:10:00;01");
    assert_eq!(get_timecode(19781).unwrap(), "00:10:59;29");
    assert_eq!(get_timecode(19782).unwrap(), "00:11:00;02");
}

#[test]
fn timecode_strictly_increases() {
    let mut prev = get_timecode(0).unwrap();
    for f in 1..40000u64 {
        let tc = get_timecode(f).unwrap();
        assert!(tc > prev, "{} then {}", prev, tc);
        assert_eq!(tc.len(), 11);
        prev = tc;
    }
}

#[test]
fn timecode_counts_hours_past_a_day() {
    assert_eq!(get_timecode(2589407).unwrap(), "23:59:59;29");
    assert_eq!(get_timecode(2589408).unwrap(), "24:00:00;00");
}

#[test]
fn timecode_out_of_range() {
    assert_eq!(get_timecode(MAX_FRAME + 1), Err(SomEomError::FrameOutOfRange));
    assert!(get_timecode(MAX_FRAME).is_ok());
}

#[test]
fn frame_rounds_half_up() {
    assert_eq!(get_frame_per_timestamp(Decimal::new(0, 0)), 0);
    // 50 s is 1498.5 frames.
    assert_eq!(get_frame_per_timestamp(Decimal::new(50, 0)), 1499);
    assert_eq!(get_frame_per_timestamp(Decimal::new(1, 0)), 30);
    assert_eq!(get_frame_per_timestamp(Decimal::new(3904, 2)), 1170);
    assert_eq!(get_frame_per_timestamp(Decimal::new(5, 1)), 15);
}

#[test]
fn decimals_parse_exactly() {
    assert_eq!(parse_decimal("7.007"), Some(Decimal::new(7007, 3)));
    assert_eq!(parse_decimal("720"), Some(Decimal::new(720, 0)));
    assert_eq!(parse_decimal("5."), Some(Decimal::new(5, 0)));
    assert_eq!(parse_decimal(".5"), Some(Decimal::new(5, 1)));
    assert_eq!(parse_decimal(""), None);
    assert_eq!(parse_decimal("."), None);
    assert_eq!(parse_decimal("1.2.3"), None);
    assert_eq!(parse_decimal("-1"), None);
    assert_eq!(parse_decimal("I"), None);
    assert_eq!(parse_decimal("100000000000000000"), None);
    assert_eq!(parse_decimal("99999999999999999"), Some(Decimal::new(99999999999999999, 0)));
}

#[test]
fn decimals_with_sign_and_exponent() {
    assert_eq!(parse_decimal("+1"), Some(Decimal::new(1, 0)));
    assert_eq!(parse_decimal("1e3"), Some(Decimal::new(1000, 0)));
    assert_eq!(parse_decimal("1E+2"), Some(Decimal::new(100, 0)));
    assert_eq!(parse_decimal("2.5E-2"), Some(Decimal::new(25, 3)));
    assert_eq!(parse_decimal("1.e5"), Some(Decimal::new(100000, 0)));
    assert_eq!(parse_decimal("3.003e0"), Some(Decimal::new(3003, 3)));
    assert_eq!(parse_decimal("1e-36"), Some(Decimal::new(1, 36)));
    assert_eq!(parse_decimal("1e-37"), None);
    assert_eq!(parse_decimal("1e16"), Some(Decimal::new(10000000000000000, 0)));
    assert_eq!(parse_decimal("1e17"), None);
    assert_eq!(parse_decimal("0e99999999999999999999999"), Some(Decimal::new(0, 0)));
    assert_eq!(parse_decimal("1e99999999999999999999999"), None);
    assert_eq!(parse_decimal("1e-99999999999999999999999"), None);
    assert_eq!(parse_decimal("1e"), None);
    assert_eq!(parse_decimal("e3"), None);
    assert_eq!(parse_decimal("1e+"), None);
    assert_eq!(parse_decimal("++1"), None);
    assert_eq!(parse_decimal("inf"), None);
    assert_eq!(parse_decimal("nan"), None);
}

#[test]
fn decimals_drop_trailing_fraction_zeros() {
    assert_eq!(parse_decimal("24.024000"), Some(Decimal::new(24024, 3)));
    assert_eq!(parse_decimal("24.024000000000000000"), Some(Decimal::new(24024, 3)));
    assert_eq!(parse_decimal("0.000"), Some(Decimal::new(0, 0)));
    assert_eq!(parse_decimal("1.50"), Some(Decimal::new(15, 1)));
    assert_eq!(parse_decimal("100"), Some(Decimal::new(100, 0)));
    assert_eq!(
        get_frame_per_timestamp(parse_decimal("24.024000000000000000").unwrap()),
        720
    );
}

#[test]
fn lookup_takes_first_matching_token() {
    let p = "a:1 black_end:2.5 black_end:3";
    assert_eq!(get_filter_value(p, "black_end"), Some(Decimal::new(25, 1)));
    assert_eq!(get_filter_value("novalue black_end:4", "black_end"), Some(Decimal::new(4, 0)));
    assert_eq!(get_filter_value("type:I", "type"), None);
    assert_eq!(get_filter_value("t:1:2", "t"), None);
    assert_eq!(get_filter_value("Frame:1", "frame"), None);
    assert_eq!(get_filter_value("", "frame"), None);
    assert_eq!(get_filter_value("k:+1", "k"), Some(Decimal::new(1, 0)));
    assert_eq!(get_filter_value("k:1e3", "k"), Some(Decimal::new(1000, 0)));
    assert_eq!(
        get_filter_value(
            "black_start:4.97163 black_end:7.007 black_duration:2.03537",
            "nothing"
        ),
        None
    );
    assert_eq!(get_filter_value("  frame:9\tpts:3  ", "pts"), Some(Decimal::new(3, 0)));
}

#[test]
fn payload_needs_bracket_and_space() {
    assert_eq!(extract_filter_prefix("[x]y"), Err(SomEomError::MalformedLogLine));
    assert_eq!(extract_filter_prefix("x] y"), Err(SomEomError::MalformedLogLine));
    assert_eq!(extract_filter_prefix("[a] [b] c"), Ok(String::from("[b] c")));
    assert_eq!(extract_filter_prefix("[a] "), Ok(String::new()));
}

#[test]
fn labelled_field_edges() {
    assert_eq!(get_value_from_string("Duration", String::from("no field here")), None);
    assert_eq!(
        get_value_from_string("bitrate", String::from("Duration: 1, bitrate: 60024 kb/s")),
        Some(String::from("60024"))
    );
    assert_eq!(
        get_value_from_string("start", String::from("start: 0.000000,")),
        Some(String::from("0.000000"))
    );
    assert_eq!(
        get_value_from_string("x", String::from("x:a,,")),
        Some(String::from("a,"))
    );
}

#[test]
fn clock_durations() {
    assert_eq!(parse_video_duration("01:00:00.00"), Ok(Decimal::new(360000, 2)));
    assert_eq!(parse_video_duration("00:00:39.4"), Ok(Decimal::new(3904, 2)));
    assert_eq!(parse_video_duration("00:00:39"), Err(SomEomError::UnparsableNumber));
    assert_eq!(parse_video_duration("00:00:00:39.04"), Err(SomEomError::UnparsableNumber));
    assert_eq!(parse_video_duration("00:0a:39.04"), Err(SomEomError::UnparsableNumber));
    assert_eq!(parse_video_duration("00:00:39.04.1"), Err(SomEomError::UnparsableNumber));
    assert_eq!(parse_video_duration("N/A"), Err(SomEomError::UnparsableNumber));
}
