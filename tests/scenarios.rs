use som_eom::clock::{get_frame_per_timestamp, get_timecode};
use som_eom::decimal::Decimal;
use som_eom::duration::parse_video_duration;
use som_eom::lookup::get_filter_value;
use som_eom::text::{extract_filter_prefix, get_value_from_string};

#[test]
fn get_framerate_vtc_lib_frame_209() {
    let timecode = get_timecode(209).unwrap();
    assert_eq!(timecode, "00:00:06;29");
}

#[test]
fn get_framerate_vtc_lib_frame_210() {
    let timecode = get_timecode(210).unwrap();
    assert_eq!(timecode, "00:00:07;00");
}

#[test]
fn get_blackframe_filter_values() {
    let test_str = String::from("[Parsed_blackframe_0 @ 0x10e60fd50] frame:720 pblack:100 pts:720 t:24.024000 type:I last_keyframe:720");
    let filter_value = extract_filter_prefix(&test_str);
    assert_eq!(
        filter_value,
        Ok(String::from(
            "frame:720 pblack:100 pts:720 t:24.024000 type:I last_keyframe:720"
        ))
    )
}

#[test]
fn get_blackdetect_filter_values() {
    let test_str = String::from(
        "[blackdetect @ 0x13e00d040] black_start:4.97163 black_end:7.007 black_duration:2.03537",
    );
    let filter_value = extract_filter_prefix(&test_str);
    assert_eq!(
        filter_value,
        Ok(String::from(
            "black_start:4.97163 black_end:7.007 black_duration:2.03537"
        ))
    )
}

#[test]
fn get_filter_value_black_end() {
    let value = get_filter_value(
        "black_start:4.97163 black_end:7.007 black_duration:2.03537",
        "black_end",
    );
    assert_eq!(value, Some(Decimal::new(7007, 3)));
}

#[test]
fn get_filter_value_frame() {
    let value = get_filter_value(
        "frame:720 pblack:100 pts:720 t:24.024000 type:I last_keyframe:720",
        "frame",
    );
    assert_eq!(value, Some(Decimal::new(720, 0)));
}

#[test]
fn get_filter_value_none() {
    let value = get_filter_value(
        "frame:720 pblack:100 pts:720 t:24.024000 type:I last_keyframe:720",
        "nothing",
    );
    assert_eq!(value, None);
}

#[test]
fn get_frame_per_timestamp_6_97363() {
    let value = get_frame_per_timestamp(Decimal::new(697363, 5));
    assert_eq!(value, 209);
}

#[test]
fn get_frame_per_timestamp_7_007() {
    let value = get_frame_per_timestamp(Decimal::new(7007, 3));
    assert_eq!(value, 210);
}

#[test]
fn get_frame_per_timestamp_22_0554() {
    let value = get_frame_per_timestamp(Decimal::new(220554, 4));
    assert_eq!(value, 661);
}

#[test]
fn get_frame_per_timestamp_24_024000() {
    let value = get_frame_per_timestamp(Decimal::new(24024000, 6));
    assert_eq!(value, 720);
}

#[test]
fn get_frame_per_timestamp_37_037() {
    let value = get_frame_per_timestamp(Decimal::new(37037, 3));
    assert_eq!(value, 1110);
}

#[test]
fn get_frame_per_timestamp_21_9553() {
    let value = get_frame_per_timestamp(Decimal::new(219553, 4));
    assert_eq!(value, 658);
}

#[test]
fn get_frame_per_timestamp_6_94027() {
    let value = get_frame_per_timestamp(Decimal::new(694027, 5));
    assert_eq!(value, 208);
}

#[test]
fn get_value_from_string_duration() {
    let value = get_value_from_string(
        "Duration",
        String::from("Duration: 00:00:39.04, start: 0.000000, bitrate: 60024 kb/s"),
    );
    assert_eq!(value, Some(String::from("00:00:39.04")));
}

#[test]
fn get_value_from_string_black_start() {
    let value = get_value_from_string(
        "black_start",
        String::from(
            "[blackdetect @ 0x12ce05c50] black_start:37.037 black_end:39.0056 black_duration:1.96863",
        ),
    );
    assert_eq!(value, Some(String::from("37.037")));
}

#[test]
fn parse_video_duration_00_00_39_04() {
    let value = parse_video_duration("00:00:39.04").unwrap();
    assert_eq!(value, Decimal::new(3904, 2));
    assert_eq!(value.digits as f32 / 100.0, 39.04);
}

#[test]
fn parse_video_duration_00_01_39_04() {
    let value = parse_video_duration("00:01:39.04").unwrap();
    assert_eq!(value, Decimal::new(9904, 2));
    assert_eq!(value.digits as f32 / 100.0, 99.04);
}
