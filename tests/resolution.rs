use som_eom::detection::{classify_line, DetectionSet, LineKind};
use som_eom::error::SomEomError;
use som_eom::resolver::get_som_eom;

const DURATION_LINE: &str =
    "  Duration: 00:00:39.04, start: 0.000000, bitrate: 60024 kb/s";

fn segment(start: &str, end: &str) -> String {
    format!(
        "[blackdetect @ 0x13e00d040] black_start:{} black_end:{} black_duration:1",
        start, end
    )
}

#[test]
fn single_segment_ends_at_video_duration() {
    let segs = vec![segment("0", "3.003")];
    let r = get_som_eom(&segs, Some(String::from(DURATION_LINE))).unwrap();
    assert_eq!(r.som_frame, 89);
    assert_eq!(r.eom_frame, 1169);
    assert_eq!(r.som, "00:00:02;29");
    assert_eq!(r.eom, "00:00:38;29");
    assert!(r.runs_to_end);
}

#[test]
fn two_segments_use_first_end_and_last_start() {
    let segs = vec![
        segment("4.97163", "7.007"),
        segment("20", "21"),
        segment("37.037", "39.0056"),
    ];
    let r = get_som_eom(&segs, None).unwrap();
    assert_eq!(r.som_frame, 209);
    assert_eq!(r.eom_frame, 1109);
    assert_eq!(r.som, "00:00:06;29");
    assert_eq!(r.eom, "00:00:36;29");
    assert!(!r.runs_to_end);
    assert!(r.som_frame < r.eom_frame);
}

#[test]
fn exponent_form_timestamps_resolve() {
    let segs = vec![segment("0", "3.003e0"), segment("3.7037e1", "39")];
    let r = get_som_eom(&segs, None).unwrap();
    assert_eq!(r.som_frame, 89);
    assert_eq!(r.eom_frame, 1109);
}

#[test]
fn no_segment_is_an_error() {
    let segs: Vec<String> = vec![];
    let r = get_som_eom(&segs, Some(String::from(DURATION_LINE)));
    assert_eq!(r.unwrap_err(), SomEomError::NoBlackSegmentDetected);
}

#[test]
fn unbracketed_segment_is_malformed() {
    let segs = vec![String::from("black_start:0 black_end:3.003")];
    let r = get_som_eom(&segs, Some(String::from(DURATION_LINE)));
    assert_eq!(r.unwrap_err(), SomEomError::MalformedLogLine);
}

#[test]
fn missing_black_end_is_an_error() {
    let segs = vec![String::from("[blackdetect @ 0x1] black_start:0 black_duration:3")];
    let r = get_som_eom(&segs, Some(String::from(DURATION_LINE)));
    assert_eq!(r.unwrap_err(), SomEomError::MissingFilterKey);
}

#[test]
fn missing_black_start_of_last_is_an_error() {
    let segs = vec![
        segment("0", "3.003"),
        String::from("[blackdetect @ 0x1] black_end:40 black_duration:3"),
    ];
    let r = get_som_eom(&segs, None);
    assert_eq!(r.unwrap_err(), SomEomError::MissingFilterKey);
}

#[test]
fn single_segment_without_duration_line() {
    let segs = vec![segment("0", "3.003")];
    let r = get_som_eom(&segs, None);
    assert_eq!(r.unwrap_err(), SomEomError::MissingDuration);
}

#[test]
fn duration_line_without_duration_field() {
    let segs = vec![segment("0", "3.003")];
    let r = get_som_eom(&segs, Some(String::from("start: 0.000000, bitrate: 60024 kb/s")));
    assert_eq!(r.unwrap_err(), SomEomError::MissingDuration);
}

#[test]
fn unparsable_duration() {
    let segs = vec![segment("0", "3.003")];
    let r = get_som_eom(&segs, Some(String::from("Duration: 00:39.04, start: 0")));
    assert_eq!(r.unwrap_err(), SomEomError::UnparsableNumber);
}

#[test]
fn boundary_on_frame_zero_underflows() {
    let segs = vec![segment("0", "0.01"), segment("30", "31")];
    let r = get_som_eom(&segs, None);
    assert_eq!(r.unwrap_err(), SomEomError::FrameUnderflow);
}

#[test]
fn inverted_boundaries_are_an_error() {
    let segs = vec![segment("0", "20"), segment("10", "12")];
    let r = get_som_eom(&segs, None);
    assert_eq!(r.unwrap_err(), SomEomError::BoundariesOutOfOrder);
}

#[test]
fn black_covering_the_whole_video_is_an_error() {
    let segs = vec![segment("0", "39.04")];
    let r = get_som_eom(&segs, Some(String::from(DURATION_LINE)));
    assert_eq!(r.unwrap_err(), SomEomError::BoundariesOutOfOrder);
}

#[test]
fn boundary_beyond_timecode_range() {
    let segs = vec![segment("0", "99999999999")];
    let r = get_som_eom(&segs, Some(String::from(DURATION_LINE)));
    assert_eq!(r.unwrap_err(), SomEomError::FrameOutOfRange);
}

#[test]
fn lines_are_classified() {
    assert_eq!(classify_line(DURATION_LINE), LineKind::Duration);
    assert_eq!(classify_line(&segment("1", "2")), LineKind::BlackSegment);
    assert_eq!(classify_line("[h264 @ 0x1] frame:1"), LineKind::Ignored);
    assert_eq!(classify_line("Duration:00:00:01.00"), LineKind::Ignored);
}

#[test]
fn detection_set_keeps_segments_in_order() {
    let mut set = DetectionSet::new();
    set.add_line(String::from("Input #0, mov, from 'a.mov':"));
    set.add_line(String::from(DURATION_LINE));
    set.add_line(segment("0", "3.003"));
    set.add_line(String::from("[Parsed_blackdetect_0 @ 0x1] frame:1 pblack:99"));
    set.add_line(segment("37.037", "39.0056"));
    assert_eq!(set.segments, vec![segment("0", "3.003"), segment("37.037", "39.0056")]);
    assert_eq!(set.duration_line, Some(String::from(DURATION_LINE)));
    let r = get_som_eom(&set.segments, set.duration_line.clone()).unwrap();
    assert_eq!(r.som_frame, 89);
    assert_eq!(r.eom_frame, 1109);
}
