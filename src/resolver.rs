//! Start and end of material from the detector's lines: the first black
//! segment ends where material starts, the last one starts where it ends,
//! and without a second segment the end of the video stands for the end.

use crate::clock::{drop_frame_text, frame_at, get_frame_per_timestamp, get_timecode, MAX_FRAME};
use crate::decimal::Decimal;
use crate::duration::{clock_duration, parse_video_duration};
use crate::error::SomEomError;
use crate::lookup::{filter_value, get_filter_value};
use crate::text::{extract_filter_prefix, get_value_from_string, labeled_field, payload_of};
use vstd::prelude::*;

verus! {

/// The frame before the one shown at time `t`: the frame counts from 0, and
/// a boundary timestamp is the first frame on its far side.
pub open spec fn frame_before(t: Decimal) -> Result<nat, SomEomError> {
    if frame_at(t) == 0 {
        Err(SomEomError::FrameUnderflow)
    } else if frame_at(t) - 1 > MAX_FRAME {
        Err(SomEomError::FrameOutOfRange)
    } else {
        Ok((frame_at(t) - 1) as nat)
    }
}

/// The boundary frame that the value `key` of a black-segment line gives.
pub open spec fn boundary_frame(line: Seq<char>, key: Seq<char>) -> Result<nat, SomEomError> {
    match payload_of(line) {
        None => Err(SomEomError::MalformedLogLine),
        Some(p) => match filter_value(p, key) {
            None => Err(SomEomError::MissingFilterKey),
            Some(t) => frame_before(t),
        },
    }
}

/// The last frame of a video, from the line that gives its duration.
pub open spec fn duration_end_frame(line: Option<Seq<char>>) -> Result<nat, SomEomError> {
    match line {
        None => Err(SomEomError::MissingDuration),
        Some(l) => match labeled_field(l, "Duration"@) {
            None => Err(SomEomError::MissingDuration),
            Some(f) => match clock_duration(f) {
                None => Err(SomEomError::UnparsableNumber),
                Some(t) => frame_before(t),
            },
        },
    }
}

/// Start and end frames of material, and whether the end came from the
/// duration, for the black-segment lines `segs` in the order the detector
/// gave them and the duration line `dur`.
pub open spec fn som_eom(segs: Seq<Seq<char>>, dur: Option<Seq<char>>) -> Result<
    (nat, nat, bool),
    SomEomError,
> {
    if segs.len() == 0 {
        Err(SomEomError::NoBlackSegmentDetected)
    } else {
        match boundary_frame(segs[0], "black_end"@) {
            Err(e) => Err(e),
            Ok(som) => {
                let eom = if segs.len() > 1 {
                    boundary_frame(segs.last(), "black_start"@)
                } else {
                    duration_end_frame(dur)
                };
                match eom {
                    Err(e) => Err(e),
                    Ok(eom) => if som < eom {
                        Ok((som, eom, segs.len() == 1))
                    } else {
                        Err(SomEomError::BoundariesOutOfOrder)
                    },
                }
            },
        }
    }
}

/// Whenever both boundaries are resolved, the start of material comes
/// strictly before its end; inputs that would invert them are an error.
pub proof fn lemma_som_precedes_eom(segs: Seq<Seq<char>>, dur: Option<Seq<char>>)
    ensures
        som_eom(segs, dur) matches Ok((som, eom, _)) ==> som < eom,
{
}

pub open spec fn lines_view(lines: Seq<String>) -> Seq<Seq<char>> {
    lines.map_values(|l: String| l@)
}

pub open spec fn opt_line_view(line: Option<String>) -> Option<Seq<char>> {
    match line {
        Some(l) => Some(l@),
        None => None,
    }
}

/// Start and end of material, as frame indices and as drop-frame timecode.
#[derive(Debug)]
pub struct SomEom {
    pub som_frame: u64,
    pub eom_frame: u64,
    pub som: String,
    pub eom: String,
    /// No trailing black was found: the material runs to the end of the
    /// video, whose duration gave `eom_frame`.
    pub runs_to_end: bool,
}

fn frame_before_timestamp(t: Decimal) -> (r: Result<u64, SomEomError>)
    requires
        t.wf(),
    ensures
        r matches Ok(f) ==> frame_before(t) == Ok::<nat, SomEomError>(f as nat),
        r matches Err(e) ==> frame_before(t) == Err::<nat, SomEomError>(e),
{
    let f = get_frame_per_timestamp(t);
    if f == 0 {
        return Err(SomEomError::FrameUnderflow);
    }
    if f - 1 > MAX_FRAME {
        return Err(SomEomError::FrameOutOfRange);
    }
    Ok(f - 1)
}

fn line_boundary_frame(line: &String, key: &str) -> (r: Result<u64, SomEomError>)
    ensures
        r matches Ok(f) ==> boundary_frame(line@, key@) == Ok::<nat, SomEomError>(f as nat),
        r matches Err(e) ==> boundary_frame(line@, key@) == Err::<nat, SomEomError>(e),
{
    let payload = match extract_filter_prefix(line.as_str()) {
        Ok(p) => p,
        Err(e) => {
            return Err(e);
        },
    };
    match get_filter_value(payload.as_str(), key) {
        Some(t) => frame_before_timestamp(t),
        None => Err(SomEomError::MissingFilterKey),
    }
}

fn duration_line_end_frame(line: Option<String>) -> (r: Result<u64, SomEomError>)
    ensures
        r matches Ok(f) ==> duration_end_frame(opt_line_view(line)) == Ok::<nat, SomEomError>(
            f as nat,
        ),
        r matches Err(e) ==> duration_end_frame(opt_line_view(line)) == Err::<nat, SomEomError>(
            e,
        ),
{
    let line = match line {
        Some(l) => l,
        None => {
            return Err(SomEomError::MissingDuration);
        },
    };
    let field = match get_value_from_string("Duration", line) {
        Some(f) => f,
        None => {
            return Err(SomEomError::MissingDuration);
        },
    };
    match parse_video_duration(field.as_str()) {
        Ok(t) => frame_before_timestamp(t),
        Err(e) => Err(e),
    }
}

/// Start and end of material from the black-segment lines `blackdetects`,
/// in the order the detector gave them, and the line that gives the
/// video's duration, if one was seen. The start is the frame before the
/// `black_end` of the first segment; the end is the frame before the
/// `black_start` of the last segment or, with a single segment, the last
/// frame of the video. The start always comes before the end.
pub fn get_som_eom(blackdetects: &Vec<String>, raw_duration_line: Option<String>) -> (r: Result<
    SomEom,
    SomEomError,
>)
    ensures
        r matches Ok(x) ==> som_eom(lines_view(blackdetects@), opt_line_view(raw_duration_line))
            == Ok::<(nat, nat, bool), SomEomError>(
            (x.som_frame as nat, x.eom_frame as nat, x.runs_to_end),
        ) && x.som@ == drop_frame_text(x.som_frame as nat) && x.eom@ == drop_frame_text(
            x.eom_frame as nat,
        ),
        r matches Err(e) ==> som_eom(lines_view(blackdetects@), opt_line_view(raw_duration_line))
            == Err::<(nat, nat, bool), SomEomError>(e),
        r matches Ok(x) ==> x.som_frame < x.eom_frame,
{
    let ghost segs = lines_view(blackdetects@);
    let n = blackdetects.len();
    if n == 0 {
        return Err(SomEomError::NoBlackSegmentDetected);
    }
    assert(segs[0] == blackdetects@[0]@);
    let som_frame = match line_boundary_frame(&blackdetects[0], "black_end") {
        Ok(f) => f,
        Err(e) => {
            return Err(e);
        },
    };
    let som = match get_timecode(som_frame) {
        Ok(s) => s,
        Err(e) => {
            return Err(e);
        },
    };
    let eom_frame = if n > 1 {
        assert(segs.last() == blackdetects@[n - 1]@);
        match line_boundary_frame(&blackdetects[n - 1], "black_start") {
            Ok(f) => f,
            Err(e) => {
                return Err(e);
            },
        }
    } else {
        match duration_line_end_frame(raw_duration_line) {
            Ok(f) => f,
            Err(e) => {
                return Err(e);
            },
        }
    };
    if som_frame >= eom_frame {
        return Err(SomEomError::BoundariesOutOfOrder);
    }
    let eom = match get_timecode(eom_frame) {
        Ok(s) => s,
        Err(e) => {
            return Err(e);
        },
    };
    Ok(SomEom { som_frame, eom_frame, som, eom, runs_to_end: n == 1 })
}

} // verus!
