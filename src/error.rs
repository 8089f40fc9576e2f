//! What can stop the resolution of start and end of material.

use vstd::prelude::*;

verus! {

#[derive(Clone, Copy, Debug, PartialEq, Eq, Structural)]
pub enum SomEomError {
    /// A detector line has no `[` ... `] ` prefix.
    MalformedLogLine,
    /// A named value is absent from a detector line, or is not a number.
    MissingFilterKey,
    /// A duration field is not of the form `HH:MM:SS.ff`.
    UnparsableNumber,
    /// No duration line, or no `Duration:` field in it.
    MissingDuration,
    /// The detector reported no black segment.
    NoBlackSegmentDetected,
    /// A boundary fell on frame 0, which has no frame before it.
    FrameUnderflow,
    /// A frame index too large to be rendered as timecode.
    FrameOutOfRange,
    /// The start of material does not come before its end.
    BoundariesOutOfOrder,
}

} // verus!
