//! Sorting the detector's lines as they arrive: black-segment lines are
//! kept in order, the duration line is remembered, the rest is ignored.

use crate::text::{chars_of, find_from, occurs_at};
use vstd::prelude::*;

verus! {

#[derive(Clone, Copy, Debug, PartialEq, Eq, Structural)]
pub enum LineKind {
    /// A completed black-segment detection (it carries `black_start`).
    BlackSegment,
    /// The line that gives the video's total duration (it carries `Duration: `).
    Duration,
    /// Anything else.
    Ignored,
}

pub open spec fn contains(s: Seq<char>, pat: Seq<char>) -> bool {
    exists|i: int| occurs_at(s, pat, i)
}

/// The kind of a detector line; a duration marker takes precedence.
pub open spec fn line_kind(line: Seq<char>) -> LineKind {
    if contains(line, "Duration: "@) {
        LineKind::Duration
    } else if contains(line, "black_start"@) {
        LineKind::BlackSegment
    } else {
        LineKind::Ignored
    }
}

fn contains_str(s: &Vec<char>, pat: &str) -> (r: bool)
    ensures
        r == contains(s@, pat@),
{
    let p = chars_of(pat);
    match find_from(s, &p, 0) {
        Some(_) => true,
        None => false,
    }
}

pub fn classify_line(line: &str) -> (r: LineKind)
    ensures
        r == line_kind(line@),
{
    let s = chars_of(line);
    if contains_str(&s, "Duration: ") {
        LineKind::Duration
    } else if contains_str(&s, "black_start") {
        LineKind::BlackSegment
    } else {
        LineKind::Ignored
    }
}

/// The black-segment lines seen so far, in arrival order, and the last
/// duration line seen.
#[derive(Debug)]
pub struct DetectionSet {
    pub segments: Vec<String>,
    pub duration_line: Option<String>,
}

impl DetectionSet {
    pub fn new() -> (r: DetectionSet)
        ensures
            r.segments@.len() == 0,
            r.duration_line is None,
    {
        DetectionSet { segments: Vec::new(), duration_line: None }
    }

    /// Takes in the next line of the detector's output.
    pub fn add_line(&mut self, line: String)
        ensures
            line_kind(line@) == LineKind::BlackSegment ==> final(self).segments@ == old(
                self,
            ).segments@.push(line) && final(self).duration_line == old(self).duration_line,
            line_kind(line@) == LineKind::Duration ==> final(self).segments@ == old(
                self,
            ).segments@ && final(self).duration_line == Some(line),
            line_kind(line@) == LineKind::Ignored ==> final(self).segments@ == old(self).segments@
                && final(self).duration_line == old(self).duration_line,
    {
        match classify_line(line.as_str()) {
            LineKind::BlackSegment => self.segments.push(line),
            LineKind::Duration => self.duration_line = Some(line),
            LineKind::Ignored => {},
        }
    }
}

} // verus!
