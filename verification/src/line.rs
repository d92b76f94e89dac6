//! Segments of positions.

use crate::grid::Pos;
use vstd::prelude::*;

verus! {

/// A segment of positions from start to end inclusive.
pub struct Line {
    pub start: Pos,
    pub end: Pos,
}

/// How far a walk along a line has come: `progress` of `length` steps.
pub struct LineIterator {
    pub start: Pos,
    pub end: Pos,
    pub length: u32,
    pub progress: u32,
}

impl Pos {
    /// The segment from this position to `target`.
    pub fn to(self, target: Pos) -> (res: Line)
        ensures
            res.start == self,
            res.end == target,
    {
        Line { start: self, end: target }
    }
}

impl Line {
    /// The beginning of a walk along this line, which takes as many steps
    /// as the two ends are apart.
    pub fn steps(self) -> (res: LineIterator)
        requires
            self.start.spec_distance(self.end) <= u32::MAX,
        ensures
            res.start == self.start,
            res.end == self.end,
            res.length == self.start.spec_distance(self.end),
            res.progress == 0,
    {
        LineIterator {
            start: self.start,
            end: self.end,
            length: self.start.distance(self.end),
            progress: 0,
        }
    }
}

impl LineIterator {
    /// Whether the walk has passed the end of the line.
    pub fn is_done(&self) -> (res: bool)
        ensures
            res == (self.progress > self.length),
    {
        self.progress > self.length
    }

    /// How many steps are left, and the same as the most that are left.
    pub fn size_hint(&self) -> (res: (usize, Option<usize>))
        requires
            self.progress <= self.length,
        ensures
            res.0 == self.length - self.progress,
            res.1 == Some(res.0),
    {
        let size = self.length - self.progress;
        (size as usize, Some(size as usize))
    }
}

} // verus!
