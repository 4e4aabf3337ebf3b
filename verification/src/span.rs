//! A ready-made payload type for sets of contiguous ranges: a half-open
//! span of positions, ordered by its start, consecutive to another span
//! exactly when its end meets the other's start.

use crate::Consecutive;
use crate::Keyed;
use vstd::prelude::*;

verus! {

/// A half-open span `start..end` of unsigned positions.
///
/// Spans are ordered (and considered equal as set elements) by their
/// `start` alone; `repack` merges a span with the next one whenever this
/// span's `end` equals that one's `start`.
#[derive(Clone, Copy, Debug, PartialEq, Eq, Structural)]
pub struct Span {
    pub start: usize,
    pub end: usize,
}

impl Span {
    /// Makes the span `start..end`.
    pub fn new(start: usize, end: usize) -> (s: Span)
        ensures
            s.start == start,
            s.end == end,
    {
        Span { start, end }
    }
}

impl Keyed for Span {
    open spec fn key(&self) -> int {
        self.start as int
    }

    fn lt(&self, other: &Self) -> (b: bool) {
        self.start < other.start
    }

    fn eq_key(&self, other: &Self) -> (b: bool) {
        self.start == other.start
    }
}

impl Consecutive for Span {
    open spec fn consec(&self, other: &Self) -> bool {
        self.end == other.start
    }

    open spec fn merge_spec(&self, other: &Self) -> Self {
        Span { start: self.start, end: other.end }
    }

    proof fn lemma_merge_key(&self, other: &Self) {
    }

    fn consecutive(&self, other: &Self) -> (b: bool) {
        self.end == other.start
    }

    fn merged(&self, other: &Self) -> (m: Self) {
        Span { start: self.start, end: other.end }
    }
}

} // verus!
