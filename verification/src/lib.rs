//! A set backed by a red-black tree, keeping its elements sorted at all
//! times while offering logarithmic insertion, lookup and removal, plus a
//! `repack` pass that merges runs of consecutive elements.

use vstd::prelude::*;

mod dot;
mod insert;
mod iter;
mod node;
mod rb;
mod remove;
mod repack;
mod span;
mod tree;

pub use dot::DotLabel;
pub use iter::Iter;
pub use iter::IterValues;
pub use node::Colour;
pub use node::Node;
pub use rb::Tree;
pub use span::Span;
pub use tree::RBTreeSet;

verus! {

/// A total order on the stored values, given by an integer key.
///
/// The tree compares elements through this trait alone; two values with the
/// same key are considered equal as set elements.
pub trait Keyed: Sized + Copy {
    /// The key that orders this value.
    spec fn key(&self) -> int;

    /// Three-way outcome is not needed: `lt` and `eq_key` together decide
    /// every descent step.
    fn lt(&self, other: &Self) -> (b: bool)
        ensures
            b == (self.key() < other.key()),
    ;

    /// Whether the two values share a key, i.e. are equal as set elements.
    fn eq_key(&self, other: &Self) -> (b: bool)
        ensures
            b == (self.key() == other.key()),
    ;
}

/// An interface for dealing with consecutive data.
///
/// Provides a way to determine whether two values are consecutive and how
/// to merge them; the set's `repack` pass uses it to collapse runs of
/// consecutive elements into single merged elements.
pub trait Consecutive: Keyed {
    /// Whether `other` immediately continues `self`.
    spec fn consec(&self, other: &Self) -> bool;

    /// The combined value; meaningful when `other` is consecutive to
    /// `self`.
    spec fn merge_spec(&self, other: &Self) -> Self;

    /// Merging keeps the first operand's key, so a collapsed run stands
    /// where the run began in the order.
    proof fn lemma_merge_key(&self, other: &Self)
        ensures
            self.merge_spec(other).key() == self.key(),
    ;

    /// Returns true if `other` is consecutive to `self`.
    fn consecutive(&self, other: &Self) -> (b: bool)
        ensures
            b == self.consec(other),
    ;

    /// Returns the merge of `self` and `other`. The function assumes that
    /// `other` is consecutive to `self`.
    fn merged(&self, other: &Self) -> (m: Self)
        ensures
            m == self.merge_spec(other),
    ;
}

impl Keyed for i32 {
    open spec fn key(&self) -> int {
        *self as int
    }

    fn lt(&self, other: &Self) -> (b: bool) {
        *self < *other
    }

    fn eq_key(&self, other: &Self) -> (b: bool) {
        *self == *other
    }
}

impl Keyed for u64 {
    open spec fn key(&self) -> int {
        *self as int
    }

    fn lt(&self, other: &Self) -> (b: bool) {
        *self < *other
    }

    fn eq_key(&self, other: &Self) -> (b: bool) {
        *self == *other
    }
}

} // verus!
