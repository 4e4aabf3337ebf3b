//! Node handles: lightweight records identifying one element of the set.
//!
//! The set never stores two values with the same key, so a value identifies
//! the node that holds it. A `Node` is a snapshot taken at the time it was
//! handed out: it carries the node's value and the colour the node had then.

use vstd::prelude::*;

verus! {

/// The colour tag of a tree node.
#[derive(Clone, Copy, Debug, PartialEq, Eq, Structural)]
pub enum Colour {
    Black,
    Red,
}

/// A handle to one element of the set.
///
/// The handle carries the element's value (values are unique per set, so the
/// value names the node) together with the colour observed when the handle
/// was created. Mutating the set does not update handles already handed out.
#[derive(Copy)]
pub struct Node<T> {
    value: T,
    colour: Colour,
}

impl<T: Copy> Clone for Node<T> {
    fn clone(&self) -> (r: Self)
        ensures
            r == *self,
    {
        Node { value: self.value, colour: self.colour }
    }
}

/// The values carried by a sequence of handles, in order.
pub open spec fn vals_of<T>(s: Seq<Node<T>>) -> Seq<T> {
    s.map_values(|n: Node<T>| n.val())
}

impl<T> Node<T> {
    /// The value this handle carries.
    pub closed spec fn val(&self) -> T {
        self.value
    }

    /// The colour observed when this handle was created.
    pub closed spec fn col(&self) -> Colour {
        self.colour
    }

    pub(crate) fn make(value: T, colour: Colour) -> (n: Node<T>)
        ensures
            n.val() == value,
            n.col() == colour,
    {
        Node { value, colour }
    }

    /// Returns a reference to the contained data.
    pub fn data(&self) -> (r: &T)
        ensures
            *r == self.val(),
    {
        &self.value
    }

    /// Returns the colour the node had when this handle was created.
    pub fn colour(&self) -> (c: Colour)
        ensures
            c == self.col(),
    {
        self.colour
    }

    /// Returns a copy of the contained data.
    pub fn clone_data(&self) -> (r: T)
        where
            T: Copy,
        ensures
            r == self.val(),
    {
        self.value
    }

    /// Mutates the data carried by this handle in place by applying the
    /// given transform.
    ///
    /// The handle holds its own copy of the value; the set it came from is
    /// not touched.
    pub fn apply<F: FnOnce(T) -> T>(&mut self, f: F)
        where
            T: Copy,
        requires
            f.requires((old(self).val(),)),
        ensures
            f.ensures((old(self).val(),), final (self).val()),
            final (self).col() == old(self).col(),
    {
        self.value = f(self.value);
    }
}

} // verus!
