//! Forward iteration in ascending order. A cursor walks a sequence of
//! node handles taken from the tree in order; iteration may start at the
//! least node or at any given node.

use crate::node::vals_of;
use crate::node::Node;
use crate::rb::lemma_tail_from_concat;
use crate::rb::tail_from;
use crate::rb::Tree;
use crate::tree::RBTreeSet;
use crate::Keyed;
use vstd::prelude::*;

verus! {

/// An iterator over node handles in ascending order. Created with
/// [`RBTreeSet::iter`] or, for a partial walk, [`RBTreeSet::iter_from`].
///
/// The iterator walks the nodes as they stood when it was created;
/// mutating the set afterwards does not disturb it.
pub struct Iter<T> {
    nodes: Vec<Node<T>>,
    pos: usize,
}

impl<T> Iter<T> {
    /// The cursor stands inside its sequence.
    pub closed spec fn inv(&self) -> bool {
        self.pos <= self.nodes@.len()
    }

    /// The handles not yet handed out, in order.
    pub closed spec fn remaining(&self) -> Seq<Node<T>> {
        self.nodes@.skip(self.pos as int)
    }

    pub(crate) fn make(nodes: Vec<Node<T>>) -> (it: Iter<T>)
        ensures
            it.inv(),
            it.remaining() == nodes@,
    {
        let it = Iter { nodes, pos: 0 };
        proof {
            assert(it.remaining() =~= it.nodes@);
        }
        it
    }

    /// Hands out the next node handle, advancing the cursor; `None` once
    /// the sequence is exhausted.
    pub fn next(&mut self) -> (r: Option<Node<T>>)
        where
            T: Copy,
        requires
            old(self).inv(),
        ensures
            final (self).inv(),
            old(self).remaining().len() == 0 ==> r is None && final (self).remaining() == old(
                self,
            ).remaining(),
            old(self).remaining().len() > 0 ==> (r matches Some(n) && n == old(
                self,
            ).remaining()[0]) && final (self).remaining() == old(self).remaining().drop_first(),
    {
        if self.pos < self.nodes.len() {
            let n = self.nodes[self.pos];
            self.pos = self.pos + 1;
            proof {
                assert(final (self).remaining() =~= old(self).remaining().drop_first());
            }
            Some(n)
        } else {
            None
        }
    }
}

/// An iterator over copies of the stored values in ascending order.
/// Created with [`RBTreeSet::values`] or [`RBTreeSet::values_from`].
pub struct IterValues<T> {
    inner: Iter<T>,
}

impl<T> IterValues<T> {
    /// The cursor stands inside its sequence.
    pub closed spec fn inv(&self) -> bool {
        self.inner.inv()
    }

    /// The values not yet handed out, in order.
    pub closed spec fn remaining(&self) -> Seq<T> {
        vals_of(self.inner.remaining())
    }

    /// Hands out a copy of the next value, advancing the cursor; `None`
    /// once the sequence is exhausted.
    pub fn next(&mut self) -> (r: Option<T>)
        where
            T: Copy,
        requires
            old(self).inv(),
        ensures
            final (self).inv(),
            old(self).remaining().len() == 0 ==> r is None && final (self).remaining() == old(
                self,
            ).remaining(),
            old(self).remaining().len() > 0 ==> r == Some(old(self).remaining()[0]) && final (
            self).remaining() == old(self).remaining().drop_first(),
    {
        let r = self.inner.next();
        proof {
            if old(self).remaining().len() > 0 {
                assert(final (self).remaining() =~= old(self).remaining().drop_first());
            }
        }
        match r {
            Some(n) => Some(n.clone_data()),
            None => None,
        }
    }
}

/// Pushes every node of the subtree onto `out`, in order.
fn collect_nodes<T: Keyed>(t: &Tree<T>, out: &mut Vec<Node<T>>)
    ensures
        vals_of(final (out)@) == vals_of(old(out)@) + t.inorder(),
    decreases *t,
{
    match t {
        Tree::Leaf => {
            proof {
                assert(vals_of(out@) =~= vals_of(old(out)@) + t.inorder());
            }
        },
        Tree::Node { colour, left, value, right } => {
            collect_nodes(&**left, out);
            out.push(Node::make(*value, *colour));
            proof {
                assert(vals_of(out@) =~= vals_of(old(out)@) + left.inorder() + seq![*value]);
            }
            collect_nodes(&**right, out);
            proof {
                assert(vals_of(out@) =~= vals_of(old(out)@) + t.inorder());
            }
        },
    }
}

/// Pushes copies of every value of the subtree onto `out`, in order.
pub(crate) fn collect_vals<T: Keyed>(t: &Tree<T>, out: &mut Vec<T>)
    ensures
        final (out)@ == old(out)@ + t.inorder(),
    decreases *t,
{
    match t {
        Tree::Leaf => {
            proof {
                assert(out@ =~= old(out)@ + t.inorder());
            }
        },
        Tree::Node { colour, left, value, right } => {
            collect_vals(&**left, out);
            out.push(*value);
            proof {
                assert(out@ =~= old(out)@ + left.inorder() + seq![*value]);
            }
            collect_vals(&**right, out);
            proof {
                assert(out@ =~= old(out)@ + t.inorder());
            }
        },
    }
}

/// Pushes onto `out`, in order, every node of the subtree whose key is at
/// least the key of `x`.
fn collect_from<T: Keyed>(t: &Tree<T>, x: &T, out: &mut Vec<Node<T>>)
    requires
        t.ordered(),
    ensures
        vals_of(final (out)@) == vals_of(old(out)@) + tail_from(t.inorder(), x.key()),
    decreases *t,
{
    match t {
        Tree::Leaf => {
            proof {
                assert(vals_of(out@) =~= vals_of(old(out)@) + tail_from(t.inorder(), x.key()));
            }
        },
        Tree::Node { colour, left, value, right } => {
            proof {
                left.lemma_below_iff(value.key());
                lemma_tail_from_concat(left.inorder(), *value, right.inorder(), x.key());
            }
            if value.lt(x) {
                collect_from(&**right, x, out);
            } else {
                collect_from(&**left, x, out);
                out.push(Node::make(*value, *colour));
                proof {
                    assert(vals_of(out@) =~= vals_of(old(out)@) + tail_from(
                        left.inorder(),
                        x.key(),
                    ) + seq![*value]);
                }
                collect_nodes(&**right, out);
                proof {
                    assert(vals_of(out@) =~= vals_of(old(out)@) + tail_from(
                        t.inorder(),
                        x.key(),
                    ));
                }
            }
        },
    }
}

impl<T: Keyed> RBTreeSet<T> {
    /// Gets an iterator visiting the nodes of the set in ascending order.
    pub fn iter(&self) -> (it: Iter<T>)
        requires
            self.wf(),
        ensures
            it.inv(),
            vals_of(it.remaining()) == self@,
    {
        let mut nodes: Vec<Node<T>> = Vec::new();
        collect_nodes(self.borrow_root(), &mut nodes);
        proof {
            assert(vals_of(nodes@) =~= self@);
        }
        Iter::make(nodes)
    }

    /// Gets an iterator visiting the nodes of the set in ascending order,
    /// starting at the given node.
    pub fn iter_from(&self, node: &Node<T>) -> (it: Iter<T>)
        requires
            self.wf(),
        ensures
            it.inv(),
            vals_of(it.remaining()) == tail_from(self@, node.val().key()),
    {
        let mut nodes: Vec<Node<T>> = Vec::new();
        let v = node.clone_data();
        collect_from(self.borrow_root(), &v, &mut nodes);
        proof {
            assert(vals_of(nodes@) =~= tail_from(self@, node.val().key()));
        }
        Iter::make(nodes)
    }

    /// Gets an iterator visiting copies of the values of the set in
    /// ascending order.
    pub fn values(&self) -> (it: IterValues<T>)
        requires
            self.wf(),
        ensures
            it.inv(),
            it.remaining() == self@,
    {
        IterValues { inner: self.iter() }
    }

    /// Gets an iterator visiting copies of the values of the set in
    /// ascending order, starting at the given node.
    pub fn values_from(&self, node: &Node<T>) -> (it: IterValues<T>)
        requires
            self.wf(),
        ensures
            it.inv(),
            it.remaining() == tail_from(self@, node.val().key()),
    {
        IterValues { inner: self.iter_from(node) }
    }
}

} // verus!
