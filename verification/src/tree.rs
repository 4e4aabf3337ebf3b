//! The set itself: a root, a length, and the public operations, each
//! specified against the sorted in-order sequence view.

use crate::insert::ins;
use crate::node::Colour;
use crate::node::Node;
use crate::rb::ascending;
use crate::rb::del_seq;
use crate::rb::find_subtree;
use crate::rb::ins_seq;
use crate::rb::lemma_del_seq_props;
use crate::rb::lemma_ins_seq_props;
use crate::rb::paint;
use crate::rb::seq_has_key;
use crate::rb::Tree;
use crate::remove::del;
use crate::Keyed;
use vstd::prelude::*;

verus! {

/// A set based on a red-black tree.
///
/// The set keeps its elements sorted by their [`Keyed`] keys at all times;
/// insertion, lookup and removal all run in logarithmic time. Its
/// specification view (`@`) is the strictly ascending sequence of stored
/// values.
pub struct RBTreeSet<T> {
    root: Tree<T>,
    length: usize,
}

impl<T> RBTreeSet<T> {
    /// The tree standing behind the set.
    pub closed spec fn rep(&self) -> Tree<T> {
        self.root
    }

    /// The stored element count.
    pub closed spec fn spec_len(&self) -> nat {
        self.length as nat
    }

    /// The recorded length fits a machine word.
    pub proof fn lemma_len_fits(&self)
        ensures
            self.spec_len() <= usize::MAX,
    {
    }

    pub(crate) fn borrow_root(&self) -> (r: &Tree<T>)
        ensures
            *r == self.rep(),
    {
        &self.root
    }
}

impl<T> View for RBTreeSet<T> {
    type V = Seq<T>;

    open spec fn view(&self) -> Seq<T> {
        self.rep().inorder()
    }
}

impl<T: Keyed> RBTreeSet<T> {
    /// Well-formedness: search order, the red-black colour invariants
    /// (root Black, no Red-Red edge, equal black heights), and a length
    /// field agreeing with the tree's contents.
    pub open spec fn wf(&self) -> bool {
        &&& self.rep().wf()
        &&& self.rep().colour() is Black
        &&& self.spec_len() == self@.len()
    }

    /// The view of a well-formed set is strictly ascending: iteration
    /// yields the values in strictly increasing key order.
    pub proof fn lemma_ascending(&self)
        requires
            self.wf(),
        ensures
            ascending(self@),
    {
        self.rep().lemma_ordered_iff();
    }

    /// The red-black invariants stand in every well-formed set — the root
    /// is Black, no Red node has a Red child, every path from a node to a
    /// null position crosses the same number of Black nodes — and the
    /// recorded length equals the count of a full traversal.
    pub proof fn lemma_red_black_invariants(&self)
        requires
            self.wf(),
        ensures
            self.rep().colour() is Black,
            self.rep().no_red_red(),
            self.rep().balanced(),
            self.spec_len() == self@.len(),
    {
    }

    /// Makes a new, empty `RBTreeSet`.
    pub fn new() -> (s: RBTreeSet<T>)
        ensures
            s.wf(),
            s@ == Seq::<T>::empty(),
    {
        RBTreeSet { root: Tree::Leaf, length: 0 }
    }

    /// Returns the number of elements in the set.
    pub fn len(&self) -> (n: usize)
        requires
            self.wf(),
        ensures
            n == self@.len(),
    {
        self.length
    }

    /// Returns true if the set contains no elements.
    pub fn is_empty(&self) -> (b: bool)
        requires
            self.wf(),
        ensures
            b == (self@.len() == 0),
    {
        self.length == 0
    }

    /// Clears the set, removing all values.
    pub fn clear(&mut self)
        ensures
            final (self).wf(),
            final (self)@ == Seq::<T>::empty(),
    {
        self.root = Tree::Leaf;
        self.length = 0;
    }

    /// Returns the node in the set, if any, whose value matches (shares
    /// its key with) the given value.
    pub fn get_node(&self, data: &T) -> (r: Option<Node<T>>)
        requires
            self.wf(),
        ensures
            r is Some <==> seq_has_key(self@, data.key()),
            r matches Some(n) ==> n.val().key() == data.key() && self@.contains(n.val())
                && n.col() == self.rep().find_sub(data.key()).colour(),
    {
        proof {
            self.rep().lemma_has_key_iff(data.key());
        }
        find_node(&self.root, data)
    }

    /// Returns a copy of the value in the set, if any, matching the given
    /// value.
    pub fn get(&self, data: &T) -> (r: Option<T>)
        requires
            self.wf(),
        ensures
            r is Some <==> seq_has_key(self@, data.key()),
            r matches Some(u) ==> u.key() == data.key() && self@.contains(u),
    {
        match self.get_node(data) {
            Some(n) => Some(n.clone_data()),
            None => None,
        }
    }

    /// Adds a value to the set.
    ///
    /// If no value with the same key was present, the value is placed at
    /// its sorted position and a handle to the new node is returned. If a
    /// matching value was already present, nothing changes and `None` is
    /// returned.
    pub fn insert(&mut self, data: T) -> (r: Option<Node<T>>)
        requires
            old(self).wf(),
            old(self)@.len() < usize::MAX,
        ensures
            final (self).wf(),
            seq_has_key(old(self)@, data.key()) ==> r is None && *final (self) == *old(self),
            !seq_has_key(old(self)@, data.key()) ==> final (self)@ == ins_seq(old(self)@, data)
                && final (self)@.len() == old(self)@.len() + 1 && (r matches Some(n)
                && n.val() == data),
    {
        proof {
            old(self).rep().lemma_ordered_iff();
            old(self).rep().lemma_has_key_iff(data.key());
            lemma_ins_seq_props(old(self)@, data);
        }
        let mut root = Tree::Leaf;
        std::mem::swap(&mut root, &mut self.root);
        let (nt, did) = ins(root, data);
        if did {
            let painted = paint(nt, Colour::Black);
            proof {
                assert(painted.inorder() =~= nt.inorder());
                assert(painted.no_red_red());
                assert(painted.balanced());
                painted.lemma_ordered_iff();
            }
            self.root = painted;
            self.length = self.length + 1;
            let r = self.get_node(&data);
            proof {
                if r is Some {
                    let n = r.unwrap();
                    assert(self@.contains(n.val()));
                    let i = choose|i: int| 0 <= i < self@.len() && self@[i] == n.val();
                    if self@[i] != data {
                        assert(old(self)@.contains(self@[i]));
                        let j = choose|j: int|
                            0 <= j < old(self)@.len() && old(self)@[j] == self@[i];
                        assert(old(self)@[j].key() == data.key());
                        assert(false);
                    }
                }
            }
            r
        } else {
            self.root = nt;
            None
        }
    }

    /// Removes the value matching `data` from the set, if present.
    /// Returns whether a matching value was found and removed; an absent
    /// value causes no mutation at all.
    pub fn remove(&mut self, data: &T) -> (r: bool)
        requires
            old(self).wf(),
        ensures
            final (self).wf(),
            r == seq_has_key(old(self)@, data.key()),
            final (self)@ == del_seq(old(self)@, data.key()),
            r ==> final (self)@.len() + 1 == old(self)@.len(),
            !r ==> *final (self) == *old(self),
    {
        proof {
            old(self).rep().lemma_ordered_iff();
            old(self).rep().lemma_has_key_iff(data.key());
            lemma_del_seq_props(old(self)@, data.key());
        }
        let mut root = Tree::Leaf;
        std::mem::swap(&mut root, &mut self.root);
        let (nt, rem, _deficit) = del(root, data);
        if rem {
            let painted = paint(nt, Colour::Black);
            proof {
                assert(painted.inorder() =~= nt.inorder());
                assert(painted.no_red_red());
                assert(painted.balanced());
                painted.lemma_ordered_iff();
            }
            self.root = painted;
            self.length = self.length - 1;
            true
        } else {
            self.root = nt;
            false
        }
    }

    /// Removes the node the handle stands for. The handle is expected to
    /// belong to this set; membership is checked, and a stale handle —
    /// one whose value is no longer present — removes nothing.
    pub fn remove_node(&mut self, node: &mut Node<T>)
        requires
            old(self).wf(),
        ensures
            final (self).wf(),
            final (self)@ == del_seq(old(self)@, old(node).val().key()),
            seq_has_key(old(self)@, old(node).val().key()) ==> final (self)@.len() + 1 == old(
                self,
            )@.len(),
            !seq_has_key(old(self)@, old(node).val().key()) ==> *final (self) == *old(self),
            *final (node) == *old(node),
    {
        let v = node.clone_data();
        let _removed = self.remove(&v);
    }

    /// Overwrites the stored value of the node the handle stands for with
    /// `data`. The new value must keep the node's key, so the node keeps
    /// its position in the order. Nothing changes when no node matches
    /// the handle.
    pub fn set_data(&mut self, node: &Node<T>, data: T)
        requires
            old(self).wf(),
            data.key() == node.val().key(),
        ensures
            final (self).wf(),
            seq_has_key(old(self)@, node.val().key()) ==> final (self)@ == ins_seq(
                del_seq(old(self)@, node.val().key()),
                data,
            ),
            !seq_has_key(old(self)@, node.val().key()) ==> *final (self) == *old(self),
    {
        proof {
            old(self).lemma_len_fits();
            old(self).lemma_ascending();
            lemma_del_seq_props(old(self)@, data.key());
        }
        let had = self.remove(&data);
        if had {
            let _n = self.insert(data);
        }
    }

    /// Returns a handle to the first (least) node of the set, if any.
    pub fn first(&self) -> (r: Option<Node<T>>)
        requires
            self.wf(),
        ensures
            r is None <==> self@.len() == 0,
            r matches Some(n) ==> self@.len() > 0 && n.val() == self@[0],
    {
        match &self.root {
            Tree::Leaf => None,
            _ => Some(min_node(&self.root)),
        }
    }

    /// Returns a handle to the last (greatest) node of the set, if any.
    pub fn last(&self) -> (r: Option<Node<T>>)
        requires
            self.wf(),
        ensures
            r is None <==> self@.len() == 0,
            r matches Some(n) ==> self@.len() > 0 && n.val() == self@.last(),
    {
        match &self.root {
            Tree::Leaf => None,
            _ => Some(max_node(&self.root)),
        }
    }
}

impl<T: Keyed> RBTreeSet<T> {
    /// A handle to the root node, if any.
    pub fn root_node(&self) -> (r: Option<Node<T>>)
        ensures
            r is None <==> self.rep() is Leaf,
            r matches Some(n) ==> (self.rep() matches Tree::Node { colour, value, .. }
                && n.val() == value && n.col() == colour),
    {
        match &self.root {
            Tree::Leaf => None,
            Tree::Node { colour, value, .. } => Some(Node::make(*value, *colour)),
        }
    }

    /// A handle to the left child of the node the handle stands for, if
    /// that node is present and has one.
    pub fn left_child(&self, node: &Node<T>) -> (r: Option<Node<T>>)
        ensures
            r matches Some(c) ==> (self.rep().find_sub(node.val().key()) matches Tree::Node {
                left,
                ..
            } && (*left matches Tree::Node { colour, value, .. } && c.val() == value && c.col()
                == colour)),
            r is None <==> !(self.rep().find_sub(node.val().key()) matches Tree::Node { left, .. }
                && *left is Node),
    {
        let v = node.clone_data();
        match find_subtree(&self.root, &v) {
            Tree::Leaf => None,
            Tree::Node { left, .. } => match &**left {
                Tree::Leaf => None,
                Tree::Node { colour, value, .. } => Some(Node::make(*value, *colour)),
            },
        }
    }

    /// A handle to the right child of the node the handle stands for, if
    /// that node is present and has one.
    pub fn right_child(&self, node: &Node<T>) -> (r: Option<Node<T>>)
        ensures
            r matches Some(c) ==> (self.rep().find_sub(node.val().key()) matches Tree::Node {
                right,
                ..
            } && (*right matches Tree::Node { colour, value, .. } && c.val() == value && c.col()
                == colour)),
            r is None <==> !(self.rep().find_sub(node.val().key()) matches Tree::Node {
                right,
                ..
            } && *right is Node),
    {
        let v = node.clone_data();
        match find_subtree(&self.root, &v) {
            Tree::Leaf => None,
            Tree::Node { right, .. } => match &**right {
                Tree::Leaf => None,
                Tree::Node { colour, value, .. } => Some(Node::make(*value, *colour)),
            },
        }
    }
}

impl<T: Keyed> Default for RBTreeSet<T> {
    /// The empty set.
    fn default() -> (s: Self)
        ensures
            s.wf(),
            s@ == Seq::<T>::empty(),
    {
        RBTreeSet::new()
    }
}

impl<T: Keyed> Clone for RBTreeSet<T> {
    /// A deep copy: an independent tree with the same shape, colours and
    /// values. Mutating either set afterwards cannot touch the other.
    fn clone(&self) -> (res: Self)
        ensures
            res == *self,
    {
        RBTreeSet { root: copy_tree(&self.root), length: self.length }
    }
}

/// Searches the subtree for a value sharing `x`'s key and snapshots it.
fn find_node<T: Keyed>(t: &Tree<T>, x: &T) -> (r: Option<Node<T>>)
    requires
        t.ordered(),
    ensures
        r is Some <==> t.has_key(x.key()),
        r matches Some(n) ==> n.val().key() == x.key() && t.inorder().contains(n.val())
            && n.col() == t.find_sub(x.key()).colour(),
    decreases *t,
{
    match t {
        Tree::Leaf => None,
        Tree::Node { colour, left, value, right } => {
            if x.eq_key(value) {
                proof {
                    assert(t.inorder()[left.inorder().len() as int] == *value);
                }
                Some(Node::make(*value, *colour))
            } else if x.lt(value) {
                proof {
                    right.lemma_bounds_mono(value.key(), x.key());
                    right.lemma_bounds_exclude(x.key());
                }
                let r = find_node(&**left, x);
                proof {
                    if r is Some {
                        let n = r.unwrap();
                        let i = choose|i: int|
                            0 <= i < left.inorder().len() && left.inorder()[i] == n.val();
                        assert(t.inorder()[i] == n.val());
                    }
                }
                r
            } else {
                proof {
                    left.lemma_bounds_mono(value.key(), x.key());
                    left.lemma_bounds_exclude(x.key());
                }
                let r = find_node(&**right, x);
                proof {
                    if r is Some {
                        let n = r.unwrap();
                        let i = choose|i: int|
                            0 <= i < right.inorder().len() && right.inorder()[i] == n.val();
                        assert(t.inorder()[left.inorder().len() + 1 + i] == n.val());
                    }
                }
                r
            }
        },
    }
}

/// Snapshots the leftmost node of a non-empty subtree.
fn min_node<T: Keyed>(t: &Tree<T>) -> (n: Node<T>)
    requires
        *t is Node,
    ensures
        t.inorder().len() > 0,
        n.val() == t.inorder()[0],
    decreases *t,
{
    match t {
        Tree::Leaf => unreached(),
        Tree::Node { colour, left, value, right } => {
            match &**left {
                Tree::Leaf => {
                    proof {
                        assert(left.inorder() =~= Seq::<T>::empty());
                        assert(t.inorder()[0] == *value);
                    }
                    Node::make(*value, *colour)
                },
                _ => {
                    let n = min_node(&**left);
                    proof {
                        assert(t.inorder()[0] == left.inorder()[0]);
                    }
                    n
                },
            }
        },
    }
}

/// Snapshots the rightmost node of a non-empty subtree.
fn max_node<T: Keyed>(t: &Tree<T>) -> (n: Node<T>)
    requires
        *t is Node,
    ensures
        t.inorder().len() > 0,
        n.val() == t.inorder().last(),
    decreases *t,
{
    match t {
        Tree::Leaf => unreached(),
        Tree::Node { colour, left, value, right } => {
            match &**right {
                Tree::Leaf => {
                    proof {
                        assert(right.inorder() =~= Seq::<T>::empty());
                        assert(t.inorder().last() == *value);
                    }
                    Node::make(*value, *colour)
                },
                _ => {
                    let n = max_node(&**right);
                    proof {
                        assert(t.inorder().last() == right.inorder().last());
                    }
                    n
                },
            }
        },
    }
}

/// Copies a subtree deeply; the copy equals the original, value for value
/// and colour for colour, while sharing no storage with it.
fn copy_tree<T: Keyed>(t: &Tree<T>) -> (r: Tree<T>)
    ensures
        r == *t,
    decreases *t,
{
    match t {
        Tree::Leaf => Tree::Leaf,
        Tree::Node { colour, left, value, right } => Tree::Node {
            colour: *colour,
            left: Box::new(copy_tree(&**left)),
            value: *value,
            right: Box::new(copy_tree(&**right)),
        },
    }
}

} // verus!
