//! The tree representation and its specification: in-order contents,
//! binary-search-tree ordering, and the red-black colour invariants.

use crate::node::Colour;
use crate::Keyed;
use vstd::prelude::*;

verus! {

/// A red-black tree of values ordered by their [`Keyed`] keys.
///
/// This type is exposed so that the set's specifications can speak of the
/// tree structure (colours, black heights); ordinary callers work with the
/// set type and its sequence view instead.
pub enum Tree<T> {
    Leaf,
    Node { colour: Colour, left: Box<Tree<T>>, value: T, right: Box<Tree<T>> },
}

impl<T> Tree<T> {
    /// The in-order sequence of values held by this subtree.
    pub open spec fn inorder(self) -> Seq<T>
        decreases self,
    {
        match self {
            Tree::Leaf => Seq::empty(),
            Tree::Node { colour, left, value, right } => left.inorder() + seq![value]
                + right.inorder(),
        }
    }

    /// The colour of the subtree's root; an absent child counts as Black.
    pub open spec fn colour(self) -> Colour {
        match self {
            Tree::Leaf => Colour::Black,
            Tree::Node { colour, .. } => colour,
        }
    }

    /// Number of Black nodes on the path from the root to the leftmost null
    /// position. Under [`Self::balanced`] every root-to-null path agrees
    /// with this count.
    pub open spec fn bh(self) -> nat
        decreases self,
    {
        match self {
            Tree::Leaf => 0,
            Tree::Node { colour, left, .. } => left.bh() + if colour is Black {
                1nat
            } else {
                0nat
            },
        }
    }

    /// Both children of every node carry the same black height.
    pub open spec fn balanced(self) -> bool
        decreases self,
    {
        match self {
            Tree::Leaf => true,
            Tree::Node { left, right, .. } => left.balanced() && right.balanced() && left.bh()
                == right.bh(),
        }
    }

    /// No Red node has a Red child anywhere in the subtree.
    pub open spec fn no_red_red(self) -> bool
        decreases self,
    {
        match self {
            Tree::Leaf => true,
            Tree::Node { colour, left, right, .. } => left.no_red_red() && right.no_red_red() && (
            colour is Red ==> left.colour() is Black && right.colour() is Black),
        }
    }

    /// Like [`Self::no_red_red`], but the root's own edge to a child is
    /// exempt, and when the root is Red at most one of its children is Red.
    /// This is the state a subtree may be in while an insertion fixup is
    /// still travelling upward.
    pub open spec fn near_red_ok(self) -> bool {
        match self {
            Tree::Leaf => true,
            Tree::Node { colour, left, right, .. } => left.no_red_red() && right.no_red_red() && (
            colour is Red ==> left.colour() is Black || right.colour() is Black),
        }
    }
}

impl<T> Tree<T> {
    /// The same subtree with its root repainted `c`; a leaf is unchanged.
    pub open spec fn repaint(self, c: Colour) -> Tree<T> {
        match self {
            Tree::Leaf => self,
            Tree::Node { colour, left, value, right } => Tree::Node {
                colour: c,
                left,
                value,
                right,
            },
        }
    }

    /// Freedom of red-red violations implies the weaker near-root form.
    pub proof fn lemma_nrr_near(self)
        ensures
            self.no_red_red() ==> self.near_red_ok(),
    {
    }
}

/// Whether the subtree's root is Red.
pub(crate) fn is_red<T>(t: &Tree<T>) -> (b: bool)
    ensures
        b == (t.colour() is Red),
{
    match t {
        Tree::Node { colour: Colour::Red, .. } => true,
        _ => false,
    }
}

/// Repaints the root of the subtree; a leaf is returned unchanged.
pub(crate) fn paint<T>(t: Tree<T>, c: Colour) -> (r: Tree<T>)
    ensures
        r == t.repaint(c),
{
    match t {
        Tree::Leaf => Tree::Leaf,
        Tree::Node { colour, left, value, right } => Tree::Node { colour: c, left, value, right },
    }
}

impl<T: Keyed> Tree<T> {
    /// Every key in the subtree lies strictly below `k`.
    pub open spec fn below(self, k: int) -> bool
        decreases self,
    {
        match self {
            Tree::Leaf => true,
            Tree::Node { left, value, right, .. } => value.key() < k && left.below(k)
                && right.below(k),
        }
    }

    /// Every key in the subtree lies strictly above `k`.
    pub open spec fn above(self, k: int) -> bool
        decreases self,
    {
        match self {
            Tree::Leaf => true,
            Tree::Node { left, value, right, .. } => value.key() > k && left.above(k)
                && right.above(k),
        }
    }

    /// Binary-search-tree ordering: left subtrees hold smaller keys, right
    /// subtrees larger ones, at every node.
    pub open spec fn ordered(self) -> bool
        decreases self,
    {
        match self {
            Tree::Leaf => true,
            Tree::Node { left, value, right, .. } => left.ordered() && right.ordered()
                && left.below(value.key()) && right.above(value.key()),
        }
    }

    /// Whether the subtree holds a value with key `k`.
    pub open spec fn has_key(self, k: int) -> bool
        decreases self,
    {
        match self {
            Tree::Leaf => false,
            Tree::Node { left, value, right, .. } => value.key() == k || left.has_key(k)
                || right.has_key(k),
        }
    }

    /// The full well-formedness of a subtree standing inside the set:
    /// search order plus both red-black colour invariants.
    pub open spec fn wf(self) -> bool {
        self.ordered() && self.no_red_red() && self.balanced()
    }

    /// The subtree rooted at the node found by a binary-search descent for
    /// key `k`; a leaf when the descent falls off the tree.
    pub open spec fn find_sub(self, k: int) -> Tree<T>
        decreases self,
    {
        match self {
            Tree::Leaf => Tree::Leaf,
            Tree::Node { colour, left, value, right } => if k < value.key() {
                left.find_sub(k)
            } else if value.key() < k {
                right.find_sub(k)
            } else {
                self
            },
        }
    }
}

/// Walks the binary-search descent for the key of `x` and borrows the
/// subtree where it ends.
pub(crate) fn find_subtree<'a, T: Keyed>(t: &'a Tree<T>, x: &T) -> (r: &'a Tree<T>)
    ensures
        *r == t.find_sub(x.key()),
    decreases *t,
{
    match t {
        Tree::Leaf => t,
        Tree::Node { colour, left, value, right } => {
            if x.lt(value) {
                find_subtree(&**left, x)
            } else if value.lt(x) {
                find_subtree(&**right, x)
            } else {
                t
            }
        },
    }
}

/// Keys strictly ascend along the sequence.
pub open spec fn ascending<T: Keyed>(s: Seq<T>) -> bool {
    forall|i: int, j: int| 0 <= i < j < s.len() ==> s[i].key() < s[j].key()
}

/// Whether some element of the sequence carries key `k`.
pub open spec fn seq_has_key<T: Keyed>(s: Seq<T>, k: int) -> bool {
    exists|i: int| 0 <= i < s.len() && s[i].key() == k
}

/// The sequence `s` with `v` placed at its sorted position; if a value with
/// the same key is already present the sequence is returned unchanged.
pub open spec fn ins_seq<T: Keyed>(s: Seq<T>, v: T) -> Seq<T>
    decreases s.len(),
{
    if s.len() == 0 {
        seq![v]
    } else if v.key() < s[0].key() {
        seq![v] + s
    } else if v.key() == s[0].key() {
        s
    } else {
        seq![s[0]] + ins_seq(s.drop_first(), v)
    }
}

/// The sequence `s` with the first element of key `k` dropped; `s` itself
/// when no element carries that key.
pub open spec fn del_seq<T: Keyed>(s: Seq<T>, k: int) -> Seq<T>
    decreases s.len(),
{
    if s.len() == 0 {
        s
    } else if s[0].key() == k {
        s.drop_first()
    } else {
        seq![s[0]] + del_seq(s.drop_first(), k)
    }
}

/// Every key of the sequence lies strictly below `k`.
pub open spec fn all_keys_lt<T: Keyed>(s: Seq<T>, k: int) -> bool {
    forall|i: int| 0 <= i < s.len() ==> #[trigger] s[i].key() < k
}

/// Every key of the sequence lies strictly above `k`.
pub open spec fn all_keys_gt<T: Keyed>(s: Seq<T>, k: int) -> bool {
    forall|i: int| 0 <= i < s.len() ==> #[trigger] s[i].key() > k
}

impl<T: Keyed> Tree<T> {
    /// `below` says exactly that every in-order key is smaller than `k`.
    pub proof fn lemma_below_iff(self, k: int)
        ensures
            self.below(k) <==> all_keys_lt(self.inorder(), k),
        decreases self,
    {
        match self {
            Tree::Leaf => {},
            Tree::Node { colour, left, value, right } => {
                left.lemma_below_iff(k);
                right.lemma_below_iff(k);
                let a = left.inorder();
                let b = right.inorder();
                let s = self.inorder();
                assert(s == a + seq![value] + b);
                assert forall|i: int| 0 <= i < a.len() implies a[i] == s[i] by {}
                assert forall|i: int| 0 <= i < b.len() implies b[i] == s[a.len() + 1 + i] by {}
                assert(s[a.len() as int] == value);
                if self.below(k) {
                    assert forall|i: int| 0 <= i < s.len() implies s[i].key() < k by {
                        if i < a.len() {
                            assert(s[i] == a[i]);
                        } else if i == a.len() {
                        } else {
                            assert(s[i] == b[i - a.len() - 1]);
                        }
                    }
                }
                if all_keys_lt(s, k) {
                    assert forall|i: int| 0 <= i < a.len() implies a[i].key() < k by {
                        assert(a[i] == s[i]);
                    }
                    assert forall|i: int| 0 <= i < b.len() implies b[i].key() < k by {
                        assert(b[i] == s[a.len() + 1 + i]);
                    }
                }
            },
        }
    }

    /// `above` says exactly that every in-order key is larger than `k`.
    pub proof fn lemma_above_iff(self, k: int)
        ensures
            self.above(k) <==> all_keys_gt(self.inorder(), k),
        decreases self,
    {
        match self {
            Tree::Leaf => {},
            Tree::Node { colour, left, value, right } => {
                left.lemma_above_iff(k);
                right.lemma_above_iff(k);
                let a = left.inorder();
                let b = right.inorder();
                let s = self.inorder();
                assert(s == a + seq![value] + b);
                assert forall|i: int| 0 <= i < a.len() implies a[i] == s[i] by {}
                assert forall|i: int| 0 <= i < b.len() implies b[i] == s[a.len() + 1 + i] by {}
                assert(s[a.len() as int] == value);
                if self.above(k) {
                    assert forall|i: int| 0 <= i < s.len() implies s[i].key() > k by {
                        if i < a.len() {
                            assert(s[i] == a[i]);
                        } else if i == a.len() {
                        } else {
                            assert(s[i] == b[i - a.len() - 1]);
                        }
                    }
                }
                if all_keys_gt(s, k) {
                    assert forall|i: int| 0 <= i < a.len() implies a[i].key() > k by {
                        assert(a[i] == s[i]);
                    }
                    assert forall|i: int| 0 <= i < b.len() implies b[i].key() > k by {
                        assert(b[i] == s[a.len() + 1 + i]);
                    }
                }
            },
        }
    }

    /// Search order of the tree says exactly that the in-order sequence
    /// strictly ascends.
    pub proof fn lemma_ordered_iff(self)
        ensures
            self.ordered() <==> ascending(self.inorder()),
        decreases self,
    {
        match self {
            Tree::Leaf => {},
            Tree::Node { colour, left, value, right } => {
                left.lemma_ordered_iff();
                right.lemma_ordered_iff();
                left.lemma_below_iff(value.key());
                right.lemma_above_iff(value.key());
                let a = left.inorder();
                let b = right.inorder();
                let s = self.inorder();
                assert(s == a + seq![value] + b);
                assert forall|i: int| 0 <= i < a.len() implies a[i] == s[i] by {}
                assert forall|i: int| 0 <= i < b.len() implies b[i] == s[a.len() + 1 + i] by {}
                assert(s[a.len() as int] == value);
                if self.ordered() {
                    assert forall|i: int, j: int| 0 <= i < j < s.len() implies s[i].key()
                        < s[j].key() by {
                        if j < a.len() {
                            assert(s[i] == a[i] && s[j] == a[j]);
                        } else if j == a.len() {
                            assert(s[i] == a[i]);
                        } else {
                            assert(s[j] == b[j - a.len() - 1]);
                            if i < a.len() {
                                assert(s[i] == a[i]);
                            } else if i == a.len() {
                            } else {
                                assert(s[i] == b[i - a.len() - 1]);
                            }
                        }
                    }
                }
                if ascending(s) {
                    assert forall|i: int, j: int| 0 <= i < j < a.len() implies a[i].key()
                        < a[j].key() by {
                        assert(a[i] == s[i] && a[j] == s[j]);
                    }
                    assert forall|i: int, j: int| 0 <= i < j < b.len() implies b[i].key()
                        < b[j].key() by {
                        assert(b[i] == s[a.len() + 1 + i] && b[j] == s[a.len() + 1 + j]);
                    }
                    assert forall|i: int| 0 <= i < a.len() implies a[i].key() < value.key() by {
                        assert(a[i] == s[i]);
                    }
                    assert forall|i: int| 0 <= i < b.len() implies b[i].key() > value.key() by {
                        assert(b[i] == s[a.len() + 1 + i]);
                    }
                }
            },
        }
    }

    /// `has_key` agrees with searching the in-order sequence.
    pub proof fn lemma_has_key_iff(self, k: int)
        ensures
            self.has_key(k) <==> seq_has_key(self.inorder(), k),
        decreases self,
    {
        match self {
            Tree::Leaf => {},
            Tree::Node { colour, left, value, right } => {
                left.lemma_has_key_iff(k);
                right.lemma_has_key_iff(k);
                let a = left.inorder();
                let b = right.inorder();
                let s = self.inorder();
                assert(s == a + seq![value] + b);
                assert forall|i: int| 0 <= i < a.len() implies a[i] == s[i] by {}
                assert forall|i: int| 0 <= i < b.len() implies b[i] == s[a.len() + 1 + i] by {}
                assert(s[a.len() as int] == value);
                if self.has_key(k) {
                    if value.key() == k {
                        assert(s[a.len() as int].key() == k);
                    } else if left.has_key(k) {
                        let i = choose|i: int| 0 <= i < a.len() && a[i].key() == k;
                        assert(s[i].key() == k);
                    } else {
                        let i = choose|i: int| 0 <= i < b.len() && b[i].key() == k;
                        assert(s[a.len() + 1 + i].key() == k);
                    }
                }
                if seq_has_key(s, k) {
                    let i = choose|i: int| 0 <= i < s.len() && s[i].key() == k;
                    if i < a.len() {
                        assert(a[i].key() == k);
                    } else if i == a.len() {
                    } else {
                        assert(b[i - a.len() - 1].key() == k);
                    }
                }
            },
        }
    }

    /// Bounds weaken monotonically.
    pub proof fn lemma_bounds_mono(self, k1: int, k2: int)
        ensures
            self.below(k1) && k1 <= k2 ==> self.below(k2),
            self.above(k1) && k2 <= k1 ==> self.above(k2),
        decreases self,
    {
        match self {
            Tree::Leaf => {},
            Tree::Node { colour, left, value, right } => {
                left.lemma_bounds_mono(k1, k2);
                right.lemma_bounds_mono(k1, k2);
            },
        }
    }

    /// A subtree bounded away from `k` cannot hold key `k`.
    pub proof fn lemma_bounds_exclude(self, k: int)
        ensures
            self.below(k) ==> !self.has_key(k),
            self.above(k) ==> !self.has_key(k),
        decreases self,
    {
        match self {
            Tree::Leaf => {},
            Tree::Node { colour, left, value, right } => {
                left.lemma_bounds_exclude(k);
                right.lemma_bounds_exclude(k);
            },
        }
    }
}

/// Inserting a key smaller than `m`'s settles inside the left part.
pub proof fn lemma_ins_seq_left<T: Keyed>(a: Seq<T>, m: T, b: Seq<T>, v: T)
    requires
        v.key() < m.key(),
    ensures
        ins_seq(a + seq![m] + b, v) == ins_seq(a, v) + seq![m] + b,
    decreases a.len(),
{
    let s = a + seq![m] + b;
    if a.len() == 0 {
        assert(s =~= seq![m] + b);
        assert(s[0] == m);
        assert(ins_seq(s, v) == seq![v] + s);
        assert(ins_seq(a, v) == seq![v]);
        assert(seq![v] + s =~= seq![v] + seq![m] + b);
    } else {
        let h = a[0];
        assert(s[0] == h);
        assert(s.drop_first() =~= a.drop_first() + seq![m] + b);
        if v.key() < h.key() {
            assert(ins_seq(s, v) == seq![v] + s);
            assert(ins_seq(a, v) == seq![v] + a);
            assert(seq![v] + s =~= (seq![v] + a) + seq![m] + b);
        } else if v.key() == h.key() {
            assert(ins_seq(s, v) == s);
            assert(ins_seq(a, v) == a);
        } else {
            lemma_ins_seq_left(a.drop_first(), m, b, v);
            assert(ins_seq(s, v) == seq![h] + (ins_seq(a.drop_first(), v) + seq![m] + b));
            assert(ins_seq(a, v) == seq![h] + ins_seq(a.drop_first(), v));
            assert(seq![h] + (ins_seq(a.drop_first(), v) + seq![m] + b) =~= (seq![h] + ins_seq(
                a.drop_first(),
                v,
            )) + seq![m] + b);
        }
    }
}

/// Inserting a key larger than everything in `a` and than `m`'s settles
/// inside the right part.
pub proof fn lemma_ins_seq_right<T: Keyed>(a: Seq<T>, m: T, b: Seq<T>, v: T)
    requires
        m.key() < v.key(),
        all_keys_lt(a, v.key()),
    ensures
        ins_seq(a + seq![m] + b, v) == a + seq![m] + ins_seq(b, v),
    decreases a.len(),
{
    let s = a + seq![m] + b;
    if a.len() == 0 {
        assert(s =~= seq![m] + b);
        assert(s[0] == m);
        assert(s.drop_first() =~= b);
        assert(ins_seq(s, v) == seq![m] + ins_seq(b, v));
        assert(seq![m] + ins_seq(b, v) =~= a + seq![m] + ins_seq(b, v));
    } else {
        let h = a[0];
        assert(s[0] == h);
        assert(h.key() < v.key());
        assert(s.drop_first() =~= a.drop_first() + seq![m] + b);
        assert forall|i: int| 0 <= i < a.drop_first().len() implies #[trigger] a.drop_first()[i].key()
            < v.key() by {
            assert(a.drop_first()[i] == a[i + 1]);
        }
        lemma_ins_seq_right(a.drop_first(), m, b, v);
        assert(ins_seq(s, v) == seq![h] + (a.drop_first() + seq![m] + ins_seq(b, v)));
        assert(seq![h] + (a.drop_first() + seq![m] + ins_seq(b, v)) =~= a + seq![m] + ins_seq(
            b,
            v,
        ));
    }
}

/// Facts about sorted insertion: it keeps the sequence strictly ascending,
/// grows it by one exactly when the key was absent, and leaves it unchanged
/// when the key was present.
pub proof fn lemma_ins_seq_props<T: Keyed>(s: Seq<T>, v: T)
    requires
        ascending(s),
    ensures
        ascending(ins_seq(s, v)),
        seq_has_key(s, v.key()) ==> ins_seq(s, v) == s,
        !seq_has_key(s, v.key()) ==> ins_seq(s, v).len() == s.len() + 1,
        seq_has_key(ins_seq(s, v), v.key()),
        forall|i: int|
            0 <= i < ins_seq(s, v).len() ==> s.contains(#[trigger] ins_seq(s, v)[i]) || ins_seq(
                s,
                v,
            )[i] == v,
    decreases s.len(),
{
    let r = ins_seq(s, v);
    if s.len() == 0 {
        assert(r == seq![v]);
        assert(r[0] == v);
    } else if v.key() < s[0].key() {
        assert(r == seq![v] + s);
        assert(r[0] == v);
        assert forall|i: int| 0 <= i < r.len() implies s.contains(#[trigger] r[i]) || r[i]
            == v by {
            if i > 0 {
                assert(r[i] == s[i - 1]);
            }
        }
        assert forall|i: int, j: int| 0 <= i < j < r.len() implies r[i].key() < r[j].key() by {
            if i > 0 {
                assert(r[i] == s[i - 1] && r[j] == s[j - 1]);
            } else {
                assert(r[j] == s[j - 1]);
                assert(s[0].key() <= s[j - 1].key());
            }
        }
        assert forall|i: int| 0 <= i < s.len() implies s[i].key() != v.key() by {
            assert(s[0].key() <= s[i].key());
        }
    } else if v.key() == s[0].key() {
        assert(r == s);
        assert(s[0].key() == v.key());
    } else {
        let s1 = s.drop_first();
        assert forall|i: int, j: int| 0 <= i < j < s1.len() implies s1[i].key() < s1[j].key() by {
            assert(s1[i] == s[i + 1] && s1[j] == s[j + 1]);
        }
        lemma_ins_seq_props(s1, v);
        let r1 = ins_seq(s1, v);
        assert(r == seq![s[0]] + r1);
        assert(r[0] == s[0]);
        assert forall|i: int| 0 <= i < r.len() implies s.contains(#[trigger] r[i]) || r[i]
            == v by {
            if i > 0 {
                assert(r[i] == r1[i - 1]);
                if s1.contains(r1[i - 1]) {
                    let j = choose|j: int| 0 <= j < s1.len() && s1[j] == r1[i - 1];
                    assert(s[j + 1] == r1[i - 1]);
                }
            }
        }
        assert forall|i: int, j: int| 0 <= i < j < r.len() implies r[i].key() < r[j].key() by {
            if i > 0 {
                assert(r[i] == r1[i - 1] && r[j] == r1[j - 1]);
            } else {
                assert(r[j] == r1[j - 1]);
                if s1.contains(r1[j - 1]) {
                    let t = choose|t: int| 0 <= t < s1.len() && s1[t] == r1[j - 1];
                    assert(s1[t] == s[t + 1]);
                    assert(s[0].key() < s[t + 1].key());
                }
            }
        }
        // the key found or not found transfers across the first element
        if seq_has_key(s, v.key()) {
            let i = choose|i: int| 0 <= i < s.len() && s[i].key() == v.key();
            assert(i > 0);
            assert(s1[i - 1].key() == v.key());
            assert(r =~= s);
        } else {
            assert forall|i: int| 0 <= i < s1.len() implies s1[i].key() != v.key() by {
                assert(s1[i] == s[i + 1]);
            }
        }
        let w = choose|i: int| 0 <= i < r1.len() && r1[i].key() == v.key();
        assert(r[w + 1].key() == v.key());
    }
}

/// Facts about sorted removal: it keeps the sequence strictly ascending,
/// shrinks it by one exactly when the key was present, only drops elements,
/// and leaves no element with the removed key behind.
pub proof fn lemma_del_seq_props<T: Keyed>(s: Seq<T>, k: int)
    requires
        ascending(s),
    ensures
        ascending(del_seq(s, k)),
        seq_has_key(s, k) ==> del_seq(s, k).len() + 1 == s.len(),
        !seq_has_key(s, k) ==> del_seq(s, k) == s,
        !seq_has_key(del_seq(s, k), k),
        forall|i: int| 0 <= i < del_seq(s, k).len() ==> s.contains(#[trigger] del_seq(s, k)[i]),
    decreases s.len(),
{
    let d = del_seq(s, k);
    if s.len() == 0 {
    } else {
        let s1 = s.drop_first();
        assert forall|i: int, j: int| 0 <= i < j < s1.len() implies s1[i].key() < s1[j].key() by {
            assert(s1[i] == s[i + 1] && s1[j] == s[j + 1]);
        }
        if s[0].key() == k {
            assert(d == s1);
            assert forall|i: int| 0 <= i < d.len() implies s.contains(#[trigger] d[i]) by {
                assert(d[i] == s[i + 1]);
            }
            assert forall|i: int| 0 <= i < d.len() implies d[i].key() != k by {
                assert(d[i] == s[i + 1]);
                assert(s[0].key() < s[i + 1].key());
            }
            assert(s[0].key() == k);
        } else {
            lemma_del_seq_props(s1, k);
            let d1 = del_seq(s1, k);
            assert(d == seq![s[0]] + d1);
            assert(d[0] == s[0]);
            assert forall|i: int| 0 <= i < d.len() implies s.contains(#[trigger] d[i]) by {
                if i > 0 {
                    assert(d[i] == d1[i - 1]);
                    if s1.contains(d1[i - 1]) {
                        let j = choose|j: int| 0 <= j < s1.len() && s1[j] == d1[i - 1];
                        assert(s[j + 1] == d1[i - 1]);
                    }
                }
            }
            assert forall|i: int, j: int| 0 <= i < j < d.len() implies d[i].key() < d[j].key() by {
                if i > 0 {
                    assert(d[i] == d1[i - 1] && d[j] == d1[j - 1]);
                } else {
                    assert(d[j] == d1[j - 1]);
                    if s1.contains(d1[j - 1]) {
                        let t = choose|t: int| 0 <= t < s1.len() && s1[t] == d1[j - 1];
                        assert(s1[t] == s[t + 1]);
                        assert(s[0].key() < s[t + 1].key());
                    }
                }
            }
            assert forall|i: int| 0 <= i < d.len() implies d[i].key() != k by {
                if i > 0 {
                    assert(d[i] == d1[i - 1]);
                }
            }
            if seq_has_key(s, k) {
                let i = choose|i: int| 0 <= i < s.len() && s[i].key() == k;
                assert(i > 0);
                assert(s1[i - 1].key() == k);
            } else {
                assert forall|i: int| 0 <= i < s1.len() implies s1[i].key() != k by {
                    assert(s1[i] == s[i + 1]);
                }
                assert(d =~= s);
            }
        }
    }
}

/// Removing a key smaller than `m`'s happens inside the left part.
pub proof fn lemma_del_seq_left<T: Keyed>(a: Seq<T>, m: T, b: Seq<T>, k: int)
    requires
        k != m.key(),
        !seq_has_key(b, k),
    ensures
        del_seq(a + seq![m] + b, k) == del_seq(a, k) + seq![m] + b,
    decreases a.len(),
{
    let s = a + seq![m] + b;
    if a.len() == 0 {
        assert(s =~= seq![m] + b);
        assert(s[0] == m);
        assert(s.drop_first() =~= b);
        // no element of b carries k, so removal leaves b unchanged
        assert(del_seq(b, k) =~= b) by {
            lemma_del_seq_absent(b, k);
        }
        assert(del_seq(s, k) == seq![m] + del_seq(b, k));
        assert(seq![m] + b =~= a + seq![m] + b);
    } else {
        let h = a[0];
        assert(s[0] == h);
        assert(s.drop_first() =~= a.drop_first() + seq![m] + b);
        if h.key() == k {
            assert(del_seq(s, k) == s.drop_first());
            assert(del_seq(a, k) == a.drop_first());
        } else {
            lemma_del_seq_left(a.drop_first(), m, b, k);
            assert(del_seq(s, k) == seq![h] + (del_seq(a.drop_first(), k) + seq![m] + b));
            assert(del_seq(a, k) == seq![h] + del_seq(a.drop_first(), k));
            assert(seq![h] + (del_seq(a.drop_first(), k) + seq![m] + b) =~= (seq![h] + del_seq(
                a.drop_first(),
                k,
            )) + seq![m] + b);
        }
    }
}

/// Removing a key absent from `a` and different from `m`'s happens inside
/// the right part.
pub proof fn lemma_del_seq_right<T: Keyed>(a: Seq<T>, m: T, b: Seq<T>, k: int)
    requires
        k != m.key(),
        !seq_has_key(a, k),
    ensures
        del_seq(a + seq![m] + b, k) == a + seq![m] + del_seq(b, k),
    decreases a.len(),
{
    let s = a + seq![m] + b;
    if a.len() == 0 {
        assert(s =~= seq![m] + b);
        assert(s[0] == m);
        assert(s.drop_first() =~= b);
        assert(del_seq(s, k) == seq![m] + del_seq(b, k));
        assert(seq![m] + del_seq(b, k) =~= a + seq![m] + del_seq(b, k));
    } else {
        let h = a[0];
        assert(s[0] == h);
        assert(h.key() != k);
        assert(s.drop_first() =~= a.drop_first() + seq![m] + b);
        assert forall|i: int| 0 <= i < a.drop_first().len() implies #[trigger] a.drop_first()[i].key()
            != k by {
            assert(a.drop_first()[i] == a[i + 1]);
        }
        lemma_del_seq_right(a.drop_first(), m, b, k);
        assert(del_seq(s, k) == seq![h] + (a.drop_first() + seq![m] + del_seq(b, k)));
        assert(seq![h] + (a.drop_first() + seq![m] + del_seq(b, k)) =~= a + seq![m] + del_seq(
            b,
            k,
        ));
    }
}

/// Removing the key of `m` itself, absent from `a`, drops exactly `m`.
pub proof fn lemma_del_seq_found<T: Keyed>(a: Seq<T>, m: T, b: Seq<T>)
    requires
        !seq_has_key(a, m.key()),
    ensures
        del_seq(a + seq![m] + b, m.key()) == a + b,
    decreases a.len(),
{
    let s = a + seq![m] + b;
    let k = m.key();
    if a.len() == 0 {
        assert(s =~= seq![m] + b);
        assert(s[0] == m);
        assert(s.drop_first() =~= b);
        assert(b =~= a + b);
    } else {
        let h = a[0];
        assert(s[0] == h);
        assert(h.key() != k);
        assert(s.drop_first() =~= a.drop_first() + seq![m] + b);
        assert forall|i: int| 0 <= i < a.drop_first().len() implies #[trigger] a.drop_first()[i].key()
            != k by {
            assert(a.drop_first()[i] == a[i + 1]);
        }
        lemma_del_seq_found(a.drop_first(), m, b);
        assert(del_seq(s, k) == seq![h] + (a.drop_first() + b));
        assert(seq![h] + (a.drop_first() + b) =~= a + b);
    }
}

/// Inserting a key above every key of a sorted sequence appends.
pub proof fn lemma_ins_seq_append<T: Keyed>(s: Seq<T>, v: T)
    requires
        all_keys_lt(s, v.key()),
    ensures
        ins_seq(s, v) == s.push(v),
    decreases s.len(),
{
    if s.len() == 0 {
        assert(seq![v] =~= s.push(v));
    } else {
        assert(s[0].key() < v.key());
        assert forall|i: int| 0 <= i < s.drop_first().len() implies #[trigger] s.drop_first()[i].key()
            < v.key() by {
            assert(s.drop_first()[i] == s[i + 1]);
        }
        lemma_ins_seq_append(s.drop_first(), v);
        assert(seq![s[0]] + s.drop_first().push(v) =~= s.push(v));
    }
}

/// The suffix of `s` starting at the first element whose key is at least
/// `k`; empty when every key lies below `k`.
pub open spec fn tail_from<T: Keyed>(s: Seq<T>, k: int) -> Seq<T>
    decreases s.len(),
{
    if s.len() == 0 {
        s
    } else if s[0].key() < k {
        tail_from(s.drop_first(), k)
    } else {
        s
    }
}

/// How the suffix-from-`k` of a node's in-order sequence splits around the
/// node's own value.
pub proof fn lemma_tail_from_concat<T: Keyed>(a: Seq<T>, m: T, b: Seq<T>, k: int)
    requires
        all_keys_lt(a, m.key()),
    ensures
        m.key() < k ==> tail_from(a + seq![m] + b, k) == tail_from(b, k),
        m.key() >= k ==> tail_from(a + seq![m] + b, k) == tail_from(a, k) + seq![m] + b,
    decreases a.len(),
{
    let s = a + seq![m] + b;
    if a.len() == 0 {
        assert(s =~= seq![m] + b);
        assert(s[0] == m);
        assert(s.drop_first() =~= b);
        if m.key() >= k {
            assert(tail_from(a, k) + seq![m] + b =~= s);
        }
    } else {
        let h = a[0];
        assert(s[0] == h);
        assert(h.key() < m.key());
        assert(s.drop_first() =~= a.drop_first() + seq![m] + b);
        assert forall|i: int| 0 <= i < a.drop_first().len() implies #[trigger] a.drop_first()[i].key()
            < m.key() by {
            assert(a.drop_first()[i] == a[i + 1]);
        }
        lemma_tail_from_concat(a.drop_first(), m, b, k);
        if h.key() < k {
        } else {
            assert(tail_from(a, k) == a);
            assert(tail_from(s, k) == s);
            assert(a + seq![m] + b =~= tail_from(a, k) + seq![m] + b);
        }
    }
}

/// A sequence without key `k` is left whole by `del_seq`.
pub proof fn lemma_del_seq_absent<T: Keyed>(s: Seq<T>, k: int)
    requires
        !seq_has_key(s, k),
    ensures
        del_seq(s, k) == s,
    decreases s.len(),
{
    if s.len() == 0 {
    } else {
        assert(s[0].key() != k);
        assert forall|i: int| 0 <= i < s.drop_first().len() implies #[trigger] s.drop_first()[i].key()
            != k by {
            assert(s.drop_first()[i] == s[i + 1]);
        }
        lemma_del_seq_absent(s.drop_first(), k);
        assert(seq![s[0]] + s.drop_first() =~= s);
    }
}

} // verus!
