//! Removal with the red-black deletion fixup. A removed Black node leaves
//! its path one Black short ("double black"); the deficit is repaired at
//! the parent by the classical case analysis on the sibling — Red sibling:
//! rotate and retry below; Black sibling with a Red child: one or two
//! rotations; Black sibling without: recolour and push the deficit upward.

use crate::node::Colour;
use crate::rb::del_seq;
use crate::rb::is_red;
use crate::rb::lemma_del_seq_left;
use crate::rb::lemma_del_seq_found;
use crate::rb::lemma_del_seq_right;
use crate::rb::paint;
use crate::rb::Tree;
use crate::Keyed;
use vstd::prelude::*;

verus! {

/// Repairs a one-Black deficit in `l`, the left child of a node carrying
/// `v` with colour `c` and right child (sibling) `r`. Returns the rebuilt
/// subtree and whether the deficit still stands at its root.
#[verifier::rlimit(100)]
fn fix_left<T: Keyed>(c: Colour, l: Tree<T>, v: T, r: Tree<T>) -> (res: (Tree<T>, bool))
    requires
        l.no_red_red(),
        r.no_red_red(),
        l.balanced(),
        r.balanced(),
        l.colour() is Black,
        c is Red ==> r.colour() is Black,
        r.bh() == l.bh() + 1,
    ensures
        res.0.inorder() == l.inorder() + seq![v] + r.inorder(),
        res.0.balanced(),
        res.0.no_red_red(),
        !res.1 ==> res.0.bh() == l.bh() + 1 + (if c is Black {
            1nat
        } else {
            0nat
        }),
        res.1 ==> res.0.bh() == l.bh() + 1 && c is Black && res.0.colour() is Black,
        res.0.colour() is Red ==> c is Red,
    decreases r,
{
    proof {
        reveal_with_fuel(Tree::inorder, 2);
        reveal_with_fuel(Tree::no_red_red, 2);
        reveal_with_fuel(Tree::balanced, 2);
        reveal_with_fuel(Tree::bh, 2);
    }
    match r {
        Tree::Leaf => unreached(),
        Tree::Node { colour: rc, left: rl, value: rv, right: rr } => {
            match rc {
                Colour::Red => {
                    // Red sibling: rotate left at the parent (it turns Red,
                    // the sibling Black) and repair against the new sibling
                    let (inner, d2) = fix_left(Colour::Red, l, v, *rl);
                    let res = Tree::Node {
                        colour: Colour::Black,
                        left: Box::new(inner),
                        value: rv,
                        right: rr,
                    };
                    proof {
                        assert(res.inorder() =~= l.inorder() + seq![v] + r.inorder());
                    }
                    (res, false)
                },
                Colour::Black => {
                    if is_red(&rr) {
                        // far nephew Red: rotate left at the parent
                        let res = Tree::Node {
                            colour: c,
                            left: Box::new(
                                Tree::Node {
                                    colour: Colour::Black,
                                    left: Box::new(l),
                                    value: v,
                                    right: rl,
                                },
                            ),
                            value: rv,
                            right: Box::new(paint(*rr, Colour::Black)),
                        };
                        proof {
                            assert(res.inorder() =~= l.inorder() + seq![v] + r.inorder());
                        }
                        (res, false)
                    } else if is_red(&rl) {
                        // near nephew Red: rotate right at the sibling,
                        // then left at the parent
                        match *rl {
                            Tree::Node { colour: _, left: na, value: nv, right: nb } => {
                                let res = Tree::Node {
                                    colour: c,
                                    left: Box::new(
                                        Tree::Node {
                                            colour: Colour::Black,
                                            left: Box::new(l),
                                            value: v,
                                            right: na,
                                        },
                                    ),
                                    value: nv,
                                    right: Box::new(
                                        Tree::Node {
                                            colour: Colour::Black,
                                            left: nb,
                                            value: rv,
                                            right: rr,
                                        },
                                    ),
                                };
                                proof {
                                    assert(res.inorder() =~= l.inorder() + seq![v] + r.inorder());
                                }
                                (res, false)
                            },
                            Tree::Leaf => unreached(),
                        }
                    } else {
                        // both nephews Black: recolour the sibling Red; the
                        // parent absorbs the deficit if it was Red
                        let res = Tree::Node {
                            colour: Colour::Black,
                            left: Box::new(l),
                            value: v,
                            right: Box::new(
                                Tree::Node {
                                    colour: Colour::Red,
                                    left: rl,
                                    value: rv,
                                    right: rr,
                                },
                            ),
                        };
                        proof {
                            assert(res.inorder() =~= l.inorder() + seq![v] + r.inorder());
                        }
                        match c {
                            Colour::Red => (res, false),
                            Colour::Black => (res, true),
                        }
                    }
                },
            }
        },
    }
}

/// Mirror image of [`fix_left`]: repairs a one-Black deficit in the right
/// child, with the left child as the sibling.
#[verifier::rlimit(100)]
fn fix_right<T: Keyed>(c: Colour, l: Tree<T>, v: T, r: Tree<T>) -> (res: (Tree<T>, bool))
    requires
        l.no_red_red(),
        r.no_red_red(),
        l.balanced(),
        r.balanced(),
        r.colour() is Black,
        c is Red ==> l.colour() is Black,
        l.bh() == r.bh() + 1,
    ensures
        res.0.inorder() == l.inorder() + seq![v] + r.inorder(),
        res.0.balanced(),
        res.0.no_red_red(),
        !res.1 ==> res.0.bh() == r.bh() + 1 + (if c is Black {
            1nat
        } else {
            0nat
        }),
        res.1 ==> res.0.bh() == r.bh() + 1 && c is Black && res.0.colour() is Black,
        res.0.colour() is Red ==> c is Red,
    decreases l,
{
    proof {
        reveal_with_fuel(Tree::inorder, 2);
        reveal_with_fuel(Tree::no_red_red, 2);
        reveal_with_fuel(Tree::balanced, 2);
        reveal_with_fuel(Tree::bh, 2);
    }
    match l {
        Tree::Leaf => unreached(),
        Tree::Node { colour: lc, left: ll, value: lv, right: lr } => {
            match lc {
                Colour::Red => {
                    // Red sibling: rotate right at the parent and repair
                    // against the new sibling
                    let (inner, d2) = fix_right(Colour::Red, *lr, v, r);
                    let res = Tree::Node {
                        colour: Colour::Black,
                        left: ll,
                        value: lv,
                        right: Box::new(inner),
                    };
                    proof {
                        assert(res.inorder() =~= l.inorder() + seq![v] + r.inorder());
                    }
                    (res, false)
                },
                Colour::Black => {
                    if is_red(&ll) {
                        // far nephew Red: rotate right at the parent
                        let res = Tree::Node {
                            colour: c,
                            left: Box::new(paint(*ll, Colour::Black)),
                            value: lv,
                            right: Box::new(
                                Tree::Node {
                                    colour: Colour::Black,
                                    left: lr,
                                    value: v,
                                    right: Box::new(r),
                                },
                            ),
                        };
                        proof {
                            assert(res.inorder() =~= l.inorder() + seq![v] + r.inorder());
                        }
                        (res, false)
                    } else if is_red(&lr) {
                        // near nephew Red: rotate left at the sibling,
                        // then right at the parent
                        match *lr {
                            Tree::Node { colour: _, left: na, value: nv, right: nb } => {
                                let res = Tree::Node {
                                    colour: c,
                                    left: Box::new(
                                        Tree::Node {
                                            colour: Colour::Black,
                                            left: ll,
                                            value: lv,
                                            right: na,
                                        },
                                    ),
                                    value: nv,
                                    right: Box::new(
                                        Tree::Node {
                                            colour: Colour::Black,
                                            left: nb,
                                            value: v,
                                            right: Box::new(r),
                                        },
                                    ),
                                };
                                proof {
                                    assert(res.inorder() =~= l.inorder() + seq![v] + r.inorder());
                                }
                                (res, false)
                            },
                            Tree::Leaf => unreached(),
                        }
                    } else {
                        // both nephews Black: recolour the sibling Red
                        let res = Tree::Node {
                            colour: Colour::Black,
                            left: Box::new(
                                Tree::Node {
                                    colour: Colour::Red,
                                    left: ll,
                                    value: lv,
                                    right: lr,
                                },
                            ),
                            value: v,
                            right: Box::new(r),
                        };
                        proof {
                            assert(res.inorder() =~= l.inorder() + seq![v] + r.inorder());
                        }
                        match c {
                            Colour::Red => (res, false),
                            Colour::Black => (res, true),
                        }
                    }
                },
            }
        },
    }
}

/// Detaches the minimum of a non-empty subtree. Returns the remaining
/// subtree, the minimum value, and whether the subtree is one Black short.
#[verifier::rlimit(100)]
fn del_min<T: Keyed>(t: Tree<T>) -> (res: (Tree<T>, T, bool))
    requires
        t is Node,
        t.ordered(),
        t.no_red_red(),
        t.balanced(),
    ensures
        t.inorder() == seq![res.1] + res.0.inorder(),
        res.0.balanced(),
        res.0.no_red_red(),
        res.0.colour() is Red ==> t.colour() is Red,
        res.2 ==> res.0.colour() is Black,
        res.2 ==> res.0.bh() + 1 == t.bh(),
        !res.2 ==> res.0.bh() == t.bh(),
    decreases t,
{
    proof {
        reveal_with_fuel(Tree::inorder, 2);
        reveal_with_fuel(Tree::no_red_red, 2);
        reveal_with_fuel(Tree::balanced, 2);
        reveal_with_fuel(Tree::bh, 2);
    }
    match t {
        Tree::Leaf => unreached(),
        Tree::Node { colour, left, value, right } => {
            match *left {
                Tree::Leaf => {
                    // this node is the minimum
                    match *right {
                        Tree::Leaf => {
                            proof {
                                assert(t.inorder() =~= seq![value]);
                            }
                            let deficit = match colour {
                                Colour::Black => true,
                                Colour::Red => false,
                            };
                            (Tree::Leaf, value, deficit)
                        },
                        rnode => {
                            // a lone child is a Red leaf node: repaint it
                            let res = paint(rnode, Colour::Black);
                            proof {
                                assert(t.inorder() =~= seq![value] + res.inorder());
                            }
                            (res, value, false)
                        },
                    }
                },
                lnode => {
                    let (l2, m, d) = del_min(lnode);
                    if d {
                        let (ft, d2) = fix_left(colour, l2, value, *right);
                        proof {
                            assert(t.inorder() =~= seq![m] + ft.inorder());
                        }
                        (ft, m, d2)
                    } else {
                        let res = Tree::Node { colour, left: Box::new(l2), value, right };
                        proof {
                            assert(t.inorder() =~= seq![m] + res.inorder());
                        }
                        (res, m, false)
                    }
                },
            }
        },
    }
}

/// Removes the value keyed like `x` from the subtree, if present. Returns
/// the rebuilt subtree, whether a value was removed, and whether the
/// subtree is one Black short.
#[verifier::rlimit(100)]
pub(crate) fn del<T: Keyed>(t: Tree<T>, x: &T) -> (res: (Tree<T>, bool, bool))
    requires
        t.ordered(),
        t.no_red_red(),
        t.balanced(),
    ensures
        res.1 == t.has_key(x.key()),
        !res.1 ==> res.0 == t && !res.2,
        res.1 ==> res.0.inorder() == del_seq(t.inorder(), x.key()),
        res.0.balanced(),
        res.0.no_red_red(),
        res.0.colour() is Red ==> t.colour() is Red,
        res.2 ==> res.0.colour() is Black,
        res.2 ==> res.0.bh() + 1 == t.bh(),
        !res.2 ==> res.0.bh() == t.bh(),
    decreases t,
{
    proof {
        reveal_with_fuel(Tree::inorder, 2);
        reveal_with_fuel(Tree::no_red_red, 2);
        reveal_with_fuel(Tree::balanced, 2);
        reveal_with_fuel(Tree::bh, 2);
    }
    match t {
        Tree::Leaf => (Tree::Leaf, false, false),
        Tree::Node { colour, left, value, right } => {
            if x.lt(&value) {
                proof {
                    right.lemma_bounds_mono(value.key(), x.key());
                    right.lemma_bounds_exclude(x.key());
                    right.lemma_has_key_iff(x.key());
                    lemma_del_seq_left(left.inorder(), value, right.inorder(), x.key());
                }
                let (l2, rem, d) = del(*left, x);
                if !rem {
                    (Tree::Node { colour, left: Box::new(l2), value, right }, false, false)
                } else if d {
                    let (ft, d2) = fix_left(colour, l2, value, *right);
                    (ft, true, d2)
                } else {
                    (Tree::Node { colour, left: Box::new(l2), value, right }, true, false)
                }
            } else if value.lt(x) {
                proof {
                    left.lemma_bounds_mono(value.key(), x.key());
                    left.lemma_bounds_exclude(x.key());
                    left.lemma_has_key_iff(x.key());
                    lemma_del_seq_right(left.inorder(), value, right.inorder(), x.key());
                }
                let (r2, rem, d) = del(*right, x);
                if !rem {
                    (Tree::Node { colour, left, value, right: Box::new(r2) }, false, false)
                } else if d {
                    let (ft, d2) = fix_right(colour, *left, value, r2);
                    (ft, true, d2)
                } else {
                    (Tree::Node { colour, left, value, right: Box::new(r2) }, true, false)
                }
            } else {
                // found: the node carrying this key is removed
                proof {
                    left.lemma_bounds_exclude(x.key());
                    left.lemma_has_key_iff(x.key());
                    lemma_del_seq_found(left.inorder(), value, right.inorder());
                }
                match *left {
                    Tree::Leaf => {
                        match *right {
                            Tree::Leaf => {
                                let deficit = match colour {
                                    Colour::Black => true,
                                    Colour::Red => false,
                                };
                                proof {
                                    assert(del_seq(t.inorder(), x.key()) =~= Seq::<T>::empty());
                                }
                                (Tree::Leaf, true, deficit)
                            },
                            rnode => {
                                // a lone child is a Red leaf node
                                let res = paint(rnode, Colour::Black);
                                proof {
                                    assert(del_seq(t.inorder(), x.key()) =~= res.inorder());
                                }
                                (res, true, false)
                            },
                        }
                    },
                    lnode => {
                        match *right {
                            Tree::Leaf => {
                                let res = paint(lnode, Colour::Black);
                                proof {
                                    assert(del_seq(t.inorder(), x.key()) =~= res.inorder());
                                }
                                (res, true, false)
                            },
                            rnode => {
                                // two children: replace the value with its
                                // in-order successor, removed from the right
                                let (r2, m, d) = del_min(rnode);
                                if d {
                                    let (ft, d2) = fix_right(colour, lnode, m, r2);
                                    proof {
                                        assert(del_seq(t.inorder(), x.key()) =~= ft.inorder());
                                    }
                                    (ft, true, d2)
                                } else {
                                    let res = Tree::Node {
                                        colour,
                                        left: Box::new(lnode),
                                        value: m,
                                        right: Box::new(r2),
                                    };
                                    proof {
                                        assert(del_seq(t.inorder(), x.key()) =~= res.inorder());
                                    }
                                    (res, true, false)
                                }
                            },
                        }
                    },
                }
            }
        },
    }
}

} // verus!
