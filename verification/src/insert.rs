//! Insertion: binary-search descent attaching a Red leaf, with the
//! recolour / rotation fixup running on the way back up. The fixup acts at
//! the grandparent of the violation, exactly as the classical bottom-up
//! algorithm does: a Red uncle means recolouring, a Black uncle means one
//! or two rotations with a colour swap.

use crate::node::Colour;
use crate::rb::ins_seq;
use crate::rb::is_red;
use crate::rb::lemma_ins_seq_left;
use crate::rb::lemma_ins_seq_right;
use crate::rb::paint;
use crate::rb::Tree;
use crate::Keyed;
use vstd::prelude::*;

verus! {

/// Repairs a possible red-red violation at the top of `l`, the freshly
/// rebuilt left child of a Black node carrying `v` with right child `r`.
///
/// The four classical cases, seen from the Black grandparent: Red uncle —
/// recolour and hand the violation upward; Black uncle with the red pair in
/// a line — one rotation; Black uncle with the red pair bent — two
/// rotations folded into one rebuild.
#[verifier::rlimit(60)]
fn balance_left<T: Keyed>(l: Tree<T>, v: T, r: Tree<T>) -> (res: Tree<T>)
    requires
        l.near_red_ok(),
        r.no_red_red(),
        l.balanced(),
        r.balanced(),
        l.bh() == r.bh(),
    ensures
        res.inorder() == l.inorder() + seq![v] + r.inorder(),
        res.balanced(),
        res.bh() == l.bh() + 1,
        res.no_red_red(),
{
    proof {
        reveal_with_fuel(Tree::inorder, 3);
        reveal_with_fuel(Tree::no_red_red, 3);
        reveal_with_fuel(Tree::balanced, 3);
        reveal_with_fuel(Tree::bh, 3);
    }
    match l {
        Tree::Node { colour: Colour::Red, left: ll, value: pv, right: lr } => {
            let ll_red = is_red(&ll);
            if ll_red || is_red(&lr) {
                if is_red(&r) {
                    // Red uncle: parent and uncle turn Black, grandparent Red
                    let res = Tree::Node {
                        colour: Colour::Red,
                        left: Box::new(
                            Tree::Node {
                                colour: Colour::Black,
                                left: ll,
                                value: pv,
                                right: lr,
                            },
                        ),
                        value: v,
                        right: Box::new(paint(r, Colour::Black)),
                    };
                    proof {
                        assert(res.inorder() =~= l.inorder() + seq![v] + r.inorder());
                    }
                    res
                } else if ll_red {
                    // line case: rotate right at the grandparent
                    let res = Tree::Node {
                        colour: Colour::Black,
                        left: ll,
                        value: pv,
                        right: Box::new(
                            Tree::Node {
                                colour: Colour::Red,
                                left: lr,
                                value: v,
                                right: Box::new(r),
                            },
                        ),
                    };
                    proof {
                        assert(res.inorder() =~= l.inorder() + seq![v] + r.inorder());
                    }
                    res
                } else {
                    // bent case: rotate left at the parent, right at the grandparent
                    match *lr {
                        Tree::Node { colour: _, left: la, value: zv, right: lb } => {
                            let res = Tree::Node {
                                colour: Colour::Black,
                                left: Box::new(
                                    Tree::Node {
                                        colour: Colour::Red,
                                        left: ll,
                                        value: pv,
                                        right: la,
                                    },
                                ),
                                value: zv,
                                right: Box::new(
                                    Tree::Node {
                                        colour: Colour::Red,
                                        left: lb,
                                        value: v,
                                        right: Box::new(r),
                                    },
                                ),
                            };
                            proof {
                                assert(res.inorder() =~= l.inorder() + seq![v] + r.inorder());
                            }
                            res
                        },
                        Tree::Leaf => unreached(),
                    }
                }
            } else {
                // Red child without a red grandchild: nothing to repair
                let res = Tree::Node {
                    colour: Colour::Black,
                    left: Box::new(
                        Tree::Node { colour: Colour::Red, left: ll, value: pv, right: lr },
                    ),
                    value: v,
                    right: Box::new(r),
                };
                proof {
                    assert(res.inorder() =~= l.inorder() + seq![v] + r.inorder());
                }
                res
            }
        },
        other => {
            // Black child: no violation is possible at this edge
            let res = Tree::Node {
                colour: Colour::Black,
                left: Box::new(other),
                value: v,
                right: Box::new(r),
            };
            res
        },
    }
}

/// Mirror image of [`balance_left`] for a freshly rebuilt right child.
#[verifier::rlimit(60)]
fn balance_right<T: Keyed>(l: Tree<T>, v: T, r: Tree<T>) -> (res: Tree<T>)
    requires
        r.near_red_ok(),
        l.no_red_red(),
        l.balanced(),
        r.balanced(),
        l.bh() == r.bh(),
    ensures
        res.inorder() == l.inorder() + seq![v] + r.inorder(),
        res.balanced(),
        res.bh() == l.bh() + 1,
        res.no_red_red(),
{
    proof {
        reveal_with_fuel(Tree::inorder, 3);
        reveal_with_fuel(Tree::no_red_red, 3);
        reveal_with_fuel(Tree::balanced, 3);
        reveal_with_fuel(Tree::bh, 3);
    }
    match r {
        Tree::Node { colour: Colour::Red, left: rl, value: pv, right: rr } => {
            let rr_red = is_red(&rr);
            if rr_red || is_red(&rl) {
                if is_red(&l) {
                    // Red uncle: parent and uncle turn Black, grandparent Red
                    let res = Tree::Node {
                        colour: Colour::Red,
                        left: Box::new(paint(l, Colour::Black)),
                        value: v,
                        right: Box::new(
                            Tree::Node {
                                colour: Colour::Black,
                                left: rl,
                                value: pv,
                                right: rr,
                            },
                        ),
                    };
                    proof {
                        assert(res.inorder() =~= l.inorder() + seq![v] + r.inorder());
                    }
                    res
                } else if rr_red {
                    // line case: rotate left at the grandparent
                    let res = Tree::Node {
                        colour: Colour::Black,
                        left: Box::new(
                            Tree::Node {
                                colour: Colour::Red,
                                left: Box::new(l),
                                value: v,
                                right: rl,
                            },
                        ),
                        value: pv,
                        right: rr,
                    };
                    proof {
                        assert(res.inorder() =~= l.inorder() + seq![v] + r.inorder());
                    }
                    res
                } else {
                    // bent case: rotate right at the parent, left at the grandparent
                    match *rl {
                        Tree::Node { colour: _, left: ra, value: zv, right: rb } => {
                            let res = Tree::Node {
                                colour: Colour::Black,
                                left: Box::new(
                                    Tree::Node {
                                        colour: Colour::Red,
                                        left: Box::new(l),
                                        value: v,
                                        right: ra,
                                    },
                                ),
                                value: zv,
                                right: Box::new(
                                    Tree::Node {
                                        colour: Colour::Red,
                                        left: rb,
                                        value: pv,
                                        right: rr,
                                    },
                                ),
                            };
                            proof {
                                assert(res.inorder() =~= l.inorder() + seq![v] + r.inorder());
                            }
                            res
                        },
                        Tree::Leaf => unreached(),
                    }
                }
            } else {
                let res = Tree::Node {
                    colour: Colour::Black,
                    left: Box::new(l),
                    value: v,
                    right: Box::new(
                        Tree::Node { colour: Colour::Red, left: rl, value: pv, right: rr },
                    ),
                };
                proof {
                    assert(res.inorder() =~= l.inorder() + seq![v] + r.inorder());
                }
                res
            }
        },
        other => {
            let res = Tree::Node {
                colour: Colour::Black,
                left: Box::new(l),
                value: v,
                right: Box::new(other),
            };
            res
        },
    }
}

/// Inserts `v` into the subtree, keeping search order and black heights,
/// and leaving at most one red-red violation at the subtree's own root
/// edge. Returns the rebuilt subtree and whether a node was attached.
pub(crate) fn ins<T: Keyed>(t: Tree<T>, v: T) -> (res: (Tree<T>, bool))
    requires
        t.ordered(),
        t.no_red_red(),
        t.balanced(),
    ensures
        res.1 == !t.has_key(v.key()),
        !res.1 ==> res.0 == t,
        res.1 ==> res.0.inorder() == ins_seq(t.inorder(), v),
        res.0.balanced(),
        res.0.bh() == t.bh(),
        res.0.near_red_ok(),
        t.colour() is Black ==> res.0.no_red_red(),
    decreases t,
{
    match t {
        Tree::Leaf => {
            let res = Tree::Node {
                colour: Colour::Red,
                left: Box::new(Tree::Leaf),
                value: v,
                right: Box::new(Tree::Leaf),
            };
            proof {
                assert(res.inorder() =~= ins_seq(t.inorder(), v));
            }
            (res, true)
        },
        Tree::Node { colour, left, value, right } => {
            if v.lt(&value) {
                proof {
                    right.lemma_bounds_mono(value.key(), v.key());
                    right.lemma_bounds_exclude(v.key());
                    lemma_ins_seq_left(left.inorder(), value, right.inorder(), v);
                }
                let (l2, did) = ins(*left, v);
                if did {
                    let res = match colour {
                        Colour::Black => balance_left(l2, value, *right),
                        Colour::Red => {
                            let res = Tree::Node {
                                colour: Colour::Red,
                                left: Box::new(l2),
                                value,
                                right,
                            };
                            res
                        },
                    };
                    proof {
                        res.lemma_nrr_near();
                    }
                    (res, true)
                } else {
                    (Tree::Node { colour, left: Box::new(l2), value, right }, false)
                }
            } else if value.lt(&v) {
                proof {
                    left.lemma_bounds_mono(value.key(), v.key());
                    left.lemma_bounds_exclude(v.key());
                    left.lemma_below_iff(v.key());
                    lemma_ins_seq_right(left.inorder(), value, right.inorder(), v);
                }
                let (r2, did) = ins(*right, v);
                if did {
                    let res = match colour {
                        Colour::Black => balance_right(*left, value, r2),
                        Colour::Red => {
                            let res = Tree::Node {
                                colour: Colour::Red,
                                left,
                                value,
                                right: Box::new(r2),
                            };
                            res
                        },
                    };
                    proof {
                        res.lemma_nrr_near();
                    }
                    (res, true)
                } else {
                    (Tree::Node { colour, left, value, right: Box::new(r2) }, false)
                }
            } else {
                (Tree::Node { colour, left, value, right }, false)
            }
        },
    }
}

} // verus!
