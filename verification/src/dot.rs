//! A debug export of the tree in the DOT graph-description text format:
//! one definition line per node, point-shaped placeholders for absent
//! child slots, and one edge line from each node to each child slot, all
//! wrapped in a `graph RBTreeSet { ... }` block. An inspection aid, not a
//! round-trip format.

use crate::node::Colour;
use crate::rb::Tree;
use crate::tree::RBTreeSet;
use crate::Keyed;
use vstd::prelude::*;

verus! {

/// How a stored value labels its node in the DOT export.
pub trait DotLabel {
    /// The text standing for this value in a node label.
    fn label(&self) -> String;
}

/// Relies on format!: the decimal form of the number.
#[verifier::external_body]
fn fmt_i32(v: i32) -> String {
    format!("{}", v)
}

/// Relies on format!: the decimal form of the number.
#[verifier::external_body]
fn fmt_u64(v: u64) -> String {
    format!("{}", v)
}

/// Relies on format!: the two ends of the span around `..`.
#[verifier::external_body]
fn fmt_span(v: crate::Span) -> String {
    format!("{}..{}", v.start, v.end)
}

impl DotLabel for i32 {
    fn label(&self) -> String {
        fmt_i32(*self)
    }
}

impl DotLabel for u64 {
    fn label(&self) -> String {
        fmt_u64(*self)
    }
}

impl DotLabel for crate::Span {
    fn label(&self) -> String {
        fmt_span(*self)
    }
}

/// The colour's name as it appears in the DOT output.
fn colour_word(c: Colour) -> &'static str {
    match c {
        Colour::Red => "red",
        Colour::Black => "black",
    }
}

/// Relies on format!: one node-definition line.
#[verifier::external_body]
fn dot_node_line(id: usize, label: &String, colour: &str) -> String {
    format!("    Node{} [label=\"{}\", color={}]", id, label, colour)
}

/// Relies on format!: one placeholder definition for an absent child.
#[verifier::external_body]
fn dot_null_line(id: usize, side: &str) -> String {
    format!("    Null{}{} [shape=point]", side, id)
}

/// Relies on format!: one edge line between two nodes.
#[verifier::external_body]
fn dot_edge_line(a: usize, b: usize) -> String {
    format!("    Node{} -- Node{}", a, b)
}

/// Relies on format!: one edge line to a placeholder.
#[verifier::external_body]
fn dot_null_edge_line(id: usize, side: &str) -> String {
    format!("    Node{} -- Null{}{}", id, side, id)
}

/// Relies on slice join: the lines glued with newlines.
#[verifier::external_body]
fn join_lines(lines: &Vec<String>) -> String {
    lines.join("\n")
}

/// Relies on format!: the definitions and edges wrapped in the graph
/// block.
#[verifier::external_body]
fn dot_graph_block(defs: String, links: String) -> String {
    format!("graph RBTreeSet {{\n{}\n\n{}\n}}\n", defs, links)
}

/// Walks the subtree in order, numbering nodes by in-order position from
/// `base` on, pushing one definition line per node (and per absent child
/// slot) and one edge line per child slot. Returns the node count and the
/// subtree root's number.
fn dot_walk<T: Keyed + DotLabel>(
    t: &Tree<T>,
    base: usize,
    defs: &mut Vec<String>,
    links: &mut Vec<String>,
) -> (res: (usize, Option<usize>))
    requires
        base + t.inorder().len() <= usize::MAX,
    ensures
        res.0 == t.inorder().len(),
    decreases *t,
{
    match t {
        Tree::Leaf => (0, None),
        Tree::Node { colour, left, value, right } => {
            let (lc, lid) = dot_walk(&**left, base, defs, links);
            let my_id = base + lc;
            defs.push(dot_node_line(my_id, &value.label(), colour_word(*colour)));
            match lid {
                Some(cid) => links.push(dot_edge_line(my_id, cid)),
                None => {
                    defs.push(dot_null_line(my_id, "L"));
                    links.push(dot_null_edge_line(my_id, "L"));
                },
            }
            let (rc, rid) = dot_walk(&**right, my_id + 1, defs, links);
            match rid {
                Some(cid) => links.push(dot_edge_line(my_id, cid)),
                None => {
                    defs.push(dot_null_line(my_id, "R"));
                    links.push(dot_null_edge_line(my_id, "R"));
                },
            }
            proof {
                assert(t.inorder().len() == left.inorder().len() + 1 + right.inorder().len());
            }
            (lc + 1 + rc, Some(my_id))
        },
    }
}

impl<T: Keyed + DotLabel> RBTreeSet<T> {
    /// Returns the serialisation of the set as a red-black tree in DOT.
    ///
    /// Nodes are numbered by in-order position, which makes the output
    /// reproducible across runs.
    pub fn dump_tree_as_dot(&self) -> (out: String)
        requires
            self.wf(),
    {
        proof {
            self.lemma_len_fits();
        }
        let mut defs: Vec<String> = Vec::new();
        let mut links: Vec<String> = Vec::new();
        let _counts = dot_walk(self.borrow_root(), 0, &mut defs, &mut links);
        dot_graph_block(join_lines(&defs), join_lines(&links))
    }
}

} // verus!
