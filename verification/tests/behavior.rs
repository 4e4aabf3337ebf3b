use rbtset::Colour;
use rbtset::Consecutive;
use rbtset::Keyed;
use rbtset::RBTreeSet;
use rbtset::Span;

fn to_vec<T: Keyed>(set: &RBTreeSet<T>) -> Vec<T> {
    let mut out = Vec::new();
    let mut it = set.values();
    while let Some(v) = it.next() {
        out.push(v);
    }
    out
}

fn set_of(values: &[i32]) -> RBTreeSet<i32> {
    let mut set = RBTreeSet::new();
    for v in values {
        set.insert(*v);
    }
    set
}

#[test]
fn insert_duplicate_is_rejected() {
    let mut set = RBTreeSet::new();
    assert!(set.insert(2).is_some());
    assert!(set.insert(2).is_none());
    assert_eq!(set.len(), 1);
    assert_eq!(to_vec(&set), vec![2]);
}

#[test]
fn insert_duplicate_leaves_set_unchanged() {
    let mut set = set_of(&[5, 1, 9, 3]);
    let before = to_vec(&set);
    let len_before = set.len();
    assert!(set.insert(9).is_none());
    assert_eq!(to_vec(&set), before);
    assert_eq!(set.len(), len_before);
}

#[test]
fn insert_returns_the_new_node() {
    let mut set = RBTreeSet::new();
    let node = set.insert(7).unwrap();
    assert_eq!(*node.data(), 7);
    assert_eq!(node.clone_data(), 7);
}

#[test]
fn remove_absent_is_a_no_op() {
    let mut set = set_of(&[4, 8, 15]);
    let before = to_vec(&set);
    assert!(!set.remove(&16));
    assert!(!set.remove(&0));
    assert_eq!(to_vec(&set), before);
    assert_eq!(set.len(), 3);
}

#[test]
fn remove_then_remove_again() {
    let mut set = RBTreeSet::new();
    set.insert(2);
    assert_eq!(set.remove(&2), true);
    assert_eq!(set.remove(&2), false);
    assert!(set.is_empty());
}

#[test]
fn get_finds_present_values_only() {
    let set = set_of(&[1, 2, 3]);
    assert_eq!(set.get(&2), Some(2));
    assert_eq!(set.get(&4), None);
}

#[test]
fn get_node_finds_present_values_only() {
    let set = set_of(&[1, 2, 3]);
    assert_eq!(*set.get_node(&2).unwrap().data(), 2);
    assert!(set.get_node(&4).is_none());
}

#[test]
fn remove_node_by_handle() {
    let mut set = RBTreeSet::new();
    set.insert(2);
    let mut node = set.get_node(&2).unwrap();
    set.remove_node(&mut node);
    assert!(set.is_empty());
}

#[test]
fn first_and_last() {
    let mut set = set_of(&[2, 3, 1]);
    assert_eq!(*set.first().unwrap().data(), 1);
    assert_eq!(*set.last().unwrap().data(), 3);
    set.clear();
    assert!(set.first().is_none());
    assert!(set.last().is_none());
}

#[test]
fn len_and_clear() {
    let mut set = RBTreeSet::new();
    assert_eq!(set.len(), 0);
    assert!(set.is_empty());
    set.insert(1);
    assert_eq!(set.len(), 1);
    assert!(!set.is_empty());
    set.clear();
    assert_eq!(set.len(), 0);
    assert!(set.is_empty());
}

#[test]
fn iter_yields_handles_in_order() {
    let set = set_of(&[3, 1, 2]);
    let mut it = set.iter();
    assert_eq!(*it.next().unwrap().data(), 1);
    assert_eq!(*it.next().unwrap().data(), 2);
    assert_eq!(*it.next().unwrap().data(), 3);
    assert!(it.next().is_none());
}

#[test]
fn iter_from_starts_at_the_given_node() {
    let set = set_of(&[3, 1, 2]);
    let node = set.get_node(&2).unwrap();
    let mut it = set.iter_from(&node);
    assert_eq!(*it.next().unwrap().data(), 2);
    assert_eq!(*it.next().unwrap().data(), 3);
    assert!(it.next().is_none());
}

#[test]
fn values_from_starts_at_the_given_node() {
    let set = set_of(&[3, 1, 2]);
    let node = set.get_node(&2).unwrap();
    let mut vs = set.values_from(&node);
    assert_eq!(vs.next(), Some(2));
    assert_eq!(vs.next(), Some(3));
    assert_eq!(vs.next(), None);
}

#[test]
fn clone_is_independent_both_ways() {
    let original = set_of(&[10, 20, 30]);
    let mut copy = original.clone();

    copy.insert(40);
    copy.remove(&10);
    assert_eq!(to_vec(&original), vec![10, 20, 30]);
    assert_eq!(to_vec(&copy), vec![20, 30, 40]);

    let mut original = original;
    original.remove(&20);
    assert_eq!(to_vec(&original), vec![10, 30]);
    assert_eq!(to_vec(&copy), vec![20, 30, 40]);
}

#[test]
fn node_apply_transforms_the_handle_copy() {
    let set = set_of(&[6]);
    let mut node = set.get_node(&6).unwrap();
    node.apply(|v| v + 1);
    assert_eq!(*node.data(), 7);
    // the set itself is untouched: handles carry their own copy
    assert_eq!(to_vec(&set), vec![6]);
}

#[test]
fn repack_merges_a_full_run() {
    let mut set = RBTreeSet::new();
    set.insert(Span::new(1, 2));
    set.insert(Span::new(2, 5));
    set.insert(Span::new(5, 9));
    set.repack();
    assert_eq!(to_vec(&set), vec![Span::new(1, 9)]);
    assert_eq!(set.len(), 1);
}

#[test]
fn repack_without_consecutive_pairs_changes_nothing() {
    let mut set = RBTreeSet::new();
    set.insert(Span::new(1, 2));
    set.insert(Span::new(3, 4));
    set.insert(Span::new(6, 9));
    set.repack();
    assert_eq!(
        to_vec(&set),
        vec![Span::new(1, 2), Span::new(3, 4), Span::new(6, 9)]
    );
    assert_eq!(set.len(), 3);
}

#[test]
fn repack_on_empty_and_single() {
    let mut empty: RBTreeSet<Span> = RBTreeSet::new();
    empty.repack();
    assert!(empty.is_empty());

    let mut single = RBTreeSet::new();
    single.insert(Span::new(4, 7));
    single.repack();
    assert_eq!(to_vec(&single), vec![Span::new(4, 7)]);
}

#[test]
fn span_operations() {
    let a = Span::new(1, 3);
    let b = Span::new(3, 5);
    let c = Span::new(6, 8);
    assert!(a.consecutive(&b));
    assert!(!a.consecutive(&c));
    assert_eq!(a.merged(&b), Span::new(1, 5));
}

#[test]
fn u64_values_sort_ascending() {
    let mut set: RBTreeSet<u64> = RBTreeSet::new();
    set.insert(30u64);
    set.insert(10u64);
    set.insert(20u64);
    assert_eq!(to_vec(&set), vec![10u64, 20u64, 30u64]);
}

#[test]
fn dot_dump_shape() {
    let mut set = RBTreeSet::new();
    set.insert(2);
    set.insert(1);
    set.insert(3);
    let out = set.dump_tree_as_dot();
    assert!(out.starts_with("graph RBTreeSet {"));
    assert!(out.ends_with("}\n"));
    // three nodes numbered by in-order position, the root in the middle
    assert!(out.contains("Node0 [label=\"1\", color=red]"));
    assert!(out.contains("Node1 [label=\"2\", color=black]"));
    assert!(out.contains("Node2 [label=\"3\", color=red]"));
    assert!(out.contains("Node1 -- Node0"));
    assert!(out.contains("Node1 -- Node2"));
    // the four absent child slots appear as placeholder points
    assert_eq!(out.matches("[shape=point]").count(), 4);
}

#[test]
fn root_and_children_after_inserts() {
    let mut set = set_of(&[50, 20, 60, 30, 40, 70, 80]);
    let root = set.root_node().unwrap();
    assert_eq!(root.colour(), Colour::Black);
    set.remove(&20);
    set.remove(&30);
    set.remove(&80);
    set.remove(&70);
    let root = set.root_node().unwrap();
    assert_eq!(root.colour(), Colour::Black);
    assert_eq!(*root.data(), 50);
    let left = set.left_child(&root).unwrap();
    let right = set.right_child(&root).unwrap();
    assert_eq!(*left.data(), 40);
    assert_eq!(*right.data(), 60);
}

#[test]
fn mixed_inserts_and_removes_stay_sorted() {
    let mut set = RBTreeSet::new();
    let values = [13, 8, 17, 1, 11, 15, 25, 6, 22, 27];
    for v in values {
        set.insert(v);
    }
    for v in [8, 17, 25, 1] {
        assert!(set.remove(&v));
    }
    set.insert(2);
    set.insert(30);
    assert_eq!(to_vec(&set), vec![2, 6, 11, 13, 15, 22, 27, 30]);
    assert_eq!(set.len(), 8);
}

#[test]
fn set_data_replaces_the_payload_at_a_node() {
    let mut set = RBTreeSet::new();
    set.insert(Span::new(1, 3));
    set.insert(Span::new(5, 8));
    let node = set.get_node(&Span::new(5, 8)).unwrap();
    set.set_data(&node, Span::new(5, 20));
    assert_eq!(to_vec(&set), vec![Span::new(1, 3), Span::new(5, 20)]);
    assert_eq!(set.len(), 2);
}

#[test]
fn default_is_the_empty_set() {
    let set: RBTreeSet<i32> = Default::default();
    assert!(set.is_empty());
    assert_eq!(set.len(), 0);
}

#[test]
fn remove_node_with_a_stale_handle_removes_nothing() {
    let mut set = set_of(&[1, 2, 3]);
    let mut node = set.get_node(&2).unwrap();
    set.remove_node(&mut node);
    assert_eq!(to_vec(&set), vec![1, 3]);
    // the handle is now stale: a second removal through it is a no-op
    set.remove_node(&mut node);
    assert_eq!(to_vec(&set), vec![1, 3]);
    assert_eq!(set.len(), 2);
}
