use rbtset::Colour;
use rbtset::Keyed;
use rbtset::Node;
use rbtset::RBTreeSet;
use rbtset::Span;

fn to_vec<T: Keyed>(set: &RBTreeSet<T>) -> Vec<T> {
    let mut out = Vec::new();
    let mut it = set.values();
    while let Some(v) = it.next() {
        out.push(v);
    }
    out
}

#[derive(Debug)]
enum InvalidReason<T> {
    RootIsRed,
    RedHasRedChild(T),
    InvalidDepth(T, i64),
}

fn validate_subtree<T: Keyed + std::fmt::Debug>(
    set: &RBTreeSet<T>,
    node: &Node<T>,
) -> Result<i64, InvalidReason<T>> {
    let left = set.left_child(node);
    let right = set.right_child(node);
    if node.colour() == Colour::Red
        && (left.as_ref().map(|n| n.colour()) == Some(Colour::Red)
            || right.as_ref().map(|n| n.colour()) == Some(Colour::Red))
    {
        return Err(InvalidReason::RedHasRedChild(node.clone_data()));
    }
    let lh = match left {
        Some(ref n) => validate_subtree(set, n)?,
        None => 0,
    };
    let rh = match right {
        Some(ref n) => validate_subtree(set, n)?,
        None => 0,
    };
    if lh != rh {
        return Err(InvalidReason::InvalidDepth(node.clone_data(), lh - rh));
    }
    Ok(lh + if node.colour() == Colour::Black { 1 } else { 0 })
}

fn validate_tree<T: Keyed + std::fmt::Debug>(set: &RBTreeSet<T>) -> Result<(), InvalidReason<T>> {
    match set.root_node() {
        Some(root) => {
            if root.colour() == Colour::Red {
                return Err(InvalidReason::RootIsRed);
            }
            validate_subtree(set, &root)?;
            Ok(())
        }
        None => Ok(()),
    }
}

#[test]
fn rotate_left_root() {
    let mut tree = RBTreeSet::new();
    tree.insert(2);
    tree.insert(11);
    tree.insert(15);

    println!("{}", tree.dump_tree_as_dot());
    let root = tree.root_node().unwrap();
    assert_eq!(*root.data(), 11);
    assert_eq!(root.colour(), Colour::Black);
    let left = tree.left_child(&root).unwrap();
    assert_eq!(*left.data(), 2);
    assert_eq!(left.colour(), Colour::Red);
    let right = tree.right_child(&root).unwrap();
    assert_eq!(*right.data(), 15);
    assert_eq!(right.colour(), Colour::Red);
}

#[test]
fn rotate_left_parent() {
    let mut tree = RBTreeSet::new();
    tree.insert(3);
    tree.insert(6);
    tree.insert(2);
    tree.insert(11);
    tree.insert(15);

    println!("{}", tree.dump_tree_as_dot());
    let root = tree.root_node().unwrap();
    assert_eq!(*root.data(), 3);
    assert_eq!(root.colour(), Colour::Black);
    let left = tree.left_child(&root).unwrap();
    assert_eq!(*left.data(), 2);
    assert_eq!(left.colour(), Colour::Black);
    let right = tree.right_child(&root).unwrap();
    assert_eq!(*right.data(), 11);
    assert_eq!(right.colour(), Colour::Black);
}

#[test]
fn rotate_right_root() {
    let mut tree = RBTreeSet::new();
    tree.insert(11);
    tree.insert(6);
    tree.insert(2);

    println!("{}", tree.dump_tree_as_dot());
    let root = tree.root_node().unwrap();
    assert_eq!(*root.data(), 6);
    assert_eq!(root.colour(), Colour::Black);
    let left = tree.left_child(&root).unwrap();
    assert_eq!(*left.data(), 2);
    assert_eq!(left.colour(), Colour::Red);
    let right = tree.right_child(&root).unwrap();
    assert_eq!(*right.data(), 11);
    assert_eq!(right.colour(), Colour::Red);
}

#[test]
fn rotate_right_parent() {
    let mut tree = RBTreeSet::new();
    tree.insert(11);
    tree.insert(6);
    tree.insert(15);
    tree.insert(3);
    tree.insert(2);

    println!("{}", tree.dump_tree_as_dot());
    let root = tree.root_node().unwrap();
    assert_eq!(*root.data(), 11);
    assert_eq!(root.colour(), Colour::Black);
    let left = tree.left_child(&root).unwrap();
    assert_eq!(*left.data(), 3);
    assert_eq!(left.colour(), Colour::Black);
    let right = tree.right_child(&root).unwrap();
    assert_eq!(*right.data(), 15);
    assert_eq!(right.colour(), Colour::Black);
}

#[test]
fn iterator() {
    let mut set = RBTreeSet::new();
    set.insert(2);
    set.insert(11);
    set.insert(6);
    set.insert(10);
    set.insert(26);
    set.insert(7);
    set.insert(18);
    set.insert(8);
    set.insert(13);
    set.insert(22);

    assert_eq!(to_vec(&set), vec![2, 6, 7, 8, 10, 11, 13, 18, 22, 26]);
}

#[test]
fn insert() {
    let mut set = RBTreeSet::new();
    set.insert(2);
    set.insert(11);
    set.insert(6);
    set.insert(10);
    set.insert(26);
    set.insert(7);
    set.insert(18);
    set.insert(8);
    set.insert(13);
    set.insert(22);

    println!("{}", set.dump_tree_as_dot());
    validate_tree(&set).expect("validate tree");
    assert_eq!(to_vec(&set), vec![2, 6, 7, 8, 10, 11, 13, 18, 22, 26]);
    assert_eq!(set.len(), 10);
}

#[test]
fn delete_pseudoleaves() {
    let mut set = RBTreeSet::new();
    set.insert(50);
    set.insert(20);
    set.insert(60);
    set.insert(30);
    set.insert(40);
    set.insert(70);
    set.insert(80);

    set.remove(&20);
    assert_eq!(to_vec(&set), vec![30, 40, 50, 60, 70, 80]);

    set.remove(&30);
    assert_eq!(to_vec(&set), vec![40, 50, 60, 70, 80]);

    set.remove(&80);
    assert_eq!(to_vec(&set), vec![40, 50, 60, 70]);

    set.remove(&70);
    println!("{}", set.dump_tree_as_dot());
    validate_tree(&set).expect("validate tree");
    assert_eq!(to_vec(&set), vec![40, 50, 60]);
    assert_eq!(set.len(), 3);
}

#[test]
fn delete() {
    let mut keep = Vec::new();
    let mut remove = Vec::new();
    for i in (1..30).step_by(3) {
        keep.push(i);
        remove.push(i + 2);
    }

    let mut tree = RBTreeSet::new();
    for i in remove.iter().rev() {
        tree.insert(*i).expect("insert node");
    }
    for i in &keep {
        tree.insert(*i).expect("insert node");
    }
    for i in remove {
        assert!(tree.remove(&i));
    }

    println!("{}", tree.dump_tree_as_dot());
    validate_tree(&tree).expect("validate tree");
    assert_eq!(to_vec(&tree), keep);
    assert_eq!(tree.len(), keep.len());
}

#[test]
fn clone() {
    let mut set = RBTreeSet::new();
    set.insert(50);
    set.insert(20);
    set.insert(60);
    set.insert(30);
    set.insert(40);
    set.insert(70);
    set.insert(80);
    let tree_bis = set.clone();

    assert_eq!(to_vec(&set), to_vec(&tree_bis));

    set.remove(&60);
    assert_eq!(set.len(), tree_bis.len() - 1);
}

#[test]
fn repack() {
    let mut set = RBTreeSet::new();
    set.insert(Span::new(1, 3));
    set.insert(Span::new(5, 8));
    set.insert(Span::new(8, 13));
    set.insert(Span::new(13, 16));
    set.insert(Span::new(23, 26));

    validate_tree(&set).expect("validate tree");
    assert_eq!(
        to_vec(&set),
        vec![
            Span::new(1, 3),
            Span::new(5, 8),
            Span::new(8, 13),
            Span::new(13, 16),
            Span::new(23, 26)
        ]
    );
    assert_eq!(set.len(), 5);

    set.repack();

    println!("{}", set.dump_tree_as_dot());
    validate_tree(&set).expect("validate tree");
    assert_eq!(
        to_vec(&set),
        vec![Span::new(1, 3), Span::new(5, 16), Span::new(23, 26)]
    );
    assert_eq!(set.len(), 3);
}
