use slot_tree::tree::{Tree, TreeOrdering};

const A: u64 = 65;
const C: u64 = 67;
const D: u64 = 68;
const F: u64 = 70;
const G: u64 = 71;
const H: u64 = 72;
const I: u64 = 73;
const O: u64 = 79;
const P: u64 = 80;
const S: u64 = 83;
const U: u64 = 85;
const V: u64 = 86;
const W: u64 = 87;
const X: u64 = 88;
const Y: u64 = 89;

fn letters_tree() -> Tree {
    let mut tree = Tree::new(H);
    for v in [X, D, U, G, V, O, P, I, C, S, W, Y, F, A] {
        tree.insert_ordered(v).expect("Letters are unique");
    }
    tree
}

#[test]
fn example_root_h_insert_d_u_g() {
    let mut tree = Tree::new(H);
    tree.insert_ordered(D).unwrap();
    tree.insert_ordered(U).unwrap();
    tree.insert_ordered(G).unwrap();

    assert_eq!(tree.order_values(TreeOrdering::In), vec![D, G, H, U]);
    assert!(tree.contains(G));

    tree = tree.delete(G);
    assert!(!tree.contains(G));
    assert!(tree.contains(D));
    assert!(tree.contains(H));
    assert!(tree.contains(U));
}

#[test]
fn contains_finds_inserted_and_only_inserted() {
    let tree = letters_tree();
    for v in [A, C, D, F, G, H, I, O, P, S, U, V, W, X, Y] {
        assert!(tree.contains(v));
    }
    for v in [0, 66, 69, 74, 90, 1000] {
        assert!(!tree.contains(v));
    }
}

#[test]
fn in_order_is_strictly_ascending() {
    let tree = letters_tree();
    let values = tree.order_values(TreeOrdering::In);
    assert_eq!(values.len(), 15);
    for pair in values.windows(2) {
        assert!(pair[0] < pair[1]);
    }
}

#[test]
fn traversals_of_known_tree() {
    let mut tree = Tree::new(10);
    for v in [5, 15, 3, 7] {
        tree.insert_ordered(v).unwrap();
    }
    assert_eq!(tree.order_values(TreeOrdering::Pre), vec![10, 5, 3, 7, 15]);
    assert_eq!(tree.order_values(TreeOrdering::In), vec![3, 5, 7, 10, 15]);
    assert_eq!(tree.order_values(TreeOrdering::Post), vec![3, 7, 5, 15, 10]);
    assert_eq!(tree.breadth_values(), vec![10, 5, 15, 3, 7]);
}

#[test]
fn breadth_visits_parents_before_children() {
    let tree = letters_tree();
    let level = tree.breadth_values();
    let pre = tree.order_values(TreeOrdering::Pre);
    assert_eq!(level.len(), 15);
    assert_eq!(level[0], H);
    assert_eq!(pre[0], H);
}

#[test]
fn duplicate_insert_is_rejected_and_changes_nothing() {
    let mut tree = Tree::new(10);
    tree.insert_ordered(5).unwrap();
    tree.insert_ordered(15).unwrap();
    let before = tree.order_values(TreeOrdering::Pre);

    assert_eq!(tree.insert_ordered(15), Err(15));

    assert_eq!(tree.order_values(TreeOrdering::Pre), before);
    assert!(tree.contains(5));
    assert!(tree.contains(10));
    assert!(tree.contains(15));
    assert!(!tree.contains(6));
}

#[test]
fn delete_absent_value_keeps_the_tree_identical() {
    let mut tree = Tree::new(10);
    for v in [5, 15, 3, 7] {
        tree.insert_ordered(v).unwrap();
    }
    let pre = tree.order_values(TreeOrdering::Pre);
    tree = tree.delete(99);
    assert_eq!(tree.order_values(TreeOrdering::Pre), pre);
}

#[test]
fn delete_rebuilds_in_storage_order() {
    let mut tree = Tree::new(10);
    for v in [5, 15, 3, 7] {
        tree.insert_ordered(v).unwrap();
    }
    // storage order is insertion order: 10, 5, 15, 3, 7; dropping 10 makes 5
    // the new root and reinserts 15, 3, 7 in that order
    tree = tree.delete(10);
    assert!(!tree.contains(10));
    assert_eq!(tree.order_values(TreeOrdering::In), vec![3, 5, 7, 15]);
    assert_eq!(tree.order_values(TreeOrdering::Pre), vec![5, 3, 15, 7]);
}

#[test]
fn delete_then_reinsert() {
    let mut tree = letters_tree();
    tree = tree.delete(P);
    assert!(!tree.contains(P));
    let values = tree.order_values(TreeOrdering::In);
    assert_eq!(values.len(), 14);
    for pair in values.windows(2) {
        assert!(pair[0] < pair[1]);
    }
    tree.insert_ordered(P).unwrap();
    assert!(tree.contains(P));
    assert_eq!(tree.order_values(TreeOrdering::In).len(), 15);
}
