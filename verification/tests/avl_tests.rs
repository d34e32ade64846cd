use balanced_trees::avl::{AVLTree, AVLTreeNode, AVLTreeStructure};

fn build(keys: &[i32]) -> AVLTreeStructure<i32> {
    let mut tree: AVLTreeStructure<i32> = AVLTreeStructure::new();
    for k in keys {
        tree.insert(*k);
    }
    tree
}

fn keys_of(tree: &AVLTreeStructure<i32>) -> Vec<i32> {
    AVLTreeStructure::in_order_traversal(&tree.root)
}

fn count_nodes(t: &AVLTree<i32>) -> u32 {
    match t {
        None => 0,
        Some(n) => count_nodes(&n.left) + 1 + count_nodes(&n.right),
    }
}

/// Height of the subtree if every node in it is balanced and records its
/// own height, found without the library's help.
fn balanced_height(t: &AVLTree<i32>) -> Option<i32> {
    match t {
        None => Some(0),
        Some(n) => {
            let l = balanced_height(&n.left)?;
            let r = balanced_height(&n.right)?;
            if (l - r).abs() > 1 || n.height != 1 + l.max(r) {
                return None;
            }
            Some(n.height)
        }
    }
}

fn next_random(state: &mut u64) -> u64 {
    *state = state.wrapping_mul(6364136223846793005).wrapping_add(1442695040888963407);
    *state >> 33
}

#[test]
fn avl_ten_keys_height_and_order() {
    let tree = build(&[10, 20, 5, 100, 15, 1, 25, 26, 34, 30]);
    assert_eq!(keys_of(&tree), vec![1, 5, 10, 15, 20, 25, 26, 30, 34, 100]);
    assert!(AVLTreeStructure::height_of_tree(&tree.root) <= 5);
    assert_eq!(AVLTreeStructure::height_of_tree(&tree.root), 4);
    assert!(balanced_height(&tree.root).is_some());
    assert!(tree.is_well_formed());
}

#[test]
fn avl_ten_keys_then_two_deletes() {
    let mut tree = build(&[10, 20, 5, 100, 15, 1, 25, 26, 34, 30]);
    tree.delete(5);
    tree.delete(25);
    assert_eq!(keys_of(&tree), vec![1, 10, 15, 20, 26, 30, 34, 100]);
    assert!(tree.is_well_formed());
    assert!(balanced_height(&tree.root).is_some());
    assert!(!tree.tree_is_empty());
}

#[test]
fn avl_empty_tree() {
    let tree: AVLTreeStructure<i32> = AVLTreeStructure::new();
    assert!(tree.tree_is_empty());
    assert!(tree.root.is_none());
    assert_eq!(AVLTreeStructure::height_of_tree(&tree.root), 0);
    assert_eq!(AVLTreeStructure::number_of_leaves(&tree.root), 0);
    assert_eq!(keys_of(&tree), Vec::<i32>::new());
    assert!(tree.is_well_formed());
    assert_eq!(tree.height(), 0);
}

#[test]
fn avl_find_on_empty_tree_is_absent() {
    let tree: AVLTreeStructure<i32> = AVLTreeStructure::new();
    assert!(tree.find_by_key(7).is_none());
}

#[test]
fn avl_new_node_is_a_leaf_of_height_one() {
    let node = AVLTreeNode::new(42);
    assert_eq!(node.key, 42);
    assert_eq!(node.height, 1);
    assert!(node.left.is_none());
    assert!(node.right.is_none());
}

#[test]
fn avl_single_node_has_one_leaf() {
    let tree = build(&[7]);
    assert_eq!(AVLTreeStructure::number_of_leaves(&tree.root), 1);
    assert_eq!(AVLTreeStructure::height_of_tree(&tree.root), 1);
    assert_eq!(count_nodes(&tree.root), 1);
    assert!(!tree.tree_is_empty());
    assert_eq!(tree.root.as_ref().unwrap().height, 1);
}

#[test]
fn avl_rising_keys_turn_left() {
    let tree = build(&[1, 2, 3]);
    let root = tree.root.as_ref().unwrap();
    assert_eq!(root.key, 2);
    assert_eq!(root.height, 2);
    assert_eq!(root.left.as_ref().unwrap().key, 1);
    assert_eq!(root.left.as_ref().unwrap().height, 1);
    assert_eq!(root.right.as_ref().unwrap().key, 3);
    assert_eq!(root.right.as_ref().unwrap().height, 1);
    assert_eq!(AVLTreeStructure::number_of_leaves(&tree.root), 2);
}

#[test]
fn avl_falling_keys_turn_right() {
    let tree = build(&[3, 2, 1]);
    let root = tree.root.as_ref().unwrap();
    assert_eq!(root.key, 2);
    assert_eq!(root.left.as_ref().unwrap().key, 1);
    assert_eq!(root.right.as_ref().unwrap().key, 3);
    assert_eq!(AVLTreeStructure::height_of_tree(&tree.root), 2);
}

#[test]
fn avl_left_right_case_turns_twice() {
    let tree = build(&[3, 1, 2]);
    let root = tree.root.as_ref().unwrap();
    assert_eq!(root.key, 2);
    assert_eq!(root.left.as_ref().unwrap().key, 1);
    assert_eq!(root.right.as_ref().unwrap().key, 3);
    assert_eq!(root.height, 2);
}

#[test]
fn avl_right_left_case_turns_twice() {
    let tree = build(&[1, 3, 2]);
    let root = tree.root.as_ref().unwrap();
    assert_eq!(root.key, 2);
    assert_eq!(root.left.as_ref().unwrap().key, 1);
    assert_eq!(root.right.as_ref().unwrap().key, 3);
    assert_eq!(root.height, 2);
}

#[test]
fn avl_rising_run_makes_a_full_tree() {
    let mut tree: AVLTreeStructure<i32> = AVLTreeStructure::new();
    for k in 1..=1023 {
        tree.insert(k);
    }
    assert_eq!(AVLTreeStructure::height_of_tree(&tree.root), 10);
    assert_eq!(tree.height(), 10);
    assert_eq!(AVLTreeStructure::number_of_leaves(&tree.root), 512);
    assert_eq!(tree.root.as_ref().unwrap().key, 512);
    assert!(tree.is_well_formed());
}

#[test]
fn avl_delete_leaf() {
    let mut tree = build(&[2, 1, 3]);
    tree.delete(1);
    assert_eq!(keys_of(&tree), vec![2, 3]);
    let root = tree.root.as_ref().unwrap();
    assert_eq!(root.key, 2);
    assert!(root.left.is_none());
    assert_eq!(root.height, 2);
}

#[test]
fn avl_delete_node_with_one_child() {
    let mut tree = build(&[2, 1, 3, 4]);
    tree.delete(3);
    assert_eq!(keys_of(&tree), vec![1, 2, 4]);
    let root = tree.root.as_ref().unwrap();
    assert_eq!(root.key, 2);
    assert_eq!(root.right.as_ref().unwrap().key, 4);
    assert_eq!(root.height, 2);
}

#[test]
fn avl_delete_node_with_two_children_takes_successor_key() {
    let mut tree = build(&[2, 1, 3]);
    tree.delete(2);
    assert_eq!(keys_of(&tree), vec![1, 3]);
    let root = tree.root.as_ref().unwrap();
    assert_eq!(root.key, 3);
    assert_eq!(root.left.as_ref().unwrap().key, 1);
    assert!(root.right.is_none());
    assert_eq!(root.height, 2);
}

#[test]
fn avl_delete_rebalances() {
    // 2 at the root, 1 to the left, 3 to the right with 4 below it
    let mut tree = build(&[2, 1, 3, 4]);
    tree.delete(1);
    assert_eq!(keys_of(&tree), vec![2, 3, 4]);
    let root = tree.root.as_ref().unwrap();
    assert_eq!(root.key, 3);
    assert_eq!(root.left.as_ref().unwrap().key, 2);
    assert_eq!(root.right.as_ref().unwrap().key, 4);
    assert_eq!(AVLTreeStructure::height_of_tree(&tree.root), 2);
}

#[test]
fn avl_delete_last_node_empties_tree() {
    let mut tree = build(&[9]);
    tree.delete(9);
    assert!(tree.tree_is_empty());
    assert_eq!(AVLTreeStructure::height_of_tree(&tree.root), 0);
}

#[test]
fn avl_delete_absent_key_changes_nothing() {
    let mut tree = build(&[10, 20, 5, 100, 15]);
    let before = format!("{:?}", tree);
    tree.delete(16);
    assert_eq!(format!("{:?}", tree), before);
    let mut empty: AVLTreeStructure<i32> = AVLTreeStructure::new();
    empty.delete(1);
    assert!(empty.tree_is_empty());
}

#[test]
fn avl_find_after_insert_and_after_delete() {
    let mut tree = build(&[10, 20, 5]);
    assert!(tree.find_by_key(15).is_none());
    tree.insert(15);
    assert_eq!(tree.find_by_key(15).unwrap().key, 15);
    tree.delete(15);
    assert!(tree.find_by_key(15).is_none());
    assert_eq!(tree.find_by_key(10).unwrap().key, 10);
    assert_eq!(tree.find_by_key(20).unwrap().key, 20);
    assert_eq!(tree.find_by_key(5).unwrap().key, 5);
}

#[test]
fn avl_find_returns_the_node_with_its_subtrees() {
    let tree = build(&[2, 1, 3]);
    let found = tree.find_by_key(2).unwrap();
    assert_eq!(found.left.as_ref().unwrap().key, 1);
    assert_eq!(found.right.as_ref().unwrap().key, 3);
}

#[test]
fn avl_equal_key_goes_to_the_right() {
    let tree = build(&[5, 5]);
    let root = tree.root.as_ref().unwrap();
    assert!(root.left.is_none());
    assert_eq!(root.right.as_ref().unwrap().key, 5);
    assert_eq!(AVLTreeStructure::height_of_tree(&tree.root), 2);
    assert_eq!(AVLTreeStructure::number_of_leaves(&tree.root), 1);
}

#[test]
fn avl_left_heavy_node_lifts_its_left_child() {
    let mut tree: AVLTreeStructure<i32> = AVLTreeStructure::new();
    for k in [9, 5, 11, 3, 7, 10, 12, 2, 4, 6, 8, 1] {
        tree.insert(k);
    }
    let root = tree.root.as_ref().unwrap();
    assert_eq!(root.key, 5);
    assert_eq!(root.left.as_ref().unwrap().key, 3);
    assert_eq!(root.right.as_ref().unwrap().key, 9);
    assert_eq!(root.right.as_ref().unwrap().left.as_ref().unwrap().key, 7);
    assert_eq!(root.height, 4);
}

#[test]
fn avl_leaves_are_at_most_half_the_nodes_rounded_up() {
    let mut tree: AVLTreeStructure<i32> = AVLTreeStructure::new();
    assert_eq!(AVLTreeStructure::number_of_leaves(&tree.root), 0);
    for k in 1..=40 {
        tree.insert(k);
        let leaves = AVLTreeStructure::number_of_leaves(&tree.root);
        let nodes = AVLTreeStructure::number_of_nodes(&tree.root);
        assert!(leaves >= 1);
        assert!(2 * leaves <= nodes + 1);
    }
}

#[test]
fn avl_equal_keys_are_kept() {
    let mut tree = build(&[5, 5, 5]);
    assert_eq!(keys_of(&tree), vec![5, 5, 5]);
    assert!(tree.is_well_formed());
    assert_eq!(AVLTreeStructure::height_of_tree(&tree.root), 2);
    tree.delete(5);
    assert_eq!(keys_of(&tree), vec![5, 5]);
    assert!(tree.find_by_key(5).is_some());
    tree.delete(5);
    tree.delete(5);
    assert!(tree.tree_is_empty());
    assert!(tree.find_by_key(5).is_none());
}

#[test]
fn avl_round_trip_leaves_empty_tree() {
    let keys = [50, 20, 70, 10, 30, 60, 80, 5, 15, 25, 35, 65, 1];
    let mut tree = build(&keys);
    assert_eq!(count_nodes(&tree.root), 13);
    for k in [30, 1, 80, 50, 5, 65, 20, 10, 70, 35, 60, 15, 25] {
        tree.delete(k);
        assert!(tree.is_well_formed());
    }
    assert!(tree.tree_is_empty());
    assert_eq!(AVLTreeStructure::height_of_tree(&tree.root), 0);
}

#[test]
fn avl_leaves_never_exceed_nodes() {
    let mut tree: AVLTreeStructure<i32> = AVLTreeStructure::new();
    for k in [8, 3, 10, 1, 6, 14, 4, 7, 13] {
        tree.insert(k);
        assert!(AVLTreeStructure::number_of_leaves(&tree.root) <= count_nodes(&tree.root));
    }
    // 8 over 3 and 13; 3 over 1 and 6; 6 over 4 and 7; 13 over 10 and 14
    assert_eq!(AVLTreeStructure::number_of_leaves(&tree.root), 5);
    assert_eq!(count_nodes(&tree.root), 9);
    assert_eq!(AVLTreeStructure::number_of_nodes(&tree.root), 9);
}

#[test]
fn avl_stays_balanced_under_many_operations() {
    let mut tree: AVLTreeStructure<i32> = AVLTreeStructure::new();
    let mut model: Vec<i32> = Vec::new();
    let mut state: u64 = 12345;
    for step in 0..600 {
        let key = (next_random(&mut state) % 64) as i32 - 32;
        if step % 3 == 2 {
            tree.delete(key);
            if let Some(at) = model.iter().position(|k| *k == key) {
                model.remove(at);
            }
        } else {
            tree.insert(key);
            let at = model.iter().filter(|k| **k <= key).count();
            model.insert(at, key);
        }
        assert_eq!(keys_of(&tree), model);
        assert!(balanced_height(&tree.root).is_some());
        assert_eq!(tree.find_by_key(key).is_some(), model.contains(&key));
    }
    assert!(tree.is_well_formed());
    assert_eq!(tree.height() as u32, AVLTreeStructure::height_of_tree(&tree.root));
}

#[test]
fn avl_is_well_formed_sees_broken_trees() {
    let mut unordered = build(&[2, 1, 3]);
    unordered.root.as_mut().unwrap().key = 9;
    assert!(!unordered.is_well_formed());

    let mut wrong_height = build(&[2, 1, 3]);
    wrong_height.root.as_mut().unwrap().height = 5;
    assert!(!wrong_height.is_well_formed());

    let mut lopsided = build(&[2, 1]);
    let mut deep = AVLTreeNode::new(0);
    deep.left = Some(AVLTreeNode::new(-1));
    deep.height = 2;
    let root = lopsided.root.as_mut().unwrap();
    root.left.as_mut().unwrap().left = Some(deep);
    root.left.as_mut().unwrap().height = 3;
    root.height = 4;
    assert!(!lopsided.is_well_formed());
}

#[test]
fn avl_other_key_types() {
    let mut wide: AVLTreeStructure<u64> = AVLTreeStructure::new();
    for k in [u64::MAX, 0, 1 << 40, 17] {
        wide.insert(k);
    }
    assert_eq!(AVLTreeStructure::in_order_traversal(&wide.root), vec![0, 17, 1 << 40, u64::MAX]);
    let mut signed: AVLTreeStructure<i64> = AVLTreeStructure::new();
    for k in [3, i64::MIN, -3, i64::MAX] {
        signed.insert(k);
    }
    assert_eq!(AVLTreeStructure::in_order_traversal(&signed.root), vec![i64::MIN, -3, 3, i64::MAX]);
    assert!(signed.find_by_key(i64::MIN).is_some());
}
