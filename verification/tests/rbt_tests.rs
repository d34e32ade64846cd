use balanced_trees::rbt::{NodeColor, RedBlackTree, RedBlackTreeStructure, TreeNode};

fn build(keys: &[i32]) -> RedBlackTreeStructure<i32> {
    let mut tree: RedBlackTreeStructure<i32> = RedBlackTreeStructure::new();
    for k in keys {
        tree.insert(*k);
    }
    tree
}

fn keys_of(tree: &RedBlackTreeStructure<i32>) -> Vec<i32> {
    RedBlackTreeStructure::in_order_traversal(&tree.root)
}

fn count_nodes(t: &RedBlackTree<i32>) -> u32 {
    match t {
        None => 0,
        Some(n) => count_nodes(&n.left) + 1 + count_nodes(&n.right),
    }
}

fn is_red(t: &RedBlackTree<i32>) -> bool {
    match t {
        None => false,
        Some(n) => n.color == NodeColor::Red,
    }
}

/// The number of black nodes on every path from here down to an absent link,
/// if it is the same on all of them and no red node has a red child.
fn black_height(t: &RedBlackTree<i32>) -> Option<u32> {
    match t {
        None => Some(0),
        Some(n) => {
            let l = black_height(&n.left)?;
            let r = black_height(&n.right)?;
            if l != r {
                return None;
            }
            if n.color == NodeColor::Red && (is_red(&n.left) || is_red(&n.right)) {
                return None;
            }
            Some(l + if n.color == NodeColor::Black { 1 } else { 0 })
        }
    }
}

fn holds_invariants(tree: &RedBlackTreeStructure<i32>) -> bool {
    !is_red(&tree.root) && black_height(&tree.root).is_some()
}

fn next_random(state: &mut u64) -> u64 {
    *state = state.wrapping_mul(6364136223846793005).wrapping_add(1442695040888963407);
    *state >> 33
}

#[test]
fn rbt_nine_keys_then_four_deletes() {
    let mut tree = build(&[10, 20, 30, 15, 25, 5, 6, 1, 43]);
    assert_eq!(tree.root.as_ref().unwrap().color, NodeColor::Black);
    assert!(holds_invariants(&tree));
    assert_eq!(keys_of(&tree), vec![1, 5, 6, 10, 15, 20, 25, 30, 43]);
    for k in [5, 30, 10, 43] {
        tree.delete(k);
        assert!(holds_invariants(&tree));
        assert!(tree.is_well_formed());
    }
    assert_eq!(keys_of(&tree), vec![1, 6, 15, 20, 25]);
    assert_eq!(tree.root.as_ref().unwrap().color, NodeColor::Black);
}

#[test]
fn rbt_nine_keys_shape() {
    let tree = build(&[10, 20, 30, 15, 25, 5, 6, 1, 43]);
    let root = tree.root.as_ref().unwrap();
    assert_eq!(root.key, 20);
    assert_eq!(root.color, NodeColor::Black);
    assert_eq!(RedBlackTreeStructure::height_of_tree(&tree.root), 4);
    assert_eq!(black_height(&tree.root), Some(2));
    // 20 over red 10 (over 5 and 15) and black 30 (over 25 and 43)
    assert_eq!(root.left.as_ref().unwrap().key, 10);
    assert_eq!(root.left.as_ref().unwrap().color, NodeColor::Red);
    assert_eq!(root.right.as_ref().unwrap().key, 30);
    assert_eq!(root.right.as_ref().unwrap().color, NodeColor::Black);
}

#[test]
fn rbt_delete_successor_keeps_colours() {
    // 2 black at the root, 1 and 4 black, 3 red below 4
    let mut tree = build(&[2, 1, 4, 3]);
    tree.delete(2);
    let root = tree.root.as_ref().unwrap();
    assert_eq!(root.key, 3);
    assert_eq!(root.color, NodeColor::Black);
    assert_eq!(root.left.as_ref().unwrap().key, 1);
    assert_eq!(root.left.as_ref().unwrap().color, NodeColor::Black);
    assert_eq!(root.right.as_ref().unwrap().key, 4);
    assert_eq!(root.right.as_ref().unwrap().color, NodeColor::Black);
    assert!(root.right.as_ref().unwrap().left.is_none());
    assert_eq!(RedBlackTreeStructure::height_of_tree(&tree.root), 2);
}

#[test]
fn rbt_inner_grandchild_without_uncle() {
    let tree = build(&[30, 10, 20]);
    let root = tree.root.as_ref().unwrap();
    assert_eq!(root.key, 20);
    assert_eq!(root.color, NodeColor::Black);
    assert_eq!(root.left.as_ref().unwrap().key, 10);
    assert_eq!(root.left.as_ref().unwrap().color, NodeColor::Red);
    assert_eq!(root.right.as_ref().unwrap().key, 30);
    assert_eq!(root.right.as_ref().unwrap().color, NodeColor::Red);
    assert_eq!(RedBlackTreeStructure::height_of_tree(&tree.root), 2);
}

#[test]
fn rbt_equal_key_goes_to_the_right() {
    let tree = build(&[5, 5]);
    let root = tree.root.as_ref().unwrap();
    assert!(root.left.is_none());
    assert_eq!(root.right.as_ref().unwrap().key, 5);
    assert_eq!(root.right.as_ref().unwrap().color, NodeColor::Red);
}

#[test]
fn rbt_root_stays_black_while_inserting() {
    let mut tree: RedBlackTreeStructure<i32> = RedBlackTreeStructure::new();
    for k in [10, 20, 30, 15, 25, 5, 6, 1, 43] {
        tree.insert(k);
        assert_eq!(tree.root.as_ref().unwrap().color, NodeColor::Black);
        assert!(holds_invariants(&tree));
    }
}

#[test]
fn rbt_find_on_empty_tree_is_absent() {
    let tree: RedBlackTreeStructure<i32> = RedBlackTreeStructure::new();
    assert!(tree.find_by_key(3).is_none());
}

#[test]
fn rbt_empty_tree() {
    let tree: RedBlackTreeStructure<i32> = RedBlackTreeStructure::new();
    assert!(tree.tree_is_empty());
    assert_eq!(RedBlackTreeStructure::height_of_tree(&tree.root), 0);
    assert_eq!(RedBlackTreeStructure::number_of_leaves(&tree.root), 0);
    assert_eq!(keys_of(&tree), Vec::<i32>::new());
    assert!(tree.is_well_formed());
}

#[test]
fn rbt_new_node_is_red() {
    let node = TreeNode::new(4);
    assert_eq!(node.color, NodeColor::Red);
    assert_eq!(node.key, 4);
    assert!(node.left.is_none());
    assert!(node.right.is_none());
}

#[test]
fn rbt_first_key_becomes_black_root() {
    let tree = build(&[4]);
    let root = tree.root.as_ref().unwrap();
    assert_eq!(root.color, NodeColor::Black);
    assert_eq!(root.key, 4);
    assert_eq!(RedBlackTreeStructure::number_of_leaves(&tree.root), 1);
    assert_eq!(RedBlackTreeStructure::height_of_tree(&tree.root), 1);
    assert!(!tree.tree_is_empty());
}

#[test]
fn rbt_second_key_is_red_child() {
    let tree = build(&[4, 2]);
    let root = tree.root.as_ref().unwrap();
    assert_eq!(root.left.as_ref().unwrap().key, 2);
    assert_eq!(root.left.as_ref().unwrap().color, NodeColor::Red);
    assert!(root.right.is_none());
}

#[test]
fn rbt_outer_red_pair_without_uncle_turns_grandparent() {
    let tree = build(&[1, 2, 3]);
    let root = tree.root.as_ref().unwrap();
    assert_eq!(root.key, 2);
    assert_eq!(root.color, NodeColor::Black);
    assert_eq!(root.left.as_ref().unwrap().key, 1);
    assert_eq!(root.left.as_ref().unwrap().color, NodeColor::Red);
    assert_eq!(root.right.as_ref().unwrap().key, 3);
    assert_eq!(root.right.as_ref().unwrap().color, NodeColor::Red);

    let mirrored = build(&[3, 2, 1]);
    let root = mirrored.root.as_ref().unwrap();
    assert_eq!(root.key, 2);
    assert_eq!(root.left.as_ref().unwrap().color, NodeColor::Red);
    assert_eq!(root.right.as_ref().unwrap().color, NodeColor::Red);
}

#[test]
fn rbt_inner_red_pair_turns_parent_first() {
    let tree = build(&[3, 1, 2]);
    let root = tree.root.as_ref().unwrap();
    assert_eq!(root.key, 2);
    assert_eq!(root.color, NodeColor::Black);
    assert_eq!(root.left.as_ref().unwrap().key, 1);
    assert_eq!(root.right.as_ref().unwrap().key, 3);
    assert_eq!(root.left.as_ref().unwrap().color, NodeColor::Red);
    assert_eq!(root.right.as_ref().unwrap().color, NodeColor::Red);

    let mirrored = build(&[1, 3, 2]);
    let root = mirrored.root.as_ref().unwrap();
    assert_eq!(root.key, 2);
    assert_eq!(root.left.as_ref().unwrap().key, 1);
    assert_eq!(root.right.as_ref().unwrap().key, 3);
}

#[test]
fn rbt_red_uncle_is_recoloured() {
    let tree = build(&[1, 2, 3, 4]);
    let root = tree.root.as_ref().unwrap();
    assert_eq!(root.key, 2);
    assert_eq!(root.color, NodeColor::Black);
    let left = root.left.as_ref().unwrap();
    let right = root.right.as_ref().unwrap();
    assert_eq!(left.color, NodeColor::Black);
    assert_eq!(right.color, NodeColor::Black);
    assert_eq!(right.key, 3);
    assert_eq!(right.right.as_ref().unwrap().key, 4);
    assert_eq!(right.right.as_ref().unwrap().color, NodeColor::Red);
    assert_eq!(RedBlackTreeStructure::height_of_tree(&tree.root), 3);
    assert_eq!(RedBlackTreeStructure::number_of_leaves(&tree.root), 2);
}

#[test]
fn rbt_delete_red_leaf() {
    let mut tree = build(&[2, 1, 3]);
    tree.delete(3);
    assert_eq!(keys_of(&tree), vec![1, 2]);
    let root = tree.root.as_ref().unwrap();
    assert_eq!(root.key, 2);
    assert!(root.right.is_none());
    assert_eq!(root.left.as_ref().unwrap().color, NodeColor::Red);
    assert!(holds_invariants(&tree));
}

#[test]
fn rbt_delete_black_node_with_red_child() {
    // 2 black at the root, 1 and 3 black, 4 red below 3
    let mut tree = build(&[1, 2, 3, 4]);
    tree.delete(3);
    assert_eq!(keys_of(&tree), vec![1, 2, 4]);
    let root = tree.root.as_ref().unwrap();
    assert_eq!(root.right.as_ref().unwrap().key, 4);
    assert_eq!(root.right.as_ref().unwrap().color, NodeColor::Black);
    assert!(holds_invariants(&tree));
}

#[test]
fn rbt_delete_black_leaf_with_black_sibling_and_red_nephew() {
    // 2 black at the root, 1 and 3 black, 4 red below 3
    let mut tree = build(&[1, 2, 3, 4]);
    tree.delete(1);
    assert_eq!(keys_of(&tree), vec![2, 3, 4]);
    let root = tree.root.as_ref().unwrap();
    assert_eq!(root.key, 3);
    assert_eq!(root.color, NodeColor::Black);
    assert_eq!(root.left.as_ref().unwrap().key, 2);
    assert_eq!(root.left.as_ref().unwrap().color, NodeColor::Black);
    assert_eq!(root.right.as_ref().unwrap().key, 4);
    assert_eq!(root.right.as_ref().unwrap().color, NodeColor::Black);
}

#[test]
fn rbt_delete_black_leaf_with_near_red_nephew() {
    // 2 black at the root, 1 and 4 black, 3 red below 4 on the near side
    let mut tree = build(&[1, 2, 4, 3]);
    assert_eq!(tree.root.as_ref().unwrap().right.as_ref().unwrap().key, 4);
    tree.delete(1);
    assert_eq!(keys_of(&tree), vec![2, 3, 4]);
    let root = tree.root.as_ref().unwrap();
    assert_eq!(root.key, 3);
    assert_eq!(root.left.as_ref().unwrap().key, 2);
    assert_eq!(root.right.as_ref().unwrap().key, 4);
    assert!(holds_invariants(&tree));
}

#[test]
fn rbt_delete_black_leaf_with_black_sibling_without_red_children() {
    // three black nodes once the red leaf 4 is gone
    let mut tree = build(&[1, 2, 3, 4]);
    tree.delete(4);
    tree.delete(1);
    assert_eq!(keys_of(&tree), vec![2, 3]);
    let root = tree.root.as_ref().unwrap();
    assert_eq!(root.key, 2);
    assert_eq!(root.color, NodeColor::Black);
    assert!(root.left.is_none());
    assert_eq!(root.right.as_ref().unwrap().key, 3);
    assert_eq!(root.right.as_ref().unwrap().color, NodeColor::Red);
}

#[test]
fn rbt_delete_with_red_sibling() {
    // rising keys leave a red right child with black children below it
    let mut tree = build(&[1, 2, 3, 4, 5, 6]);
    let root = tree.root.as_ref().unwrap();
    assert_eq!(root.key, 2);
    assert_eq!(root.right.as_ref().unwrap().key, 4);
    assert_eq!(root.right.as_ref().unwrap().color, NodeColor::Red);
    tree.delete(1);
    assert_eq!(keys_of(&tree), vec![2, 3, 4, 5, 6]);
    assert!(holds_invariants(&tree));
    let root = tree.root.as_ref().unwrap();
    assert_eq!(root.key, 4);
    assert_eq!(root.color, NodeColor::Black);
}

#[test]
fn rbt_delete_node_with_two_children_takes_successor_key() {
    let mut tree = build(&[2, 1, 3]);
    tree.delete(2);
    assert_eq!(keys_of(&tree), vec![1, 3]);
    let root = tree.root.as_ref().unwrap();
    assert_eq!(root.key, 3);
    assert_eq!(root.color, NodeColor::Black);
    assert_eq!(root.left.as_ref().unwrap().key, 1);
    assert!(root.right.is_none());
}

#[test]
fn rbt_delete_last_node_empties_tree() {
    let mut tree = build(&[9]);
    tree.delete(9);
    assert!(tree.tree_is_empty());
    assert!(tree.root.is_none());
}

#[test]
fn rbt_delete_absent_key_changes_nothing() {
    let mut tree = build(&[10, 20, 30, 15, 25]);
    let before = format!("{:?}", tree);
    tree.delete(16);
    assert_eq!(format!("{:?}", tree), before);
    let mut empty: RedBlackTreeStructure<i32> = RedBlackTreeStructure::new();
    empty.delete(1);
    assert!(empty.tree_is_empty());
}

#[test]
fn rbt_find_after_insert_and_after_delete() {
    let mut tree = build(&[10, 20, 5]);
    assert!(tree.find_by_key(15).is_none());
    tree.insert(15);
    assert_eq!(tree.find_by_key(15).unwrap().key, 15);
    tree.delete(15);
    assert!(tree.find_by_key(15).is_none());
    assert_eq!(tree.find_by_key(10).unwrap().key, 10);
}

#[test]
fn rbt_equal_keys_are_kept() {
    let mut tree = build(&[5, 5, 5, 5]);
    assert_eq!(keys_of(&tree), vec![5, 5, 5, 5]);
    assert!(holds_invariants(&tree));
    tree.delete(5);
    assert_eq!(keys_of(&tree), vec![5, 5, 5]);
    assert!(tree.find_by_key(5).is_some());
    tree.delete(5);
    tree.delete(5);
    tree.delete(5);
    assert!(tree.tree_is_empty());
}

#[test]
fn rbt_round_trip_leaves_empty_tree() {
    let keys = [50, 20, 70, 10, 30, 60, 80, 5, 15, 25, 35, 65, 1];
    let mut tree = build(&keys);
    assert_eq!(count_nodes(&tree.root), 13);
    for k in [30, 1, 80, 50, 5, 65, 20, 10, 70, 35, 60, 15, 25] {
        tree.delete(k);
        assert!(holds_invariants(&tree));
    }
    assert!(tree.tree_is_empty());
    assert_eq!(RedBlackTreeStructure::height_of_tree(&tree.root), 0);
}

#[test]
fn rbt_leaves_never_exceed_nodes() {
    let mut tree: RedBlackTreeStructure<i32> = RedBlackTreeStructure::new();
    for k in [8, 3, 10, 1, 6, 14, 4, 7, 13] {
        tree.insert(k);
        assert!(RedBlackTreeStructure::number_of_leaves(&tree.root) <= count_nodes(&tree.root));
        assert_eq!(RedBlackTreeStructure::number_of_nodes(&tree.root), count_nodes(&tree.root));
    }
    assert_eq!(RedBlackTreeStructure::number_of_nodes(&tree.root), 9);
}

#[test]
fn rbt_keeps_invariants_under_many_operations() {
    let mut tree: RedBlackTreeStructure<i32> = RedBlackTreeStructure::new();
    let mut model: Vec<i32> = Vec::new();
    let mut state: u64 = 987654321;
    for step in 0..800 {
        let key = (next_random(&mut state) % 48) as i32;
        if step % 5 >= 3 {
            tree.delete(key);
            if let Some(at) = model.iter().position(|k| *k == key) {
                model.remove(at);
            }
        } else {
            tree.insert(key);
            let at = model.iter().filter(|k| **k <= key).count();
            model.insert(at, key);
        }
        assert_eq!(keys_of(&tree), model);
        assert!(holds_invariants(&tree));
        assert_eq!(tree.find_by_key(key).is_some(), model.contains(&key));
    }
    assert!(tree.is_well_formed());
}

#[test]
fn rbt_every_deletion_order_of_seven_keys() {
    let orders: [[i32; 7]; 6] = [
        [1, 2, 3, 4, 5, 6, 7],
        [7, 6, 5, 4, 3, 2, 1],
        [4, 2, 6, 1, 3, 5, 7],
        [1, 7, 2, 6, 3, 5, 4],
        [4, 1, 7, 3, 5, 2, 6],
        [2, 4, 6, 1, 3, 5, 7],
    ];
    for inserted in orders.iter() {
        for deleted in orders.iter() {
            let mut tree = build(inserted);
            assert!(holds_invariants(&tree));
            let mut left: Vec<i32> = vec![1, 2, 3, 4, 5, 6, 7];
            for k in deleted.iter() {
                tree.delete(*k);
                left.retain(|x| x != k);
                assert_eq!(keys_of(&tree), left);
                assert!(holds_invariants(&tree));
            }
            assert!(tree.tree_is_empty());
        }
    }
}

#[test]
fn rbt_height_is_at_most_twice_the_black_height() {
    let mut tree: RedBlackTreeStructure<i32> = RedBlackTreeStructure::new();
    for k in 1..=500 {
        tree.insert(k);
    }
    let blacks = black_height(&tree.root).unwrap();
    assert!(RedBlackTreeStructure::height_of_tree(&tree.root) <= 2 * blacks);
    assert!(RedBlackTreeStructure::height_of_tree(&tree.root) <= 18);
}

#[test]
fn rbt_is_well_formed_sees_broken_trees() {
    let mut red_root = build(&[2, 1, 3]);
    red_root.root.as_mut().unwrap().color = NodeColor::Red;
    assert!(!red_root.is_well_formed());

    let mut uneven = build(&[2, 1, 3]);
    uneven.root.as_mut().unwrap().left.as_mut().unwrap().color = NodeColor::Black;
    assert!(!uneven.is_well_formed());

    let mut red_pair = build(&[2, 1, 3]);
    red_pair.root.as_mut().unwrap().left.as_mut().unwrap().left = Some(TreeNode::new(0));
    assert!(!red_pair.is_well_formed());

    let mut unordered = build(&[2, 1, 3]);
    unordered.root.as_mut().unwrap().key = 0;
    assert!(!unordered.is_well_formed());
}

#[test]
fn rbt_other_key_types() {
    let mut tree: RedBlackTreeStructure<u32> = RedBlackTreeStructure::new();
    for k in [10, 20, 30, 15, 25, 31, 5, 6, 1, 43] {
        tree.insert(k);
    }
    assert_eq!(tree.find_by_key(5).unwrap().key, 5);
    assert_eq!(
        RedBlackTreeStructure::in_order_traversal(&tree.root),
        vec![1, 5, 6, 10, 15, 20, 25, 30, 31, 43]
    );
    let mut sizes: RedBlackTreeStructure<usize> = RedBlackTreeStructure::new();
    sizes.insert(usize::MAX);
    sizes.insert(0);
    assert_eq!(RedBlackTreeStructure::in_order_traversal(&sizes.root), vec![0, usize::MAX]);
}
