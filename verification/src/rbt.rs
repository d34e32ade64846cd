//! Red-black trees: binary search trees whose nodes are coloured so that no
//! red node has a red child and every path from a node down to an absent
//! link passes the same number of black nodes.
//!
//! A tree owns its root and every node owns its two subtrees, so a node's
//! parent is simply the node that owns it. Insertion and deletion walk down
//! by recursion; what has to be repaired above a node (a red node below a
//! red one after an insertion, a subtree one black node short after a
//! deletion) is handed to the node above on the way back up, which is where
//! the parent, the grandparent, the uncle and the sibling are at hand.
//!
//! Equal keys are kept side by side. The keys of a tree, read in order,
//! never decrease; `insert` puts a key behind the keys equal to it, and
//! `delete` takes one occurrence out.

use vstd::prelude::*;
use vstd::arithmetic::power2::{pow2, lemma2_to64, lemma_pow2_unfold};
use crate::key::OrderedKey;
use crate::dot::{Dotfile, DotNodeColor};
use crate::order::{join, sorted, ordered_insert, remove_one, all_up_to, all_from};
use crate::order::{insert_all, remove_all, lemma_round_trip};
use crate::order::{lemma_sorted_join, lemma_insert_left, lemma_insert_right, lemma_insert_sorted};
use crate::order::{lemma_remove_left, lemma_remove_right, lemma_remove_here, lemma_remove_first};
use crate::order::{lemma_remove_sorted, is_sorted};

verus! {

/// The colour of a node.
#[derive(Clone, Copy, Debug, PartialEq, Eq, Structural)]
pub enum NodeColor {
    Red,
    Black,
}

/// A subtree: absent, or an owned node.
pub type RedBlackTree<T> = Option<Box<TreeNode<T>>>;

/// A node of a red-black tree. It owns its two subtrees.
#[derive(Debug)]
pub struct TreeNode<T> {
    pub color: NodeColor,
    pub key: T,
    pub left: RedBlackTree<T>,
    pub right: RedBlackTree<T>,
}

/// A red-black tree, empty or owning its root node.
#[derive(Debug)]
pub struct RedBlackTreeStructure<T> {
    pub root: RedBlackTree<T>,
}

/// The keys of a subtree in order: left subtree, node, right subtree.
pub open spec fn tree_keys<T: OrderedKey>(t: RedBlackTree<T>) -> Seq<T>
    decreases t,
{
    match t {
        None => Seq::empty(),
        Some(n) => join(tree_keys(n.left), n.key, tree_keys(n.right)),
    }
}

/// The number of nodes on the longest path from the root of a subtree down to
/// a node without children; 0 for an absent subtree.
pub open spec fn tree_height<T>(t: RedBlackTree<T>) -> nat
    decreases t,
{
    match t {
        None => 0,
        Some(n) => 1 + vstd::math::max(tree_height(n.left) as int, tree_height(n.right) as int) as nat,
    }
}

/// The number of nodes of a subtree that have no children.
pub open spec fn tree_leaves<T>(t: RedBlackTree<T>) -> nat
    decreases t,
{
    match t {
        None => 0,
        Some(n) => if n.left.is_none() && n.right.is_none() {
            1
        } else {
            tree_leaves(n.left) + tree_leaves(n.right)
        },
    }
}

/// The number of nodes of a subtree.
pub open spec fn tree_size<T>(t: RedBlackTree<T>) -> nat
    decreases t,
{
    match t {
        None => 0,
        Some(n) => tree_size(n.left) + 1 + tree_size(n.right),
    }
}

/// The subtree has a root and that root is red. An absent subtree counts as
/// black.
pub open spec fn is_red<T>(t: RedBlackTree<T>) -> bool {
    match t {
        None => false,
        Some(n) => n.color == NodeColor::Red,
    }
}

/// The number of black nodes on the leftmost path of a subtree, its root
/// included. Where the subtree satisfies `is_rb`, every path from its root
/// down to an absent link passes this many black nodes.
pub open spec fn black_count<T>(t: RedBlackTree<T>) -> nat
    decreases t,
{
    match t {
        None => 0,
        Some(n) => black_count(n.left) + if n.color == NodeColor::Black {
            1nat
        } else {
            0nat
        },
    }
}

/// The red-black invariant: at every node of the subtree both sides pass the
/// same number of black nodes, and no red node has a red child.
pub open spec fn is_rb<T>(t: RedBlackTree<T>) -> bool
    decreases t,
{
    match t {
        None => true,
        Some(n) => {
            &&& is_rb(n.left)
            &&& is_rb(n.right)
            &&& black_count(n.left) == black_count(n.right)
            &&& (n.color == NodeColor::Red ==> !is_red(n.left) && !is_red(n.right))
        },
    }
}

/// The invariant with nothing asked of the root's own colour: the two
/// subtrees of the root satisfy it and pass the same number of black nodes.
pub open spec fn is_rb_below<T>(t: RedBlackTree<T>) -> bool {
    match t {
        None => true,
        Some(n) => {
            &&& is_rb(n.left)
            &&& is_rb(n.right)
            &&& black_count(n.left) == black_count(n.right)
        },
    }
}

/// What the tree's measures are at a node, in terms of its two subtrees.
pub proof fn lemma_node<T: OrderedKey>(n: Box<TreeNode<T>>)
    ensures
        tree_keys(Some(n)) == join(tree_keys(n.left), n.key, tree_keys(n.right)),
        tree_size(Some(n)) == tree_size(n.left) + 1 + tree_size(n.right),
        black_count(Some(n)) == black_count(n.left) + if n.color == NodeColor::Black {
            1nat
        } else {
            0nat
        },
        is_rb_below(Some(n)) <==> {
            &&& is_rb(n.left)
            &&& is_rb(n.right)
            &&& black_count(n.left) == black_count(n.right)
        },
        is_rb(Some(n)) <==> {
            &&& is_rb_below(Some(n))
            &&& (n.color == NodeColor::Red ==> !is_red(n.left) && !is_red(n.right))
        },
{
}

/// The node `n` turned to the left: its right child on top, `n` below it on
/// the left, the child's former left subtree as `n`'s right. No colour
/// changes.
pub open spec fn turned_left<T>(n: TreeNode<T>) -> TreeNode<T>
    recommends
        n.right.is_some(),
{
    let r = n.right.unwrap();
    TreeNode {
        color: r.color,
        key: r.key,
        left: Some(Box::new(TreeNode { color: n.color, key: n.key, left: n.left, right: r.left })),
        right: r.right,
    }
}

/// The node `n` turned to the right: the mirror image of `turned_left`.
pub open spec fn turned_right<T>(n: TreeNode<T>) -> TreeNode<T>
    recommends
        n.left.is_some(),
{
    let l = n.left.unwrap();
    TreeNode {
        color: l.color,
        key: l.key,
        left: l.left,
        right: Some(Box::new(TreeNode { color: n.color, key: n.key, left: l.right, right: n.right })),
    }
}

/// The subtree that has `n` as its root.
pub open spec fn link<T>(n: TreeNode<T>) -> RedBlackTree<T> {
    Some(Box::new(n))
}

/// The node `n` in the colour `color`.
pub open spec fn painted<T>(n: TreeNode<T>, color: NodeColor) -> TreeNode<T> {
    TreeNode { color: color, key: n.key, left: n.left, right: n.right }
}

/// The node `n` with `left` as its left subtree.
pub open spec fn with_left<T>(n: TreeNode<T>, left: RedBlackTree<T>) -> TreeNode<T> {
    TreeNode { color: n.color, key: n.key, left: left, right: n.right }
}

/// The node `n` with `right` as its right subtree.
pub open spec fn with_right<T>(n: TreeNode<T>, right: RedBlackTree<T>) -> TreeNode<T> {
    TreeNode { color: n.color, key: n.key, left: n.left, right: right }
}

/// The node `n` made red and its two children black.
pub open spec fn recolored<T>(n: TreeNode<T>) -> TreeNode<T>
    recommends
        n.left.is_some(),
        n.right.is_some(),
{
    TreeNode {
        color: NodeColor::Red,
        key: n.key,
        left: link(painted(*n.left.unwrap(), NodeColor::Black)),
        right: link(painted(*n.right.unwrap(), NodeColor::Black)),
    }
}

/// The left child of `n` made black and lifted over `n`, which is made red.
pub open spec fn lifted_left<T>(n: TreeNode<T>) -> TreeNode<T>
    recommends
        n.left.is_some(),
{
    turned_right(
        TreeNode {
            color: NodeColor::Red,
            key: n.key,
            left: link(painted(*n.left.unwrap(), NodeColor::Black)),
            right: n.right,
        },
    )
}

/// The right child of `n` made black and lifted over `n`, which is made red.
pub open spec fn lifted_right<T>(n: TreeNode<T>) -> TreeNode<T>
    recommends
        n.right.is_some(),
{
    turned_left(
        TreeNode {
            color: NodeColor::Red,
            key: n.key,
            left: n.left,
            right: link(painted(*n.right.unwrap(), NodeColor::Black)),
        },
    )
}

/// What becomes of the node `n` once a red node with a red child has been
/// removed from the top of its subtree on the side that `on_left` names.
/// A red `n`, and a black `n` without such a pair below it, stay as they
/// are. With a red uncle the pair's parent and the uncle turn black and `n`
/// red. Otherwise the red child is turned outwards where it lies inside,
/// and its parent is lifted over `n`.
pub open spec fn insert_fixed<T>(n: TreeNode<T>, on_left: bool) -> TreeNode<T> {
    if n.color == NodeColor::Red {
        n
    } else if on_left {
        if !is_red(n.left) {
            n
        } else if !is_red(n.left.unwrap().left) && !is_red(n.left.unwrap().right) {
            n
        } else if is_red(n.right) {
            recolored(n)
        } else if is_red(n.left.unwrap().right) {
            lifted_left(with_left(n, link(turned_left(*n.left.unwrap()))))
        } else {
            lifted_left(n)
        }
    } else {
        if !is_red(n.right) {
            n
        } else if !is_red(n.right.unwrap().left) && !is_red(n.right.unwrap().right) {
            n
        } else if is_red(n.left) {
            recolored(n)
        } else if is_red(n.right.unwrap().left) {
            lifted_right(with_right(n, link(turned_right(*n.right.unwrap()))))
        } else {
            lifted_right(n)
        }
    }
}

/// The subtree `t` after `key` has been put into it, before its root is
/// looked at from above: the key goes down to the left of every node whose
/// key is greater and to the right of every other node, so behind the keys
/// equal to it, and becomes a red node without children; every node on the
/// way is then repaired from the bottom up.
pub open spec fn inserted<T: OrderedKey>(t: RedBlackTree<T>, key: T) -> TreeNode<T>
    decreases t,
{
    match t {
        None => TreeNode { color: NodeColor::Red, key: key, left: None, right: None },
        Some(n) => if key.rank() < n.key.rank() {
            insert_fixed(with_left(*n, link(inserted(n.left, key))), true)
        } else {
            insert_fixed(with_right(*n, link(inserted(n.right, key))), false)
        },
    }
}

/// What stands in the place of a removed node of the colour `removed`
/// whose only child, or nothing, was `replacement`, and whether that place
/// is now one black node short.
pub open spec fn delete_fixed<T>(replacement: RedBlackTree<T>, removed: NodeColor) -> (
    RedBlackTree<T>,
    bool,
) {
    if removed == NodeColor::Red {
        (replacement, false)
    } else if is_red(replacement) {
        (link(painted(*replacement.unwrap(), NodeColor::Black)), false)
    } else {
        (replacement, true)
    }
}

/// The black sibling `s` with its red near child lifted over it: the child
/// black on top, `s` red below it on the far side. `on_left` names the
/// short side, which is the near one.
pub open spec fn near_turned_out<T>(s: TreeNode<T>, on_left: bool) -> TreeNode<T> {
    if on_left {
        turned_right(
            TreeNode {
                color: NodeColor::Red,
                key: s.key,
                left: link(painted(*s.left.unwrap(), NodeColor::Black)),
                right: s.right,
            },
        )
    } else {
        turned_left(
            TreeNode {
                color: NodeColor::Red,
                key: s.key,
                left: s.left,
                right: link(painted(*s.right.unwrap(), NodeColor::Black)),
            },
        )
    }
}

/// The node `n` turned towards its short side, which `on_left` names: its
/// sibling on top in the colour of `n`, and below it `n` and the sibling's
/// far child, both black.
pub open spec fn short_side_turned<T>(n: TreeNode<T>, on_left: bool) -> TreeNode<T> {
    if on_left {
        let s = *n.right.unwrap();
        turned_left(
            TreeNode {
                color: NodeColor::Black,
                key: n.key,
                left: n.left,
                right: link(
                    TreeNode {
                        color: n.color,
                        key: s.key,
                        left: s.left,
                        right: link(painted(*s.right.unwrap(), NodeColor::Black)),
                    },
                ),
            },
        )
    } else {
        let s = *n.left.unwrap();
        turned_right(
            TreeNode {
                color: NodeColor::Black,
                key: n.key,
                left: link(
                    TreeNode {
                        color: n.color,
                        key: s.key,
                        left: link(painted(*s.left.unwrap(), NodeColor::Black)),
                        right: s.right,
                    },
                ),
                right: n.right,
            },
        )
    }
}

/// What becomes of the node `n`, short of a black node on the side that
/// `on_left` names, where its black sibling has a red child: the sibling's
/// near child is turned outwards where the far one is not red, then `n` is
/// turned towards the short side.
pub open spec fn red_nephew_fixed<T>(n: TreeNode<T>, on_left: bool) -> TreeNode<T> {
    if on_left {
        let s = *n.right.unwrap();
        short_side_turned(
            with_right(
                n,
                link(
                    if is_red(s.right) {
                        s
                    } else {
                        near_turned_out(s, on_left)
                    },
                ),
            ),
            on_left,
        )
    } else {
        let s = *n.left.unwrap();
        short_side_turned(
            with_left(
                n,
                link(
                    if is_red(s.left) {
                        s
                    } else {
                        near_turned_out(s, on_left)
                    },
                ),
            ),
            on_left,
        )
    }
}

/// What becomes of the node `n`, short of a black node on the side that
/// `on_left` names and with a black sibling, and whether its subtree is then
/// one black node short as a whole. Where the sibling has no red child it
/// turns red, and `n` turns black if it was red and passes the shortage up
/// if it was black. Where the sibling has a red child, see
/// `red_nephew_fixed`; nothing is short after.
pub open spec fn black_sibling_handled<T>(n: TreeNode<T>, on_left: bool) -> (TreeNode<T>, bool) {
    let s = if on_left {
        *n.right.unwrap()
    } else {
        *n.left.unwrap()
    };
    if !is_red(s.left) && !is_red(s.right) {
        let faded = link(painted(s, NodeColor::Red));
        let m = if on_left {
            with_right(n, faded)
        } else {
            with_left(n, faded)
        };
        if n.color == NodeColor::Black {
            (m, true)
        } else {
            (painted(m, NodeColor::Black), false)
        }
    } else {
        (red_nephew_fixed(n, on_left), false)
    }
}

/// What becomes of the black node `n`, short of a black node on the side
/// that `on_left` names and with a red sibling: the sibling black on top,
/// and below it on the short side `n`, made red and then dealt with as a
/// node with a black sibling.
pub open spec fn red_sibling_fixed<T>(n: TreeNode<T>, on_left: bool) -> TreeNode<T> {
    if on_left {
        let top = turned_left(
            TreeNode {
                color: NodeColor::Red,
                key: n.key,
                left: n.left,
                right: link(painted(*n.right.unwrap(), NodeColor::Black)),
            },
        );
        with_left(top, link(black_sibling_handled(*top.left.unwrap(), on_left).0))
    } else {
        let top = turned_right(
            TreeNode {
                color: NodeColor::Red,
                key: n.key,
                left: link(painted(*n.left.unwrap(), NodeColor::Black)),
                right: n.right,
            },
        );
        with_right(top, link(black_sibling_handled(*top.right.unwrap(), on_left).0))
    }
}

/// What becomes of the node `n` whose subtree on the side that `on_left`
/// names is one black node short, and whether the subtree of `n` is then
/// short as a whole.
pub open spec fn double_black_fixed<T>(n: TreeNode<T>, on_left: bool) -> (TreeNode<T>, bool) {
    if is_red(if on_left { n.right } else { n.left }) {
        (red_sibling_fixed(n, on_left), false)
    } else {
        black_sibling_handled(n, on_left)
    }
}

/// The leftmost node of the subtree rooted at `n`: the one reached from `n`
/// by left links only.
pub open spec fn leftmost<T>(n: Box<TreeNode<T>>) -> Box<TreeNode<T>>
    decreases n,
{
    match n.left {
        None => n,
        Some(l) => leftmost(l),
    }
}

/// The node `n` with the subtree `rest` on the side that `on_left` names,
/// repaired where `short` says that `rest` is one black node short; and
/// whether the whole is short then.
pub open spec fn mended<T>(n: TreeNode<T>, on_left: bool, short: bool) -> (RedBlackTree<T>, bool) {
    if short {
        (link(double_black_fixed(n, on_left).0), double_black_fixed(n, on_left).1)
    } else {
        (link(n), false)
    }
}

/// What is left of the subtree rooted at `n` after one node with the key
/// `key` has been taken out, and whether it is one black node short. The
/// walk goes left where `key` is smaller than a node's key and right where
/// it is greater. The first node met with that key gives way to its only
/// child if it has at most one; else it takes the key of the leftmost node
/// of its right subtree, and that key is taken out there. Every node on the
/// way is repaired from the bottom up.
pub open spec fn deleted<T: OrderedKey>(n: Box<TreeNode<T>>, key: T) -> (RedBlackTree<T>, bool)
    decreases n,
{
    if key.rank() < n.key.rank() {
        match n.left {
            Some(l) => mended(with_left(*n, deleted(l, key).0), true, deleted(l, key).1),
            None => (Some(n), false),
        }
    } else if n.key.rank() < key.rank() {
        match n.right {
            Some(r) => mended(with_right(*n, deleted(r, key).0), false, deleted(r, key).1),
            None => (Some(n), false),
        }
    } else {
        match n.right {
            Some(r) => if n.left.is_some() {
                let successor = leftmost(r).key;
                mended(
                    TreeNode {
                        color: n.color,
                        key: successor,
                        left: n.left,
                        right: deleted(r, successor).0,
                    },
                    false,
                    deleted(r, successor).1,
                )
            } else {
                delete_fixed(n.right, n.color)
            },
            None => delete_fixed(n.left, n.color),
        }
    }
}

/// The tree `t` after one node with the key `key` has been taken out and
/// the root has been made black.
pub open spec fn tree_deleted<T: OrderedKey>(t: RedBlackTree<T>, key: T) -> RedBlackTree<T> {
    match t {
        None => None,
        Some(n) => match deleted(n, key).0 {
            None => None,
            Some(top) => link(painted(*top, NodeColor::Black)),
        },
    }
}

impl<T: OrderedKey> TreeNode<T> {
    /// A red node without children.
    pub fn new(key: T) -> (node: Box<TreeNode<T>>)
        ensures
            *node == (TreeNode { color: NodeColor::Red, key: key, left: None, right: None }),
    {
        Box::new(TreeNode { color: NodeColor::Red, key, left: None, right: None })
    }
}

impl<T: OrderedKey> RedBlackTreeStructure<T> {
    /// Turns `node` to the left. The keys keep their order and no node
    /// changes colour.
    fn rotate_left(node: Box<TreeNode<T>>) -> (top: Box<TreeNode<T>>)
        requires
            node.right.is_some(),
        ensures
            *top == turned_left(*node),
            tree_keys(Some(top)) == tree_keys(Some(node)),
    {
        let ghost before = node;
        let mut node = node;
        let mut right = node.right.take().unwrap();
        node.right = right.left.take();
        right.left = Some(node);
        proof {
            reveal_with_fuel(tree_keys, 3);
            assert(tree_keys(Some(right)) =~= tree_keys(Some(before)));
        }
        right
    }

    /// Turns `node` to the right. The keys keep their order and no node
    /// changes colour.
    fn rotate_right(node: Box<TreeNode<T>>) -> (top: Box<TreeNode<T>>)
        requires
            node.left.is_some(),
        ensures
            *top == turned_right(*node),
            tree_keys(Some(top)) == tree_keys(Some(node)),
    {
        let ghost before = node;
        let mut node = node;
        let mut left = node.left.take().unwrap();
        node.left = left.right.take();
        left.right = Some(node);
        proof {
            reveal_with_fuel(tree_keys, 3);
            assert(tree_keys(Some(left)) =~= tree_keys(Some(before)));
        }
        left
    }

    /// Whether the subtree has a red root.
    fn red(t: &RedBlackTree<T>) -> (r: bool)
        ensures
            r == is_red(*t),
    {
        match t {
            None => false,
            Some(n) => match n.color {
                NodeColor::Red => true,
                NodeColor::Black => false,
            },
        }
    }

    /// Removes a red node with a red child from below `node`, after a key
    /// went into the subtree on the side that `on_left` names.
    ///
    /// Such a pair can only stand at the top of that subtree, and only below
    /// a black `node`. Where the subtree on the other side (the uncle) is red,
    /// both are made black and `node` red, which may leave `node` red below a
    /// red node: the caller one level up meets that. Where the uncle is black
    /// or absent, the red child is first turned outwards if it lies on the
    /// inner side, then its parent is made black, `node` red, and `node` is
    /// turned away from that side. Otherwise `node` is returned as it is.
    fn fix_insert(node: Box<TreeNode<T>>, on_left: bool) -> (top: Box<TreeNode<T>>)
        requires
            is_rb_below(if on_left { node.left } else { node.right }),
            is_rb(if on_left { node.right } else { node.left }),
            black_count(node.left) == black_count(node.right),
            is_red(Some(node)) ==> is_rb(node.left) && is_rb(node.right) && !(is_red(node.left)
                && is_red(node.right)),
            on_left && !is_rb(node.left) ==> !(is_red(node.left.unwrap().left) && is_red(
                node.left.unwrap().right,
            )),
            !on_left && !is_rb(node.right) ==> !(is_red(node.right.unwrap().left) && is_red(
                node.right.unwrap().right,
            )),
        ensures
            *top == insert_fixed(*node, on_left),
            ({
                let side = if on_left { node.left } else { node.right };
                let other = if on_left { node.right } else { node.left };
                !is_red(Some(node)) && is_red(side) && (is_red(side.unwrap().left) || is_red(
                    side.unwrap().right,
                )) ==> (if is_red(other) {
                    is_red(Some(top)) && top.key == node.key && !is_red(top.left) && !is_red(
                        top.right,
                    )
                } else {
                    !is_red(Some(top)) && is_red(top.left) && is_red(top.right)
                })
            }),
            tree_keys(Some(top)) == tree_keys(Some(node)),
            black_count(Some(top)) == black_count(Some(node)),
            is_rb_below(Some(top)),
            !is_red(Some(node)) ==> is_rb(Some(top)),
            is_red(Some(node)) ==> top == node,
    {
        let mut node = node;
        proof {
            lemma_node(node);
        }
        match node.color {
            NodeColor::Red => {
                return node;
            },
            NodeColor::Black => {},
        }
        if on_left {
            if !Self::red(&node.left) {
                return node;
            }
            let inner: bool = Self::red(&node.left.as_ref().unwrap().right);
            let outer: bool = Self::red(&node.left.as_ref().unwrap().left);
            proof {
                lemma_node(node.left.unwrap());
            }
            if !inner && !outer {
                return node;
            }
            if Self::red(&node.right) {
                return Self::recolor(node);
            }
            if inner {
                let parent = node.left.take().unwrap();
                let turned = Self::rotate_left(parent);
                proof {
                    lemma_node(parent.right.unwrap());
                    lemma_node(turned.left.unwrap());
                    lemma_node(turned);
                }
                node.left = Some(turned);
            }
            Self::lift_left(node)
        } else {
            if !Self::red(&node.right) {
                return node;
            }
            let inner: bool = Self::red(&node.right.as_ref().unwrap().left);
            let outer: bool = Self::red(&node.right.as_ref().unwrap().right);
            proof {
                lemma_node(node.right.unwrap());
            }
            if !inner && !outer {
                return node;
            }
            if Self::red(&node.left) {
                return Self::recolor(node);
            }
            if inner {
                let parent = node.right.take().unwrap();
                let turned = Self::rotate_right(parent);
                proof {
                    lemma_node(parent.left.unwrap());
                    lemma_node(turned.right.unwrap());
                    lemma_node(turned);
                }
                node.right = Some(turned);
            }
            Self::lift_right(node)
        }
    }

    /// Makes the two red children of a black node black and the node red.
    fn recolor(node: Box<TreeNode<T>>) -> (top: Box<TreeNode<T>>)
        requires
            !is_red(Some(node)),
            is_red(node.left),
            is_red(node.right),
            is_rb_below(node.left),
            is_rb_below(node.right),
            black_count(node.left) == black_count(node.right),
        ensures
            *top == recolored(*node),
            tree_keys(Some(top)) == tree_keys(Some(node)),
            black_count(Some(top)) == black_count(Some(node)),
            is_rb(Some(top)),
            is_red(Some(top)),
    {
        let mut node = node;
        let mut left = node.left.take().unwrap();
        let mut right = node.right.take().unwrap();
        proof {
            lemma_node(left);
            lemma_node(right);
        }
        left.color = NodeColor::Black;
        right.color = NodeColor::Black;
        proof {
            lemma_node(left);
            lemma_node(right);
        }
        node.color = NodeColor::Red;
        node.left = Some(left);
        node.right = Some(right);
        node
    }

    /// Ends a run of two red nodes down the left edge of a black node whose
    /// right child is black: the left child is made black, the node red, and
    /// the node is turned to the right.
    fn lift_left(node: Box<TreeNode<T>>) -> (top: Box<TreeNode<T>>)
        requires
            !is_red(Some(node)),
            is_red(node.left),
            is_red(node.left.unwrap().left),
            !is_red(node.left.unwrap().right),
            !is_red(node.right),
            is_rb_below(node.left),
            is_rb(node.right),
            black_count(node.left) == black_count(node.right),
        ensures
            *top == lifted_left(*node),
            !is_red(Some(top)),
            is_red(top.left),
            is_red(top.right),
            tree_keys(Some(top)) == tree_keys(Some(node)),
            black_count(Some(top)) == black_count(Some(node)),
            is_rb(Some(top)),
    {
        let mut node = node;
        let mut parent = node.left.take().unwrap();
        proof {
            lemma_node(node);
            lemma_node(parent);
        }
        parent.color = NodeColor::Black;
        node.color = NodeColor::Red;
        node.left = Some(parent);
        let top = Self::rotate_right(node);
        proof {
            lemma_node(top.right.unwrap());
            lemma_node(top);
        }
        top
    }

    /// Ends a run of two red nodes down the right edge of a black node whose
    /// left child is black: the mirror image of `lift_left`.
    fn lift_right(node: Box<TreeNode<T>>) -> (top: Box<TreeNode<T>>)
        requires
            !is_red(Some(node)),
            is_red(node.right),
            is_red(node.right.unwrap().right),
            !is_red(node.right.unwrap().left),
            !is_red(node.left),
            is_rb_below(node.right),
            is_rb(node.left),
            black_count(node.left) == black_count(node.right),
        ensures
            *top == lifted_right(*node),
            !is_red(Some(top)),
            is_red(top.left),
            is_red(top.right),
            tree_keys(Some(top)) == tree_keys(Some(node)),
            black_count(Some(top)) == black_count(Some(node)),
            is_rb(Some(top)),
    {
        let mut node = node;
        let mut parent = node.right.take().unwrap();
        proof {
            lemma_node(node);
            lemma_node(parent);
        }
        parent.color = NodeColor::Black;
        node.color = NodeColor::Red;
        node.right = Some(parent);
        let top = Self::rotate_left(node);
        proof {
            lemma_node(top.left.unwrap());
            lemma_node(top);
        }
        top
    }

    /// Puts `key` into the subtree rooted at `node`: to the left of every
    /// node whose key is greater, to the right of the others, as a new red
    /// node without children. On the way back every node has a red pair
    /// below it removed. The root of the result may be red where `node` was
    /// black, and may be a red node with one red child where `node` was red.
    fn insert_node(node: Box<TreeNode<T>>, key: T) -> (top: Box<TreeNode<T>>)
        requires
            is_rb(Some(node)),
            sorted(tree_keys(Some(node))),
        ensures
            *top == inserted(Some(node), key),
            tree_keys(Some(top)) == ordered_insert(tree_keys(Some(node)), key),
            black_count(Some(top)) == black_count(Some(node)),
            is_rb_below(Some(top)),
            !is_red(Some(node)) ==> is_rb(Some(top)),
            is_red(Some(node)) ==> is_red(Some(top)) && !(is_red(top.left) && is_red(top.right)),
        decreases node,
    {
        let ghost before = node;
        let mut node = node;
        proof {
            lemma_node(before);
            lemma_sorted_join(tree_keys(before.left), before.key, tree_keys(before.right));
        }
        let on_left: bool = key.less(&node.key);
        if on_left {
            proof {
                lemma_insert_left(tree_keys(before.left), before.key, tree_keys(before.right), key);
            }
            match node.left.take() {
                Some(left) => {
                    let grown = Self::insert_node(left, key);
                    proof {
                        lemma_node(grown);
                    }
                    node.left = Some(grown);
                },
                None => {
                    let leaf = TreeNode::new(key);
                    proof {
                        assert(ordered_insert(Seq::<T>::empty(), key) =~= seq![key]);
                        Self::lemma_leaf(leaf);
                        assert(*leaf == inserted(before.left, key));
                    }
                    node.left = Some(leaf);
                },
            }
        } else {
            proof {
                lemma_insert_right(tree_keys(before.left), before.key, tree_keys(before.right), key);
            }
            match node.right.take() {
                Some(right) => {
                    let grown = Self::insert_node(right, key);
                    proof {
                        lemma_node(grown);
                    }
                    node.right = Some(grown);
                },
                None => {
                    let leaf = TreeNode::new(key);
                    proof {
                        assert(ordered_insert(Seq::<T>::empty(), key) =~= seq![key]);
                        Self::lemma_leaf(leaf);
                        assert(*leaf == inserted(before.right, key));
                    }
                    node.right = Some(leaf);
                },
            }
        }
        proof {
            lemma_node(node);
            if on_left {
                assert(*node == with_left(*before, link(inserted(before.left, key))));
            } else {
                assert(*node == with_right(*before, link(inserted(before.right, key))));
            }
        }
        Self::fix_insert(node, on_left)
    }

    /// A node without children holds one key and satisfies the invariant.
    proof fn lemma_leaf(n: Box<TreeNode<T>>)
        requires
            n.left.is_none(),
            n.right.is_none(),
        ensures
            tree_keys(Some(n)) == seq![n.key],
            is_rb(Some(n)),
            tree_height(Some(n)) == 1,
            tree_leaves(Some(n)) == 1,
            tree_size(Some(n)) == 1,
            black_count(Some(n)) == if n.color == NodeColor::Black {
                1nat
            } else {
                0nat
            },
    {
        reveal_with_fuel(tree_keys, 2);
        reveal_with_fuel(is_rb, 2);
        reveal_with_fuel(tree_height, 2);
        reveal_with_fuel(tree_size, 2);
        reveal_with_fuel(black_count, 2);
        assert(tree_keys(Some(n)) =~= seq![n.key]);
    }
}

impl<T: OrderedKey> View for RedBlackTreeStructure<T> {
    type V = Seq<T>;

    /// The tree's keys in order.
    open spec fn view(&self) -> Seq<T> {
        tree_keys(self.root)
    }
}

impl<T: OrderedKey> RedBlackTreeStructure<T> {
    /// The tree is a search tree (its keys in order never decrease), its
    /// root is black, no red node has a red child, and every path from the
    /// root down to an absent link passes the same number of black nodes.
    pub open spec fn wf(&self) -> bool {
        &&& sorted(self@)
        &&& is_rb(self.root)
        &&& !is_red(self.root)
    }

    /// An empty tree.
    pub fn new() -> (tree: Self)
        ensures
            tree.wf(),
            tree.root.is_none(),
            tree@ == Seq::<T>::empty(),
    {
        RedBlackTreeStructure { root: None }
    }

    /// Puts `key` into the tree, behind the keys equal to it: as a black
    /// root where the tree was empty, else as a red node whose red
    /// ancestors are then dealt with; in the end the root is made black.
    pub fn insert(&mut self, key: T)
        requires
            old(self).wf(),
        ensures
            final(self).wf(),
            final(self)@ == ordered_insert(old(self)@, key),
            final(self).root == link(painted(inserted(old(self).root, key), NodeColor::Black)),
            black_count(final(self).root) == black_count(old(self).root) || black_count(
                final(self).root,
            ) == black_count(old(self).root) + 1,
    {
        proof {
            lemma_insert_sorted(self@, key);
        }
        match self.root.take() {
            Some(root) => {
                let mut top = Self::insert_node(root, key);
                proof {
                    lemma_node(top);
                }
                top.color = NodeColor::Black;
                proof {
                    lemma_node(top);
                }
                self.root = Some(top);
            },
            None => {
                let mut leaf = TreeNode::new(key);
                leaf.color = NodeColor::Black;
                proof {
                    assert(ordered_insert(Seq::<T>::empty(), key) =~= seq![key]);
                    Self::lemma_leaf(leaf);
                }
                self.root = Some(leaf);
            },
        }
    }

    /// Closes the gap that a removed node of colour `removed` leaves, with
    /// `replacement` (its only child, or nothing) standing in its place.
    /// Returns the subtree to stand there and whether it is now one black
    /// node short: a red node leaves no shortage, a red replacement makes up
    /// for a black node by turning black, and otherwise the shortage stays
    /// for the nodes above to deal with.
    fn fix_delete(replacement: RedBlackTree<T>, removed: NodeColor) -> (out: (
        RedBlackTree<T>,
        bool,
    ))
        requires
            is_rb(replacement),
        ensures
            out == delete_fixed(replacement, removed),
            tree_keys(out.0) == tree_keys(replacement),
            is_rb(out.0),
            black_count(out.0) + (if out.1 { 1nat } else { 0nat }) == black_count(replacement) + (
            if removed == NodeColor::Black { 1nat } else { 0nat }),
            removed == NodeColor::Black ==> !is_red(out.0),
            out.1 ==> removed == NodeColor::Black,
            removed == NodeColor::Red || !is_red(replacement) ==> out.0 == replacement,
    {
        match removed {
            NodeColor::Red => (replacement, false),
            NodeColor::Black => {
                if Self::red(&replacement) {
                    let mut child = replacement.unwrap();
                    proof {
                        lemma_node(child);
                    }
                    child.color = NodeColor::Black;
                    proof {
                        lemma_node(child);
                    }
                    (Some(child), false)
                } else {
                    (replacement, true)
                }
            },
        }
    }

    /// Deals with a black sibling that has a red child, at a node whose
    /// subtree on the side that `on_left` names is one black node short.
    /// Where only the sibling's near child is red, the sibling is made red,
    /// that child black, and the sibling is turned away from the short side,
    /// so that the sibling's far child is red. Then the sibling takes the
    /// node's colour, the node and the sibling's far child become black, and
    /// the node is turned towards the short side. Nothing is short after.
    fn fix_red_sibling_case(node: Box<TreeNode<T>>, on_left: bool) -> (top: Box<TreeNode<T>>)
        requires
            is_rb(node.left),
            is_rb(node.right),
            on_left ==> {
                &&& black_count(node.left) + 1 == black_count(node.right)
                &&& !is_red(node.right)
                &&& (is_red(node.right.unwrap().left) || is_red(node.right.unwrap().right))
            },
            !on_left ==> {
                &&& black_count(node.right) + 1 == black_count(node.left)
                &&& !is_red(node.left)
                &&& (is_red(node.left.unwrap().left) || is_red(node.left.unwrap().right))
            },
        ensures
            *top == red_nephew_fixed(*node, on_left),
            tree_keys(Some(top)) == tree_keys(Some(node)),
            is_rb(Some(top)),
            black_count(Some(top)) == black_count(if on_left { node.right } else { node.left }) + (
            if is_red(Some(node)) { 0nat } else { 1nat }),
            is_red(Some(top)) == is_red(Some(node)),
    {
        let mut node = node;
        if on_left {
            let mut sibling = node.right.take().unwrap();
            if !Self::red(&sibling.right) {
                sibling = Self::turn_near_out(sibling, on_left);
            }
            node.right = Some(sibling);
        } else {
            let mut sibling = node.left.take().unwrap();
            if !Self::red(&sibling.left) {
                sibling = Self::turn_near_out(sibling, on_left);
            }
            node.left = Some(sibling);
        }
        proof {
            lemma_node(node);
        }
        Self::turn_to_short_side(node, on_left)
    }

    /// Makes the far child of a black sibling red where only its near child
    /// is: the sibling is made red, the near child black, and the sibling is
    /// turned away from the short side, which `on_left` names.
    fn turn_near_out(sibling: Box<TreeNode<T>>, on_left: bool) -> (top: Box<TreeNode<T>>)
        requires
            is_rb(Some(sibling)),
            !is_red(Some(sibling)),
            on_left ==> is_red(sibling.left) && !is_red(sibling.right),
            !on_left ==> is_red(sibling.right) && !is_red(sibling.left),
        ensures
            *top == near_turned_out(*sibling, on_left),
            tree_keys(Some(top)) == tree_keys(Some(sibling)),
            is_rb(Some(top)),
            !is_red(Some(top)),
            black_count(Some(top)) == black_count(Some(sibling)),
            on_left ==> is_red(top.right),
            !on_left ==> is_red(top.left),
    {
        let mut sibling = sibling;
        proof {
            lemma_node(sibling);
        }
        if on_left {
            let mut near = sibling.left.take().unwrap();
            proof {
                lemma_node(near);
            }
            sibling.color = NodeColor::Red;
            near.color = NodeColor::Black;
            sibling.left = Some(near);
            let top = Self::rotate_right(sibling);
            proof {
                lemma_node(top.right.unwrap());
                lemma_node(top);
            }
            top
        } else {
            let mut near = sibling.right.take().unwrap();
            proof {
                lemma_node(near);
            }
            sibling.color = NodeColor::Red;
            near.color = NodeColor::Black;
            sibling.right = Some(near);
            let top = Self::rotate_left(sibling);
            proof {
                lemma_node(top.left.unwrap());
                lemma_node(top);
            }
            top
        }
    }

    /// Makes up for the black node that the side named by `on_left` is
    /// short, given a black sibling whose far child is red: the sibling takes
    /// the node's colour, the node and that far child become black, and the
    /// node is turned towards the short side.
    fn turn_to_short_side(node: Box<TreeNode<T>>, on_left: bool) -> (top: Box<TreeNode<T>>)
        requires
            is_rb(node.left),
            is_rb(node.right),
            on_left ==> {
                &&& black_count(node.left) + 1 == black_count(node.right)
                &&& !is_red(node.right)
                &&& is_red(node.right.unwrap().right)
            },
            !on_left ==> {
                &&& black_count(node.right) + 1 == black_count(node.left)
                &&& !is_red(node.left)
                &&& is_red(node.left.unwrap().left)
            },
        ensures
            *top == short_side_turned(*node, on_left),
            tree_keys(Some(top)) == tree_keys(Some(node)),
            is_rb(Some(top)),
            black_count(Some(top)) == black_count(if on_left { node.right } else { node.left }) + (
            if is_red(Some(node)) { 0nat } else { 1nat }),
            is_red(Some(top)) == is_red(Some(node)),
    {
        if on_left {
            Self::turn_to_short_left(node)
        } else {
            Self::turn_to_short_right(node)
        }
    }

    /// `turn_to_short_side` where the left side is short.
    fn turn_to_short_left(node: Box<TreeNode<T>>) -> (top: Box<TreeNode<T>>)
        requires
            is_rb(node.left),
            is_rb(node.right),
            black_count(node.left) + 1 == black_count(node.right),
            !is_red(node.right),
            is_red(node.right.unwrap().right),
        ensures
            *top == short_side_turned(*node, true),
            tree_keys(Some(top)) == tree_keys(Some(node)),
            is_rb(Some(top)),
            black_count(Some(top)) == black_count(node.right) + (if is_red(Some(node)) {
                0nat
            } else {
                1nat
            }),
            is_red(Some(top)) == is_red(Some(node)),
    {
        let mut node = node;
        proof {
            lemma_node(node);
        }
        let mut sibling = node.right.take().unwrap();
        let mut far = sibling.right.take().unwrap();
        proof {
            lemma_node(sibling);
            lemma_node(far);
        }
        far.color = NodeColor::Black;
        proof {
            lemma_node(far);
        }
        sibling.right = Some(far);
        sibling.color = node.color;
        node.color = NodeColor::Black;
        node.right = Some(sibling);
        let top = Self::rotate_left(node);
        proof {
            lemma_node(top.left.unwrap());
            lemma_node(top);
        }
        top
    }

    /// `turn_to_short_side` where the right side is short.
    fn turn_to_short_right(node: Box<TreeNode<T>>) -> (top: Box<TreeNode<T>>)
        requires
            is_rb(node.left),
            is_rb(node.right),
            black_count(node.right) + 1 == black_count(node.left),
            !is_red(node.left),
            is_red(node.left.unwrap().left),
        ensures
            *top == short_side_turned(*node, false),
            tree_keys(Some(top)) == tree_keys(Some(node)),
            is_rb(Some(top)),
            black_count(Some(top)) == black_count(node.left) + (if is_red(Some(node)) {
                0nat
            } else {
                1nat
            }),
            is_red(Some(top)) == is_red(Some(node)),
    {
        let mut node = node;
        proof {
            lemma_node(node);
        }
        let mut sibling = node.left.take().unwrap();
        let mut far = sibling.left.take().unwrap();
        proof {
            lemma_node(sibling);
            lemma_node(far);
        }
        far.color = NodeColor::Black;
        proof {
            lemma_node(far);
        }
        sibling.left = Some(far);
        sibling.color = node.color;
        node.color = NodeColor::Black;
        node.left = Some(sibling);
        let top = Self::rotate_right(node);
        proof {
            lemma_node(top.right.unwrap());
            lemma_node(top);
        }
        top
    }

    /// Deals with a black sibling, at a node whose subtree on the side that
    /// `on_left` names is one black node short. Where neither child of the
    /// sibling is red the sibling is made red; a red node then turns black
    /// and nothing is short any more, while below a black node the whole
    /// subtree is now short, which the second result reports. Where a child
    /// of the sibling is red, `fix_red_sibling_case` makes up for the
    /// shortage.
    fn handle_black_sibling_case(node: Box<TreeNode<T>>, on_left: bool) -> (out: (
        Box<TreeNode<T>>,
        bool,
    ))
        requires
            is_rb(node.left),
            is_rb(node.right),
            on_left ==> black_count(node.left) + 1 == black_count(node.right) && !is_red(
                node.right,
            ),
            !on_left ==> black_count(node.right) + 1 == black_count(node.left) && !is_red(
                node.left,
            ),
        ensures
            *out.0 == black_sibling_handled(*node, on_left).0,
            out.1 == black_sibling_handled(*node, on_left).1,
            ({
                let sib = if on_left { node.right } else { node.left };
                out.1 == (!is_red(Some(node)) && !is_red(sib) && !is_red(sib.unwrap().left)
                    && !is_red(sib.unwrap().right))
            }),
            tree_keys(Some(out.0)) == tree_keys(Some(node)),
            is_rb(Some(out.0)),
            black_count(Some(out.0)) + (if out.1 { 1nat } else { 0nat }) == black_count(
                if on_left { node.right } else { node.left },
            ) + (if is_red(Some(node)) { 0nat } else { 1nat }),
            !is_red(Some(node)) ==> !is_red(Some(out.0)),
            out.1 ==> !is_red(Some(node)),
    {
        let mut node = node;
        proof {
            lemma_node(node);
        }
        let mut sibling = if on_left {
            node.right.take().unwrap()
        } else {
            node.left.take().unwrap()
        };
        proof {
            lemma_node(sibling);
        }
        let left_black: bool = !Self::red(&sibling.left);
        let right_black: bool = !Self::red(&sibling.right);
        if left_black && right_black {
            sibling.color = NodeColor::Red;
            proof {
                lemma_node(sibling);
            }
            if on_left {
                node.right = Some(sibling);
            } else {
                node.left = Some(sibling);
            }
            match node.color {
                NodeColor::Black => {
                    proof {
                        lemma_node(node);
                    }
                    (node, true)
                },
                NodeColor::Red => {
                    node.color = NodeColor::Black;
                    proof {
                        lemma_node(node);
                    }
                    (node, false)
                },
            }
        } else {
            if on_left {
                node.right = Some(sibling);
            } else {
                node.left = Some(sibling);
            }
            (Self::fix_red_sibling_case(node, on_left), false)
        }
    }

    /// Deals with a red sibling below a black node whose left side is one
    /// black node short: the sibling is made black, the node red, and the
    /// node is turned to the left. The node then has a black sibling, and
    /// being red, it ends with nothing short.
    fn red_sibling_on_right(node: Box<TreeNode<T>>) -> (top: Box<TreeNode<T>>)
        requires
            is_rb(node.left),
            is_rb(node.right),
            black_count(node.left) + 1 == black_count(node.right),
            is_red(node.right),
            !is_red(Some(node)),
        ensures
            *top == red_sibling_fixed(*node, true),
            tree_keys(Some(top)) == tree_keys(Some(node)),
            is_rb(Some(top)),
            black_count(Some(top)) == black_count(node.right) + 1,
            !is_red(Some(top)),
    {
        let mut node = node;
        proof {
            lemma_node(node);
        }
        let mut sibling = node.right.take().unwrap();
        proof {
            lemma_node(sibling);
        }
        sibling.color = NodeColor::Black;
        node.color = NodeColor::Red;
        node.right = Some(sibling);
        let mut top = Self::rotate_left(node);
        let below = top.left.take().unwrap();
        proof {
            lemma_node(top);
            lemma_node(below);
        }
        let (fixed, short) = Self::handle_black_sibling_case(below, true);
        top.left = Some(fixed);
        proof {
            lemma_node(top);
        }
        top
    }

    /// Deals with a red sibling below a black node whose right side is one
    /// black node short: the mirror image of `red_sibling_on_right`.
    fn red_sibling_on_left(node: Box<TreeNode<T>>) -> (top: Box<TreeNode<T>>)
        requires
            is_rb(node.left),
            is_rb(node.right),
            black_count(node.right) + 1 == black_count(node.left),
            is_red(node.left),
            !is_red(Some(node)),
        ensures
            *top == red_sibling_fixed(*node, false),
            tree_keys(Some(top)) == tree_keys(Some(node)),
            is_rb(Some(top)),
            black_count(Some(top)) == black_count(node.left) + 1,
            !is_red(Some(top)),
    {
        let mut node = node;
        proof {
            lemma_node(node);
        }
        let mut sibling = node.left.take().unwrap();
        proof {
            lemma_node(sibling);
        }
        sibling.color = NodeColor::Black;
        node.color = NodeColor::Red;
        node.left = Some(sibling);
        let mut top = Self::rotate_right(node);
        let below = top.right.take().unwrap();
        proof {
            lemma_node(top);
            lemma_node(below);
        }
        let (fixed, short) = Self::handle_black_sibling_case(below, false);
        top.right = Some(fixed);
        proof {
            lemma_node(top);
        }
        top
    }

    /// Restores the invariant at `node` after the subtree on the side that
    /// `on_left` names has come back one black node short. Returns the root
    /// of the repaired subtree and whether that subtree as a whole is now one
    /// black node short, which can only be below a black `node`.
    fn fix_delete_double_black(node: Box<TreeNode<T>>, on_left: bool) -> (out: (
        Box<TreeNode<T>>,
        bool,
    ))
        requires
            is_rb(node.left),
            is_rb(node.right),
            on_left ==> black_count(node.left) + 1 == black_count(node.right),
            !on_left ==> black_count(node.right) + 1 == black_count(node.left),
            is_red(Some(node)) ==> !is_red(node.left) && !is_red(node.right),
        ensures
            *out.0 == double_black_fixed(*node, on_left).0,
            out.1 == double_black_fixed(*node, on_left).1,
            ({
                let sib = if on_left { node.right } else { node.left };
                out.1 == (!is_red(Some(node)) && !is_red(sib) && !is_red(sib.unwrap().left)
                    && !is_red(sib.unwrap().right))
            }),
            tree_keys(Some(out.0)) == tree_keys(Some(node)),
            is_rb(Some(out.0)),
            black_count(Some(out.0)) + (if out.1 { 1nat } else { 0nat }) == black_count(
                if on_left { node.right } else { node.left },
            ) + (if is_red(Some(node)) { 0nat } else { 1nat }),
            !is_red(Some(node)) ==> !is_red(Some(out.0)),
            out.1 ==> !is_red(Some(node)),
    {
        if on_left {
            if Self::red(&node.right) {
                (Self::red_sibling_on_right(node), false)
            } else {
                Self::handle_black_sibling_case(node, on_left)
            }
        } else {
            if Self::red(&node.left) {
                (Self::red_sibling_on_left(node), false)
            } else {
                Self::handle_black_sibling_case(node, on_left)
            }
        }
    }

    /// The leftmost node of the subtree rooted at `node`: the one with the
    /// first key in order.
    fn find_min(node: &Box<TreeNode<T>>) -> (first: &Box<TreeNode<T>>)
        ensures
            *first == leftmost(*node),
            first.left.is_none(),
            tree_keys(Some(*node)).len() > 0,
            first.key == tree_keys(Some(*node))[0],
    {
        let mut current = node;
        proof {
            lemma_first_key(*node);
        }
        while current.left.is_some()
            invariant
                leftmost(*current) == leftmost(*node),
                tree_keys(Some(*current)).len() > 0,
                tree_keys(Some(*node)).len() > 0,
                tree_keys(Some(*current))[0] == tree_keys(Some(*node))[0],
            decreases tree_size(Some(*current)),
        {
            proof {
                lemma_first_key(*current);
                lemma_first_key(current.left.unwrap());
                lemma_node(*current);
            }
            current = current.left.as_ref().unwrap();
        }
        proof {
            lemma_first_key(*current);
        }
        current
    }

    /// Takes one node with the key `key` out of the subtree rooted at `node`.
    /// A node with two children is not itself removed: it takes over the key
    /// of its successor, the leftmost node of its right subtree, and that key
    /// is then taken out of the right subtree. A node with at most one child
    /// is replaced by that child. On the way back every node repairs a
    /// shortage of one black node below it. Returns what is left of the
    /// subtree and whether it is now one black node short; where `key` does
    /// not occur, the subtree as it was.
    fn delete_node(node: Box<TreeNode<T>>, key: T) -> (out: (RedBlackTree<T>, bool))
        requires
            is_rb(Some(node)),
            sorted(tree_keys(Some(node))),
        ensures
            out == deleted(node, key),
            tree_keys(out.0) == remove_one(tree_keys(Some(node)), key),
            is_rb(out.0),
            black_count(out.0) + (if out.1 { 1nat } else { 0nat }) == black_count(Some(node)),
            !is_red(Some(node)) ==> !is_red(out.0),
            out.1 ==> !is_red(Some(node)),
            !tree_keys(Some(node)).contains(key) ==> out.0 == Some(node) && !out.1,
        decreases node,
    {
        let ghost before = node;
        let ghost l = tree_keys(before.left);
        let ghost r = tree_keys(before.right);
        let mut node = node;
        proof {
            lemma_node(before);
            lemma_sorted_join(l, before.key, r);
        }
        if key.less(&node.key) {
            proof {
                lemma_remove_left(l, before.key, r, key);
            }
            match node.left.take() {
                Some(left) => {
                    let (rest, short) = Self::delete_node(left, key);
                    node.left = rest;
                    proof {
                        lemma_node(node);
                    }
                    if short {
                        let (top, still_short) = Self::fix_delete_double_black(node, true);
                        (Some(top), still_short)
                    } else {
                        (Some(node), false)
                    }
                },
                None => (Some(node), false),
            }
        } else if node.key.less(&key) {
            proof {
                lemma_remove_right(l, before.key, r, key);
            }
            match node.right.take() {
                Some(right) => {
                    let (rest, short) = Self::delete_node(right, key);
                    node.right = rest;
                    proof {
                        lemma_node(node);
                    }
                    if short {
                        let (top, still_short) = Self::fix_delete_double_black(node, false);
                        (Some(top), still_short)
                    } else {
                        (Some(node), false)
                    }
                },
                None => (Some(node), false),
            }
        } else {
            proof {
                T::rank_is_injective(key, before.key);
                lemma_remove_here(l, before.key, r);
            }
            if node.left.is_some() && node.right.is_some() {
                let right = node.right.take().unwrap();
                let successor: T = Self::find_min(&right).key;
                proof {
                    lemma_remove_first(r);
                }
                let (rest, short) = Self::delete_node(right, successor);
                node.key = successor;
                node.right = rest;
                proof {
                    lemma_node(node);
                    assert(join(l, successor, r.drop_first()) =~= l + r);
                }
                if short {
                    let (top, still_short) = Self::fix_delete_double_black(node, false);
                    (Some(top), still_short)
                } else {
                    (Some(node), false)
                }
            } else {
                let replacement = if node.left.is_some() {
                    proof {
                        assert(r =~= Seq::<T>::empty());
                        assert(l + r =~= l);
                    }
                    node.left.take()
                } else {
                    proof {
                        assert(l =~= Seq::<T>::empty());
                        assert(l + r =~= r);
                    }
                    node.right.take()
                };
                Self::fix_delete(replacement, node.color)
            }
        }
    }

    /// Takes one node with the key `key` out of the tree, repairs the
    /// red-black invariant and makes the root black. Where `key` does not
    /// occur the tree stays as it is.
    pub fn delete(&mut self, key: T)
        requires
            old(self).wf(),
        ensures
            final(self).wf(),
            final(self)@ == remove_one(old(self)@, key),
            final(self).root == tree_deleted(old(self).root, key),
            !old(self)@.contains(key) ==> *final(self) == *old(self),
    {
        proof {
            lemma_remove_sorted(self@, key);
        }
        match self.root.take() {
            Some(root) => {
                let (rest, short) = Self::delete_node(root, key);
                match rest {
                    Some(top) => {
                        let mut top = top;
                        proof {
                            lemma_node(top);
                        }
                        top.color = NodeColor::Black;
                        proof {
                            lemma_node(top);
                        }
                        self.root = Some(top);
                    },
                    None => {},
                }
            },
            None => {},
        }
    }

    /// The number of nodes in the subtree `root`.
    pub fn number_of_nodes(root: &RedBlackTree<T>) -> (count: u32)
        requires
            tree_size(*root) <= u32::MAX,
        ensures
            count == tree_size(*root),
            count == tree_keys(*root).len(),
        decreases *root,
    {
        proof {
            lemma_size_is_len(*root);
        }
        match root {
            None => 0,
            Some(node) => Self::number_of_nodes(&node.left) + 1 + Self::number_of_nodes(&node.right),
        }
    }

    /// The number of nodes without children in the subtree `root`. It is
    /// never more than the number of nodes.
    pub fn number_of_leaves(root: &RedBlackTree<T>) -> (count: u32)
        requires
            tree_leaves(*root) <= u32::MAX,
        ensures
            count == tree_leaves(*root),
            count <= tree_size(*root),
            2 * count <= tree_size(*root) + 1,
            count == 0 <==> root.is_none(),
            tree_size(*root) == 1 ==> count == 1,
        decreases *root,
    {
        proof {
            lemma_leaves_bound(*root);
        }
        match root {
            None => 0,
            Some(node) => {
                if node.left.is_none() && node.right.is_none() {
                    1
                } else {
                    Self::number_of_leaves(&node.left) + Self::number_of_leaves(&node.right)
                }
            },
        }
    }

    /// The height of the subtree `root`, found by walking all of it.
    pub fn height_of_tree(root: &RedBlackTree<T>) -> (height: u32)
        requires
            tree_height(*root) <= u32::MAX,
        ensures
            height == tree_height(*root),
        decreases *root,
    {
        match root {
            None => 0,
            Some(node) => {
                let left_height: u32 = Self::height_of_tree(&node.left);
                let right_height: u32 = Self::height_of_tree(&node.right);
                if left_height > right_height {
                    left_height + 1
                } else {
                    right_height + 1
                }
            },
        }
    }

    /// Appends the keys of the subtree `root`, in order, to `out`.
    fn collect_in_order(root: &RedBlackTree<T>, out: &mut Vec<T>)
        ensures
            final(out)@ == old(out)@ + tree_keys(*root),
        decreases *root,
    {
        match root {
            None => {
                proof {
                    assert(old(out)@ + tree_keys(*root) =~= old(out)@);
                }
            },
            Some(node) => {
                Self::collect_in_order(&node.left, out);
                out.push(node.key);
                Self::collect_in_order(&node.right, out);
                proof {
                    assert(final(out)@ =~= old(out)@ + tree_keys(*root));
                }
            },
        }
    }

    /// The keys of the subtree `root` in order: left subtree, node, right
    /// subtree.
    pub fn in_order_traversal(root: &RedBlackTree<T>) -> (keys: Vec<T>)
        ensures
            keys@ == tree_keys(*root),
    {
        let mut keys: Vec<T> = Vec::new();
        Self::collect_in_order(root, &mut keys);
        proof {
            assert(Seq::<T>::empty() + tree_keys(*root) =~= tree_keys(*root));
        }
        keys
    }

    /// Whether the tree has no node.
    pub fn tree_is_empty(&self) -> (empty: bool)
        ensures
            empty == self.root.is_none(),
            empty == (self@.len() == 0),
    {
        proof {
            if self.root.is_some() {
                lemma_first_key(self.root.unwrap());
            }
        }
        if self.root.is_none() {
            return true;
        }
        false
    }

    /// Walks down from the root, to the left where `key` is smaller than the
    /// node's key and to the right where it is greater, until it meets a node
    /// with that key or runs out of nodes.
    fn find_node(&self, key: T) -> (found: Option<&TreeNode<T>>)
        ensures
            match found {
                Some(node) => search(self.root, key) == Some(*node),
                None => search(self.root, key).is_none(),
            },
    {
        let mut current = &self.root;
        while current.is_some()
            invariant
                search(*current, key) == search(self.root, key),
            decreases tree_size(*current),
        {
            let node = current.as_ref().unwrap();
            if key.less(&node.key) {
                current = &node.left;
            } else if node.key.less(&key) {
                current = &node.right;
            } else {
                return Some(&**node);
            }
        }
        None
    }

    /// The node that a search for `key` ends at, or `None` where the tree
    /// has no such key; an empty tree is not searched.
    pub fn find_by_key(&self, key: T) -> (found: Option<&TreeNode<T>>)
        requires
            self.wf(),
        ensures
            found.is_some() == self@.contains(key),
            match found {
                Some(node) => node.key == key && search(self.root, key) == Some(*node),
                None => search(self.root, key).is_none(),
            },
    {
        proof {
            lemma_search(self.root, key);
        }
        if self.tree_is_empty() {
            None
        } else {
            self.find_node(key)
        }
    }
}

/// The node at which a walk from the root of `t` towards `key` ends: the
/// first node met whose key is `key`.
pub open spec fn search<T: OrderedKey>(t: RedBlackTree<T>, key: T) -> Option<TreeNode<T>>
    decreases t,
{
    match t {
        None => None,
        Some(n) => if key.rank() < n.key.rank() {
            search(n.left, key)
        } else if n.key.rank() < key.rank() {
            search(n.right, key)
        } else {
            Some(*n)
        },
    }
}

/// In a search tree the walk towards a key ends at a node exactly when the
/// key is in the tree, and then at a node with that key.
pub proof fn lemma_search<T: OrderedKey>(t: RedBlackTree<T>, key: T)
    requires
        sorted(tree_keys(t)),
    ensures
        search(t, key).is_some() == tree_keys(t).contains(key),
        search(t, key).is_some() ==> search(t, key).unwrap().key == key,
    decreases t,
{
    match t {
        None => {},
        Some(n) => {
            let l = tree_keys(n.left);
            let r = tree_keys(n.right);
            lemma_sorted_join(l, n.key, r);
            if key.rank() < n.key.rank() {
                lemma_remove_left(l, n.key, r, key);
                lemma_search(n.left, key);
            } else if n.key.rank() < key.rank() {
                lemma_remove_right(l, n.key, r, key);
                lemma_search(n.right, key);
            } else {
                T::rank_is_injective(key, n.key);
                lemma_remove_here(l, n.key, r);
            }
        },
    }
}

/// The first key of a subtree in order is that of its leftmost node.
pub proof fn lemma_first_key<T: OrderedKey>(n: Box<TreeNode<T>>)
    ensures
        tree_keys(Some(n)).len() > 0,
        tree_keys(Some(n))[0] == (if n.left.is_none() {
            n.key
        } else {
            tree_keys(n.left)[0]
        }),
        n.left.is_some() ==> tree_keys(n.left).len() > 0,
{
    if n.left.is_some() {
        let l = n.left.unwrap();
        assert(tree_keys(n.left) == join(tree_keys(l.left), l.key, tree_keys(l.right)));
    } else {
        assert(tree_keys(n.left) =~= Seq::<T>::empty());
    }
}

/// A subtree has as many keys as nodes.
pub proof fn lemma_size_is_len<T: OrderedKey>(t: RedBlackTree<T>)
    ensures
        tree_keys(t).len() == tree_size(t),
    decreases t,
{
    match t {
        None => {},
        Some(n) => {
            lemma_size_is_len(n.left);
            lemma_size_is_len(n.right);
        },
    }
}

/// A subtree without keys has no node, and its height is 0.
pub proof fn lemma_no_keys_no_nodes<T: OrderedKey>(t: RedBlackTree<T>)
    requires
        tree_keys(t).len() == 0,
    ensures
        t.is_none(),
        tree_height(t) == 0,
        tree_leaves(t) == 0,
{
    lemma_size_is_len(t);
}

/// A subtree has at most as many nodes without children as it has nodes,
/// and at most half of that number rounded up; it has none exactly when it
/// is empty, and a subtree of one node has one.
pub proof fn lemma_leaves_bound<T: OrderedKey>(t: RedBlackTree<T>)
    ensures
        tree_leaves(t) <= tree_size(t),
        2 * tree_leaves(t) <= tree_size(t) + 1,
        tree_leaves(t) == 0 <==> tree_size(t) == 0,
        tree_leaves(t) == 0 <==> t.is_none(),
        tree_size(t) == 1 ==> tree_leaves(t) == 1,
    decreases t,
{
    match t {
        None => {},
        Some(n) => {
            lemma_leaves_bound(n.left);
            lemma_leaves_bound(n.right);
            if tree_size(t) == 1 {
                assert(tree_size(n.left) == 0 && tree_size(n.right) == 0);
                assert(n.left.is_none());
                assert(n.right.is_none());
            }
        },
    }
}

/// The number of black nodes met on the way from the root of `t` down along
/// `path`, which turns right where it holds `true` and left where it holds
/// `false`; `None` unless the path ends just where it steps onto an absent
/// link.
pub open spec fn blacks_on_path<T>(t: RedBlackTree<T>, path: Seq<bool>) -> Option<nat>
    decreases t,
{
    match t {
        None => if path.len() == 0 {
            Some(0)
        } else {
            None
        },
        Some(n) => if path.len() == 0 {
            None
        } else {
            match blacks_on_path(if path[0] { n.right } else { n.left }, path.drop_first()) {
                Some(below) => Some(
                    below + if n.color == NodeColor::Black {
                        1nat
                    } else {
                        0nat
                    },
                ),
                None => None,
            }
        },
    }
}

/// In a subtree that satisfies the red-black invariant every path from the
/// root down to an absent link passes the same number of black nodes.
pub proof fn lemma_black_height_uniform<T>(t: RedBlackTree<T>, path: Seq<bool>)
    requires
        is_rb(t),
        blacks_on_path(t, path).is_some(),
    ensures
        blacks_on_path(t, path) == Some(black_count(t)),
    decreases t,
{
    match t {
        None => {},
        Some(n) => {
            lemma_black_height_uniform(if path[0] { n.right } else { n.left }, path.drop_first());
        },
    }
}

/// The fill colour with which a node of the colour `color` is drawn.
pub open spec fn dot_color(color: NodeColor) -> DotNodeColor {
    match color {
        NodeColor::Red => DotNodeColor::Red,
        NodeColor::Black => DotNodeColor::Black,
    }
}

/// The nodes that stand for a subtree in a drawing, the root first, then
/// those of the left subtree, then those of the right. An absent subtree is
/// drawn as a node of its own with the label `None`.
pub open spec fn drawn_nodes<T: OrderedKey>(t: RedBlackTree<T>) -> Seq<(Seq<char>, DotNodeColor)>
    decreases t,
{
    match t {
        None => seq![("None"@, DotNodeColor::Black)],
        Some(n) => seq![(n.key.label(), dot_color(n.color))] + drawn_nodes(n.left) + drawn_nodes(n.right),
    }
}

/// The edges of a drawing of a subtree whose root is node number `at` and
/// whose other nodes are numbered from `base` on: one from each node to each
/// of its two children, the left one first and each followed by the edges
/// below that child.
pub open spec fn drawn_edges<T: OrderedKey>(t: RedBlackTree<T>, at: int, base: int) -> Seq<(int, int)>
    decreases t,
{
    match t {
        None => Seq::empty(),
        Some(n) => {
            let right_at = base + drawn_nodes(n.left).len();
            seq![(at, base)] + drawn_edges(n.left, base, base + 1) + seq![(at, right_at)]
                + drawn_edges(n.right, right_at, right_at + 1)
        },
    }
}

impl<T: OrderedKey> TreeNode<T> {
    /// The fill colour with which a node of the colour `color` is drawn.
    pub fn get_dot_color(color: NodeColor) -> (dot: DotNodeColor)
        ensures
            dot == dot_color(color),
    {
        match color {
            NodeColor::Red => DotNodeColor::Red,
            NodeColor::Black => DotNodeColor::Black,
        }
    }

    /// Draws the subtree `node` into `file`: a node for each of its nodes
    /// and for each absent child, and an edge from every node to its two
    /// children. With `parent_node_idx` given, the root of the subtree has
    /// been drawn already under that number, and only what lies below it is
    /// drawn. Nothing is drawn for an absent subtree.
    pub fn draw_node(node: &RedBlackTree<T>, file: &mut Dotfile, parent_node_idx: Option<usize>)
        ensures
            final(file).name() == old(file).name(),
            node.is_none() ==> final(file).nodes() == old(file).nodes() && final(file).edges()
                == old(file).edges(),
            node.is_some() && parent_node_idx.is_none() ==> {
                &&& final(file).nodes() == old(file).nodes() + drawn_nodes(*node)
                &&& final(file).edges() == old(file).edges() + drawn_edges(
                    *node,
                    old(file).nodes().len() as int,
                    old(file).nodes().len() as int + 1,
                )
            },
            node.is_some() && parent_node_idx.is_some() ==> {
                &&& final(file).nodes() == old(file).nodes() + drawn_nodes(*node).drop_first()
                &&& final(file).edges() == old(file).edges() + drawn_edges(
                    *node,
                    parent_node_idx.unwrap() as int,
                    old(file).nodes().len() as int,
                )
            },
        decreases *node, 0nat,
    {
        if let Some(root) = node {
            let root_node: usize = match parent_node_idx {
                None => file.add_node(root.key.to_label().as_str(), Self::get_dot_color(root.color)),
                Some(parent_val) => parent_val,
            };
            let ghost mid = file.nodes();
            let ghost left_at = mid.len() as int;
            Self::draw_child(&root.left, file, root_node);
            let ghost right_at = file.nodes().len() as int;
            Self::draw_child(&root.right, file, root_node);
            proof {
                let left_edges = seq![(root_node as int, left_at)] + drawn_edges(
                    root.left,
                    left_at,
                    left_at + 1,
                );
                let right_edges = seq![(root_node as int, right_at)] + drawn_edges(
                    root.right,
                    right_at,
                    right_at + 1,
                );
                assert(drawn_edges(*node, root_node as int, left_at) =~= left_edges + right_edges);
                assert(file.edges() =~= old(file).edges() + drawn_edges(
                    *node,
                    root_node as int,
                    left_at,
                ));
                if parent_node_idx.is_none() {
                    assert(file.nodes() =~= old(file).nodes() + drawn_nodes(*node));
                } else {
                    assert(file.nodes() =~= old(file).nodes() + drawn_nodes(*node).drop_first());
                }
            }
        }
    }

    /// Draws the subtree `child` into `file` as a child of node number
    /// `parent`: its root or, where it is absent, a node with the label
    /// `None`, then the edge from the parent to that node, then the rest of
    /// the subtree.
    fn draw_child(child: &RedBlackTree<T>, file: &mut Dotfile, parent: usize)
        ensures
            final(file).name() == old(file).name(),
            final(file).nodes() == old(file).nodes() + drawn_nodes(*child),
            final(file).edges() == old(file).edges() + seq![
                (parent as int, old(file).nodes().len() as int),
            ] + drawn_edges(
                *child,
                old(file).nodes().len() as int,
                old(file).nodes().len() as int + 1,
            ),
        decreases *child, 1nat,
    {
        match child {
            Some(node) => {
                let at: usize = file.add_node(node.key.to_label().as_str(), Self::get_dot_color(node.color));
                file.add_edge(parent, at);
                Self::draw_node(child, file, Some(at));
                proof {
                    assert(final(file).nodes() =~= old(file).nodes() + drawn_nodes(*child));
                }
            },
            None => {
                let at: usize = file.add_node("None", DotNodeColor::Black);
                file.add_edge(parent, at);
                proof {
                    assert(final(file).nodes() =~= old(file).nodes() + drawn_nodes(*child));
                    assert(final(file).edges() =~= old(file).edges() + seq![
                        (parent as int, old(file).nodes().len() as int),
                    ] + drawn_edges(
                        *child,
                        old(file).nodes().len() as int,
                        old(file).nodes().len() as int + 1,
                    ));
                }
            },
        }
    }
}

impl<T: OrderedKey> RedBlackTreeStructure<T> {
    /// Draws the tree into `file`; see `draw_node`. Nothing is drawn for an
    /// empty tree.
    pub fn draw_tree(&self, file: &mut Dotfile)
        ensures
            final(file).name() == old(file).name(),
            self.root.is_none() ==> final(file).nodes() == old(file).nodes() && final(file).edges()
                == old(file).edges(),
            self.root.is_some() ==> {
                &&& final(file).nodes() == old(file).nodes() + drawn_nodes(self.root)
                &&& final(file).edges() == old(file).edges() + drawn_edges(
                    self.root,
                    old(file).nodes().len() as int,
                    old(file).nodes().len() as int + 1,
                )
            },
    {
        TreeNode::draw_node(&self.root, file, None)
    }
}

impl<T: OrderedKey> RedBlackTreeStructure<T> {
    /// Whether the leftmost paths of `a` and `b` pass the same number of
    /// black nodes. The two paths are walked side by side: red nodes are
    /// stepped over, black nodes are paired off.
    fn same_black_count(a: &RedBlackTree<T>, b: &RedBlackTree<T>) -> (same: bool)
        ensures
            same == (black_count(*a) == black_count(*b)),
        decreases tree_size(*a) + tree_size(*b),
    {
        match a {
            Some(n) => {
                proof {
                    lemma_node(*n);
                }
                match n.color {
                    NodeColor::Red => Self::same_black_count(&n.left, b),
                    NodeColor::Black => match b {
                        Some(m) => {
                            proof {
                                lemma_node(*m);
                            }
                            match m.color {
                                NodeColor::Red => Self::same_black_count(a, &m.left),
                                NodeColor::Black => Self::same_black_count(&n.left, &m.left),
                            }
                        },
                        None => false,
                    },
                }
            },
            None => match b {
                Some(m) => {
                    proof {
                        lemma_node(*m);
                    }
                    match m.color {
                        NodeColor::Red => Self::same_black_count(a, &m.left),
                        NodeColor::Black => false,
                    }
                },
                None => true,
            },
        }
    }

    /// Whether the subtree `root` satisfies the red-black invariant.
    fn check_rb(root: &RedBlackTree<T>) -> (ok: bool)
        ensures
            ok == is_rb(*root),
        decreases *root,
    {
        match root {
            None => true,
            Some(node) => {
                if !Self::check_rb(&node.left) || !Self::check_rb(&node.right) {
                    return false;
                }
                if !Self::same_black_count(&node.left, &node.right) {
                    return false;
                }
                match node.color {
                    NodeColor::Red => !Self::red(&node.left) && !Self::red(&node.right),
                    NodeColor::Black => true,
                }
            },
        }
    }

    /// Whether the tree is well formed: a search tree with a black root that
    /// satisfies the red-black invariant. Every tree made by `new`, `insert`
    /// and `delete` is.
    pub fn is_well_formed(&self) -> (ok: bool)
        ensures
            ok == self.wf(),
    {
        let keys = Self::in_order_traversal(&self.root);
        is_sorted(&keys) && Self::check_rb(&self.root) && !Self::red(&self.root)
    }
}

/// The height of a red-black tree is at most twice the logarithm of its
/// size: a subtree that satisfies the invariant and passes `b` black nodes
/// on every path has at least `2^b - 1` nodes, and its height is at most
/// `2 * b`, or one more where its root is red.
pub proof fn lemma_rb_height_bound<T: OrderedKey>(t: RedBlackTree<T>)
    requires
        is_rb(t),
    ensures
        pow2(black_count(t)) <= tree_size(t) + 1,
        tree_height(t) <= 2 * black_count(t) + if is_red(t) {
            1nat
        } else {
            0nat
        },
    decreases t,
{
    lemma2_to64();
    match t {
        None => {},
        Some(n) => {
            lemma_rb_height_bound(n.left);
            lemma_rb_height_bound(n.right);
            lemma_node(n);
            if n.color == NodeColor::Black {
                lemma_pow2_unfold(black_count(t));
            }
        },
    }
}

/// The search-tree order, node by node: no key of a node's left subtree
/// comes after the node's key, and no key of its right subtree before it.
pub open spec fn is_search_tree<T: OrderedKey>(t: RedBlackTree<T>) -> bool
    decreases t,
{
    match t {
        None => true,
        Some(n) => {
            &&& is_search_tree(n.left)
            &&& is_search_tree(n.right)
            &&& all_up_to(tree_keys(n.left), n.key)
            &&& all_from(tree_keys(n.right), n.key)
        },
    }
}

/// A subtree is in search-tree order at every node exactly when its keys,
/// read in order, never decrease.
pub proof fn lemma_search_tree_is_sorted<T: OrderedKey>(t: RedBlackTree<T>)
    ensures
        is_search_tree(t) <==> sorted(tree_keys(t)),
    decreases t,
{
    match t {
        None => {},
        Some(n) => {
            lemma_search_tree_is_sorted(n.left);
            lemma_search_tree_is_sorted(n.right);
            lemma_sorted_join(tree_keys(n.left), n.key, tree_keys(n.right));
        },
    }
}

/// A tree that has had keys put in and then each of them taken out again,
/// in any order, is empty, and its height is 0.
pub proof fn lemma_round_trip_empties<T: OrderedKey>(tree: RedBlackTreeStructure<T>, keys: Seq<T>, order: Seq<T>)
    requires
        order.to_multiset() == keys.to_multiset(),
        tree@ == remove_all(insert_all(Seq::<T>::empty(), keys), order),
    ensures
        tree.root.is_none(),
        tree_height(tree.root) == 0,
{
    lemma_round_trip(keys, order);
    lemma_no_keys_no_nodes(tree.root);
}

} // verus!
