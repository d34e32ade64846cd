//! AVL trees: binary search trees in which the heights of the two subtrees of
//! every node differ by at most one.
//!
//! A tree owns its root and every node owns its two subtrees, so a node's
//! parent is simply the node that owns it. Insertion and deletion walk down
//! by recursion and rebalance each node on the way back up, handing the new
//! root of every subtree to the node above it.
//!
//! Equal keys are kept side by side. The keys of a tree, read in order,
//! never decrease; `insert` puts a key behind the keys equal to it, and
//! `delete` takes one occurrence out.

use vstd::prelude::*;
use vstd::arithmetic::power2::{pow2, lemma2_to64, lemma_pow2_unfold};
use crate::key::OrderedKey;
use crate::dot::{Dotfile, DotNodeColor};
use crate::order::{join, sorted, ordered_insert, remove_one, all_up_to, all_from};
use crate::order::{insert_all, remove_all, lemma_round_trip};
use crate::order::{lemma_sorted_join, lemma_insert_left, lemma_insert_right, lemma_insert_sorted};
use crate::order::{lemma_remove_left, lemma_remove_right, lemma_remove_here, lemma_remove_first};
use crate::order::{lemma_remove_sorted, is_sorted, lemma_pow2_monotone};

verus! {

/// A subtree: absent, or an owned node.
pub type AVLTree<T> = Option<Box<AVLTreeNode<T>>>;

/// A node of an AVL tree. It owns its two subtrees and records the height of
/// the subtree that it roots.
#[derive(Debug)]
pub struct AVLTreeNode<T> {
    pub key: T,
    pub left: AVLTree<T>,
    pub right: AVLTree<T>,
    pub height: i32,
}

/// An AVL tree, empty or owning its root node.
#[derive(Debug)]
pub struct AVLTreeStructure<T> {
    pub root: AVLTree<T>,
}

/// The keys of a subtree in order: left subtree, node, right subtree.
pub open spec fn tree_keys<T: OrderedKey>(t: AVLTree<T>) -> Seq<T>
    decreases t,
{
    match t {
        None => Seq::empty(),
        Some(n) => join(tree_keys(n.left), n.key, tree_keys(n.right)),
    }
}

/// The number of nodes on the longest path from the root of a subtree down to
/// a node without children; 0 for an absent subtree.
pub open spec fn tree_height<T>(t: AVLTree<T>) -> nat
    decreases t,
{
    match t {
        None => 0,
        Some(n) => 1 + vstd::math::max(tree_height(n.left) as int, tree_height(n.right) as int) as nat,
    }
}

/// The number of nodes of a subtree that have no children.
pub open spec fn tree_leaves<T>(t: AVLTree<T>) -> nat
    decreases t,
{
    match t {
        None => 0,
        Some(n) => if n.left.is_none() && n.right.is_none() {
            1
        } else {
            tree_leaves(n.left) + tree_leaves(n.right)
        },
    }
}

/// The number of nodes of a subtree.
pub open spec fn tree_size<T>(t: AVLTree<T>) -> nat
    decreases t,
{
    match t {
        None => 0,
        Some(n) => tree_size(n.left) + 1 + tree_size(n.right),
    }
}

/// The root of the subtree, where there is one, records the subtree's height.
pub open spec fn height_known<T>(t: AVLTree<T>) -> bool {
    match t {
        None => true,
        Some(n) => n.height == tree_height(t),
    }
}

/// The height balance of a node: left height minus right height.
pub open spec fn balance_of<T>(n: AVLTreeNode<T>) -> int {
    tree_height(n.left) - tree_height(n.right)
}

/// The AVL invariant: at every node of the subtree the two heights differ by
/// at most one, and the node records the height of what it roots.
pub open spec fn is_avl<T>(t: AVLTree<T>) -> bool
    decreases t,
{
    match t {
        None => true,
        Some(n) => {
            &&& is_avl(n.left)
            &&& is_avl(n.right)
            &&& -1 <= balance_of(*n) <= 1
            &&& n.height == tree_height(t)
        },
    }
}

/// The subtree that has `n` as its root.
pub open spec fn link<T>(n: AVLTreeNode<T>) -> AVLTree<T> {
    Some(Box::new(n))
}

/// The node `n` with `left` as its left subtree.
pub open spec fn with_left<T>(n: AVLTreeNode<T>, left: AVLTree<T>) -> AVLTreeNode<T> {
    AVLTreeNode { key: n.key, left: left, right: n.right, height: n.height }
}

/// The node `n` with `right` as its right subtree.
pub open spec fn with_right<T>(n: AVLTreeNode<T>, right: AVLTree<T>) -> AVLTreeNode<T> {
    AVLTreeNode { key: n.key, left: n.left, right: right, height: n.height }
}

/// The node `n` with its height recorded anew from its subtrees.
pub open spec fn updated<T>(n: AVLTreeNode<T>) -> AVLTreeNode<T> {
    AVLTreeNode {
        key: n.key,
        left: n.left,
        right: n.right,
        height: (1 + vstd::math::max(tree_height(n.left) as int, tree_height(n.right) as int)) as i32,
    }
}

/// The node `n` turned to the right: its left child on top, `n` below it on
/// the right, the child's former right subtree as `n`'s left; both with
/// their heights recorded anew.
pub open spec fn turned_right<T>(n: AVLTreeNode<T>) -> AVLTreeNode<T>
    recommends
        n.left.is_some(),
{
    let l = *n.left.unwrap();
    updated(
        AVLTreeNode {
            key: l.key,
            left: l.left,
            right: link(updated(with_left(n, l.right))),
            height: l.height,
        },
    )
}

/// The node `n` turned to the left: the mirror image of `turned_right`.
pub open spec fn turned_left<T>(n: AVLTreeNode<T>) -> AVLTreeNode<T>
    recommends
        n.right.is_some(),
{
    let r = *n.right.unwrap();
    updated(
        AVLTreeNode {
            key: r.key,
            left: link(updated(with_right(n, r.left))),
            right: r.right,
            height: r.height,
        },
    )
}

/// The node `n`, whose left side is higher by two, rebalanced: its left
/// child lifted over it, or that child's right child where the child leans
/// to the right.
pub open spec fn lowered_left<T>(n: AVLTreeNode<T>) -> AVLTreeNode<T>
    recommends
        n.left.is_some(),
{
    if balance_of(*n.left.unwrap()) < 0 {
        turned_right(with_left(n, link(turned_left(*n.left.unwrap()))))
    } else {
        turned_right(n)
    }
}

/// The node `n`, whose right side is higher by two, rebalanced: the mirror
/// image of `lowered_left`.
pub open spec fn lowered_right<T>(n: AVLTreeNode<T>) -> AVLTreeNode<T>
    recommends
        n.right.is_some(),
{
    if balance_of(*n.right.unwrap()) > 0 {
        turned_left(with_right(n, link(turned_right(*n.right.unwrap()))))
    } else {
        turned_left(n)
    }
}

/// The node `n` rebalanced: with its height recorded anew where its two
/// heights differ by at most one, else with the higher child, or that
/// child's inner child, lifted over it.
pub open spec fn balanced<T>(n: AVLTreeNode<T>) -> AVLTreeNode<T> {
    if balance_of(n) > 1 {
        lowered_left(updated(n))
    } else if balance_of(n) < -1 {
        lowered_right(updated(n))
    } else {
        updated(n)
    }
}

/// The subtree `t` after `key` has been put into it: the key goes down to
/// the left of every node whose key is greater and to the right of every
/// other node, so behind the keys equal to it, and becomes a node without
/// children; every node on the way is then rebalanced from the bottom up.
pub open spec fn inserted<T: OrderedKey>(t: AVLTree<T>, key: T) -> AVLTreeNode<T>
    decreases t,
{
    match t {
        None => AVLTreeNode { key: key, left: None, right: None, height: 1 },
        Some(n) => if key.rank() < n.key.rank() {
            balanced(with_left(*n, link(inserted(n.left, key))))
        } else {
            balanced(with_right(*n, link(inserted(n.right, key))))
        },
    }
}

/// The leftmost node of the subtree rooted at `n`: the one reached from `n`
/// by left links only.
pub open spec fn leftmost<T>(n: Box<AVLTreeNode<T>>) -> Box<AVLTreeNode<T>>
    decreases n,
{
    match n.left {
        None => n,
        Some(l) => leftmost(l),
    }
}

/// What is left of the subtree rooted at `n` after one node with the key
/// `key` has been taken out. The walk goes left where `key` is smaller than
/// a node's key and right where it is greater. The first node met with that
/// key gives way to its only child if it has at most one; else it takes the
/// key of the leftmost node of its right subtree, and that key is taken out
/// there. Every node on the way is rebalanced from the bottom up.
pub open spec fn deleted<T: OrderedKey>(n: Box<AVLTreeNode<T>>, key: T) -> AVLTree<T>
    decreases n,
{
    if key.rank() < n.key.rank() {
        match n.left {
            Some(l) => link(balanced(with_left(*n, deleted(l, key)))),
            None => link(balanced(*n)),
        }
    } else if n.key.rank() < key.rank() {
        match n.right {
            Some(r) => link(balanced(with_right(*n, deleted(r, key)))),
            None => link(balanced(*n)),
        }
    } else {
        match n.right {
            Some(r) => if n.left.is_some() {
                let successor = leftmost(r).key;
                link(
                    balanced(
                        AVLTreeNode {
                            key: successor,
                            left: n.left,
                            right: deleted(r, successor),
                            height: n.height,
                        },
                    ),
                )
            } else {
                n.right
            },
            None => n.left,
        }
    }
}

/// The tree `t` after one node with the key `key` has been taken out.
pub open spec fn tree_deleted<T: OrderedKey>(t: AVLTree<T>, key: T) -> AVLTree<T> {
    match t {
        None => None,
        Some(n) => deleted(n, key),
    }
}

impl<T: OrderedKey> AVLTreeNode<T> {
    /// A node without children, of height 1.
    pub fn new(key: T) -> (node: Box<AVLTreeNode<T>>)
        ensures
            node.key == key,
            node.left.is_none(),
            node.right.is_none(),
            node.height == 1,
            is_avl(Some(node)),
            tree_keys(Some(node)) == seq![key],
    {
        let node = Box::new(AVLTreeNode { key, left: None, right: None, height: 1 });
        proof {
            reveal_with_fuel(tree_keys, 2);
            reveal_with_fuel(tree_height, 2);
            reveal_with_fuel(is_avl, 2);
            assert(tree_keys(Some(node)) =~= seq![key]);
        }
        node
    }

    /// The height of a subtree, read from its root.
    pub fn height(node: &AVLTree<T>) -> (h: i32)
        requires
            height_known(*node),
        ensures
            h == tree_height(*node),
    {
        match node {
            None => 0,
            Some(n) => n.height,
        }
    }

    /// Records the node's height anew from the heights of its subtrees.
    pub fn update_height(&mut self)
        requires
            height_known(old(self).left),
            height_known(old(self).right),
            tree_height(old(self).left) < i32::MAX,
            tree_height(old(self).right) < i32::MAX,
        ensures
            *final(self) == updated(*old(self)),
            final(self).height == 1 + vstd::math::max(
                tree_height(old(self).left) as int,
                tree_height(old(self).right) as int,
            ),
            final(self).key == old(self).key,
            final(self).left == old(self).left,
            final(self).right == old(self).right,
    {
        let l: i32 = Self::height(&self.left);
        let r: i32 = Self::height(&self.right);
        self.height = 1 + if l > r { l } else { r };
    }

    /// Left height minus right height.
    pub fn balance_factor(&self) -> (b: i32)
        requires
            height_known(self.left),
            height_known(self.right),
        ensures
            b == balance_of(*self),
    {
        Self::height(&self.left) - Self::height(&self.right)
    }

    /// Turns the node to the right: its left child becomes the root of the
    /// subtree, the node becomes that child's right child and takes over the
    /// child's former right subtree as its left. Both nodes get their heights
    /// recorded anew; the keys keep their order.
    pub fn rotate_right(node: Box<AVLTreeNode<T>>) -> (top: Box<AVLTreeNode<T>>)
        requires
            node.left.is_some(),
            height_known(node.left.unwrap().left),
            height_known(node.left.unwrap().right),
            height_known(node.right),
            tree_height(node.left.unwrap().left) + 1 < i32::MAX,
            tree_height(node.left.unwrap().right) + 1 < i32::MAX,
            tree_height(node.right) + 1 < i32::MAX,
        ensures
            *top == turned_right(*node),
            top.key == node.left.unwrap().key,
            top.left == node.left.unwrap().left,
            top.right.is_some(),
            top.right.unwrap().key == node.key,
            top.right.unwrap().left == node.left.unwrap().right,
            top.right.unwrap().right == node.right,
            height_known(top.right),
            height_known(Some(top)),
            tree_height(top.right) == 1 + vstd::math::max(
                tree_height(node.left.unwrap().right) as int,
                tree_height(node.right) as int,
            ),
            tree_keys(Some(top)) == tree_keys(Some(node)),
    {
        let ghost before = node;
        let mut node = node;
        let mut left_child = node.left.take().unwrap();
        node.left = left_child.right.take();
        node.update_height();
        left_child.right = Some(node);
        left_child.update_height();
        proof {
            reveal_with_fuel(tree_keys, 3);
            assert(tree_keys(Some(left_child)) =~= tree_keys(Some(before)));
        }
        left_child
    }

    /// Turns the node to the left: the mirror image of `rotate_right`.
    pub fn rotate_left(node: Box<AVLTreeNode<T>>) -> (top: Box<AVLTreeNode<T>>)
        requires
            node.right.is_some(),
            height_known(node.right.unwrap().left),
            height_known(node.right.unwrap().right),
            height_known(node.left),
            tree_height(node.right.unwrap().left) + 1 < i32::MAX,
            tree_height(node.right.unwrap().right) + 1 < i32::MAX,
            tree_height(node.left) + 1 < i32::MAX,
        ensures
            *top == turned_left(*node),
            top.key == node.right.unwrap().key,
            top.right == node.right.unwrap().right,
            top.left.is_some(),
            top.left.unwrap().key == node.key,
            top.left.unwrap().right == node.right.unwrap().left,
            top.left.unwrap().left == node.left,
            height_known(top.left),
            height_known(Some(top)),
            tree_height(top.left) == 1 + vstd::math::max(
                tree_height(node.left) as int,
                tree_height(node.right.unwrap().left) as int,
            ),
            tree_keys(Some(top)) == tree_keys(Some(node)),
    {
        let ghost before = node;
        let mut node = node;
        let mut right_child = node.right.take().unwrap();
        node.right = right_child.left.take();
        node.update_height();
        right_child.left = Some(node);
        right_child.update_height();
        proof {
            reveal_with_fuel(tree_keys, 3);
            assert(tree_keys(Some(right_child)) =~= tree_keys(Some(before)));
        }
        right_child
    }

    /// Restores the AVL invariant at a node whose subtrees satisfy it and
    /// whose heights differ by at most two: records the node's height, and
    /// where one side is higher by two, rotates towards the other side,
    /// after turning the higher child first where that child leans inwards.
    /// Returns the root of the rebalanced subtree.
    fn balance(node: Box<AVLTreeNode<T>>) -> (top: Box<AVLTreeNode<T>>)
        requires
            is_avl(node.left),
            is_avl(node.right),
            -2 <= balance_of(*node) <= 2,
            tree_height(Some(node)) <= i32::MAX,
        ensures
            *top == balanced(*node),
            balance_of(*node) == 2 ==> top.key == (if balance_of(*node.left.unwrap()) >= 0 {
                node.left.unwrap().key
            } else {
                node.left.unwrap().right.unwrap().key
            }),
            balance_of(*node) == -2 ==> top.key == (if balance_of(*node.right.unwrap()) <= 0 {
                node.right.unwrap().key
            } else {
                node.right.unwrap().left.unwrap().key
            }),
            is_avl(Some(top)),
            tree_keys(Some(top)) == tree_keys(Some(node)),
            tree_height(Some(top)) == tree_height(Some(node)) || tree_height(Some(top)) + 1
                == tree_height(Some(node)),
            -1 <= balance_of(*node) <= 1 ==> {
                &&& top.key == node.key
                &&& top.left == node.left
                &&& top.right == node.right
            },
            is_avl(Some(node)) ==> top == node,
            node.left.is_some() && balance_of(*node) == 2 && balance_of(*node.left.unwrap()) != 0
                ==> tree_height(Some(top)) + 1 == tree_height(Some(node)),
            node.right.is_some() && balance_of(*node) == -2 && balance_of(*node.right.unwrap()) != 0
                ==> tree_height(Some(top)) + 1 == tree_height(Some(node)),
    {
        let ghost before = node;
        let mut node = node;
        node.update_height();
        proof {
            lemma_node(node);
            lemma_node(before);
        }
        let balance: i32 = node.balance_factor();
        if balance > 1 {
            Self::lower_left(node)
        } else if balance < -1 {
            Self::lower_right(node)
        } else {
            node
        }
    }

    /// Rebalances a node whose left side is higher by two: turns the left
    /// child to the left first where it leans to the right, then the node to
    /// the right.
    fn lower_left(node: Box<AVLTreeNode<T>>) -> (top: Box<AVLTreeNode<T>>)
        requires
            is_avl(node.left),
            is_avl(node.right),
            balance_of(*node) == 2,
            tree_height(Some(node)) <= i32::MAX,
        ensures
            *top == lowered_left(*node),
            top.key == (if balance_of(*node.left.unwrap()) >= 0 {
                node.left.unwrap().key
            } else {
                node.left.unwrap().right.unwrap().key
            }),
            is_avl(Some(top)),
            tree_keys(Some(top)) == tree_keys(Some(node)),
            tree_height(Some(top)) == tree_height(Some(node)) || tree_height(Some(top)) + 1
                == tree_height(Some(node)),
            balance_of(*node.left.unwrap()) != 0 ==> tree_height(Some(top)) + 1 == tree_height(
                Some(node),
            ),
    {
        let ghost before = node;
        let ghost l = before.left.unwrap();
        let mut node = node;
        proof {
            lemma_node(before);
            lemma_node(l);
        }
        if node.left.as_ref().unwrap().balance_factor() < 0 {
            let left = node.left.take().unwrap();
            proof {
                lemma_node(l.right.unwrap());
            }
            let turned = Self::rotate_left(left);
            proof {
                lemma_node(turned.left.unwrap());
                lemma_node(turned);
            }
            node.left = Some(turned);
        }
        let top = Self::rotate_right(node);
        proof {
            lemma_node(top.right.unwrap());
            lemma_node(top);
        }
        top
    }

    /// Rebalances a node whose right side is higher by two: the mirror image
    /// of `lower_left`.
    fn lower_right(node: Box<AVLTreeNode<T>>) -> (top: Box<AVLTreeNode<T>>)
        requires
            is_avl(node.left),
            is_avl(node.right),
            balance_of(*node) == -2,
            tree_height(Some(node)) <= i32::MAX,
        ensures
            *top == lowered_right(*node),
            top.key == (if balance_of(*node.right.unwrap()) <= 0 {
                node.right.unwrap().key
            } else {
                node.right.unwrap().left.unwrap().key
            }),
            is_avl(Some(top)),
            tree_keys(Some(top)) == tree_keys(Some(node)),
            tree_height(Some(top)) == tree_height(Some(node)) || tree_height(Some(top)) + 1
                == tree_height(Some(node)),
            balance_of(*node.right.unwrap()) != 0 ==> tree_height(Some(top)) + 1 == tree_height(
                Some(node),
            ),
    {
        let ghost before = node;
        let ghost r = before.right.unwrap();
        let mut node = node;
        proof {
            lemma_node(before);
            lemma_node(r);
        }
        if node.right.as_ref().unwrap().balance_factor() > 0 {
            let right = node.right.take().unwrap();
            proof {
                lemma_node(r.left.unwrap());
            }
            let turned = Self::rotate_right(right);
            proof {
                lemma_node(turned.right.unwrap());
                lemma_node(turned);
            }
            node.right = Some(turned);
        }
        let top = Self::rotate_left(node);
        proof {
            lemma_node(top.left.unwrap());
            lemma_node(top);
        }
        top
    }
}

/// What the tree's measures are at a node, in terms of its two subtrees.
pub proof fn lemma_node<T: OrderedKey>(n: Box<AVLTreeNode<T>>)
    ensures
        tree_height(Some(n)) == 1 + vstd::math::max(
            tree_height(n.left) as int,
            tree_height(n.right) as int,
        ),
        tree_keys(Some(n)) == join(tree_keys(n.left), n.key, tree_keys(n.right)),
        tree_size(Some(n)) == tree_size(n.left) + 1 + tree_size(n.right),
        is_avl(Some(n)) <==> {
            &&& is_avl(n.left)
            &&& is_avl(n.right)
            &&& -1 <= balance_of(*n) <= 1
            &&& n.height == tree_height(Some(n))
        },
        is_avl(n.left) ==> height_known(n.left),
        is_avl(n.right) ==> height_known(n.right),
{
}

impl<T: OrderedKey> View for AVLTreeStructure<T> {
    type V = Seq<T>;

    /// The tree's keys in order.
    open spec fn view(&self) -> Seq<T> {
        tree_keys(self.root)
    }
}

impl<T: OrderedKey> AVLTreeStructure<T> {
    /// The tree is a search tree (its keys in order never decrease) and
    /// satisfies the AVL invariant at every node.
    pub open spec fn wf(&self) -> bool {
        &&& sorted(self@)
        &&& is_avl(self.root)
    }

    /// An empty tree.
    pub fn new() -> (tree: Self)
        ensures
            tree.wf(),
            tree.root.is_none(),
            tree@ == Seq::<T>::empty(),
    {
        AVLTreeStructure { root: None }
    }

    /// Puts `key` into the subtree rooted at `node`: to the left of every
    /// node whose key is greater, to the right of the others, as a new node
    /// without children. Every node on the way is rebalanced on the way back.
    fn insert_node(node: Box<AVLTreeNode<T>>, key: T) -> (top: Box<AVLTreeNode<T>>)
        requires
            is_avl(Some(node)),
            sorted(tree_keys(Some(node))),
            tree_height(Some(node)) < i32::MAX,
        ensures
            *top == inserted(Some(node), key),
            is_avl(Some(top)),
            tree_keys(Some(top)) == ordered_insert(tree_keys(Some(node)), key),
            tree_height(Some(top)) == tree_height(Some(node)) || tree_height(Some(top))
                == tree_height(Some(node)) + 1,
        decreases node,
    {
        let ghost before = node;
        let mut node = node;
        proof {
            lemma_node(before);
            lemma_sorted_join(tree_keys(before.left), before.key, tree_keys(before.right));
        }
        if key.less(&node.key) {
            proof {
                lemma_insert_left(tree_keys(before.left), before.key, tree_keys(before.right), key);
            }
            match node.left.take() {
                Some(left) => {
                    let grown = Self::insert_node(left, key);
                    node.left = Some(grown);
                },
                None => {
                    let leaf = AVLTreeNode::new(key);
                    proof {
                        assert(ordered_insert(Seq::<T>::empty(), key) =~= seq![key]);
                        lemma_node(leaf);
                        assert(*leaf == inserted(before.left, key));
                    }
                    node.left = Some(leaf);
                },
            }
        } else {
            proof {
                lemma_insert_right(tree_keys(before.left), before.key, tree_keys(before.right), key);
            }
            match node.right.take() {
                Some(right) => {
                    let grown = Self::insert_node(right, key);
                    node.right = Some(grown);
                },
                None => {
                    let leaf = AVLTreeNode::new(key);
                    proof {
                        assert(ordered_insert(Seq::<T>::empty(), key) =~= seq![key]);
                        lemma_node(leaf);
                        assert(*leaf == inserted(before.right, key));
                    }
                    node.right = Some(leaf);
                },
            }
        }
        proof {
            lemma_node(node);
        }
        AVLTreeNode::balance(node)
    }

    /// Puts `key` into the tree, behind the keys equal to it, and rebalances.
    pub fn insert(&mut self, key: T)
        requires
            old(self).wf(),
            tree_height(old(self).root) < i32::MAX,
        ensures
            final(self).root == link(inserted(old(self).root, key)),
            final(self).wf(),
            final(self)@ == ordered_insert(old(self)@, key),
            tree_height(final(self).root) == tree_height(old(self).root) || tree_height(
                final(self).root,
            ) == tree_height(old(self).root) + 1,
    {
        proof {
            lemma_insert_sorted(self@, key);
        }
        match self.root.take() {
            Some(root) => {
                self.root = Some(Self::insert_node(root, key));
            },
            None => {
                let leaf = AVLTreeNode::new(key);
                proof {
                    assert(ordered_insert(Seq::<T>::empty(), key) =~= seq![key]);
                    lemma_node(leaf);
                }
                self.root = Some(leaf);
            },
        }
    }

    /// Takes one node with the key `key` out of the subtree rooted at `node`
    /// and rebalances every node on the way back. A node with two children
    /// is not itself removed: it takes over the key of its successor, the
    /// leftmost node of its right subtree, and that key is then taken out of
    /// the right subtree. Where `key` does not occur the subtree is returned
    /// as it was.
    fn delete_node(node: Box<AVLTreeNode<T>>, key: T) -> (top: AVLTree<T>)
        requires
            is_avl(Some(node)),
            sorted(tree_keys(Some(node))),
        ensures
            top == deleted(node, key),
            is_avl(top),
            tree_keys(top) == remove_one(tree_keys(Some(node)), key),
            tree_height(top) == tree_height(Some(node)) || tree_height(top) + 1 == tree_height(
                Some(node),
            ),
            !tree_keys(Some(node)).contains(key) ==> top == Some(node),
        decreases node,
    {
        let ghost before = node;
        let ghost l = tree_keys(before.left);
        let ghost r = tree_keys(before.right);
        let mut node = node;
        proof {
            lemma_node(before);
            lemma_sorted_join(l, before.key, r);
        }
        if key.less(&node.key) {
            proof {
                lemma_remove_left(l, before.key, r, key);
            }
            match node.left.take() {
                Some(left) => {
                    let rest = Self::delete_node(left, key);
                    node.left = rest;
                },
                None => {},
            }
        } else if node.key.less(&key) {
            proof {
                lemma_remove_right(l, before.key, r, key);
            }
            match node.right.take() {
                Some(right) => {
                    let rest = Self::delete_node(right, key);
                    node.right = rest;
                },
                None => {},
            }
        } else {
            proof {
                T::rank_is_injective(key, before.key);
                lemma_remove_here(l, before.key, r);
            }
            if node.left.is_none() && node.right.is_none() {
                proof {
                    assert(l + r =~= Seq::<T>::empty());
                }
                return None;
            } else if node.left.is_none() {
                proof {
                    assert(l + r =~= r);
                }
                return node.right.take();
            } else if node.right.is_none() {
                proof {
                    assert(l + r =~= l);
                }
                return node.left.take();
            } else {
                let right = node.right.take().unwrap();
                let successor: T = Self::min_node(&right).key;
                proof {
                    lemma_remove_first(r);
                }
                let rest = Self::delete_node(right, successor);
                node.key = successor;
                node.right = rest;
                proof {
                    lemma_node(node);
                    assert(join(l, successor, r.drop_first()) =~= l + r);
                }
            }
        }
        proof {
            lemma_node(node);
        }
        Some(AVLTreeNode::balance(node))
    }

    /// The leftmost node of the subtree rooted at `node`: the one with the
    /// first key in order.
    fn min_node(node: &Box<AVLTreeNode<T>>) -> (first: &Box<AVLTreeNode<T>>)
        ensures
            *first == leftmost(*node),
            first.left.is_none(),
            tree_keys(Some(*node)).len() > 0,
            first.key == tree_keys(Some(*node))[0],
    {
        let mut current = node;
        proof {
            lemma_first_key(*node);
        }
        while current.left.is_some()
            invariant
                leftmost(*current) == leftmost(*node),
                tree_keys(Some(*current)).len() > 0,
                tree_keys(Some(*node)).len() > 0,
                tree_keys(Some(*current))[0] == tree_keys(Some(*node))[0],
            decreases tree_size(Some(*current)),
        {
            proof {
                lemma_first_key(*current);
                lemma_first_key(current.left.unwrap());
                lemma_node(*current);
            }
            current = current.left.as_ref().unwrap();
        }
        proof {
            lemma_first_key(*current);
        }
        current
    }

    /// Takes one node with the key `key` out of the tree and rebalances.
    /// Where `key` does not occur the tree stays as it is.
    pub fn delete(&mut self, key: T)
        requires
            old(self).wf(),
        ensures
            final(self).root == tree_deleted(old(self).root, key),
            final(self).wf(),
            final(self)@ == remove_one(old(self)@, key),
            !old(self)@.contains(key) ==> *final(self) == *old(self),
            tree_height(final(self).root) == tree_height(old(self).root) || tree_height(
                final(self).root,
            ) + 1 == tree_height(old(self).root),
    {
        proof {
            lemma_remove_sorted(self@, key);
        }
        match self.root.take() {
            Some(root) => {
                self.root = Self::delete_node(root, key);
            },
            None => {},
        }
    }
}

impl<T: OrderedKey> AVLTreeStructure<T> {
    /// The number of nodes in the subtree `root`.
    pub fn number_of_nodes(root: &AVLTree<T>) -> (count: u32)
        requires
            tree_size(*root) <= u32::MAX,
        ensures
            count == tree_size(*root),
            count == tree_keys(*root).len(),
        decreases *root,
    {
        proof {
            lemma_size_is_len(*root);
        }
        match root {
            None => 0,
            Some(node) => Self::number_of_nodes(&node.left) + 1 + Self::number_of_nodes(&node.right),
        }
    }

    /// The number of nodes without children in the subtree `root`. It is
    /// never more than the number of nodes.
    pub fn number_of_leaves(root: &AVLTree<T>) -> (count: u32)
        requires
            tree_leaves(*root) <= u32::MAX,
        ensures
            count == tree_leaves(*root),
            count <= tree_size(*root),
            2 * count <= tree_size(*root) + 1,
            count == 0 <==> root.is_none(),
            tree_size(*root) == 1 ==> count == 1,
        decreases *root,
    {
        proof {
            lemma_leaves_bound(*root);
        }
        match root {
            None => 0,
            Some(node) => {
                if node.left.is_none() && node.right.is_none() {
                    1
                } else {
                    Self::number_of_leaves(&node.left) + Self::number_of_leaves(&node.right)
                }
            },
        }
    }

    /// The height of the subtree `root`, found by walking all of it.
    pub fn height_of_tree(root: &AVLTree<T>) -> (height: u32)
        requires
            tree_height(*root) <= u32::MAX,
        ensures
            height == tree_height(*root),
        decreases *root,
    {
        match root {
            None => 0,
            Some(node) => {
                let left_height: u32 = Self::height_of_tree(&node.left);
                let right_height: u32 = Self::height_of_tree(&node.right);
                if left_height > right_height {
                    left_height + 1
                } else {
                    right_height + 1
                }
            },
        }
    }

    /// Appends the keys of the subtree `root`, in order, to `out`.
    fn collect_in_order(root: &AVLTree<T>, out: &mut Vec<T>)
        ensures
            final(out)@ == old(out)@ + tree_keys(*root),
        decreases *root,
    {
        match root {
            None => {
                proof {
                    assert(old(out)@ + tree_keys(*root) =~= old(out)@);
                }
            },
            Some(node) => {
                Self::collect_in_order(&node.left, out);
                out.push(node.key);
                Self::collect_in_order(&node.right, out);
                proof {
                    assert(final(out)@ =~= old(out)@ + tree_keys(*root));
                }
            },
        }
    }

    /// The keys of the subtree `root` in order: left subtree, node, right
    /// subtree.
    pub fn in_order_traversal(root: &AVLTree<T>) -> (keys: Vec<T>)
        ensures
            keys@ == tree_keys(*root),
    {
        let mut keys: Vec<T> = Vec::new();
        Self::collect_in_order(root, &mut keys);
        proof {
            assert(Seq::<T>::empty() + tree_keys(*root) =~= tree_keys(*root));
        }
        keys
    }

    /// Whether the tree has no node.
    pub fn tree_is_empty(&self) -> (empty: bool)
        ensures
            empty == self.root.is_none(),
            empty == (self@.len() == 0),
    {
        proof {
            if self.root.is_some() {
                lemma_first_key(self.root.unwrap());
            }
        }
        if self.root.is_none() {
            return true;
        }
        false
    }

    /// Walks down from the root, to the left where `key` is smaller than the
    /// node's key and to the right where it is greater, until it meets a node
    /// with that key or runs out of nodes.
    fn find_node(&self, key: T) -> (found: Option<&AVLTreeNode<T>>)
        ensures
            match found {
                Some(node) => search(self.root, key) == Some(*node),
                None => search(self.root, key).is_none(),
            },
    {
        let mut current = &self.root;
        while current.is_some()
            invariant
                search(*current, key) == search(self.root, key),
            decreases tree_size(*current),
        {
            let node = current.as_ref().unwrap();
            if key.less(&node.key) {
                current = &node.left;
            } else if node.key.less(&key) {
                current = &node.right;
            } else {
                return Some(&**node);
            }
        }
        None
    }

    /// The node that a search for `key` ends at, or `None` where the tree
    /// has no such key; an empty tree is not searched.
    pub fn find_by_key(&self, key: T) -> (found: Option<&AVLTreeNode<T>>)
        requires
            self.wf(),
        ensures
            found.is_some() == self@.contains(key),
            match found {
                Some(node) => node.key == key && search(self.root, key) == Some(*node),
                None => search(self.root, key).is_none(),
            },
    {
        proof {
            lemma_search(self.root, key);
        }
        if self.tree_is_empty() {
            None
        } else {
            self.find_node(key)
        }
    }
}

/// The node at which a walk from the root of `t` towards `key` ends: the
/// first node met whose key is `key`.
pub open spec fn search<T: OrderedKey>(t: AVLTree<T>, key: T) -> Option<AVLTreeNode<T>>
    decreases t,
{
    match t {
        None => None,
        Some(n) => if key.rank() < n.key.rank() {
            search(n.left, key)
        } else if n.key.rank() < key.rank() {
            search(n.right, key)
        } else {
            Some(*n)
        },
    }
}

/// In a search tree the walk towards a key ends at a node exactly when the
/// key is in the tree, and then at a node with that key.
pub proof fn lemma_search<T: OrderedKey>(t: AVLTree<T>, key: T)
    requires
        sorted(tree_keys(t)),
    ensures
        search(t, key).is_some() == tree_keys(t).contains(key),
        search(t, key).is_some() ==> search(t, key).unwrap().key == key,
    decreases t,
{
    match t {
        None => {},
        Some(n) => {
            let l = tree_keys(n.left);
            let r = tree_keys(n.right);
            lemma_sorted_join(l, n.key, r);
            if key.rank() < n.key.rank() {
                lemma_remove_left(l, n.key, r, key);
                lemma_search(n.left, key);
            } else if n.key.rank() < key.rank() {
                lemma_remove_right(l, n.key, r, key);
                lemma_search(n.right, key);
            } else {
                T::rank_is_injective(key, n.key);
                lemma_remove_here(l, n.key, r);
            }
        },
    }
}

/// The first key of a subtree in order is that of its leftmost node.
pub proof fn lemma_first_key<T: OrderedKey>(n: Box<AVLTreeNode<T>>)
    ensures
        tree_keys(Some(n)).len() > 0,
        tree_keys(Some(n))[0] == (if n.left.is_none() {
            n.key
        } else {
            tree_keys(n.left)[0]
        }),
        n.left.is_some() ==> tree_keys(n.left).len() > 0,
{
    if n.left.is_some() {
        let l = n.left.unwrap();
        assert(tree_keys(n.left) == join(tree_keys(l.left), l.key, tree_keys(l.right)));
    } else {
        assert(tree_keys(n.left) =~= Seq::<T>::empty());
    }
}

/// A subtree has as many keys as nodes.
pub proof fn lemma_size_is_len<T: OrderedKey>(t: AVLTree<T>)
    ensures
        tree_keys(t).len() == tree_size(t),
    decreases t,
{
    match t {
        None => {},
        Some(n) => {
            lemma_size_is_len(n.left);
            lemma_size_is_len(n.right);
        },
    }
}

/// A subtree without keys has no node, and its height is 0.
pub proof fn lemma_no_keys_no_nodes<T: OrderedKey>(t: AVLTree<T>)
    requires
        tree_keys(t).len() == 0,
    ensures
        t.is_none(),
        tree_height(t) == 0,
        tree_leaves(t) == 0,
{
    lemma_size_is_len(t);
}

/// A subtree has at most as many nodes without children as it has nodes,
/// and at most half of that number rounded up; it has none exactly when it
/// is empty, and a subtree of one node has one.
pub proof fn lemma_leaves_bound<T: OrderedKey>(t: AVLTree<T>)
    ensures
        tree_leaves(t) <= tree_size(t),
        2 * tree_leaves(t) <= tree_size(t) + 1,
        tree_leaves(t) == 0 <==> tree_size(t) == 0,
        tree_leaves(t) == 0 <==> t.is_none(),
        tree_size(t) == 1 ==> tree_leaves(t) == 1,
    decreases t,
{
    match t {
        None => {},
        Some(n) => {
            lemma_leaves_bound(n.left);
            lemma_leaves_bound(n.right);
            if tree_size(t) == 1 {
                assert(tree_size(n.left) == 0 && tree_size(n.right) == 0);
                assert(n.left.is_none());
                assert(n.right.is_none());
            }
        },
    }
}

/// The nodes that stand for a subtree in a drawing, the root first, then
/// those of the left subtree, then those of the right. An absent subtree is
/// drawn as a node of its own with the label `None`.
pub open spec fn drawn_nodes<T: OrderedKey>(t: AVLTree<T>) -> Seq<(Seq<char>, DotNodeColor)>
    decreases t,
{
    match t {
        None => seq![("None"@, DotNodeColor::Green)],
        Some(n) => seq![(n.key.label(), DotNodeColor::Green)] + drawn_nodes(n.left) + drawn_nodes(n.right),
    }
}

/// The edges of a drawing of a subtree whose root is node number `at` and
/// whose other nodes are numbered from `base` on: one from each node to each
/// of its two children, the left one first and each followed by the edges
/// below that child.
pub open spec fn drawn_edges<T: OrderedKey>(t: AVLTree<T>, at: int, base: int) -> Seq<(int, int)>
    decreases t,
{
    match t {
        None => Seq::empty(),
        Some(n) => {
            let right_at = base + drawn_nodes(n.left).len();
            seq![(at, base)] + drawn_edges(n.left, base, base + 1) + seq![(at, right_at)]
                + drawn_edges(n.right, right_at, right_at + 1)
        },
    }
}

impl<T: OrderedKey> AVLTreeNode<T> {
    /// Draws the subtree `node` into `file`: a node for each of its nodes
    /// and for each absent child, and an edge from every node to its two
    /// children. With `parent_node_idx` given, the root of the subtree has
    /// been drawn already under that number, and only what lies below it is
    /// drawn. Nothing is drawn for an absent subtree.
    pub fn draw_node(node: &AVLTree<T>, file: &mut Dotfile, parent_node_idx: Option<usize>)
        ensures
            final(file).name() == old(file).name(),
            node.is_none() ==> final(file).nodes() == old(file).nodes() && final(file).edges()
                == old(file).edges(),
            node.is_some() && parent_node_idx.is_none() ==> {
                &&& final(file).nodes() == old(file).nodes() + drawn_nodes(*node)
                &&& final(file).edges() == old(file).edges() + drawn_edges(
                    *node,
                    old(file).nodes().len() as int,
                    old(file).nodes().len() as int + 1,
                )
            },
            node.is_some() && parent_node_idx.is_some() ==> {
                &&& final(file).nodes() == old(file).nodes() + drawn_nodes(*node).drop_first()
                &&& final(file).edges() == old(file).edges() + drawn_edges(
                    *node,
                    parent_node_idx.unwrap() as int,
                    old(file).nodes().len() as int,
                )
            },
        decreases *node, 0nat,
    {
        if let Some(root) = node {
            let root_node: usize = match parent_node_idx {
                None => file.add_node(root.key.to_label().as_str(), DotNodeColor::Green),
                Some(parent_val) => parent_val,
            };
            let ghost mid = file.nodes();
            let ghost left_at = mid.len() as int;
            Self::draw_child(&root.left, file, root_node);
            let ghost right_at = file.nodes().len() as int;
            Self::draw_child(&root.right, file, root_node);
            proof {
                let left_edges = seq![(root_node as int, left_at)] + drawn_edges(
                    root.left,
                    left_at,
                    left_at + 1,
                );
                let right_edges = seq![(root_node as int, right_at)] + drawn_edges(
                    root.right,
                    right_at,
                    right_at + 1,
                );
                assert(drawn_edges(*node, root_node as int, left_at) =~= left_edges + right_edges);
                assert(file.edges() =~= old(file).edges() + drawn_edges(
                    *node,
                    root_node as int,
                    left_at,
                ));
                if parent_node_idx.is_none() {
                    assert(file.nodes() =~= old(file).nodes() + drawn_nodes(*node));
                } else {
                    assert(file.nodes() =~= old(file).nodes() + drawn_nodes(*node).drop_first());
                }
            }
        }
    }

    /// Draws the subtree `child` into `file` as a child of node number
    /// `parent`: its root or, where it is absent, a node with the label
    /// `None`, then the edge from the parent to that node, then the rest of
    /// the subtree.
    fn draw_child(child: &AVLTree<T>, file: &mut Dotfile, parent: usize)
        ensures
            final(file).name() == old(file).name(),
            final(file).nodes() == old(file).nodes() + drawn_nodes(*child),
            final(file).edges() == old(file).edges() + seq![
                (parent as int, old(file).nodes().len() as int),
            ] + drawn_edges(
                *child,
                old(file).nodes().len() as int,
                old(file).nodes().len() as int + 1,
            ),
        decreases *child, 1nat,
    {
        match child {
            Some(node) => {
                let at: usize = file.add_node(node.key.to_label().as_str(), DotNodeColor::Green);
                file.add_edge(parent, at);
                Self::draw_node(child, file, Some(at));
                proof {
                    assert(final(file).nodes() =~= old(file).nodes() + drawn_nodes(*child));
                }
            },
            None => {
                let at: usize = file.add_node("None", DotNodeColor::Green);
                file.add_edge(parent, at);
                proof {
                    assert(final(file).nodes() =~= old(file).nodes() + drawn_nodes(*child));
                    assert(final(file).edges() =~= old(file).edges() + seq![
                        (parent as int, old(file).nodes().len() as int),
                    ] + drawn_edges(
                        *child,
                        old(file).nodes().len() as int,
                        old(file).nodes().len() as int + 1,
                    ));
                }
            },
        }
    }
}

impl<T: OrderedKey> AVLTreeStructure<T> {
    /// Draws the tree into `file`; see `draw_node`. Nothing is drawn for an
    /// empty tree.
    pub fn draw_tree(&self, file: &mut Dotfile)
        ensures
            final(file).name() == old(file).name(),
            self.root.is_none() ==> final(file).nodes() == old(file).nodes() && final(file).edges()
                == old(file).edges(),
            self.root.is_some() ==> {
                &&& final(file).nodes() == old(file).nodes() + drawn_nodes(self.root)
                &&& final(file).edges() == old(file).edges() + drawn_edges(
                    self.root,
                    old(file).nodes().len() as int,
                    old(file).nodes().len() as int + 1,
                )
            },
    {
        AVLTreeNode::draw_node(&self.root, file, None)
    }
}

impl<T: OrderedKey> AVLTreeStructure<T> {
    /// Whether the subtree `root` satisfies the AVL invariant.
    fn check_avl(root: &AVLTree<T>) -> (ok: bool)
        ensures
            ok == is_avl(*root),
        decreases *root,
    {
        match root {
            None => true,
            Some(node) => {
                if !Self::check_avl(&node.left) || !Self::check_avl(&node.right) {
                    return false;
                }
                proof {
                    lemma_node(*node);
                }
                let left_height: i32 = AVLTreeNode::height(&node.left);
                let right_height: i32 = AVLTreeNode::height(&node.right);
                let difference: i32 = left_height - right_height;
                if difference < -1 || difference > 1 {
                    return false;
                }
                let higher: i32 = if left_height > right_height {
                    left_height
                } else {
                    right_height
                };
                higher < i32::MAX && node.height == 1 + higher
            },
        }
    }

    /// Whether the tree is well formed: a search tree that satisfies the AVL
    /// invariant. Every tree made by `new`, `insert` and `delete` is.
    pub fn is_well_formed(&self) -> (ok: bool)
        ensures
            ok == self.wf(),
    {
        let keys = Self::in_order_traversal(&self.root);
        is_sorted(&keys) && Self::check_avl(&self.root)
    }

    /// The height of the tree, read from its root.
    pub fn height(&self) -> (h: i32)
        requires
            self.wf(),
        ensures
            h == tree_height(self.root),
    {
        proof {
            if self.root.is_some() {
                lemma_node(self.root.unwrap());
            }
        }
        AVLTreeNode::height(&self.root)
    }
}

/// The height of an AVL tree is at most twice the logarithm of its size: a
/// subtree of height `h` that satisfies the invariant has at least
/// `2^(h / 2) - 1` nodes.
pub proof fn lemma_avl_height_bound<T: OrderedKey>(t: AVLTree<T>)
    requires
        is_avl(t),
    ensures
        pow2(tree_height(t) / 2) <= tree_size(t) + 1,
    decreases t,
{
    lemma2_to64();
    match t {
        None => {},
        Some(n) => {
            lemma_avl_height_bound(n.left);
            lemma_avl_height_bound(n.right);
            let h = tree_height(t);
            if h >= 2 {
                let below = ((h - 2) / 2) as nat;
                lemma_pow2_monotone(below, tree_height(n.left) / 2);
                lemma_pow2_monotone(below, tree_height(n.right) / 2);
                lemma_pow2_unfold(h / 2);
                assert(h / 2 - 1 == below);
            }
        },
    }
}

/// An AVL tree with fewer than 2^64 nodes is at most 129 nodes high, so its
/// height is far from the limit up to which `insert` takes it.
pub proof fn lemma_avl_height_fits<T: OrderedKey>(t: AVLTree<T>)
    requires
        is_avl(t),
        tree_size(t) <= u64::MAX,
    ensures
        tree_height(t) <= 129,
{
    lemma_avl_height_bound(t);
    lemma2_to64();
    if tree_height(t) >= 130 {
        lemma_pow2_monotone(65, tree_height(t) / 2);
        lemma_pow2_unfold(65);
    }
}

/// The search-tree order, node by node: no key of a node's left subtree
/// comes after the node's key, and no key of its right subtree before it.
pub open spec fn is_search_tree<T: OrderedKey>(t: AVLTree<T>) -> bool
    decreases t,
{
    match t {
        None => true,
        Some(n) => {
            &&& is_search_tree(n.left)
            &&& is_search_tree(n.right)
            &&& all_up_to(tree_keys(n.left), n.key)
            &&& all_from(tree_keys(n.right), n.key)
        },
    }
}

/// A subtree is in search-tree order at every node exactly when its keys,
/// read in order, never decrease.
pub proof fn lemma_search_tree_is_sorted<T: OrderedKey>(t: AVLTree<T>)
    ensures
        is_search_tree(t) <==> sorted(tree_keys(t)),
    decreases t,
{
    match t {
        None => {},
        Some(n) => {
            lemma_search_tree_is_sorted(n.left);
            lemma_search_tree_is_sorted(n.right);
            lemma_sorted_join(tree_keys(n.left), n.key, tree_keys(n.right));
        },
    }
}

/// A tree that has had keys put in and then each of them taken out again,
/// in any order, is empty, and its height is 0.
pub proof fn lemma_round_trip_empties<T: OrderedKey>(tree: AVLTreeStructure<T>, keys: Seq<T>, order: Seq<T>)
    requires
        order.to_multiset() == keys.to_multiset(),
        tree@ == remove_all(insert_all(Seq::<T>::empty(), keys), order),
    ensures
        tree.root.is_none(),
        tree_height(tree.root) == 0,
{
    lemma_round_trip(keys, order);
    lemma_no_keys_no_nodes(tree.root);
}

} // verus!
