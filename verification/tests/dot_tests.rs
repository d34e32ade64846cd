use balanced_trees::avl::{AVLTreeNode, AVLTreeStructure};
use balanced_trees::dot::{DotNodeColor, Dotfile};
use balanced_trees::key::OrderedKey;
use balanced_trees::rbt::{NodeColor, RedBlackTreeStructure, TreeNode};
use balanced_trees::text::{decimal_string, push_decimal, signed_decimal_string};

#[test]
fn dot_empty_description() {
    let file = Dotfile::new("./tree.dot");
    assert_eq!(file.file_name(), "./tree.dot");
    assert_eq!(file.node_count(), 0);
    assert_eq!(file.edge_count(), 0);
    assert_eq!(file.render(), "graph {\n}\n");
}

#[test]
fn dot_nodes_are_numbered_in_order() {
    let mut file = Dotfile::new("out.dot");
    assert_eq!(file.add_node("a", DotNodeColor::Red), 0);
    assert_eq!(file.add_node("b", DotNodeColor::Black), 1);
    assert_eq!(file.add_node("c", DotNodeColor::Green), 2);
    assert_eq!(file.node_count(), 3);
    file.add_edge(0, 1);
    file.add_edge(0, 2);
    assert_eq!(file.edge_count(), 2);
    assert_eq!(file.file_name(), "out.dot");
}

#[test]
fn dot_render_writes_nodes_then_edges() {
    let mut file = Dotfile::new("out.dot");
    file.add_node("a", DotNodeColor::Red);
    file.add_node("None", DotNodeColor::Black);
    file.add_node("12", DotNodeColor::Green);
    file.add_edge(0, 1);
    file.add_edge(2, 0);
    let expected = "graph {\n\
        \t 0 [label=\"a\", color=red, style=filled, fontcolor=white];\n\
        \t 1 [label=\"None\", color=black, style=filled, fontcolor=white];\n\
        \t 2 [label=\"12\", color=darkgreen, style=filled, fontcolor=white];\n\
        \t 0 -- 1;\n\
        \t 2 -- 0;\n\
        }\n";
    assert_eq!(file.render(), expected);
}

#[test]
fn dot_render_numbers_past_nine() {
    let mut file = Dotfile::new("out.dot");
    for _ in 0..11 {
        file.add_node("x", DotNodeColor::Green);
    }
    file.add_edge(10, 9);
    let text = file.render();
    assert!(text.contains("\t 10 [label=\"x\", color=darkgreen, style=filled, fontcolor=white];\n"));
    assert!(text.ends_with("\t 10 -- 9;\n}\n"));
}

#[test]
fn dot_draws_avl_tree() {
    let mut tree: AVLTreeStructure<i32> = AVLTreeStructure::new();
    tree.insert(2);
    tree.insert(-1);
    tree.insert(3);
    let mut file = Dotfile::new("avl.dot");
    tree.draw_tree(&mut file);
    assert_eq!(file.node_count(), 7);
    assert_eq!(file.edge_count(), 6);
    let expected = "graph {\n\
        \t 0 [label=\"2\", color=darkgreen, style=filled, fontcolor=white];\n\
        \t 1 [label=\"-1\", color=darkgreen, style=filled, fontcolor=white];\n\
        \t 2 [label=\"None\", color=darkgreen, style=filled, fontcolor=white];\n\
        \t 3 [label=\"None\", color=darkgreen, style=filled, fontcolor=white];\n\
        \t 4 [label=\"3\", color=darkgreen, style=filled, fontcolor=white];\n\
        \t 5 [label=\"None\", color=darkgreen, style=filled, fontcolor=white];\n\
        \t 6 [label=\"None\", color=darkgreen, style=filled, fontcolor=white];\n\
        \t 0 -- 1;\n\
        \t 1 -- 2;\n\
        \t 1 -- 3;\n\
        \t 0 -- 4;\n\
        \t 4 -- 5;\n\
        \t 4 -- 6;\n\
        }\n";
    assert_eq!(file.render(), expected);
}

#[test]
fn dot_draws_red_black_tree_in_its_colours() {
    let mut tree: RedBlackTreeStructure<u32> = RedBlackTreeStructure::new();
    tree.insert(5);
    tree.insert(9);
    let mut file = Dotfile::new("rbt.dot");
    tree.draw_tree(&mut file);
    let expected = "graph {\n\
        \t 0 [label=\"5\", color=black, style=filled, fontcolor=white];\n\
        \t 1 [label=\"None\", color=black, style=filled, fontcolor=white];\n\
        \t 2 [label=\"9\", color=red, style=filled, fontcolor=white];\n\
        \t 3 [label=\"None\", color=black, style=filled, fontcolor=white];\n\
        \t 4 [label=\"None\", color=black, style=filled, fontcolor=white];\n\
        \t 0 -- 1;\n\
        \t 0 -- 2;\n\
        \t 2 -- 3;\n\
        \t 2 -- 4;\n\
        }\n";
    assert_eq!(file.render(), expected);
}

#[test]
fn dot_drawing_goes_behind_what_is_there() {
    let mut tree: AVLTreeStructure<i32> = AVLTreeStructure::new();
    tree.insert(1);
    let mut file = Dotfile::new("two.dot");
    file.add_node("first", DotNodeColor::Red);
    tree.draw_tree(&mut file);
    assert_eq!(file.node_count(), 4);
    let text = file.render();
    assert!(text.contains("\t 1 [label=\"1\", color=darkgreen"));
    assert!(text.ends_with("\t 1 -- 2;\n\t 1 -- 3;\n}\n"));
}

#[test]
fn dot_draws_below_a_node_drawn_earlier() {
    let mut tree: AVLTreeStructure<i32> = AVLTreeStructure::new();
    tree.insert(1);
    let mut file = Dotfile::new("below.dot");
    let root = file.add_node("root", DotNodeColor::Red);
    file.add_node("other", DotNodeColor::Red);
    AVLTreeNode::draw_node(&tree.root, &mut file, Some(root));
    assert_eq!(file.node_count(), 4);
    assert!(file.render().ends_with("\t 0 -- 2;\n\t 0 -- 3;\n}\n"));
}

#[test]
fn dot_empty_tree_draws_nothing() {
    let avl: AVLTreeStructure<i32> = AVLTreeStructure::new();
    let rbt: RedBlackTreeStructure<i32> = RedBlackTreeStructure::new();
    let mut file = Dotfile::new("none.dot");
    avl.draw_tree(&mut file);
    rbt.draw_tree(&mut file);
    assert_eq!(file.node_count(), 0);
    assert_eq!(file.edge_count(), 0);
    assert_eq!(file.render(), "graph {\n}\n");
}

#[test]
fn dot_colour_of_a_tree_node() {
    assert_eq!(TreeNode::<i32>::get_dot_color(NodeColor::Red), DotNodeColor::Red);
    assert_eq!(TreeNode::<i32>::get_dot_color(NodeColor::Black), DotNodeColor::Black);
}

#[test]
fn text_decimal_digits() {
    assert_eq!(decimal_string(0), "0");
    assert_eq!(decimal_string(7), "7");
    assert_eq!(decimal_string(10), "10");
    assert_eq!(decimal_string(1234567890), "1234567890");
    assert_eq!(decimal_string(u64::MAX), "18446744073709551615");
}

#[test]
fn text_signed_decimal_digits() {
    assert_eq!(signed_decimal_string(0), "0");
    assert_eq!(signed_decimal_string(-1), "-1");
    assert_eq!(signed_decimal_string(305), "305");
    assert_eq!(signed_decimal_string(i64::MAX), "9223372036854775807");
    assert_eq!(signed_decimal_string(i64::MIN), "-9223372036854775808");
}

#[test]
fn text_push_decimal_appends() {
    let mut out = String::from("n=");
    push_decimal(&mut out, 42);
    push_decimal(&mut out, 0);
    assert_eq!(out, "n=420");
}

#[test]
fn key_labels_and_order() {
    assert_eq!((-42i32).to_label(), "-42");
    assert_eq!(i32::MIN.to_label(), "-2147483648");
    assert_eq!(17u32.to_label(), "17");
    assert_eq!(u64::MAX.to_label(), "18446744073709551615");
    assert_eq!(i64::MIN.to_label(), "-9223372036854775808");
    assert_eq!(0usize.to_label(), "0");
    assert!(OrderedKey::less(&-3i32, &2));
    assert!(!OrderedKey::less(&2i32, &2));
    assert!(!OrderedKey::less(&5u64, &2));
    assert!(OrderedKey::less(&i64::MIN, &i64::MAX));
}
