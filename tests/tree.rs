use moonlander_gp::tree::{
    clone_or_replace, depth, depth_of, find_nodes_and_parents, replace_to_root, Node, NodeInTree,
};
use std::sync::Arc;

fn leaf(n: u32) -> Arc<Node> {
    Arc::new(Node { kind: 0, label: 0, data: n, children: vec![] })
}

fn one(n: u32, x: Arc<Node>) -> Arc<Node> {
    Arc::new(Node { kind: 0, label: 1, data: n, children: vec![x] })
}

fn two(n: u32, x: Arc<Node>, y: Arc<Node>) -> Arc<Node> {
    Arc::new(Node { kind: 0, label: 2, data: n, children: vec![x, y] })
}

fn expect_node(value: u32, rec: &NodeInTree) {
    assert_eq!(1, rec.node.label);
    assert_eq!(value, rec.node.data);
}

fn parent(rec: &NodeInTree) -> &NodeInTree {
    rec.root_path.as_ref().unwrap()
}

#[test]
fn test_find_parents() {
    let tree = one(0, one(1, one(2, leaf(3))));

    let results = find_nodes_and_parents(&tree);

    expect_node(0, &results[0]);
    assert!(results[0].root_path.is_none());

    expect_node(1, &results[1]);
    expect_node(0, parent(&results[1]));

    expect_node(2, &results[2]);
    expect_node(1, parent(&results[2]));
    expect_node(0, parent(parent(&results[2])));
}

#[test]
fn test_replace_child() {
    let tree = two(0, leaf(1), leaf(2));

    let new_tree = tree.replace_child(1, leaf(3));

    assert_eq!(*two(0, leaf(1), leaf(3)), new_tree);
}

#[test]
fn test_depth() {
    let tree = two(0, leaf(1), leaf(2));

    assert_eq!(2, depth(&tree));
}

#[test]
fn impl_astnode_test_children() {
    let node = two(0, leaf(1), leaf(2));
    assert_eq!(2, node.num_children());
}

#[test]
fn node_gen_test_children() {
    let node = Node { kind: 666, label: 1, data: 0, children: vec![leaf(0), leaf(0)] };
    assert_eq!(2, node.children.len());
    assert_eq!(666, node.node_type());
}

#[test]
fn copy_data() {
    let node = leaf(1);

    // Not the child being replaced: it is kept as it is, and the replacement
    // stays unused.
    let mut replacement = Some(leaf(2));
    let new_node = clone_or_replace(&node, 0, 1, &mut replacement);
    assert_eq!(node, new_node);
    assert!(Arc::ptr_eq(&node, &new_node));
    assert!(replacement.is_some());
}

#[test]
fn clone_or_replace_takes_replacement_once() {
    let node = leaf(1);
    let mut replacement = Some(leaf(2));
    let new_node = clone_or_replace(&node, 1, 1, &mut replacement);
    assert_eq!(2, new_node.data);
    assert!(replacement.is_none());
}

#[test]
fn depth_of_leaf_and_deep_tree() {
    assert_eq!(1, depth(&leaf(7)));
    let tree = two(0, one(1, one(2, leaf(3))), leaf(4));
    assert_eq!(4, depth(&tree));
}

#[test]
fn depth_is_one_more_than_deepest_child() {
    let left = one(1, one(2, leaf(3)));
    let right = two(4, leaf(5), leaf(6));
    let tree = two(0, left.clone(), right.clone());
    assert_eq!(1 + std::cmp::max(depth(&left), depth(&right)), depth(&tree));
}

#[test]
fn traversal_is_preorder_and_complete() {
    let tree = two(0, two(1, leaf(2), leaf(3)), leaf(4));
    let results = find_nodes_and_parents(&tree);
    let data: Vec<u32> = results.iter().map(|r| r.node.data).collect();
    assert_eq!(vec![0, 1, 2, 3, 4], data);
    let depths: Vec<usize> = results.iter().map(|r| depth_of(r)).collect();
    assert_eq!(vec![0, 1, 2, 2, 1], depths);
    let positions: Vec<usize> = results.iter().map(|r| r.position).collect();
    assert_eq!(vec![0, 0, 0, 1, 1], positions);
}

#[test]
fn replace_to_root_shares_off_path_subtrees() {
    let off_left = two(10, leaf(11), leaf(12));
    let sibling = leaf(3);
    let tree = two(0, off_left.clone(), two(1, sibling.clone(), leaf(2)));
    let results = find_nodes_and_parents(&tree);
    // Pre-order: 0, 10, 11, 12, 1, 3, 2: the node holding 2 is the last one.
    let target = &results[6];
    assert_eq!(2, target.node.data);

    let rebuilt = replace_to_root(target, leaf(99));

    assert!(Arc::ptr_eq(&rebuilt.children[0], &off_left));
    assert!(Arc::ptr_eq(&rebuilt.children[1].children[0], &sibling));
    assert_eq!(99, rebuilt.children[1].children[1].data);
    assert_eq!(*two(0, off_left, two(1, sibling, leaf(99))), *rebuilt);
    // The input tree is left as it was.
    assert_eq!(2, tree.children[1].children[1].data);
}

#[test]
fn replace_to_root_at_root_gives_new_tree() {
    let tree = two(0, leaf(1), leaf(2));
    let results = find_nodes_and_parents(&tree);
    let replacement = leaf(5);
    let rebuilt = replace_to_root(&results[0], replacement.clone());
    assert!(Arc::ptr_eq(&rebuilt, &replacement));
}

#[test]
fn copy_keeps_node_and_shares_children() {
    let tree = two(5, leaf(1), leaf(2));
    let c = tree.copy();
    assert_eq!(*tree, c);
    assert!(Arc::ptr_eq(&tree.children[0], &c.children[0]));
    assert!(Arc::ptr_eq(&tree.children[1], &c.children[1]));
}
