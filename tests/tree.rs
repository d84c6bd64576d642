use bstree::{BSTNode, BSTree};

fn inorder(node: &BSTNode<i32>, out: &mut Vec<i32>) {
    if let Some(less) = &node.less {
        inorder(less, out);
    }
    for _ in 0..node.data_count {
        out.push(node.data);
    }
    if let Some(more) = &node.more {
        inorder(more, out);
    }
}

fn shape(node: &BSTNode<i32>) -> String {
    let less = match &node.less {
        Some(n) => shape(n),
        None => String::new(),
    };
    let more = match &node.more {
        Some(n) => shape(n),
        None => String::new(),
    };
    format!("({} {} {})", less, node.data, more)
}

#[test]
fn level_one_insertion() {
    let mut tree = BSTree::new(1);
    tree.insert(2);
    assert_eq!(tree.root.more().data, 2);
    tree.insert(0);
    assert_eq!(tree.root.less().data, 0);
}

#[test]
fn level_two_insertion() {
    let mut tree = BSTree::new(2);
    tree.insert(1);
    tree.insert(3);

    tree.insert(4);
    tree.insert(0);

    assert_eq!(tree.root.more().more().data, 4);
    assert_eq!(tree.root.less().less().data, 0);
}

#[test]
fn level_one_removal() {
    let mut tree = BSTree::new(2);
    tree.insert(1);
    tree.insert(3);

    assert_eq!(tree.root.more().data, 3);
    assert_eq!(tree.root.less().data, 1);

    tree.remove(1);
    tree.remove(3);

    assert_eq!(tree.root.more, None);
    assert_eq!(tree.root.less, None);
}

#[test]
fn level_two_removal() {
    let mut tree = BSTree::new(3);

    tree.insert_multiple(vec![1, 2, 4, 5]);
    tree.remove(5);
    tree.remove(2);
    assert_eq!(tree.depth(), 2)
}

#[test]
fn depth() {
    let mut tree = BSTree::new(2);

    assert_eq!(tree.depth(), 1);

    tree.insert(1);
    tree.insert(3);

    assert_eq!(tree.depth(), 2);

    tree.insert(4);

    assert_eq!(tree.depth(), 3)
}

#[test]
fn inorder_is_nondecreasing_with_duplicates() {
    let mut tree = BSTree::new(5);
    tree.insert_multiple(vec![3, 8, 3, -1, 9, 5, 7, 0, 8, 8]);
    let mut out = Vec::new();
    inorder(&tree.root, &mut out);
    assert_eq!(out, vec![-1, 0, 3, 3, 5, 5, 7, 8, 8, 8, 9]);
}

#[test]
fn duplicate_insert_keeps_shape_and_bumps_count() {
    let mut tree = BSTree::new(4);
    tree.insert_multiple(vec![2, 6, 1, 3]);
    let before = shape(&tree.root);
    tree.insert(3);
    assert_eq!(shape(&tree.root), before);
    assert_eq!(tree.root.less().more().data, 3);
    assert_eq!(tree.root.less().more().data_count, 2);
    tree.insert(4);
    assert_eq!(shape(&tree.root), before);
    assert_eq!(tree.root.data_count, 2);
    assert_eq!(tree.root.less().data_count, 1);
}

#[test]
fn new_tree_has_one_level() {
    let tree = BSTree::new(-7);
    assert_eq!(tree.depth(), 1);
    assert_eq!(tree.root.data, -7);
    assert_eq!(tree.root.data_count, 1);
    assert_eq!(tree.root.less, None);
    assert_eq!(tree.root.more, None);
}

#[test]
fn removing_absent_value_changes_nothing() {
    let mut tree = BSTree::new(10);
    tree.insert_multiple(vec![5, 15, 12, 5]);
    let mut same = BSTree::new(10);
    same.insert_multiple(vec![5, 15, 12, 5]);
    tree.remove(7);
    tree.remove(20);
    tree.remove(13);
    assert_eq!(tree.root, same.root);
}

#[test]
fn removing_a_repeated_value_lowers_its_count() {
    let mut tree = BSTree::new(10);
    tree.insert_multiple(vec![5, 5, 5, 15]);
    tree.remove(5);
    assert_eq!(tree.root.less().data, 5);
    assert_eq!(tree.root.less().data_count, 2);
    tree.remove(5);
    assert_eq!(tree.root.less().data_count, 1);
    tree.remove(5);
    assert_eq!(tree.root.less, None);
    assert_eq!(tree.root.more().data, 15);
}

#[test]
fn removing_a_node_counted_once_drops_its_subtree() {
    let mut tree = BSTree::new(10);
    tree.insert_multiple(vec![5, 3, 7, 6, 15]);
    assert_eq!(tree.depth(), 4);
    tree.remove(5);
    assert_eq!(tree.root.less, None);
    assert_eq!(tree.root.more().data, 15);
    assert_eq!(tree.depth(), 2);
}

#[test]
fn removing_the_root_value_counted_twice_lowers_its_count() {
    let mut tree = BSTree::new(10);
    tree.insert(10);
    tree.insert(4);
    tree.remove(10);
    assert_eq!(tree.root.data, 10);
    assert_eq!(tree.root.data_count, 1);
    assert_eq!(tree.root.less().data, 4);
}

#[test]
fn depth_of_a_chain() {
    let mut tree = BSTree::new(0);
    tree.insert_multiple(vec![1, 2, 3, 4, 5, 6]);
    assert_eq!(tree.depth(), 7);
    let mut down = BSTree::new(0);
    down.insert_multiple(vec![-1, -2, -3]);
    assert_eq!(down.depth(), 4);
}

#[test]
fn node_level_operations() {
    let mut node = *BSTNode::new_boxed(8);
    assert_eq!(node.data_count, 1);
    assert_eq!(node.depth(), 1);
    node.insert(4);
    node.insert(12);
    node.insert(2);
    assert_eq!(node.depth(), 3);
    node.remove(4);
    assert_eq!(node.less, None);
    assert_eq!(node.depth(), 2);
}

#[test]
fn insert_multiple_with_empty_values() {
    let mut tree = BSTree::new(1);
    tree.insert_multiple(Vec::new());
    assert_eq!(tree.root.data_count, 1);
    assert_eq!(tree.depth(), 1);
}

#[test]
fn works_with_wide_integers() {
    let mut tree: BSTree<u64> = BSTree::new(u64::MAX / 2);
    tree.insert_multiple(vec![0, u64::MAX, u64::MAX]);
    assert_eq!(tree.root.less().data, 0);
    assert_eq!(tree.root.more().data, u64::MAX);
    assert_eq!(tree.root.more().data_count, 2);
    let mut signed: BSTree<i64> = BSTree::new(0);
    signed.insert(i64::MIN);
    signed.insert(i64::MAX);
    assert_eq!(signed.depth(), 2);
}

#[test]
fn five_insertions_seeded_with_two() {
    let mut tree = BSTree::new(2);
    tree.insert_multiple(vec![2, 1, 3, 4, 0]);
    assert_eq!(tree.root.more().more().data, 4);
    assert_eq!(tree.root.less().less().data, 0);
    assert_eq!(tree.depth(), 3);
    assert_eq!(tree.root.data_count, 2);
}

#[test]
fn removing_both_children_leaves_a_bare_root() {
    let mut tree = BSTree::new(2);
    tree.insert(1);
    tree.insert(3);
    tree.remove(1);
    tree.remove(3);
    assert_eq!(tree.root.data, 2);
    assert_eq!(tree.root.data_count, 1);
    assert_eq!(tree.root.less, None);
    assert_eq!(tree.root.more, None);
    assert_eq!(tree.depth(), 1);
}
