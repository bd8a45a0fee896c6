use puzzles::bst::Node;
use puzzles::bst::Order;
use puzzles::bst::Tree;

fn tree_of(values: &[i32]) -> Tree {
    let mut tree = Tree::new();
    for v in values {
        tree.insert(*v);
    }
    tree
}

#[test]
fn traversals_of_a_small_tree() {
    let tree = tree_of(&[5, 3, 8, 1, 4]);
    assert_eq!(tree.order(&Order::Pre), vec![5, 3, 1, 4, 8]);
    assert_eq!(tree.order(&Order::In), vec![1, 3, 4, 5, 8]);
    assert_eq!(tree.order(&Order::Post), vec![1, 4, 3, 8, 5]);
    assert_eq!(tree.order(&Order::Level), vec![5, 3, 8, 1, 4]);
}

#[test]
fn empty_tree_traversals_are_empty() {
    let tree = Tree::new();
    assert_eq!(tree.order(&Order::Pre), Vec::<i32>::new());
    assert_eq!(tree.order(&Order::Level), Vec::<i32>::new());
}

#[test]
fn duplicates_go_right() {
    let tree = tree_of(&[2, 2, 1]);
    assert_eq!(tree.order(&Order::In), vec![1, 2, 2]);
    assert_eq!(tree.order(&Order::Level), vec![2, 1, 2]);
}

#[test]
fn node_insert_routes_by_comparison() {
    let mut node = Node::new(10);
    node.insert(4);
    node.insert(12);
    assert_eq!(node.left.order(&Order::In), vec![4]);
    assert_eq!(node.right.order(&Order::In), vec![12]);
}
