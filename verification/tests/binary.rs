use constant_size_dfs::binary_tree::{DfsIterMut, Node, Tree};

fn leaf<T>(val: T) -> Option<Box<Node<T>>> {
    Some(Node::boxed(val, None, None))
}

fn node<T>(val: T, left: Option<Box<Node<T>>>, right: Option<Box<Node<T>>>) -> Option<Box<Node<T>>> {
    Some(Node::boxed(val, left, right))
}

fn preorder_values<T: Clone>(tree: &mut Tree<T>) -> Vec<T> {
    let mut it: DfsIterMut<T> = tree.dfs_iter_mut();
    let mut out = Vec::new();
    while let Some(h) = it.next(tree) {
        out.push(tree.value(h).clone());
    }
    out
}

fn order_values<T: Clone, const R: usize>(tree: &mut Tree<T>) -> Vec<T> {
    let mut it = tree.node_iter::<R>();
    let mut out = Vec::new();
    while let Some(h) = it.next(tree) {
        out.push(tree.value(h).clone());
    }
    out
}

fn assert_dfs_valid<T: Clone + std::fmt::Debug + PartialEq>(expected: Vec<T>, root: Option<Box<Node<T>>>) {
    let mut tree = Tree::new(root);
    let actual = preorder_values(&mut tree);
    assert_eq!(expected, actual);
}

fn basic_root() -> Option<Box<Node<i32>>> {
    node(0, node(1, leaf(2), None), node(3, leaf(4), leaf(5)))
}

#[test]
fn binary_tree_empty() {
    assert_dfs_valid::<i32>(vec![], None);
}

#[test]
fn binary_tree_one() {
    assert_dfs_valid(vec![0], leaf(0));
}

#[test]
fn binary_tree_two() {
    assert_dfs_valid(vec![0, 1], node(0, leaf(1), None));
}

#[test]
fn binary_tree_basic() {
    assert_dfs_valid(vec![0, 1, 2, 3, 4, 5], basic_root());
}

#[test]
fn binary_three_orders() {
    let mut tree = Tree::new(basic_root());
    assert_eq!(vec![0, 1, 2, 3, 4, 5], order_values::<_, 0>(&mut tree));
    assert_eq!(vec![2, 1, 0, 4, 3, 5], order_values::<_, 1>(&mut tree));
    assert_eq!(vec![2, 1, 4, 5, 3, 0], order_values::<_, 2>(&mut tree));
}

#[test]
fn binary_single_leaf_all_orders() {
    let mut tree = Tree::new(leaf('X'));
    assert_eq!(vec!['X'], order_values::<_, 0>(&mut tree));
    assert_eq!(vec!['X'], order_values::<_, 1>(&mut tree));
    assert_eq!(vec!['X'], order_values::<_, 2>(&mut tree));
}

#[test]
fn binary_empty_all_orders() {
    let mut tree: Tree<i32> = Tree::new(None);
    assert_eq!(0, order_values::<_, 0>(&mut tree).len());
    assert_eq!(0, order_values::<_, 1>(&mut tree).len());
    assert_eq!(0, order_values::<_, 2>(&mut tree).len());
    assert_eq!(0, tree.destroy().len());
}

#[test]
fn binary_halt_then_retraverse() {
    let mut tree = Tree::new(basic_root());
    let mut iter = tree.dfs_iter_mut();
    let mut seen = Vec::new();
    for _ in 0..3 {
        let h = iter.next(&mut tree).expect("prefix yield");
        seen.push(*tree.value(h));
    }
    assert_eq!(vec![0, 1, 2], seen);
    iter.finish(&mut tree);
    assert_eq!(vec![0, 1, 2, 3, 4, 5], preorder_values(&mut tree));
}

#[test]
fn binary_retraverse_is_identical() {
    let mut tree = Tree::new(basic_root());
    let first = preorder_values(&mut tree);
    let second = preorder_values(&mut tree);
    assert_eq!(first, second);
}

#[test]
fn binary_destroy_postorder() {
    let tree = Tree::new(basic_root());
    assert_eq!(vec![2, 1, 4, 5, 3, 0], tree.destroy());
}
