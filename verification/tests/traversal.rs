use constant_size_dfs::nary_tree::{DfsIterMut, Node, NodeIter, Tree};

fn leaf<T, const N: usize>(val: T) -> Option<Box<Node<T, N>>> {
    let mut children = Vec::new();
    for _ in 0..N {
        children.push(None);
    }
    Some(Node::boxed(val, children))
}

fn node<T, const N: usize>(val: T, children: Vec<Option<Box<Node<T, N>>>>) -> Option<Box<Node<T, N>>> {
    Some(Node::boxed(val, children))
}

fn preorder_values<T: Clone, const N: usize>(tree: &mut Tree<T, N>) -> Vec<T> {
    let mut it: DfsIterMut<T, N> = tree.dfs_iter_mut();
    let mut out = Vec::new();
    while let Some(h) = it.next(tree) {
        out.push(tree.value(h).clone());
    }
    out
}

fn assert_dfs_valid<T: Clone + std::fmt::Debug + PartialEq, const N: usize>(
    expected: Vec<T>,
    mut tree: Tree<T, N>,
) {
    let actual = preorder_values(&mut tree);
    assert_eq!(expected, actual);
}

fn basic_tree() -> Tree<i32, 2> {
    Tree::new(node(
        0,
        vec![
            node(1, vec![leaf(2), None]),
            node(3, vec![leaf(4), leaf(5)]),
        ],
    ))
}

#[test]
fn array_tree_empty() {
    assert_dfs_valid::<i32, 2>(vec![], Tree::new(None));
}

#[test]
fn array_tree_one() {
    assert_dfs_valid::<_, 2>(vec![0], Tree::new(leaf(0)));
}

#[test]
fn array_tree_two() {
    assert_dfs_valid(vec![0, 1], Tree::new(node::<_, 2>(0, vec![leaf(1), None])));
}

#[test]
fn array_tree_basic() {
    assert_dfs_valid(vec![0, 1, 2, 3, 4, 5], basic_tree());
}

#[test]
fn array_tree_nochildren() {
    assert_dfs_valid::<_, 0>(vec!["hi"], Tree::new(node("hi", vec![])));
}

#[test]
fn array_tree_linked_list() {
    let list = node::<_, 1>(0, vec![node(1, vec![node(2, vec![leaf(3)])])]);
    assert_dfs_valid(vec![0, 1, 2, 3], Tree::new(list));
}

#[test]
fn iter_fixes_tree() {
    let mut tree = basic_tree();
    let mut iter = tree.dfs_iter_mut();
    let h0 = iter.next(&mut tree).expect("first node");
    assert_eq!(0, *tree.value(h0));
    let h1 = iter.next(&mut tree).expect("second node");
    assert_eq!(1, *tree.value(h1));
    let h2 = iter.next(&mut tree).expect("third node");
    assert_eq!(2, *tree.value(h2));
    iter.finish(&mut tree);
    assert_dfs_valid(vec![0, 1, 2, 3, 4, 5], tree);
}

#[test]
fn const_generic_tree_empty() {
    assert_dfs_valid::<i32, 2>(vec![], Tree::new(None));
}

#[test]
fn const_generic_tree_one() {
    assert_dfs_valid::<_, 2>(vec![0], Tree::new(leaf(0)));
}

#[test]
fn const_generic_tree_two() {
    assert_dfs_valid(vec![0, 1], Tree::new(node::<_, 2>(0, vec![leaf(1), None])));
}

#[test]
fn const_generic_tree_basic() {
    assert_dfs_valid(vec![0, 1, 2, 3, 4, 5], basic_tree());
}

#[test]
fn const_generic_tree_nochildren() {
    assert_dfs_valid::<_, 0>(vec!["hi"], Tree::new(node("hi", vec![])));
}

#[test]
fn const_generic_tree_linked_list() {
    let list = node::<_, 1>(0, vec![node(1, vec![node(2, vec![leaf(3)])])]);
    assert_dfs_valid(vec![0, 1, 2, 3], Tree::new(list));
}

#[test]
fn retraverse_is_identical() {
    let mut tree = basic_tree();
    let first = preorder_values(&mut tree);
    let second = preorder_values(&mut tree);
    assert_eq!(first, vec![0, 1, 2, 3, 4, 5]);
    assert_eq!(first, second);
}

#[test]
fn abandon_any_prefix_then_retraverse() {
    let full = vec![0, 1, 2, 3, 4, 5];
    for k in 0..=full.len() {
        let mut tree = basic_tree();
        let mut iter = tree.dfs_iter_mut();
        for step in 0..k {
            let h = iter.next(&mut tree).expect("prefix yield");
            assert_eq!(full[step], *tree.value(h));
        }
        iter.finish(&mut tree);
        assert_eq!(full, preorder_values(&mut tree));
    }
}

#[test]
fn destroy_yields_postorder_once_each() {
    let tree = basic_tree();
    assert_eq!(vec![2, 1, 4, 5, 3, 0], tree.destroy());
}

#[test]
fn destroy_after_full_traversal() {
    let mut tree = basic_tree();
    let _ = preorder_values(&mut tree);
    let freed = tree.destroy();
    assert_eq!(6, freed.len());
    assert_eq!(vec![2, 1, 4, 5, 3, 0], freed);
}

#[test]
fn destroy_after_partial_traversal() {
    let mut tree = basic_tree();
    let mut iter = tree.dfs_iter_mut();
    let _ = iter.next(&mut tree);
    let _ = iter.next(&mut tree);
    iter.finish(&mut tree);
    assert_eq!(vec![2, 1, 4, 5, 3, 0], tree.destroy());
}

#[test]
fn destroy_empty_tree() {
    let tree: Tree<i32, 3> = Tree::new(None);
    assert_eq!(0, tree.destroy().len());
}

#[test]
fn postorder_iter_on_nary() {
    let mut tree = basic_tree();
    let mut iter: NodeIter<i32, 2, 2> = tree.node_iter::<2>();
    let mut out = Vec::new();
    while let Some(h) = iter.next(&mut tree) {
        out.push(*tree.value(h));
    }
    assert_eq!(vec![2, 1, 4, 5, 3, 0], out);
    // exhaustion restored the tree: the pre-order walk still works
    assert_eq!(vec![0, 1, 2, 3, 4, 5], preorder_values(&mut tree));
}

#[test]
fn mutate_values_through_iterator() {
    let mut tree = basic_tree();
    let mut iter = tree.dfs_iter_mut();
    while let Some(h) = iter.next(&mut tree) {
        let doubled = *tree.value(h) * 2;
        tree.set_value(h, doubled);
    }
    assert_eq!(vec![0, 2, 4, 6, 8, 10], preorder_values(&mut tree));
}

#[test]
fn wide_tree_preorder() {
    let tree: Tree<i32, 4> = Tree::new(node(
        10,
        vec![leaf(11), None, node(12, vec![leaf(13), None, None, leaf(14)]), leaf(15)],
    ));
    assert_dfs_valid(vec![10, 11, 12, 13, 14, 15], tree);
}

#[test]
fn mid_order_iter_on_nary() {
    let mut tree = basic_tree();
    let mut iter: NodeIter<i32, 2, 1> = tree.node_iter::<1>();
    let mut out = Vec::new();
    while let Some(h) = iter.next(&mut tree) {
        out.push(*tree.value(h));
    }
    assert_eq!(vec![2, 1, 0, 4, 3, 5], out);
}
