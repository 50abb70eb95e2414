use constant_size_dfs::nary_tree::Tree;
use constant_size_dfs::tagged_ptr::TaggedPtr;

fn preorder_values<const N: usize>(tree: &mut Tree<u8, N>) -> Vec<u8> {
    let mut it = tree.dfs_iter_mut();
    let mut out = Vec::new();
    while let Some(h) = it.next(tree) {
        out.push(*tree.value(h));
    }
    out
}

fn check_arbitrary<const N: usize>(data: &[u8]) {
    let (mut tree, expected) = Tree::<u8, N>::arbitrary(data);
    let actual = preorder_values(&mut tree);
    assert_eq!(expected, actual);
}

#[test]
fn arbitrary_matches_traversal() {
    let data: Vec<u8> = (0u8..=255).cycle().take(300).collect();
    check_arbitrary::<2>(&data);
    check_arbitrary::<3>(&data);
    check_arbitrary::<4>(&data);
    check_arbitrary::<5>(&data);
    check_arbitrary::<6>(&data);
    check_arbitrary::<7>(&data);
    check_arbitrary::<8>(&data);
}

#[test]
fn arbitrary_empty_and_tiny() {
    check_arbitrary::<2>(&[]);
    check_arbitrary::<2>(&[7]);
    check_arbitrary::<3>(&[1, 2]);
    check_arbitrary::<8>(&[9, 0, 0, 0]);
}

#[test]
fn arbitrary_reiterate() {
    let data: Vec<u8> = (0u8..200).map(|b| b.wrapping_mul(37).wrapping_add(11)).collect();
    let (mut tree, expected) = Tree::<u8, 3>::arbitrary(&data);
    let first = preorder_values(&mut tree);
    let second = preorder_values(&mut tree);
    assert_eq!(expected, first);
    assert_eq!(expected, second);
}

#[test]
fn arbitrary_halt_then_retraverse() {
    let data: Vec<u8> = (0u8..150).map(|b| b.wrapping_mul(91).wrapping_add(3)).collect();
    let (mut tree, expected) = Tree::<u8, 4>::arbitrary(&data);
    assert!(!expected.is_empty());
    for halt_after in [0usize, 1, 2, expected.len() / 2, expected.len() - 1] {
        let mut iter = tree.dfs_iter_mut();
        let mut halted_at = None;
        for step in 0..=halt_after {
            let h = iter.next(&mut tree).expect("prefix yield");
            if step == halt_after {
                halted_at = Some(*tree.value(h));
            }
        }
        iter.finish(&mut tree);
        assert_eq!(Some(expected[halt_after]), halted_at);
        assert_eq!(expected, preorder_values(&mut tree));
    }
}

#[test]
fn arbitrary_is_deterministic() {
    let data: Vec<u8> = (0u8..120).map(|b| b.wrapping_mul(53)).collect();
    let (_, first) = Tree::<u8, 5>::arbitrary(&data);
    let (_, second) = Tree::<u8, 5>::arbitrary(&data);
    assert_eq!(first, second);
}

#[test]
fn tagged_ptr_ops() {
    let p = TaggedPtr::from_untagged(Some(6));
    assert!(!p.is_seen());
    assert_eq!(Some(6), p.as_untagged());
    let q = p.seen();
    assert!(q.is_seen());
    assert_eq!(Some(6), q.as_untagged());
    let r = q.unseen();
    assert!(!r.is_seen());
    assert_eq!(Some(6), r.as_untagged());
    let n = TaggedPtr::from_untagged(None);
    assert_eq!(None, n.as_untagged());
    assert!(n.seen().is_seen());
    assert_eq!(None, n.seen().as_untagged());
}

#[test]
fn arbitrary_roots_at_first_byte() {
    for first in [0u8, 7, 255] {
        let data = [first, 1, 2, 3, 4, 5, 6, 7, 8, 9];
        let (tree, values) = Tree::<u8, 3>::arbitrary(&data);
        assert_eq!(first, values[0]);
        assert!(values.len() <= data.len());
        assert!(tree.destroy().len() >= 1);
    }
    let (tree, values) = Tree::<u8, 2>::arbitrary(&[]);
    assert!(values.is_empty());
    assert_eq!(0, tree.destroy().len());
}
