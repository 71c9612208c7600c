use musig_tree::bintree::BinTree;
use musig_tree::error::ProtocolError;

fn add(x: &u32, y: &u32) -> Result<u32, ()> {
    Ok(x.saturating_add(*y))
}

// Collect leaf values left-to-right.
fn collect_leaves<T: Copy>(t: &BinTree<T>, out: &mut Vec<T>) {
    match t {
        BinTree::Leaf(v) => out.push(*v),
        BinTree::Node { left, right, value: _ } => {
            collect_leaves(left, out);
            if let Some(r) = right {
                collect_leaves(r, out);
            }
        }
    }
}

#[test]
fn from_vec_empty_is_rejected() {
    let r: Result<BinTree<u32>, ProtocolError<()>> = BinTree::from_vec(vec![], add);
    assert!(matches!(r, Err(ProtocolError::EmptyInput)));
}

#[test]
fn from_vec_single_leaf_is_leaf() {
    let t = BinTree::from_vec(vec![42u32], add).unwrap();
    match &t {
        BinTree::Leaf(v) => assert_eq!(*v, 42),
        BinTree::Node { .. } => panic!("expected Leaf"),
    }
    assert_eq!(t.leaf_count(), 1);
    assert_eq!(t.height(), 1);
}

#[test]
fn from_vec_leaf_count_matches_input_len_small() {
    let t = BinTree::from_vec(vec![1u32, 2, 3, 4, 5], add).unwrap();
    assert_eq!(t.leaf_count(), 5);
}

#[test]
fn from_vec_preserves_leaf_multiset_small() {
    let input = vec![5u32, 1, 5, 9, 1, 2];
    let t = BinTree::from_vec(input.clone(), add).unwrap();

    let mut got = Vec::new();
    collect_leaves(&t, &mut got);

    let mut a = input;
    let mut b = got;
    a.sort_unstable();
    b.sort_unstable();
    assert_eq!(a, b);
}

// For powers of two, this construction is perfectly balanced:
// height = log2(n) + 1 (counting the leaf level as height 1).
#[test]
fn from_vec_power_of_two_height_is_log2_plus_one() {
    for &n in &[1usize, 2, 4, 8, 16, 32] {
        let input: Vec<u32> = (0..n as u32).collect();
        let t = BinTree::from_vec(input, add).unwrap();
        let expected = n.trailing_zeros() as usize + 1;
        assert_eq!(t.height(), expected);
        assert_eq!(t.leaf_count(), n);
    }
}

#[test]
fn from_vec_preserves_leaf_order() {
    let input = vec![9u32, 3, 7, 7, 1, 0, 4];
    let t = BinTree::from_vec(input.clone(), add).unwrap();
    let mut got = Vec::new();
    collect_leaves(&t, &mut got);
    assert_eq!(got, input);
}

#[test]
fn from_vec_height_within_bounds() {
    for n in 1usize..=33 {
        let input: Vec<u32> = (0..n as u32).collect();
        let t = BinTree::from_vec(input, add).unwrap();
        let h = t.height();
        assert!(h >= 1);
        assert!(h <= n);
    }
}

#[test]
fn from_vec_internal_values_are_combined() {
    // [1, 2, 3, 4]: pairs (1,2) and (3,4), then the root combines both sums.
    let t = BinTree::from_vec(vec![1u32, 2, 3, 4], add).unwrap();
    assert_eq!(*t.value(), 10);
    match &t {
        BinTree::Node { left, right, value: _ } => {
            assert_eq!(*left.value(), 3);
            let r = right.as_ref().expect("root must own both children");
            assert_eq!(*r.value(), 7);
        }
        BinTree::Leaf(_) => panic!("expected Node"),
    }
}

#[test]
fn from_vec_combine_failure_aborts() {
    fn bad(_x: &u32, _y: &u32) -> Result<u32, &'static str> {
        Err("combine refused")
    }
    let r = BinTree::from_vec(vec![1u32, 2], bad);
    assert!(matches!(r, Err(ProtocolError::PrimitiveFailure("combine refused"))));
    // A single leaf needs no combining, so the same capability succeeds.
    let single = BinTree::from_vec(vec![1u32], bad).unwrap();
    assert!(single.is_leaf());
    assert!(!single.is_node());
}

#[test]
fn leaf_and_node_constructors() {
    let l = BinTree::leaf(5u32);
    assert!(l.is_leaf());
    assert_eq!(*l.value(), 5);
    let n = BinTree::node(BinTree::leaf(1u32), BinTree::leaf(2u32), 3u32);
    assert!(n.is_node());
    assert_eq!(*n.value(), 3);
    assert_eq!(n.height(), 2);
    assert_eq!(n.leaf_count(), 2);
}
