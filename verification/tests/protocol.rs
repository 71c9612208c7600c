use musig_tree::bintree::BinTree;
use musig_tree::error::ProtocolError;
use musig_tree::rounds::{round1, round2, root_signature};
use musig_tree::store::{NodeState, StateStore};

// A model pairwise-signing capability over u64 values, linear on purpose so
// that verification has an exact algebraic meaning: a public key equals its
// secret key, keys aggregate by wrapping addition, and a partial signature
// is the secret key times an odd message digest. The aggregated signature
// over the whole tree then equals root_key * digest exactly when every leaf
// signed the same message with the secret key matching its public key.

fn eq_u64(a: &u64, b: &u64) -> bool {
    *a == *b
}

fn dup_u64(a: &u64) -> u64 {
    *a
}

fn key_agg(a: &u64, b: &u64) -> Result<u64, ()> {
    Ok(a.wrapping_add(*b))
}

fn begin_r1(_participants: usize) -> Result<(u64, u64), ()> {
    Ok((7, 1))
}

fn agg_r1(a: &u64, b: &u64) -> Result<u64, ()> {
    Ok(a.wrapping_add(*b))
}

fn ext_r1(out: &u64, tweak: &u64) -> Result<u64, ()> {
    Ok(out.wrapping_mul(31).wrapping_add(*tweak))
}

fn digest(m: u64) -> u64 {
    m.wrapping_mul(2).wrapping_add(1)
}

fn sign_r2(
    state: &u64,
    _outs: &Vec<u64>,
    sk: &u64,
    m: &u64,
    _path: &Vec<Vec<u64>>,
) -> Result<(u64, u64), ()> {
    Ok((*state, sk.wrapping_mul(digest(*m))))
}

fn agg_r2(p1: &u64, q1: &u64, p2: &u64, q2: &u64) -> Result<(u64, u64), ()> {
    Ok((p1.wrapping_add(*p2), q1.wrapping_add(*q2)))
}

fn verify_sig(root_key: u64, m: u64, sig: &(u64, u64)) -> bool {
    sig.1 == root_key.wrapping_mul(digest(m))
}

fn fresh_entry(sk: Option<u64>) -> NodeState<u64, u64, u64, u64, u64> {
    NodeState {
        secret_key: sk,
        round1_state: None,
        round1_output: None,
        round1_internal: None,
        round2_state: None,
        round2_output: None,
    }
}

// Build the tree over `pks`, pre-populate the store with `sks`, run both
// rounds on `msg`, and hand back the root key with the extracted signature.
fn run_session(pks: &[u64], sks: &[u64], msg: u64) -> (u64, (u64, u64)) {
    let mut store: StateStore<u64, u64, u64, u64, u64, u64> = StateStore::new();
    for (pk, sk) in pks.iter().zip(sks.iter()) {
        store.insert(&eq_u64, *pk, fresh_entry(Some(*sk)));
    }
    let tree = BinTree::from_vec(pks.to_vec(), key_agg).unwrap();
    round1(&tree, &mut store, &eq_u64, &dup_u64, &dup_u64, &begin_r1, &agg_r1, &ext_r1).unwrap();
    let outs: Vec<u64> = Vec::new();
    let path: Vec<Vec<u64>> = Vec::new();
    round2(
        &tree,
        &mut store,
        &eq_u64,
        &dup_u64,
        &dup_u64,
        &msg,
        &outs,
        path,
        &sign_r2,
        &agg_r2,
    )
    .unwrap();
    let root_key = *tree.value();
    let sig = root_signature::<u64, u64, u64, u64, u64, u64, (), _>(&tree, &mut store, &eq_u64)
        .unwrap();
    (root_key, sig)
}

// Distinct keys whose model public key equals the secret key. Powers of two
// keep every aggregate value in the tree distinct from every other node
// value, which the traversals expect of the key set.
fn keys(k: usize) -> Vec<u64> {
    (0..k as u64).map(|i| 1u64 << i).collect()
}

#[test]
fn two_round_session_verifies_for_small_sizes() {
    for k in 1usize..=8 {
        let sks = keys(k);
        let (root_key, sig) = run_session(&sks, &sks, 10);
        assert!(verify_sig(root_key, 10, &sig));
    }
}

#[test]
fn four_leaf_scenario_pairs_then_combines() {
    let sks = keys(4);
    let tree = BinTree::from_vec(sks.clone(), key_agg).unwrap();
    assert_eq!(tree.height(), 3);
    assert_eq!(tree.leaf_count(), 4);
    match &tree {
        BinTree::Node { left, right, value } => {
            assert_eq!(*value, sks.iter().sum::<u64>());
            assert_eq!(*left.value(), sks[0] + sks[1]);
            let r = right.as_ref().expect("root must own both children");
            assert_eq!(*r.value(), sks[2] + sks[3]);
        }
        BinTree::Leaf(_) => panic!("expected Node"),
    }
    let (root_key, sig) = run_session(&sks, &sks, 77);
    assert!(verify_sig(root_key, 77, &sig));
}

#[test]
fn three_leaf_scenario_carries_odd_leaf_up() {
    let sks = keys(3);
    let tree = BinTree::from_vec(sks.clone(), key_agg).unwrap();
    assert_eq!(tree.height(), 3);
    assert_eq!(tree.leaf_count(), 3);
    match &tree {
        BinTree::Node { left, right, value } => {
            assert_eq!(*value, sks[0] + sks[1] + sks[2]);
            // First pairing combines the first two leaves; the third is
            // carried up unpaired and only joins at the root.
            assert_eq!(*left.value(), sks[0] + sks[1]);
            assert!(left.is_node());
            let r = right.as_ref().expect("root must own both children");
            assert!(r.is_leaf());
            assert_eq!(*r.value(), sks[2]);
        }
        BinTree::Leaf(_) => panic!("expected Node"),
    }
    let (root_key, sig) = run_session(&sks, &sks, 5);
    assert!(verify_sig(root_key, 5, &sig));
}

#[test]
fn verification_rejects_swapped_secret_key() {
    let pks = keys(4);
    let mut sks = pks.clone();
    sks[2] = sks[2].wrapping_add(5);
    let (root_key, sig) = run_session(&pks, &sks, 10);
    assert!(!verify_sig(root_key, 10, &sig));
}

#[test]
fn verification_rejects_wrong_message() {
    let sks = keys(4);
    let (root_key, sig) = run_session(&sks, &sks, 10);
    assert!(!verify_sig(root_key, 11, &sig));
}

#[test]
fn round1_missing_leaf_entry_is_inconsistent() {
    let mut store: StateStore<u64, u64, u64, u64, u64, u64> = StateStore::new();
    let tree = BinTree::leaf(5u64);
    let r = round1(&tree, &mut store, &eq_u64, &dup_u64, &dup_u64, &begin_r1, &agg_r1, &ext_r1);
    assert!(matches!(r, Err(ProtocolError::StructuralInconsistency)));
}

#[test]
fn round1_primitive_failure_aborts() {
    fn bad_begin(_participants: usize) -> Result<(u64, u64), ()> {
        Err(())
    }
    let mut store: StateStore<u64, u64, u64, u64, u64, u64> = StateStore::new();
    store.insert(&eq_u64, 5, fresh_entry(Some(5)));
    let tree = BinTree::leaf(5u64);
    let r = round1(&tree, &mut store, &eq_u64, &dup_u64, &dup_u64, &bad_begin, &agg_r1, &ext_r1);
    assert!(matches!(r, Err(ProtocolError::PrimitiveFailure(()))));
}

#[test]
fn round2_rejects_missing_right_child() {
    // A node without a right child cannot be produced by the builder, but it
    // can be written by hand; round two must treat it as fatal.
    let tree: BinTree<u64> = BinTree::Node {
        left: Box::new(BinTree::Leaf(1)),
        right: None,
        value: 2,
    };
    let mut store: StateStore<u64, u64, u64, u64, u64, u64> = StateStore::new();
    store.insert(&eq_u64, 1, fresh_entry(Some(1)));
    let outs: Vec<u64> = Vec::new();
    let path: Vec<Vec<u64>> = Vec::new();
    let m: u64 = 3;
    let r = round2(
        &tree,
        &mut store,
        &eq_u64,
        &dup_u64,
        &dup_u64,
        &m,
        &outs,
        path,
        &sign_r2,
        &agg_r2,
    );
    assert!(matches!(r, Err(ProtocolError::StructuralInconsistency)));
}

#[test]
fn round1_handles_missing_right_child_by_carrying() {
    // Round one extends the left child's output directly when a node has no
    // right child, per the unpaired carry-up rule.
    let tree: BinTree<u64> = BinTree::Node {
        left: Box::new(BinTree::Leaf(1)),
        right: None,
        value: 2,
    };
    let mut store: StateStore<u64, u64, u64, u64, u64, u64> = StateStore::new();
    store.insert(&eq_u64, 1, fresh_entry(Some(1)));
    let r = round1(&tree, &mut store, &eq_u64, &dup_u64, &dup_u64, &begin_r1, &agg_r1, &ext_r1);
    assert!(r.is_ok());
    let entry = store.get(&eq_u64, &2).expect("internal entry recorded");
    // begin_r1 returns output 1; the carry keeps it, then ext_r1 extends it.
    assert_eq!(entry.round1_internal, Some(1));
    assert_eq!(entry.round1_output, Some(1 * 31 + 2));
}

#[test]
fn root_signature_requires_completed_round2() {
    let mut store: StateStore<u64, u64, u64, u64, u64, u64> = StateStore::new();
    store.insert(&eq_u64, 5, fresh_entry(Some(5)));
    let tree = BinTree::leaf(5u64);
    let r = root_signature::<u64, u64, u64, u64, u64, u64, (), _>(&tree, &mut store, &eq_u64);
    assert!(matches!(r, Err(ProtocolError::StructuralInconsistency)));
}

#[test]
fn store_insert_get_take_roundtrip() {
    let mut store: StateStore<u64, u64, u64, u64, u64, u64> = StateStore::new();
    assert!(store.get(&eq_u64, &9).is_none());
    store.insert(&eq_u64, 9, fresh_entry(Some(4)));
    store.insert(&eq_u64, 9, fresh_entry(Some(6)));
    let got = store.get(&eq_u64, &9).expect("present after insert");
    assert_eq!(got.secret_key, Some(6));
    let (k, st) = store.take(&eq_u64, &9).expect("take finds the entry");
    assert_eq!(k, 9);
    assert_eq!(st.secret_key, Some(6));
    assert!(store.get(&eq_u64, &9).is_none());
}
