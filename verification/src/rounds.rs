use vstd::prelude::*;

use crate::bintree::BinTree;
use crate::error::ProtocolError;
use crate::store::{dup_exact, eq_decides, NodeState, StateStore};

verus! {

/// The view of an authentication path: one entry per descended tree level,
/// each the list of sibling values met at that level.
pub open spec fn path_view<V>(p: Seq<Vec<V>>) -> Seq<Seq<V>> {
    p.map_values(|x: Vec<V>| x@)
}

/// `b` agrees with `a` on everything round one does not write.
pub open spec fn preserves_outside_round1<K, S, O, P, Q>(
    a: NodeState<K, S, O, P, Q>,
    b: NodeState<K, S, O, P, Q>,
) -> bool {
    &&& b.secret_key == a.secret_key
    &&& b.round1_internal == a.round1_internal
    &&& b.round2_state == a.round2_state
    &&& b.round2_output == a.round2_output
}

/// `b` agrees with `a` on everything round two does not write.
pub open spec fn preserves_outside_round2<K, S, O, P, Q>(
    a: NodeState<K, S, O, P, Q>,
    b: NodeState<K, S, O, P, Q>,
) -> bool {
    &&& b.secret_key == a.secret_key
    &&& b.round1_state == a.round1_state
    &&& b.round1_output == a.round1_output
    &&& b.round1_internal == a.round1_internal
}

/// Round one has run over the whole of `t`: every node's entry holds a
/// round-1 output; a leaf's entry holds a possible result of the `begin`
/// capability; an internal node's `round1_internal` is a possible
/// aggregation of its children's outputs (or the left child's output
/// carried unchanged when there is no right child), and its `round1_output`
/// is a possible extension of that aggregate with the node's own value.
pub open spec fn round1_done<
    V,
    K,
    S,
    O,
    P,
    Q,
    E,
    FBegin: Fn(usize) -> Result<(S, O), E>,
    FAgg: Fn(&O, &O) -> Result<O, E>,
    FExt: Fn(&O, &V) -> Result<O, E>,
>(
    t: BinTree<V>,
    store: StateStore<V, K, S, O, P, Q>,
    begin: FBegin,
    agg: FAgg,
    ext: FExt,
) -> bool
    decreases t,
{
    match t {
        BinTree::Leaf(v) => store.contains_key(v) && {
            let st = store.spec_get(v);
            &&& st.round1_state is Some
            &&& st.round1_output is Some
            &&& call_ensures(
                begin,
                (2usize,),
                Ok((st.round1_state->Some_0, st.round1_output->Some_0)),
            )
        },
        BinTree::Node { left, right, value } => {
            &&& round1_done(*left, store, begin, agg, ext)
            &&& store.contains_key(value)
            &&& store.spec_get(value).round1_internal is Some
            &&& store.spec_get(value).round1_output is Some
            &&& (match right {
                Some(rt) => round1_done(*rt, store, begin, agg, ext) && call_ensures(
                    agg,
                    (
                        &store.spec_get(left.spec_value()).round1_output->Some_0,
                        &store.spec_get(rt.spec_value()).round1_output->Some_0,
                    ),
                    Ok(store.spec_get(value).round1_internal->Some_0),
                ),
                None => store.spec_get(value).round1_internal == store.spec_get(
                    left.spec_value(),
                ).round1_output,
            })
            &&& call_ensures(
                ext,
                (&store.spec_get(value).round1_internal->Some_0, &value),
                Ok(store.spec_get(value).round1_output->Some_0),
            )
        },
    }
}

/// What round two needs of the store: every node of `t` has its entry, an
/// internal node has both children and its pre-extension aggregate, and a
/// leaf holds its round-1 state and a local secret key.
pub open spec fn round1_complete<V, K, S, O, P, Q>(
    t: BinTree<V>,
    store: StateStore<V, K, S, O, P, Q>,
) -> bool
    decreases t,
{
    match t {
        BinTree::Leaf(v) => store.contains_key(v) && store.spec_get(v).round1_state is Some
            && store.spec_get(v).secret_key is Some,
        BinTree::Node { left, right, value } => match right {
            Some(rt) => store.contains_key(value) && store.spec_get(value).round1_internal is Some
                && round1_complete(*left, store) && round1_complete(*rt, store),
            None => false,
        },
    }
}

/// Round two has run over the whole of `t` under message `m`, ancestor
/// context `outs` and authentication path `path`: every leaf's round-2 pair
/// is a possible partial signature over its stored round-1 state, its secret
/// key, the message, the context extended on the way down and the sibling
/// path accumulated from the root; every internal node's round-2 pair is a
/// possible aggregation of its children's pairs. A node without a right
/// child never satisfies this: round two rejects it.
pub open spec fn round2_done<
    V,
    K,
    S,
    O,
    P,
    Q,
    M,
    E,
    FSign: Fn(&S, &Vec<O>, &K, &M, &Vec<Vec<V>>) -> Result<(P, Q), E>,
    FAgg2: Fn(&P, &Q, &P, &Q) -> Result<(P, Q), E>,
>(
    t: BinTree<V>,
    store: StateStore<V, K, S, O, P, Q>,
    sign: FSign,
    agg2: FAgg2,
    m: M,
    outs: Seq<O>,
    path: Seq<Seq<V>>,
) -> bool
    decreases t,
{
    match t {
        BinTree::Leaf(v) => store.contains_key(v) && {
            let st = store.spec_get(v);
            &&& st.round1_state is Some
            &&& st.secret_key is Some
            &&& st.round2_state is Some
            &&& st.round2_output is Some
            &&& exists|ov: Vec<O>, pv: Vec<Vec<V>>|
                ov@ == outs && path_view(pv@) == path && #[trigger] call_ensures(
                    sign,
                    (&st.round1_state->Some_0, &ov, &st.secret_key->Some_0, &m, &pv),
                    Ok((st.round2_state->Some_0, st.round2_output->Some_0)),
                )
        },
        BinTree::Node { left, right, value } => match right {
            Some(rt) => store.contains_key(value) && {
                let st = store.spec_get(value);
                let lst = store.spec_get(left.spec_value());
                let rst = store.spec_get(rt.spec_value());
                &&& st.round1_internal is Some
                &&& round2_done(
                    *left,
                    store,
                    sign,
                    agg2,
                    m,
                    outs.push(st.round1_internal->Some_0),
                    path.push(seq![rt.spec_value()]),
                )
                &&& round2_done(
                    *rt,
                    store,
                    sign,
                    agg2,
                    m,
                    outs.push(st.round1_internal->Some_0),
                    path.push(seq![left.spec_value()]),
                )
                &&& st.round2_state is Some
                &&& st.round2_output is Some
                &&& call_ensures(
                    agg2,
                    (
                        &lst.round2_state->Some_0,
                        &lst.round2_output->Some_0,
                        &rst.round2_state->Some_0,
                        &rst.round2_output->Some_0,
                    ),
                    Ok((st.round2_state->Some_0, st.round2_output->Some_0)),
                )
            },
            None => false,
        },
    }
}

proof fn lemma_no_dup_concat3<V>(a: Seq<V>, b: Seq<V>, c: Seq<V>)
    requires
        (a + b + c).no_duplicates(),
    ensures
        a.no_duplicates(),
        b.no_duplicates(),
        c.no_duplicates(),
        forall|x: V| a.contains(x) ==> !b.contains(x) && !c.contains(x),
        forall|x: V| b.contains(x) ==> !c.contains(x),
{
    let s = a + b + c;
    assert forall|i: int| 0 <= i < a.len() implies s[i] == a[i] by {}
    assert forall|i: int| 0 <= i < b.len() implies s[a.len() + i] == b[i] by {}
    assert forall|i: int| 0 <= i < c.len() implies s[a.len() + b.len() + i] == c[i] by {}
    assert forall|x: V| a.contains(x) implies !b.contains(x) && !c.contains(x) by {
        let i = choose|i: int| 0 <= i < a.len() && a[i] == x;
        if b.contains(x) {
            let j = choose|j: int| 0 <= j < b.len() && b[j] == x;
            assert(s[i] == s[a.len() + j]);
        }
        if c.contains(x) {
            let j = choose|j: int| 0 <= j < c.len() && c[j] == x;
            assert(s[i] == s[a.len() + b.len() + j]);
        }
    }
    assert forall|x: V| b.contains(x) implies !c.contains(x) by {
        let i = choose|i: int| 0 <= i < b.len() && b[i] == x;
        if c.contains(x) {
            let j = choose|j: int| 0 <= j < c.len() && c[j] == x;
            assert(s[a.len() + i] == s[a.len() + b.len() + j]);
        }
    }
}

proof fn lemma_values_contains_own<V>(t: BinTree<V>)
    ensures
        t.values().contains(t.spec_value()),
{
    match t {
        BinTree::Leaf(v) => {
            assert(t.values()[0] == v);
        },
        BinTree::Node { left, right, value } => {
            assert(t.values()[t.values().len() - 1] == value);
        },
    }
}

proof fn lemma_leaves_sub_values<V>(t: BinTree<V>)
    ensures
        forall|x: V| #[trigger] t.leaves().contains(x) ==> t.values().contains(x),
    decreases t,
{
    match t {
        BinTree::Leaf(v) => {},
        BinTree::Node { left, right, value } => {
            lemma_leaves_sub_values(*left);
            let lv = left.values();
            let ll = left.leaves();
            match right {
                Some(rt) => {
                    lemma_leaves_sub_values(*rt);
                    assert(t.values() == lv + rt.values() + seq![value]);
                    assert(t.leaves() == ll + rt.leaves());
                    assert forall|x: V| #[trigger] t.leaves().contains(x) implies t.values().contains(
                        x,
                    ) by {
                        let i = choose|i: int| 0 <= i < t.leaves().len() && t.leaves()[i] == x;
                        if i < ll.len() {
                            assert(ll[i] == x);
                            assert(ll.contains(x));
                            assert(lv.contains(x));
                            let j = choose|j: int| 0 <= j < lv.len() && lv[j] == x;
                            assert(t.values()[j] == x);
                        } else {
                            assert(rt.leaves()[i - ll.len()] == x);
                            assert(rt.leaves().contains(x));
                            assert(rt.values().contains(x));
                            let j = choose|j: int|
                                0 <= j < rt.values().len() && rt.values()[j] == x;
                            assert(t.values()[lv.len() + j] == x);
                        }
                    }
                },
                None => {
                    assert(t.values() == lv + Seq::<V>::empty() + seq![value]);
                    assert(t.leaves() == ll + Seq::<V>::empty());
                    assert forall|x: V| #[trigger] t.leaves().contains(x) implies t.values().contains(
                        x,
                    ) by {
                        let i = choose|i: int| 0 <= i < t.leaves().len() && t.leaves()[i] == x;
                        assert(ll[i] == x);
                        assert(ll.contains(x));
                        assert(lv.contains(x));
                        let j = choose|j: int| 0 <= j < lv.len() && lv[j] == x;
                        assert(t.values()[j] == x);
                    }
                },
            }
        },
    }
}

proof fn lemma_sub_contains<V>(a: Seq<V>, b: Seq<V>, c: Seq<V>)
    ensures
        forall|x: V| #[trigger] a.contains(x) ==> (a + b + c).contains(x),
        forall|x: V| #[trigger] b.contains(x) ==> (a + b + c).contains(x),
        forall|x: V| #[trigger] c.contains(x) ==> (a + b + c).contains(x),
{
    let s = a + b + c;
    assert forall|x: V| #[trigger] a.contains(x) implies s.contains(x) by {
        let i = choose|i: int| 0 <= i < a.len() && a[i] == x;
        assert(s[i] == x);
    }
    assert forall|x: V| #[trigger] b.contains(x) implies s.contains(x) by {
        let i = choose|i: int| 0 <= i < b.len() && b[i] == x;
        assert(s[a.len() + i] == x);
    }
    assert forall|x: V| #[trigger] c.contains(x) implies s.contains(x) by {
        let i = choose|i: int| 0 <= i < c.len() && c[i] == x;
        assert(s[a.len() + b.len() + i] == x);
    }
}

proof fn lemma_round1_done_frame<
    V,
    K,
    S,
    O,
    P,
    Q,
    E,
    FBegin: Fn(usize) -> Result<(S, O), E>,
    FAgg: Fn(&O, &O) -> Result<O, E>,
    FExt: Fn(&O, &V) -> Result<O, E>,
>(
    t: BinTree<V>,
    s1: StateStore<V, K, S, O, P, Q>,
    s2: StateStore<V, K, S, O, P, Q>,
    begin: FBegin,
    agg: FAgg,
    ext: FExt,
)
    requires
        round1_done(t, s1, begin, agg, ext),
        forall|v: V| #[trigger] t.values().contains(v) ==> s2.contains_key(v) == s1.contains_key(v)
            && (s1.contains_key(v) ==> s2.spec_get(v) == s1.spec_get(v)),
    ensures
        round1_done(t, s2, begin, agg, ext),
    decreases t,
{
    match t {
        BinTree::Leaf(v) => {
            lemma_values_contains_own(t);
        },
        BinTree::Node { left, right, value } => {
            let lv = left.values();
            let rv = match right {
                Some(rt) => rt.values(),
                None => Seq::<V>::empty(),
            };
            let sv = seq![value];
            assert(t.values() == lv + rv + sv);
            lemma_sub_contains(lv, rv, sv);
            assert(sv[0] == value);
            assert(sv.contains(value));
            assert(t.values().contains(value));
            lemma_values_contains_own(*left);
            assert(t.values().contains(left.spec_value()));
            assert forall|v: V| #[trigger] lv.contains(v) implies s2.contains_key(v)
                == s1.contains_key(v) && (s1.contains_key(v) ==> s2.spec_get(v) == s1.spec_get(
                v,
            )) by {
                assert(t.values().contains(v));
            }
            lemma_round1_done_root(*left, s1, begin, agg, ext);
            lemma_round1_done_frame(*left, s1, s2, begin, agg, ext);
            match right {
                Some(rt) => {
                    lemma_round1_done_root(*rt, s1, begin, agg, ext);
                    lemma_values_contains_own(*rt);
                    assert(t.values().contains(rt.spec_value()));
                    assert forall|v: V| #[trigger] rv.contains(v) implies s2.contains_key(v)
                        == s1.contains_key(v) && (s1.contains_key(v) ==> s2.spec_get(v)
                        == s1.spec_get(v)) by {
                        assert(t.values().contains(v));
                    }
                    lemma_round1_done_frame(*rt, s1, s2, begin, agg, ext);
                },
                None => {},
            }
        },
    }
}

proof fn lemma_round1_complete_frame<V, K, S, O, P, Q>(
    t: BinTree<V>,
    s1: StateStore<V, K, S, O, P, Q>,
    s2: StateStore<V, K, S, O, P, Q>,
)
    requires
        round1_complete(t, s1),
        forall|v: V| #[trigger] t.values().contains(v) ==> s2.contains_key(v) == s1.contains_key(v)
            && (s1.contains_key(v) ==> s2.spec_get(v) == s1.spec_get(v)),
    ensures
        round1_complete(t, s2),
    decreases t,
{
    match t {
        BinTree::Leaf(v) => {
            lemma_values_contains_own(t);
        },
        BinTree::Node { left, right, value } => {
            let lv = left.values();
            let rv = match right {
                Some(rt) => rt.values(),
                None => Seq::<V>::empty(),
            };
            let sv = seq![value];
            assert(t.values() == lv + rv + sv);
            lemma_sub_contains(lv, rv, sv);
            assert(sv[0] == value);
            assert(sv.contains(value));
            assert(t.values().contains(value));
            assert forall|v: V| #[trigger] lv.contains(v) implies s2.contains_key(v)
                == s1.contains_key(v) && (s1.contains_key(v) ==> s2.spec_get(v) == s1.spec_get(
                v,
            )) by {
                assert(t.values().contains(v));
            }
            assert forall|v: V| #[trigger] rv.contains(v) implies s2.contains_key(v)
                == s1.contains_key(v) && (s1.contains_key(v) ==> s2.spec_get(v) == s1.spec_get(
                v,
            )) by {
                assert(t.values().contains(v));
            }
            match right {
                Some(rt) => {
                    lemma_round1_complete_frame(*left, s1, s2);
                    lemma_round1_complete_frame(*rt, s1, s2);
                },
                None => {},
            }
        },
    }
}

proof fn lemma_round2_done_frame<
    V,
    K,
    S,
    O,
    P,
    Q,
    M,
    E,
    FSign: Fn(&S, &Vec<O>, &K, &M, &Vec<Vec<V>>) -> Result<(P, Q), E>,
    FAgg2: Fn(&P, &Q, &P, &Q) -> Result<(P, Q), E>,
>(
    t: BinTree<V>,
    s1: StateStore<V, K, S, O, P, Q>,
    s2: StateStore<V, K, S, O, P, Q>,
    sign: FSign,
    agg2: FAgg2,
    m: M,
    outs: Seq<O>,
    path: Seq<Seq<V>>,
)
    requires
        round2_done(t, s1, sign, agg2, m, outs, path),
        forall|v: V| #[trigger] t.values().contains(v) ==> s2.contains_key(v) == s1.contains_key(v)
            && (s1.contains_key(v) ==> s2.spec_get(v) == s1.spec_get(v)),
    ensures
        round2_done(t, s2, sign, agg2, m, outs, path),
    decreases t,
{
    match t {
        BinTree::Leaf(v) => {
            lemma_values_contains_own(t);
        },
        BinTree::Node { left, right, value } => {
            let lv = left.values();
            let rv = match right {
                Some(rt) => rt.values(),
                None => Seq::<V>::empty(),
            };
            let sv = seq![value];
            assert(t.values() == lv + rv + sv);
            lemma_sub_contains(lv, rv, sv);
            assert(sv[0] == value);
            assert(sv.contains(value));
            assert(t.values().contains(value));
            assert forall|v: V| #[trigger] lv.contains(v) implies s2.contains_key(v)
                == s1.contains_key(v) && (s1.contains_key(v) ==> s2.spec_get(v) == s1.spec_get(
                v,
            )) by {
                assert(t.values().contains(v));
            }
            assert forall|v: V| #[trigger] rv.contains(v) implies s2.contains_key(v)
                == s1.contains_key(v) && (s1.contains_key(v) ==> s2.spec_get(v) == s1.spec_get(
                v,
            )) by {
                assert(t.values().contains(v));
            }
            match right {
                Some(rt) => {
                    lemma_values_contains_own(*left);
                    assert(t.values().contains(left.spec_value()));
                    lemma_values_contains_own(*rt);
                    assert(t.values().contains(rt.spec_value()));
                    let oi = s1.spec_get(value).round1_internal->Some_0;
                    lemma_round2_done_root(
                        *left,
                        s1,
                        sign,
                        agg2,
                        m,
                        outs.push(oi),
                        path.push(seq![rt.spec_value()]),
                    );
                    lemma_round2_done_root(
                        *rt,
                        s1,
                        sign,
                        agg2,
                        m,
                        outs.push(oi),
                        path.push(seq![left.spec_value()]),
                    );
                    lemma_round2_done_frame(
                        *left,
                        s1,
                        s2,
                        sign,
                        agg2,
                        m,
                        outs.push(oi),
                        path.push(seq![rt.spec_value()]),
                    );
                    lemma_round2_done_frame(
                        *rt,
                        s1,
                        s2,
                        sign,
                        agg2,
                        m,
                        outs.push(oi),
                        path.push(seq![left.spec_value()]),
                    );
                },
                None => {},
            }
        },
    }
}

/// After a full round one over a tree whose every internal node has both
/// children, and whose leaf entries all hold a local secret key, the store
/// is ready for round two.
pub proof fn lemma_round1_ready<
    V,
    K,
    S,
    O,
    P,
    Q,
    E,
    FBegin: Fn(usize) -> Result<(S, O), E>,
    FAgg: Fn(&O, &O) -> Result<O, E>,
    FExt: Fn(&O, &V) -> Result<O, E>,
>(
    t: BinTree<V>,
    store: StateStore<V, K, S, O, P, Q>,
    begin: FBegin,
    agg: FAgg,
    ext: FExt,
)
    requires
        round1_done(t, store, begin, agg, ext),
        t.full(),
        forall|v: V| #[trigger] t.leaves().contains(v) ==> store.spec_get(v).secret_key is Some,
    ensures
        round1_complete(t, store),
    decreases t,
{
    match t {
        BinTree::Leaf(v) => {
            assert(t.leaves()[0] == v);
            assert(t.leaves().contains(v));
        },
        BinTree::Node { left, right, value } => {
            match right {
                Some(rt) => {
                    assert forall|v: V| #[trigger] left.leaves().contains(v) implies t.leaves().contains(
                        v,
                    ) by {
                        let i = choose|i: int|
                            0 <= i < left.leaves().len() && left.leaves()[i] == v;
                        assert(t.leaves()[i] == v);
                    }
                    assert forall|v: V| #[trigger] rt.leaves().contains(v) implies t.leaves().contains(
                        v,
                    ) by {
                        let i = choose|i: int| 0 <= i < rt.leaves().len() && rt.leaves()[i] == v;
                        assert(t.leaves()[left.leaves().len() + i] == v);
                    }
                    lemma_round1_ready(*left, store, begin, agg, ext);
                    lemma_round1_ready(*rt, store, begin, agg, ext);
                },
                None => {},
            }
        },
    }
}

/// Stores `s1` and `s2` agree on every key outside `keys`: same presence,
/// same recorded state.
pub open spec fn agrees_outside<V, K, S, O, P, Q>(
    s1: StateStore<V, K, S, O, P, Q>,
    s2: StateStore<V, K, S, O, P, Q>,
    keys: Seq<V>,
) -> bool {
    forall|w: V|
        !keys.contains(w) ==> (#[trigger] s2.contains_key(w)) == s1.contains_key(w) && (
        s1.contains_key(w) ==> s2.spec_get(w) == s1.spec_get(w))
}

proof fn lemma_agrees_trans<V, K, S, O, P, Q>(
    a: StateStore<V, K, S, O, P, Q>,
    b: StateStore<V, K, S, O, P, Q>,
    c: StateStore<V, K, S, O, P, Q>,
    k1: Seq<V>,
    k2: Seq<V>,
    kk: Seq<V>,
)
    requires
        agrees_outside(a, b, k1),
        agrees_outside(b, c, k2),
        forall|w: V| #[trigger] k1.contains(w) ==> kk.contains(w),
        forall|w: V| #[trigger] k2.contains(w) ==> kk.contains(w),
    ensures
        agrees_outside(a, c, kk),
{
    assert forall|w: V|
        !kk.contains(w) implies (#[trigger] c.contains_key(w)) == a.contains_key(w) && (
        a.contains_key(w) ==> c.spec_get(w) == a.spec_get(w)) by {
        assert(!k1.contains(w));
        assert(!k2.contains(w));
        assert(b.contains_key(w) == a.contains_key(w));
        assert(c.contains_key(w) == b.contains_key(w));
    }
}


proof fn lemma_agrees_mono<V, K, S, O, P, Q>(
    a: StateStore<V, K, S, O, P, Q>,
    b: StateStore<V, K, S, O, P, Q>,
    k1: Seq<V>,
    kk: Seq<V>,
)
    requires
        agrees_outside(a, b, k1),
        forall|w: V| #[trigger] k1.contains(w) ==> kk.contains(w),
    ensures
        agrees_outside(a, b, kk),
{
    assert forall|w: V|
        !kk.contains(w) implies (#[trigger] b.contains_key(w)) == a.contains_key(w) && (
        a.contains_key(w) ==> b.spec_get(w) == a.spec_get(w)) by {
        assert(!k1.contains(w));
        assert(b.contains_key(w) == a.contains_key(w));
    }
}

proof fn lemma_round1_done_root<
    V,
    K,
    S,
    O,
    P,
    Q,
    E,
    FBegin: Fn(usize) -> Result<(S, O), E>,
    FAgg: Fn(&O, &O) -> Result<O, E>,
    FExt: Fn(&O, &V) -> Result<O, E>,
>(
    t: BinTree<V>,
    store: StateStore<V, K, S, O, P, Q>,
    begin: FBegin,
    agg: FAgg,
    ext: FExt,
)
    requires
        round1_done(t, store, begin, agg, ext),
    ensures
        store.contains_key(t.spec_value()),
        store.spec_get(t.spec_value()).round1_output is Some,
    decreases t,
{
    match t {
        BinTree::Leaf(v) => {},
        BinTree::Node { left, right, value } => {},
    }
}

proof fn lemma_round2_done_root<
    V,
    K,
    S,
    O,
    P,
    Q,
    M,
    E,
    FSign: Fn(&S, &Vec<O>, &K, &M, &Vec<Vec<V>>) -> Result<(P, Q), E>,
    FAgg2: Fn(&P, &Q, &P, &Q) -> Result<(P, Q), E>,
>(
    t: BinTree<V>,
    store: StateStore<V, K, S, O, P, Q>,
    sign: FSign,
    agg2: FAgg2,
    m: M,
    outs: Seq<O>,
    path: Seq<Seq<V>>,
)
    requires
        round2_done(t, store, sign, agg2, m, outs, path),
    ensures
        store.contains_key(t.spec_value()),
        store.spec_get(t.spec_value()).round2_state is Some,
        store.spec_get(t.spec_value()).round2_output is Some,
    decreases t,
{
    match t {
        BinTree::Leaf(v) => {},
        BinTree::Node { left, right, value } => {},
    }
}

/// Round-one traversal: a depth-first, children-before-parent walk. Every
/// leaf asks the `begin` capability for a fresh commitment and records it;
/// every internal node aggregates its children's round-1 outputs with `agg`
/// (or carries an unpaired left child's output unchanged), extends the
/// aggregate with its own value through `ext`, and records both under its
/// own key. A failed primitive aborts the walk with `PrimitiveFailure`; a
/// missing pre-populated leaf entry aborts it with
/// `StructuralInconsistency`. When every leaf entry is present and no
/// primitive can fail, the walk is guaranteed to succeed.
pub fn round1<
    V,
    K,
    S,
    O,
    P,
    Q,
    E,
    FEq: Fn(&V, &V) -> bool,
    FDupV: Fn(&V) -> V,
    FDupO: Fn(&O) -> O,
    FBegin: Fn(usize) -> Result<(S, O), E>,
    FAgg: Fn(&O, &O) -> Result<O, E>,
    FExt: Fn(&O, &V) -> Result<O, E>,
>(
    node: &BinTree<V>,
    store: &mut StateStore<V, K, S, O, P, Q>,
    eq: &FEq,
    dup_v: &FDupV,
    dup_out: &FDupO,
    begin: &FBegin,
    agg: &FAgg,
    ext: &FExt,
) -> (r: Result<(), ProtocolError<E>>)
    requires
        old(store).wf(),
        eq_decides::<V, FEq>(*eq),
        dup_exact::<V, FDupV>(*dup_v),
        dup_exact::<O, FDupO>(*dup_out),
        call_requires(*begin, (2usize,)),
        forall|a: &O, b: &O| #[trigger] call_requires(*agg, (a, b)),
        forall|a: &O, b: &V| #[trigger] call_requires(*ext, (a, b)),
        node.values().no_duplicates(),
    ensures
        final (store).wf(),
        agrees_outside(*old(store), *final (store), node.values()),
        r is Ok ==> round1_done(*node, *final (store), *begin, *agg, *ext),
        r is Ok ==> forall|w: V| #[trigger]
            node.leaves().contains(w) ==> old(store).contains_key(w) && final (store).contains_key(
                w,
            ) && preserves_outside_round1(
            old(store).spec_get(w),
            final (store).spec_get(w),
        ),
        r matches Err(e) ==> e is PrimitiveFailure || e is StructuralInconsistency,
        ((forall|w: V| #[trigger] node.leaves().contains(w) ==> old(store).contains_key(w)) && (
        forall|ret: Result<(S, O), E>| #[trigger] call_ensures(*begin, (2usize,), ret) ==> ret
            is Ok) && (forall|a: &O, b: &O, ret: Result<O, E>| #[trigger] call_ensures(
            *agg,
            (a, b),
            ret,
        ) ==> ret is Ok) && (forall|a: &O, b: &V, ret: Result<O, E>| #[trigger] call_ensures(
            *ext,
            (a, b),
            ret,
        ) ==> ret is Ok)) ==> r is Ok,
    decreases *node,
{
    match node {
        BinTree::Leaf(pk) => {
            proof {
                assert(node.values() == seq![*pk]);
                assert(node.values()[0] == *pk);
                assert(node.values().contains(*pk));
                assert(node.leaves()[0] == *pk);
                assert(node.leaves().contains(*pk));
            }
            match begin(2) {
                Err(e) => Err(ProtocolError::PrimitiveFailure(e)),
                Ok((s1, o1)) => match store.take(eq, pk) {
                    None => Err(ProtocolError::StructuralInconsistency),
                    Some((k0, st0)) => {
                        let st = NodeState {
                            secret_key: st0.secret_key,
                            round1_state: Some(s1),
                            round1_output: Some(o1),
                            round1_internal: st0.round1_internal,
                            round2_state: st0.round2_state,
                            round2_output: st0.round2_output,
                        };
                        store.insert(eq, k0, st);
                        proof {
                            assert forall|w: V|
                                !node.values().contains(w) implies (#[trigger] store.contains_key(
                                w,
                            )) == old(store).contains_key(w) && (old(store).contains_key(w)
                                ==> store.spec_get(w) == old(store).spec_get(w)) by {
                                assert(w != *pk);
                            }
                        }
                        Ok(())
                    },
                },
            }
        },
        BinTree::Node { left, right, value } => {
            let ghost lv = left.values();
            let ghost rv = (match right {
                Some(rt) => rt.values(),
                None => Seq::<V>::empty(),
            });
            let ghost sv = seq![*value];
            let ghost ll = left.leaves();
            let ghost rl = (match right {
                Some(rt) => rt.leaves(),
                None => Seq::<V>::empty(),
            });
            proof {
                assert(node.values() == lv + rv + sv);
                assert(node.leaves() == ll + rl);
                lemma_no_dup_concat3(lv, rv, sv);
                lemma_sub_contains(lv, rv, sv);
                assert(sv[0] == *value);
                assert(sv.contains(*value));
                assert(node.values().contains(*value));
                lemma_leaves_sub_values(**left);
                match right {
                    Some(rt) => lemma_leaves_sub_values(**rt),
                    None => {},
                }
                assert forall|w: V| #[trigger] ll.contains(w) implies node.leaves().contains(w) by {
                    let i = choose|i: int| 0 <= i < ll.len() && ll[i] == w;
                    assert(node.leaves()[i] == w);
                }
                assert forall|w: V| #[trigger] rl.contains(w) implies node.leaves().contains(w) by {
                    let i = choose|i: int| 0 <= i < rl.len() && rl[i] == w;
                    assert(node.leaves()[ll.len() + i] == w);
                }
            }
            match round1(left, store, eq, dup_v, dup_out, begin, agg, ext) {
                Err(e) => {
                    proof {
                        lemma_agrees_mono(*old(store), *store, lv, node.values());
                    }
                    return Err(e);
                },
                Ok(_) => {},
            }
            let ghost s_a = *store;
            let oi: O = match right {
                Some(rt) => {
                    match round1(rt, store, eq, dup_v, dup_out, begin, agg, ext) {
                        Err(e) => {
                            proof {
                                lemma_agrees_trans(
                                    *old(store),
                                    s_a,
                                    *store,
                                    lv,
                                    rv,
                                    node.values(),
                                );
                            }
                            return Err(e);
                        },
                        Ok(_) => {},
                    }
                    proof {
                        lemma_agrees_trans(*old(store), s_a, *store, lv, rv, node.values());
                        assert forall|v: V| #[trigger] lv.contains(v) implies store.contains_key(v)
                            == s_a.contains_key(v) && (s_a.contains_key(v) ==> store.spec_get(v)
                            == s_a.spec_get(v)) by {
                            assert(!rv.contains(v));
                            assert(store.contains_key(v) == s_a.contains_key(v));
                        }
                        lemma_round1_done_frame(
                            **left,
                            s_a,
                            *store,
                            *begin,
                            *agg,
                            *ext,
                        );
                        lemma_round1_done_root(**left, *store, *begin, *agg, *ext);
                        lemma_round1_done_root(**rt, *store, *begin, *agg, *ext);
                    }
                    let l_entry = match store.get(eq, left.value()) {
                        Some(st) => st,
                        None => {
                            return Err(ProtocolError::StructuralInconsistency);
                        },
                    };
                    let lo = match &l_entry.round1_output {
                        Some(o) => o,
                        None => {
                            return Err(ProtocolError::StructuralInconsistency);
                        },
                    };
                    let r_entry = match store.get(eq, rt.value()) {
                        Some(st) => st,
                        None => {
                            return Err(ProtocolError::StructuralInconsistency);
                        },
                    };
                    let ro = match &r_entry.round1_output {
                        Some(o) => o,
                        None => {
                            return Err(ProtocolError::StructuralInconsistency);
                        },
                    };
                    match agg(lo, ro) {
                        Ok(v) => v,
                        Err(e) => {
                            return Err(ProtocolError::PrimitiveFailure(e));
                        },
                    }
                },
                None => {
                    proof {
                        lemma_agrees_mono(*old(store), *store, lv, node.values());
                        lemma_round1_done_root(**left, *store, *begin, *agg, *ext);
                    }
                    let l_entry = match store.get(eq, left.value()) {
                        Some(st) => st,
                        None => {
                            return Err(ProtocolError::StructuralInconsistency);
                        },
                    };
                    let lo = match &l_entry.round1_output {
                        Some(o) => o,
                        None => {
                            return Err(ProtocolError::StructuralInconsistency);
                        },
                    };
                    dup_out(lo)
                },
            };
            let out = match ext(&oi, value) {
                Ok(o) => o,
                Err(e) => {
                    return Err(ProtocolError::PrimitiveFailure(e));
                },
            };
            let key = dup_v(value);
            let ghost s_b = *store;
            store.insert(
                eq,
                key,
                NodeState {
                    secret_key: None,
                    round1_state: None,
                    round1_output: Some(out),
                    round1_internal: Some(oi),
                    round2_state: None,
                    round2_output: None,
                },
            );
            proof {
                assert(key == *value);
                assert forall|v: V| #[trigger] lv.contains(v) implies store.contains_key(v)
                    == s_b.contains_key(v) && (s_b.contains_key(v) ==> store.spec_get(v)
                    == s_b.spec_get(v)) by {
                    assert(v != *value);
                    assert(store.contains_key(v) == s_b.contains_key(v));
                }
                lemma_round1_done_frame(**left, s_b, *store, *begin, *agg, *ext);
                match right {
                    Some(rt) => {
                        assert forall|v: V| #[trigger] rv.contains(v) implies store.contains_key(
                            v,
                        ) == s_b.contains_key(v) && (s_b.contains_key(v) ==> store.spec_get(v)
                            == s_b.spec_get(v)) by {
                            assert(v != *value);
                            assert(store.contains_key(v) == s_b.contains_key(v));
                        }
                        lemma_round1_done_frame(**rt, s_b, *store, *begin, *agg, *ext);
                        lemma_values_contains_own(**left);
                        lemma_values_contains_own(**rt);
                    },
                    None => {
                        lemma_values_contains_own(**left);
                    },
                }
                assert(round1_done(*node, *store, *begin, *agg, *ext));
                assert forall|w: V|
                    !node.values().contains(w) implies (#[trigger] store.contains_key(w)) == old(
                    store,
                ).contains_key(w) && (old(store).contains_key(w) ==> store.spec_get(w) == old(
                    store,
                ).spec_get(w)) by {
                    assert(!lv.contains(w));
                    assert(!rv.contains(w));
                    assert(w != *value);
                    assert(s_a.contains_key(w) == old(store).contains_key(w));
                    assert(s_b.contains_key(w) == s_a.contains_key(w));
                }
                assert forall|w: V| #[trigger]
                    node.leaves().contains(w) implies old(store).contains_key(w)
                    && store.contains_key(w) && preserves_outside_round1(
                    old(store).spec_get(w),
                    store.spec_get(w),
                ) by {
                    let i = choose|i: int|
                        0 <= i < node.leaves().len() && node.leaves()[i] == w;
                    if i < ll.len() {
                        assert(ll[i] == w);
                        assert(ll.contains(w));
                        assert(lv.contains(w));
                        assert(!rv.contains(w));
                        assert(w != *value);
                        assert(s_a.contains_key(w));
                        assert(store.contains_key(w));
                    } else {
                        assert(rl[i - ll.len()] == w);
                        assert(rl.contains(w));
                        assert(rv.contains(w));
                        assert(!lv.contains(w));
                        assert(w != *value);
                        assert(s_a.contains_key(w) == old(store).contains_key(w));
                        assert(s_b.contains_key(w));
                        assert(store.contains_key(w));
                    }
                }
            }
            Ok(())
        },
    }
}

fn clone_path<V, FDupV: Fn(&V) -> V>(path: &Vec<Vec<V>>, dup_v: &FDupV) -> (r: Vec<Vec<V>>)
    requires
        dup_exact::<V, FDupV>(*dup_v),
    ensures
        path_view(r@) == path_view(path@),
{
    let mut r: Vec<Vec<V>> = Vec::new();
    let n = path.len();
    let mut i: usize = 0;
    while i < n
        invariant
            dup_exact::<V, FDupV>(*dup_v),
            n == path@.len(),
            0 <= i <= n,
            r@.len() == i,
            forall|j: int| 0 <= j < i ==> r@[j]@ == path@[j]@,
        decreases n - i,
    {
        let row = &path[i];
        let m = row.len();
        let mut nr: Vec<V> = Vec::new();
        let mut k: usize = 0;
        while k < m
            invariant
                dup_exact::<V, FDupV>(*dup_v),
                m == row@.len(),
                0 <= k <= m,
                nr@.len() == k,
                forall|j: int| 0 <= j < k ==> nr@[j] == row@[j],
            decreases m - k,
        {
            nr.push(dup_v(&row[k]));
            k += 1;
        }
        proof {
            assert(nr@ =~= row@);
        }
        r.push(nr);
        i += 1;
    }
    proof {
        assert(path_view(r@) =~= path_view(path@));
    }
    r
}

/// Round-two traversal: context passes down, results aggregate up. An
/// internal node appends its pre-extension round-1 aggregate to the outer
/// context, extends each child's authentication path with that child's
/// sibling value, recurses into both children, and combines their round-2
/// pairs with `agg2`. A leaf hands its stored round-1 state, its secret key,
/// the message, the accumulated context and the accumulated path to the
/// `sign` capability and records the resulting pair. An internal node
/// without a right child, or a missing or incomplete store entry, is a fatal
/// `StructuralInconsistency`; a failed primitive is `PrimitiveFailure`. When
/// the store is round-one complete for the tree and no primitive can fail,
/// the walk is guaranteed to succeed.
pub fn round2<
    V,
    K,
    S,
    O,
    P,
    Q,
    M,
    E,
    FEq: Fn(&V, &V) -> bool,
    FDupV: Fn(&V) -> V,
    FDupO: Fn(&O) -> O,
    FSign: Fn(&S, &Vec<O>, &K, &M, &Vec<Vec<V>>) -> Result<(P, Q), E>,
    FAgg2: Fn(&P, &Q, &P, &Q) -> Result<(P, Q), E>,
>(
    node: &BinTree<V>,
    store: &mut StateStore<V, K, S, O, P, Q>,
    eq: &FEq,
    dup_v: &FDupV,
    dup_out: &FDupO,
    msg: &M,
    outs_by_depth: &Vec<O>,
    merkle_path: Vec<Vec<V>>,
    sign: &FSign,
    agg2: &FAgg2,
) -> (r: Result<(), ProtocolError<E>>)
    requires
        old(store).wf(),
        eq_decides::<V, FEq>(*eq),
        dup_exact::<V, FDupV>(*dup_v),
        dup_exact::<O, FDupO>(*dup_out),
        forall|a: &S, b: &Vec<O>, c: &K, d: &M, e: &Vec<Vec<V>>| #[trigger] call_requires(
            *sign,
            (a, b, c, d, e),
        ),
        forall|a: &P, b: &Q, c: &P, d: &Q| #[trigger] call_requires(*agg2, (a, b, c, d)),
        node.values().no_duplicates(),
    ensures
        final (store).wf(),
        agrees_outside(*old(store), *final (store), node.values()),
        r is Ok ==> round2_done(
            *node,
            *final (store),
            *sign,
            *agg2,
            *msg,
            outs_by_depth@,
            path_view(merkle_path@),
        ),
        r is Ok ==> forall|w: V| #[trigger]
            final (store).contains_key(w) == old(store).contains_key(w),
        r is Ok ==> forall|w: V| #[trigger]
            node.values().contains(w) && old(store).contains_key(w) ==> final (store).contains_key(
                w,
            ) && preserves_outside_round2(
            old(store).spec_get(w),
            final (store).spec_get(w),
        ),
        r matches Err(e) ==> e is PrimitiveFailure || e is StructuralInconsistency,
        (round1_complete(*node, *old(store)) && (forall|
            a: &S,
            b: &Vec<O>,
            c: &K,
            d: &M,
            e: &Vec<Vec<V>>,
            ret: Result<(P, Q), E>,
        | #[trigger] call_ensures(*sign, (a, b, c, d, e), ret) ==> ret is Ok) && (forall|
            a: &P,
            b: &Q,
            c: &P,
            d: &Q,
            ret: Result<(P, Q), E>,
        | #[trigger] call_ensures(*agg2, (a, b, c, d), ret) ==> ret is Ok)) ==> r is Ok,
    decreases *node,
{
    match node {
        BinTree::Leaf(pk) => {
            proof {
                assert(node.values() == seq![*pk]);
                assert(node.values()[0] == *pk);
                assert(node.values().contains(*pk));
            }
            match store.take(eq, pk) {
                None => Err(ProtocolError::StructuralInconsistency),
                Some((k0, st)) => {
                    let ghost st0 = st;
                    let NodeState {
                        secret_key,
                        round1_state,
                        round1_output,
                        round1_internal,
                        round2_state: _,
                        round2_output: _,
                    } = st;
                    proof {
                        assert forall|w: V|
                            !node.values().contains(w) implies (#[trigger] store.contains_key(w))
                            == old(store).contains_key(w) && (old(store).contains_key(w)
                            ==> store.spec_get(w) == old(store).spec_get(w)) by {
                            assert(w != *pk);
                        }
                    }
                    match round1_state {
                        None => Err(ProtocolError::StructuralInconsistency),
                        Some(s1) => match secret_key {
                            None => Err(ProtocolError::StructuralInconsistency),
                            Some(sk) => match sign(&s1, outs_by_depth, &sk, msg, &merkle_path) {
                                Err(e) => Err(ProtocolError::PrimitiveFailure(e)),
                                Ok(pq) => {
                                    let (p2, q2) = pq;
                                    let stn = NodeState {
                                        secret_key: Some(sk),
                                        round1_state: Some(s1),
                                        round1_output,
                                        round1_internal,
                                        round2_state: Some(p2),
                                        round2_output: Some(q2),
                                    };
                                    store.insert(eq, k0, stn);
                                    proof {
                                        assert forall|w: V|
                                            !node.values().contains(w) implies (
                                        #[trigger] store.contains_key(w)) == old(
                                            store,
                                        ).contains_key(w) && (old(store).contains_key(w)
                                            ==> store.spec_get(w) == old(store).spec_get(w)) by {
                                            assert(w != *pk);
                                        }
                                        let stf = store.spec_get(*pk);
                                        assert(stf == stn);
                                        let ov0 = *outs_by_depth;
                                        let pv0 = merkle_path;
                                        assert(call_ensures(
                                            *sign,
                                            (
                                                &stf.round1_state->Some_0,
                                                &ov0,
                                                &stf.secret_key->Some_0,
                                                msg,
                                                &pv0,
                                            ),
                                            Ok((stf.round2_state->Some_0, stf.round2_output->Some_0)),
                                        ));
                                        assert(exists|ov: Vec<O>, pv: Vec<Vec<V>>|
                                            ov@ == outs_by_depth@ && path_view(pv@) == path_view(
                                                merkle_path@,
                                            ) && #[trigger] call_ensures(
                                                *sign,
                                                (
                                                    &stf.round1_state->Some_0,
                                                    &ov,
                                                    &stf.secret_key->Some_0,
                                                    msg,
                                                    &pv,
                                                ),
                                                Ok(
                                                    (
                                                        stf.round2_state->Some_0,
                                                        stf.round2_output->Some_0,
                                                    ),
                                                ),
                                            )) by {
                                            assert(call_ensures(
                                                *sign,
                                                (&s1, outs_by_depth, &sk, msg, &merkle_path),
                                                Ok((p2, q2)),
                                            ));
                                        }
                                        assert(round2_done(
                                            *node,
                                            *store,
                                            *sign,
                                            *agg2,
                                            *msg,
                                            outs_by_depth@,
                                            path_view(merkle_path@),
                                        ));
                                    }
                                    Ok(())
                                },
                            },
                        },
                    }
                },
            }
        },
        BinTree::Node { left, right, value } => {
            let ghost lv = left.values();
            let ghost rv = (match right {
                Some(rt) => rt.values(),
                None => Seq::<V>::empty(),
            });
            let ghost sv = seq![*value];
            proof {
                assert(node.values() == lv + rv + sv);
                lemma_no_dup_concat3(lv, rv, sv);
                lemma_sub_contains(lv, rv, sv);
                assert(sv[0] == *value);
                assert(sv.contains(*value));
                assert(node.values().contains(*value));
            }
            match right {
                None => Err(ProtocolError::StructuralInconsistency),
                Some(rt) => {
                    let out_d = match store.get(eq, value) {
                        None => {
                            return Err(ProtocolError::StructuralInconsistency);
                        },
                        Some(stv) => match &stv.round1_internal {
                            None => {
                                return Err(ProtocolError::StructuralInconsistency);
                            },
                            Some(o) => dup_out(o),
                        },
                    };
                    let ghost oi_val = store.spec_get(*value).round1_internal->Some_0;
                    let mut ext_outs: Vec<O> = Vec::new();
                    let n0 = outs_by_depth.len();
                    let mut i: usize = 0;
                    while i < n0
                        invariant
                            dup_exact::<O, FDupO>(*dup_out),
                            n0 == outs_by_depth@.len(),
                            0 <= i <= n0,
                            ext_outs@.len() == i,
                            forall|j: int| 0 <= j < i ==> ext_outs@[j] == outs_by_depth@[j],
                        decreases n0 - i,
                    {
                        let x = dup_out(&outs_by_depth[i]);
                        ext_outs.push(x);
                        i += 1;
                    }
                    ext_outs.push(out_d);
                    proof {
                        assert(ext_outs@ =~= outs_by_depth@.push(oi_val));
                    }
                    let mut l_path = clone_path(&merkle_path, dup_v);
                    let mut sibs_r: Vec<V> = Vec::new();
                    sibs_r.push(dup_v(rt.value()));
                    l_path.push(sibs_r);
                    let mut r_path = merkle_path;
                    let mut sibs_l: Vec<V> = Vec::new();
                    sibs_l.push(dup_v(left.value()));
                    r_path.push(sibs_l);
                    proof {
                        assert(sibs_r@ =~= seq![rt.spec_value()]);
                        assert(sibs_l@ =~= seq![left.spec_value()]);
                        assert(path_view(l_path@) =~= path_view(merkle_path@).push(
                            seq![rt.spec_value()],
                        ));
                        assert(path_view(r_path@) =~= path_view(merkle_path@).push(
                            seq![left.spec_value()],
                        ));
                    }
                    proof {
                        if round1_complete(*node, *old(store)) {
                            assert(round1_complete(**left, *old(store)));
                            assert(round1_complete(**rt, *old(store)));
                        }
                    }
                    match round2(left, store, eq, dup_v, dup_out, msg, &ext_outs, l_path, sign, agg2) {
                        Err(e) => {
                            proof {
                                lemma_agrees_mono(*old(store), *store, lv, node.values());
                            }
                            return Err(e);
                        },
                        Ok(_) => {},
                    }
                    let ghost s_a = *store;
                    proof {
                        if round1_complete(*node, *old(store)) {
                            assert forall|v: V| #[trigger] rv.contains(v) implies s_a.contains_key(
                                v,
                            ) == old(store).contains_key(v) && (old(store).contains_key(v)
                                ==> s_a.spec_get(v) == old(store).spec_get(v)) by {
                                assert(!lv.contains(v));
                                assert(s_a.contains_key(v) == old(store).contains_key(v));
                            }
                            lemma_round1_complete_frame(**rt, *old(store), s_a);
                        }
                    }
                    match round2(rt, store, eq, dup_v, dup_out, msg, &ext_outs, r_path, sign, agg2) {
                        Err(e) => {
                            proof {
                                lemma_agrees_trans(
                                    *old(store),
                                    s_a,
                                    *store,
                                    lv,
                                    rv,
                                    node.values(),
                                );
                            }
                            return Err(e);
                        },
                        Ok(_) => {},
                    }
                    proof {
                        lemma_agrees_trans(*old(store), s_a, *store, lv, rv, node.values());
                        assert forall|v: V| #[trigger] lv.contains(v) implies store.contains_key(v)
                            == s_a.contains_key(v) && (s_a.contains_key(v) ==> store.spec_get(v)
                            == s_a.spec_get(v)) by {
                            assert(!rv.contains(v));
                            assert(store.contains_key(v) == s_a.contains_key(v));
                        }
                        lemma_round2_done_frame(
                            **left,
                            s_a,
                            *store,
                            *sign,
                            *agg2,
                            *msg,
                            ext_outs@,
                            path_view(l_path@),
                        );
                        lemma_round2_done_root(
                            **left,
                            *store,
                            *sign,
                            *agg2,
                            *msg,
                            ext_outs@,
                            path_view(l_path@),
                        );
                        lemma_round2_done_root(
                            **rt,
                            *store,
                            *sign,
                            *agg2,
                            *msg,
                            ext_outs@,
                            path_view(r_path@),
                        );
                    }
                    let ghost s_b = *store;
                    let pq = {
                        let l_entry = match store.get(eq, left.value()) {
                            None => {
                                return Err(ProtocolError::StructuralInconsistency);
                            },
                            Some(st) => st,
                        };
                        let lp = match &l_entry.round2_state {
                            None => {
                                return Err(ProtocolError::StructuralInconsistency);
                            },
                            Some(p) => p,
                        };
                        let lq = match &l_entry.round2_output {
                            None => {
                                return Err(ProtocolError::StructuralInconsistency);
                            },
                            Some(q) => q,
                        };
                        let r_entry = match store.get(eq, rt.value()) {
                            None => {
                                return Err(ProtocolError::StructuralInconsistency);
                            },
                            Some(st) => st,
                        };
                        let rp = match &r_entry.round2_state {
                            None => {
                                return Err(ProtocolError::StructuralInconsistency);
                            },
                            Some(p) => p,
                        };
                        let rq = match &r_entry.round2_output {
                            None => {
                                return Err(ProtocolError::StructuralInconsistency);
                            },
                            Some(q) => q,
                        };
                        match agg2(lp, lq, rp, rq) {
                            Ok(x) => x,
                            Err(e) => {
                                return Err(ProtocolError::PrimitiveFailure(e));
                            },
                        }
                    };
                    match store.take(eq, value) {
                        None => Err(ProtocolError::StructuralInconsistency),
                        Some((k0, mut st)) => {
                            let (p2, q2) = pq;
                            st.round2_state = Some(p2);
                            st.round2_output = Some(q2);
                            store.insert(eq, k0, st);
                            proof {
                                assert(k0 == *value);
                                assert forall|v: V| #[trigger] lv.contains(v) implies store.contains_key(
                                    v,
                                ) == s_b.contains_key(v) && (s_b.contains_key(v)
                                    ==> store.spec_get(v) == s_b.spec_get(v)) by {
                                    assert(v != *value);
                                    assert(store.contains_key(v) == s_b.contains_key(v));
                                }
                                assert forall|v: V| #[trigger] rv.contains(v) implies store.contains_key(
                                    v,
                                ) == s_b.contains_key(v) && (s_b.contains_key(v)
                                    ==> store.spec_get(v) == s_b.spec_get(v)) by {
                                    assert(v != *value);
                                    assert(store.contains_key(v) == s_b.contains_key(v));
                                }
                                lemma_round2_done_frame(
                                    **left,
                                    s_b,
                                    *store,
                                    *sign,
                                    *agg2,
                                    *msg,
                                    ext_outs@,
                                    path_view(l_path@),
                                );
                                lemma_round2_done_frame(
                                    **rt,
                                    s_b,
                                    *store,
                                    *sign,
                                    *agg2,
                                    *msg,
                                    ext_outs@,
                                    path_view(r_path@),
                                );
                                lemma_values_contains_own(**left);
                                lemma_values_contains_own(**rt);
                                assert(round2_done(
                                    *node,
                                    *store,
                                    *sign,
                                    *agg2,
                                    *msg,
                                    outs_by_depth@,
                                    path_view(merkle_path@),
                                ));
                                assert forall|w: V|
                                    !node.values().contains(w) implies (
                                #[trigger] store.contains_key(w)) == old(store).contains_key(w) && (
                                old(store).contains_key(w) ==> store.spec_get(w) == old(
                                    store,
                                ).spec_get(w)) by {
                                    assert(!lv.contains(w));
                                    assert(!rv.contains(w));
                                    assert(w != *value);
                                    assert(s_a.contains_key(w) == old(store).contains_key(w));
                                    assert(s_b.contains_key(w) == s_a.contains_key(w));
                                }
                                assert forall|w: V| #[trigger]
                                    store.contains_key(w) == old(store).contains_key(w) by {
                                    if !node.values().contains(w) {
                                    } else if lv.contains(w) {
                                        assert(store.contains_key(w) == s_b.contains_key(w));
                                        assert(s_b.contains_key(w) == s_a.contains_key(w));
                                        assert(s_a.contains_key(w) == old(store).contains_key(w));
                                    } else if rv.contains(w) {
                                        assert(store.contains_key(w) == s_b.contains_key(w));
                                        assert(s_b.contains_key(w) == s_a.contains_key(w));
                                        assert(s_a.contains_key(w) == old(store).contains_key(w));
                                    } else {
                                        let j = choose|j: int|
                                            0 <= j < node.values().len() && node.values()[j] == w;
                                        assert(w == *value);
                                        assert(old(store).contains_key(w));
                                        assert(store.contains_key(w));
                                    }
                                }
                                assert forall|w: V| #[trigger]
                                    node.values().contains(w) && old(store).contains_key(
                                    w,
                                ) implies store.contains_key(w) && preserves_outside_round2(
                                    old(store).spec_get(w),
                                    store.spec_get(w),
                                ) by {
                                    if lv.contains(w) {
                                        assert(!rv.contains(w));
                                        assert(w != *value);
                                        assert(s_a.contains_key(w));
                                        assert(s_b.contains_key(w));
                                        assert(store.contains_key(w));
                                    } else if rv.contains(w) {
                                        assert(w != *value);
                                        assert(s_a.contains_key(w) == old(store).contains_key(w));
                                        assert(s_b.contains_key(w));
                                        assert(store.contains_key(w));
                                    } else {
                                        let j = choose|j: int|
                                            0 <= j < node.values().len() && node.values()[j] == w;
                                        assert(w == *value);
                                        assert(s_a.contains_key(w) == old(store).contains_key(w));
                                        assert(s_b.contains_key(w) == s_a.contains_key(w));
                                    }
                                }
                            }
                            Ok(())
                        },
                    }
                },
            }
        },
    }
}

/// Extract the completed signature: the round-2 state/output pair recorded
/// under the tree's root value. The entry is removed from the store — the
/// session is over once the signature is read. An absent or incomplete root
/// entry is a fatal `StructuralInconsistency`.
pub fn root_signature<V, K, S, O, P, Q, E, FEq: Fn(&V, &V) -> bool>(
    tree: &BinTree<V>,
    store: &mut StateStore<V, K, S, O, P, Q>,
    eq: &FEq,
) -> (r: Result<(P, Q), ProtocolError<E>>)
    requires
        old(store).wf(),
        eq_decides::<V, FEq>(*eq),
    ensures
        final (store).wf(),
        r is Ok <==> (old(store).contains_key(tree.spec_value()) && old(store).spec_get(
            tree.spec_value(),
        ).round2_state is Some && old(store).spec_get(tree.spec_value()).round2_output is Some),
        r matches Ok(pq) ==> pq.0 == old(store).spec_get(tree.spec_value()).round2_state->Some_0
            && pq.1 == old(store).spec_get(tree.spec_value()).round2_output->Some_0,
        r matches Err(e) ==> e is StructuralInconsistency,
{
    match store.take(eq, tree.value()) {
        None => Err(ProtocolError::StructuralInconsistency),
        Some((_key, st)) => match st.round2_state {
            None => Err(ProtocolError::StructuralInconsistency),
            Some(p) => match st.round2_output {
                None => Err(ProtocolError::StructuralInconsistency),
                Some(q) => Ok((p, q)),
            },
        },
    }
}

} // verus!
