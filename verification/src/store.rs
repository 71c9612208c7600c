use vstd::prelude::*;

verus! {

/// The signing state recorded for one tree node, keyed by that node's value.
///
/// `secret_key` is present only for leaves a local participant controls.
/// Round one fills `round1_state` and `round1_output` for leaves; for
/// internal nodes it fills `round1_output` with the aggregated-and-extended
/// subtree contribution and `round1_internal` with the pre-extension
/// aggregate that round two later needs as context. Round two fills
/// `round2_state` and `round2_output` bottom-up; at the root those two are
/// the completed signature.
#[derive(Debug)]
pub struct NodeState<K, S, O, P, Q> {
    pub secret_key: Option<K>,
    pub round1_state: Option<S>,
    pub round1_output: Option<O>,
    pub round1_internal: Option<O>,
    pub round2_state: Option<P>,
    pub round2_output: Option<Q>,
}

/// The capability `f` decides equality of node values: it may always be
/// called, and it answers `true` exactly when the two values are equal.
pub open spec fn eq_decides<V, F: Fn(&V, &V) -> bool>(f: F) -> bool {
    &&& forall|a: &V, b: &V| #[trigger] call_requires(f, (a, b))
    &&& forall|a: &V, b: &V, r: bool| #[trigger] call_ensures(f, (a, b), r) ==> r == (*a == *b)
}

/// The capability `f` duplicates a value exactly: it may always be called,
/// and whatever it returns equals its argument.
pub open spec fn dup_exact<T, F: Fn(&T) -> T>(f: F) -> bool {
    &&& forall|a: &T| #[trigger] call_requires(f, (a,))
    &&& forall|a: &T, r: T| #[trigger] call_ensures(f, (a,), r) ==> r == *a
}

/// The per-session store of protocol state, one entry per tree node, keyed
/// by the node's value. It is created empty, pre-populated with one entry
/// per leaf, filled by the two rounds, and discarded once the root signature
/// is extracted.
pub struct StateStore<V, K, S, O, P, Q> {
    entries: Vec<(V, NodeState<K, S, O, P, Q>)>,
}

impl<V, K, S, O, P, Q> StateStore<V, K, S, O, P, Q> {
    /// No two entries share a key.
    pub closed spec fn wf(self) -> bool {
        forall|i: int, j: int|
            0 <= i < j < self.entries@.len() ==> self.entries@[i].0 != self.entries@[j].0
    }

    pub closed spec fn contains_key(self, v: V) -> bool {
        exists|i: int| 0 <= i < self.entries@.len() && self.entries@[i].0 == v
    }

    pub closed spec fn index_of(self, v: V) -> int {
        choose|i: int| 0 <= i < self.entries@.len() && self.entries@[i].0 == v
    }

    /// The state recorded under key `v`; meaningful only when
    /// `contains_key(v)` holds.
    pub closed spec fn spec_get(self, v: V) -> NodeState<K, S, O, P, Q> {
        self.entries@[self.index_of(v)].1
    }

    proof fn lemma_at(self, i: int)
        requires
            self.wf(),
            0 <= i < self.entries@.len(),
        ensures
            self.contains_key(self.entries@[i].0),
            self.index_of(self.entries@[i].0) == i,
            self.spec_get(self.entries@[i].0) == self.entries@[i].1,
    {
        let v = self.entries@[i].0;
        assert(0 <= i < self.entries@.len() && self.entries@[i].0 == v);
        assert(self.contains_key(v));
        let j = self.index_of(v);
        assert(0 <= j < self.entries@.len() && self.entries@[j].0 == v);
        if i != j {
            if i < j {
                assert(self.entries@[i].0 != self.entries@[j].0);
            } else {
                assert(self.entries@[j].0 != self.entries@[i].0);
            }
        }
    }

    /// A fresh store with no entries.
    pub fn new() -> (r: Self)
        ensures
            r.wf(),
            forall|v: V| !r.contains_key(v),
    {
        StateStore { entries: Vec::new() }
    }

    /// Look up the state recorded under `*key`, deciding key equality with
    /// the injected capability `eq`.
    pub fn get<'a, FEq: Fn(&V, &V) -> bool>(&'a self, eq: &FEq, key: &V) -> (r: Option<
        &'a NodeState<K, S, O, P, Q>,
    >)
        requires
            self.wf(),
            eq_decides::<V, FEq>(*eq),
        ensures
            r is Some <==> self.contains_key(*key),
            r matches Some(st) ==> *st == self.spec_get(*key),
    {
        let n = self.entries.len();
        let mut i: usize = 0;
        while i < n
            invariant
                n == self.entries@.len(),
                0 <= i <= n,
                self.wf(),
                eq_decides::<V, FEq>(*eq),
                forall|j: int| 0 <= j < i ==> self.entries@[j].0 != *key,
            decreases n - i,
        {
            let e = &self.entries[i];
            if eq(&e.0, key) {
                proof {
                    self.lemma_at(i as int);
                }
                return Some(&e.1);
            }
            i += 1;
        }
        proof {
            assert(!self.contains_key(*key));
        }
        None
    }

    /// Remove and hand back the entry stored under `*key`, if any.
    pub fn take<FEq: Fn(&V, &V) -> bool>(&mut self, eq: &FEq, key: &V) -> (r: Option<
        (V, NodeState<K, S, O, P, Q>),
    >)
        requires
            old(self).wf(),
            eq_decides::<V, FEq>(*eq),
        ensures
            final (self).wf(),
            r is Some <==> old(self).contains_key(*key),
            r matches Some(pr) ==> pr.0 == *key && pr.1 == old(self).spec_get(*key),
            !final (self).contains_key(*key),
            forall|w: V| w != *key ==> final (self).contains_key(w) == old(self).contains_key(w),
            forall|w: V|
                w != *key && old(self).contains_key(w) ==> final (self).spec_get(w) == old(
                    self,
                ).spec_get(w),
            r is None ==> *final (self) == *old(self),
    {
        let n = self.entries.len();
        let mut i: usize = 0;
        while i < n
            invariant
                *self == *old(self),
                n == self.entries@.len(),
                0 <= i <= n,
                self.wf(),
                eq_decides::<V, FEq>(*eq),
                forall|j: int| 0 <= j < i ==> self.entries@[j].0 != *key,
            decreases n - i,
        {
            let hit = {
                let e = &self.entries[i];
                eq(&e.0, key)
            };
            if hit {
                proof {
                    self.lemma_at(i as int);
                }
                let ghost before = *self;
                let pr = self.entries.remove(i);
                proof {
                    let pre = before.entries@;
                    let post = self.entries@;
                    assert(post =~= pre.subrange(0, i as int) + pre.subrange(
                        i as int + 1,
                        pre.len() as int,
                    ));
                    assert forall|a: int, b: int|
                        0 <= a < b < post.len() implies post[a].0 != post[b].0 by {
                        let a0: int = if a < i as int {
                            a
                        } else {
                            a + 1
                        };
                        let b0: int = if b < i as int {
                            b
                        } else {
                            b + 1
                        };
                        assert(post[a] == pre[a0]);
                        assert(post[b] == pre[b0]);
                    }
                    assert forall|w: V| #[trigger]
                        self.contains_key(w) implies w != *key && before.contains_key(w) by {
                        let a = self.index_of(w);
                        let a0: int = if a < i as int {
                            a
                        } else {
                            a + 1
                        };
                        assert(post[a] == pre[a0]);
                        before.lemma_at(a0);
                    }
                    assert forall|w: V|
                        w != *key && #[trigger] before.contains_key(w) implies self.contains_key(w)
                        && self.spec_get(w) == before.spec_get(w) by {
                        let a0 = before.index_of(w);
                        assert(0 <= a0 < pre.len() && pre[a0].0 == w);
                        before.lemma_at(a0);
                        let a: int = if a0 < i as int {
                            a0
                        } else {
                            a0 - 1
                        };
                        assert(post[a] == pre[a0]);
                        self.lemma_at(a);
                    }
                }
                return Some(pr);
            }
            i += 1;
        }
        proof {
            assert(!self.contains_key(*key));
        }
        None
    }

    /// Record `st` under `key`, replacing whatever entry held that key.
    pub fn insert<FEq: Fn(&V, &V) -> bool>(
        &mut self,
        eq: &FEq,
        key: V,
        st: NodeState<K, S, O, P, Q>,
    )
        requires
            old(self).wf(),
            eq_decides::<V, FEq>(*eq),
        ensures
            final (self).wf(),
            final (self).contains_key(key),
            final (self).spec_get(key) == st,
            forall|w: V| w != key ==> final (self).contains_key(w) == old(self).contains_key(w),
            forall|w: V|
                w != key && old(self).contains_key(w) ==> final (self).spec_get(w) == old(
                    self,
                ).spec_get(w),
    {
        let _dropped = self.take(eq, &key);
        let ghost mid = *self;
        self.entries.push((key, st));
        proof {
            let pre = mid.entries@;
            let post = self.entries@;
            let m = pre.len() as int;
            assert(post =~= pre.push((key, st)));
            assert forall|a: int, b: int| 0 <= a < b < post.len() implies post[a].0 != post[b].0 by {
                if b < m {
                    assert(post[a] == pre[a]);
                    assert(post[b] == pre[b]);
                } else {
                    assert(post[a] == pre[a]);
                    mid.lemma_at(a);
                    assert(!mid.contains_key(key));
                }
            }
            self.lemma_at(m);
            assert forall|w: V|
                w != key && #[trigger] self.contains_key(w) implies mid.contains_key(w) by {
                let a = self.index_of(w);
                assert(0 <= a < post.len() && post[a].0 == w);
                assert(a != m);
                assert(post[a] == pre[a]);
                mid.lemma_at(a);
            }
            assert forall|w: V|
                w != key && #[trigger] mid.contains_key(w) implies self.contains_key(w)
                && self.spec_get(w) == mid.spec_get(w) by {
                let a = mid.index_of(w);
                mid.lemma_at(a);
                assert(0 <= a < pre.len() && pre[a].0 == w);
                assert(post[a] == pre[a]);
                self.lemma_at(a);
            }
        }
    }
}

} // verus!
