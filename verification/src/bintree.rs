use vstd::prelude::*;

use crate::error::ProtocolError;

verus! {

/// A balanced binary aggregation tree. Every node, leaf or internal, carries
/// a value of type `T` (a public-key-like aggregate identifier). A `Leaf`
/// stands for one participant; a `Node` owns its children and caches the
/// combined value of the subtree. The builder only ever produces nodes with
/// both children present; a `Node` whose `right` is `None` can be written by
/// hand and is rejected by the round-two traversal.
#[derive(Debug, PartialEq, Eq)]
pub enum BinTree<T> {
    Leaf(T),
    Node { left: Box<BinTree<T>>, right: Option<Box<BinTree<T>>>, value: T },
}

impl<T> BinTree<T> {
    /// The value carried at this node (for an internal node, the cached
    /// aggregate of its subtree).
    pub open spec fn spec_value(self) -> T {
        match self {
            BinTree::Leaf(value) => value,
            BinTree::Node { left: _, right: _, value } => value,
        }
    }

    /// Height counted in nodes: a single leaf has height 1.
    pub open spec fn spec_height(self) -> nat
        decreases self,
    {
        match self {
            BinTree::Leaf(_) => 1,
            BinTree::Node { left, right, value: _ } => {
                let lh = left.spec_height();
                let rh = match right {
                    Some(r) => r.spec_height(),
                    None => 0,
                };
                1 + if lh >= rh {
                    lh
                } else {
                    rh
                }
            },
        }
    }

    /// How many leaves are reachable by depth-first descent.
    pub open spec fn spec_leaf_count(self) -> nat
        decreases self,
    {
        match self {
            BinTree::Leaf(_) => 1,
            BinTree::Node { left, right, value: _ } => left.spec_leaf_count() + match right {
                Some(r) => r.spec_leaf_count(),
                None => 0,
            },
        }
    }

    /// The leaf values in left-to-right order.
    pub open spec fn leaves(self) -> Seq<T>
        decreases self,
    {
        match self {
            BinTree::Leaf(value) => seq![value],
            BinTree::Node { left, right, value: _ } => left.leaves() + match right {
                Some(r) => r.leaves(),
                None => Seq::empty(),
            },
        }
    }

    /// Every value carried in the tree, leaves and internal nodes alike.
    pub open spec fn values(self) -> Seq<T>
        decreases self,
    {
        match self {
            BinTree::Leaf(value) => seq![value],
            BinTree::Node { left, right, value } => left.values() + (match right {
                Some(r) => r.values(),
                None => Seq::empty(),
            }) + seq![value],
        }
    }

    /// Every internal node owns both of its children.
    pub open spec fn full(self) -> bool
        decreases self,
    {
        match self {
            BinTree::Leaf(_) => true,
            BinTree::Node { left, right, value: _ } => match right {
                Some(r) => left.full() && r.full(),
                None => false,
            },
        }
    }

    /// Wrap a single value as a terminal node.
    pub fn leaf(value: T) -> (r: Self)
        ensures
            r == BinTree::Leaf(value),
    {
        BinTree::Leaf(value)
    }

    /// Join two subtrees under a fresh internal node carrying `value`.
    pub fn node(left: Self, right: Self, value: T) -> (r: Self)
        ensures
            r is Node,
            r.spec_value() == value,
            r matches BinTree::Node { left: l, right: rr, value: v } ==> *l == left && (
            rr matches Some(rb) && *rb == right) && v == value,
    {
        BinTree::Node { left: Box::new(left), right: Some(Box::new(right)), value }
    }

    /// Read the value carried at this node.
    pub fn value(&self) -> (r: &T)
        ensures
            *r == self.spec_value(),
    {
        match self {
            BinTree::Leaf(value) => value,
            BinTree::Node { left: _, right: _, value } => value,
        }
    }

    pub fn is_leaf(&self) -> (r: bool)
        ensures
            r == (*self is Leaf),
    {
        match self {
            BinTree::Leaf(_) => true,
            BinTree::Node { .. } => false,
        }
    }

    pub fn is_node(&self) -> (r: bool)
        ensures
            r == (*self is Node),
    {
        match self {
            BinTree::Leaf(_) => false,
            BinTree::Node { .. } => true,
        }
    }

    /// Height counted in nodes (a single leaf has height 1).
    pub fn height(&self) -> (r: usize)
        requires
            self.spec_height() <= usize::MAX,
        ensures
            r == self.spec_height(),
        decreases *self,
    {
        match self {
            BinTree::Leaf(_) => 1,
            BinTree::Node { left, right, value: _ } => {
                let lh = left.height();
                match right {
                    Some(rt) => {
                        let rh = rt.height();
                        1 + if lh >= rh {
                            lh
                        } else {
                            rh
                        }
                    },
                    None => 1 + lh,
                }
            },
        }
    }

    /// The number of leaves in the tree.
    pub fn leaf_count(&self) -> (r: usize)
        requires
            self.spec_leaf_count() <= usize::MAX,
        ensures
            r == self.spec_leaf_count(),
        decreases *self,
    {
        match self {
            BinTree::Leaf(_) => 1,
            BinTree::Node { left, right, value: _ } => {
                let lc = left.leaf_count();
                match right {
                    Some(rt) => {
                        let rc = rt.leaf_count();
                        lc + rc
                    },
                    None => lc,
                }
            },
        }
    }
}

/// Every internal node's value is a possible result of the combine capability
/// `f` applied to its children's values; an unpaired carry keeps the child's
/// value unchanged. This is the sense in which the tree caches aggregates.
pub open spec fn combined_ok<T, E, F: Fn(&T, &T) -> Result<T, E>>(t: BinTree<T>, f: F) -> bool
    decreases t,
{
    match t {
        BinTree::Leaf(_) => true,
        BinTree::Node { left, right, value } => {
            &&& combined_ok(*left, f)
            &&& match right {
                Some(r) => combined_ok(*r, f) && call_ensures(
                    f,
                    (&left.spec_value(), &r.spec_value()),
                    Ok(value),
                ),
                None => value == left.spec_value(),
            }
        },
    }
}

/// The height of the tree the builder produces over `k` leaves. The shape is
/// fixed purely by `k`: each pairing pass turns `k` nodes into `(k + 1) / 2`.
pub open spec fn shape_height(k: nat) -> nat
    decreases k,
{
    if k <= 1 {
        1
    } else {
        1 + shape_height(((k + 1) / 2) as nat)
    }
}

pub open spec fn pow2(n: nat) -> nat
    decreases n,
{
    if n == 0 {
        1
    } else {
        2 * pow2((n - 1) as nat)
    }
}

/// The leaf values of a whole level of subtrees, left to right.
pub open spec fn leaves_of_level<T>(s: Seq<BinTree<T>>) -> Seq<T>
    decreases s.len(),
{
    if s.len() == 0 {
        Seq::empty()
    } else {
        s[0].leaves() + leaves_of_level(s.subrange(1, s.len() as int))
    }
}

/// A tree holds exactly as many leaves as its left-to-right leaf sequence.
pub proof fn lemma_leaf_count_is_len<T>(t: BinTree<T>)
    ensures
        t.spec_leaf_count() == t.leaves().len(),
    decreases t,
{
    match t {
        BinTree::Leaf(_) => {},
        BinTree::Node { left, right, value: _ } => {
            lemma_leaf_count_is_len(*left);
            match right {
                Some(r) => lemma_leaf_count_is_len(*r),
                None => {},
            }
        },
    }
}

/// The height of a built tree lies between 1 and the number of leaves.
pub proof fn lemma_shape_height_bounds(k: nat)
    requires
        k >= 1,
    ensures
        1 <= shape_height(k) <= k,
    decreases k,
{
    if k > 1 {
        lemma_shape_height_bounds(((k + 1) / 2) as nat);
    }
}

pub proof fn lemma_pow2_pos(n: nat)
    ensures
        pow2(n) >= 1,
    decreases n,
{
    if n > 0 {
        lemma_pow2_pos((n - 1) as nat);
    }
}

/// Over a power of two leaves the built tree is perfect: its height is the
/// exponent plus one.
pub proof fn lemma_shape_height_pow2(n: nat)
    ensures
        shape_height(pow2(n)) == n + 1,
    decreases n,
{
    if n > 0 {
        lemma_pow2_pos((n - 1) as nat);
        lemma_shape_height_pow2((n - 1) as nat);
        assert(pow2(n) == 2 * pow2((n - 1) as nat));
        assert(((pow2(n) + 1) / 2) as nat == pow2((n - 1) as nat));
    }
}

/// Over a leaf count strictly between two powers of two the built height is
/// the larger exponent plus one — strictly above ⌊log2 k⌋ + 1. Together with
/// `lemma_shape_height_pow2` this makes the power-of-two equality exact.
pub proof fn lemma_shape_height_between_pow2(n: nat, k: nat)
    requires
        pow2(n) < k < pow2(n + 1),
    ensures
        shape_height(k) == n + 2,
    decreases n,
{
    lemma_pow2_pos(n);
    if n == 0 {
    } else {
        lemma_pow2_pos((n - 1) as nat);
        assert(pow2(n) == 2 * pow2((n - 1) as nat));
        assert(pow2(n + 1) == 2 * pow2(n));
        let c = ((k + 1) / 2) as nat;
        assert(pow2((n - 1) as nat) < c <= pow2(n));
        if c == pow2(n) {
            lemma_shape_height_pow2(n);
        } else {
            lemma_shape_height_between_pow2((n - 1) as nat, c);
        }
    }
}

proof fn lemma_level_push<T>(s: Seq<BinTree<T>>, t: BinTree<T>)
    ensures
        leaves_of_level(s.push(t)) == leaves_of_level(s) + t.leaves(),
    decreases s.len(),
{
    if s.len() == 0 {
        assert(s.push(t).len() == 1);
        assert(s.push(t)[0] == t);
        assert(s.push(t).subrange(1, s.push(t).len() as int) =~= Seq::<BinTree<T>>::empty());
        assert(leaves_of_level(s.push(t).subrange(1, s.push(t).len() as int)) == Seq::<
            T,
        >::empty());
        assert(leaves_of_level(s) + t.leaves() =~= t.leaves());
        assert(leaves_of_level(s.push(t)) =~= t.leaves());
    } else {
        let s1 = s.subrange(1, s.len() as int);
        lemma_level_push(s1, t);
        assert(s.push(t).subrange(1, s.push(t).len() as int) =~= s1.push(t));
        assert(leaves_of_level(s.push(t)) =~= leaves_of_level(s) + t.leaves());
    }
}

proof fn lemma_level_take_one_more<T>(s: Seq<BinTree<T>>, m: int)
    requires
        0 <= m < s.len(),
    ensures
        leaves_of_level(s.subrange(0, m + 1)) == leaves_of_level(s.subrange(0, m))
            + s[m].leaves(),
{
    assert(s.subrange(0, m + 1) =~= s.subrange(0, m).push(s[m]));
    lemma_level_push(s.subrange(0, m), s[m]);
}

proof fn lemma_level_of_leaves<T>(s: Seq<BinTree<T>>, o: Seq<T>)
    requires
        s.len() == o.len(),
        forall|i: int| 0 <= i < s.len() ==> s[i] == BinTree::Leaf(o[i]),
    ensures
        leaves_of_level(s) == o,
    decreases s.len(),
{
    if s.len() == 0 {
        assert(leaves_of_level(s) =~= o);
    } else {
        let s1 = s.subrange(1, s.len() as int);
        let o1 = o.subrange(1, o.len() as int);
        lemma_level_of_leaves(s1, o1);
        assert(s[0] == BinTree::Leaf(o[0]));
        assert(s[0].leaves() =~= seq![o[0]]);
        assert(leaves_of_level(s) =~= o);
    }
}

impl<T> BinTree<T> {
    /// Build the deterministic balanced tree over `leaves`, in order, using
    /// the caller-supplied pairwise combine capability `agg`.
    ///
    /// The tree's shape depends only on the number of leaves, so the same
    /// participant ordering always yields the same structural tree. An empty
    /// input is rejected with `EmptyInput`; a combine failure is surfaced as
    /// `PrimitiveFailure` and aborts the build.
    pub fn from_vec<E, F: Fn(&T, &T) -> Result<T, E>>(leaves: Vec<T>, agg: F) -> (r: Result<
        Self,
        ProtocolError<E>,
    >)
        requires
            forall|a: &T, b: &T| #[trigger] call_requires(agg, (a, b)),
        ensures
            (leaves@.len() == 0) <==> (r matches Err(e) && e is EmptyInput),
            r matches Err(e) ==> e is EmptyInput || e is PrimitiveFailure,
            r matches Err(e) && e is PrimitiveFailure ==> exists|a: &T, b: &T, e0: E|
                call_ensures(agg, (a, b), Err(e0)),
            r matches Ok(t) ==> {
                &&& t.leaves() == leaves@
                &&& t.spec_leaf_count() == leaves@.len()
                &&& t.full()
                &&& combined_ok(t, agg)
                &&& t.spec_height() == shape_height(leaves@.len() as nat)
                &&& 1 <= t.spec_height() <= leaves@.len()
                &&& (leaves@.len() == 1 ==> t == BinTree::Leaf(leaves@[0]))
            },
            leaves@.len() >= 1 && (forall|a: &T, b: &T, ret: Result<T, E>|
                call_ensures(agg, (a, b), ret) ==> ret is Ok) ==> r is Ok,
    {
        if leaves.len() == 0 {
            return Err(ProtocolError::EmptyInput);
        }
        let ghost orig = leaves@;
        let mut rest = leaves;
        let mut nodes: Vec<BinTree<T>> = Vec::new();
        while rest.len() > 0
            invariant
                nodes@.len() + rest@.len() == orig.len(),
                rest@ == orig.subrange(nodes@.len() as int, orig.len() as int),
                forall|i: int| 0 <= i < nodes@.len() ==> nodes@[i] == BinTree::Leaf(orig[i]),
            decreases rest@.len(),
        {
            let ghost done = nodes@.len() as int;
            let x = rest.remove(0);
            proof {
                assert(x == orig[done]);
            }
            nodes.push(BinTree::Leaf(x));
            proof {
                assert(rest@ =~= orig.subrange(nodes@.len() as int, orig.len() as int));
            }
        }
        proof {
            lemma_level_of_leaves(nodes@, orig);
            assert forall|i: int| 0 <= i < nodes@.len() implies (#[trigger] nodes@[i]).full()
                && combined_ok(nodes@[i], agg) && nodes@[i].spec_height() == 1 by {
                assert(nodes@[i] == BinTree::Leaf(orig[i]));
            }
            lemma_shape_height_bounds(orig.len() as nat);
        }
        let r = Self::build_tree(nodes, agg);
        proof {
            if r is Ok {
                let t = r->Ok_0;
                lemma_leaf_count_is_len(t);
            }
        }
        r
    }

    fn build_tree<E, F: Fn(&T, &T) -> Result<T, E>>(nodes: Vec<BinTree<T>>, agg: F) -> (r: Result<
        Self,
        ProtocolError<E>,
    >)
        requires
            nodes@.len() >= 1,
            forall|a: &T, b: &T| #[trigger] call_requires(agg, (a, b)),
            forall|i: int| 0 <= i < nodes@.len() ==> (#[trigger] nodes@[i]).full(),
            forall|i: int| 0 <= i < nodes@.len() ==> combined_ok(#[trigger] nodes@[i], agg),
            forall|i: int, j: int|
                #![trigger nodes@[i].spec_height(), nodes@[j].spec_height()]
                0 <= i <= j < nodes@.len() ==> nodes@[j].spec_height() <= nodes@[i].spec_height(),
        ensures
            r matches Ok(t) ==> {
                &&& t.leaves() == leaves_of_level(nodes@)
                &&& t.full()
                &&& combined_ok(t, agg)
                &&& t.spec_height() + 1 == nodes@[0].spec_height() + shape_height(
                    nodes@.len() as nat,
                )
                &&& (nodes@.len() == 1 ==> t == nodes@[0])
            },
            r matches Err(e) ==> e is PrimitiveFailure,
            r matches Err(e) && e is PrimitiveFailure ==> exists|a: &T, b: &T, e0: E|
                call_ensures(agg, (a, b), Err(e0)),
            (forall|a: &T, b: &T, ret: Result<T, E>| call_ensures(agg, (a, b), ret) ==> ret
                is Ok) ==> r is Ok,
    {
        let ghost orig = nodes@;
        let mut level = nodes;
        while level.len() > 1
            invariant
                level@.len() >= 1,
                forall|a: &T, b: &T| #[trigger] call_requires(agg, (a, b)),
                forall|i: int| 0 <= i < level@.len() ==> (#[trigger] level@[i]).full(),
                forall|i: int| 0 <= i < level@.len() ==> combined_ok(#[trigger] level@[i], agg),
                forall|i: int, j: int|
                    #![trigger level@[i].spec_height(), level@[j].spec_height()]
                    0 <= i <= j < level@.len() ==> level@[j].spec_height()
                        <= level@[i].spec_height(),
                leaves_of_level(level@) == leaves_of_level(orig),
                level@[0].spec_height() + shape_height(level@.len() as nat) == orig[0].spec_height()
                    + shape_height(orig.len() as nat),
                orig.len() == 1 ==> level@ == orig,
            decreases level@.len(),
        {
            let ghost prev = level@;
            let mut next: Vec<BinTree<T>> = Vec::new();
            while level.len() >= 2
                invariant
                    forall|a: &T, b: &T| #[trigger] call_requires(agg, (a, b)),
                    2 * next@.len() + level@.len() == prev.len(),
                    level@ == prev.subrange(2 * next@.len() as int, prev.len() as int),
                    forall|i: int| 0 <= i < prev.len() ==> (#[trigger] prev[i]).full(),
                    forall|i: int| 0 <= i < prev.len() ==> combined_ok(#[trigger] prev[i], agg),
                    forall|i: int, j: int|
                        #![trigger prev[i].spec_height(), prev[j].spec_height()]
                        0 <= i <= j < prev.len() ==> prev[j].spec_height()
                            <= prev[i].spec_height(),
                    forall|i: int| 0 <= i < next@.len() ==> (#[trigger] next@[i]).full(),
                    forall|i: int| 0 <= i < next@.len() ==> combined_ok(#[trigger] next@[i], agg),
                    forall|i: int|
                        0 <= i < next@.len() ==> (#[trigger] next@[i]).spec_height() == 1 + prev[
                            2 * i
                        ].spec_height(),
                    leaves_of_level(next@) == leaves_of_level(
                        prev.subrange(0, 2 * next@.len() as int),
                    ),
                decreases level@.len(),
            {
                let ghost done = 2 * next@.len() as int;
                let l = level.remove(0);
                let rt = level.remove(0);
                proof {
                    assert(l == prev[done]);
                    assert(rt == prev[done + 1]);
                    assert(level@ =~= prev.subrange(done + 2, prev.len() as int));
                }
                let v = match agg(l.value(), rt.value()) {
                    Ok(v) => v,
                    Err(e) => {
                        return Err(ProtocolError::PrimitiveFailure(e));
                    },
                };
                let n = BinTree::node(l, rt, v);
                proof {
                    assert(n.full());
                    assert(combined_ok(n, agg));
                    assert(prev[done + 1].spec_height() <= prev[done].spec_height());
                    assert(n.spec_height() == 1 + prev[done].spec_height());
                    assert(n.leaves() =~= prev[done].leaves() + prev[done + 1].leaves());
                    lemma_level_push(next@, n);
                    lemma_level_take_one_more(prev, done);
                    lemma_level_take_one_more(prev, done + 1);
                }
                next.push(n);
            }
            let ghost pairs = next@.len() as int;
            if level.len() == 1 {
                let carried = level.remove(0);
                proof {
                    assert(carried == prev[prev.len() - 1]);
                    lemma_level_push(next@, carried);
                    lemma_level_take_one_more(prev, prev.len() - 1);
                    assert(prev.subrange(0, prev.len() as int) =~= prev);
                }
                next.push(carried);
            } else {
                proof {
                    assert(prev.subrange(0, 2 * pairs) =~= prev);
                }
            }
            proof {
                assert(next@.len() == (prev.len() + 1) / 2);
                assert(pairs >= 1);
                assert(next@[0].spec_height() == 1 + prev[0].spec_height());
                assert(shape_height(prev.len() as nat) == 1 + shape_height(next@.len() as nat));
                assert forall|i: int, j: int| 0 <= i <= j < next@.len() implies #[trigger] next@[j].spec_height()
                    <= #[trigger] next@[i].spec_height() by {
                    if j < pairs {
                        assert(prev[2 * j].spec_height() <= prev[2 * i].spec_height());
                    } else if i < pairs {
                        assert(next@[j].spec_height() == prev[prev.len() - 1].spec_height());
                        assert(prev[prev.len() - 1].spec_height() <= prev[2 * i].spec_height());
                    }
                }
            }
            level = next;
        }
        let ghost fin = level@;
        let t = level.remove(0);
        proof {
            assert(t == fin[0]);
            assert(fin.len() == 1);
            assert(fin.subrange(1, fin.len() as int) =~= Seq::<BinTree<T>>::empty());
            assert(leaves_of_level(fin.subrange(1, fin.len() as int)) == Seq::<T>::empty());
            assert(leaves_of_level(fin) =~= t.leaves() + Seq::<T>::empty());
            assert(t.leaves() + Seq::<T>::empty() =~= t.leaves());
        }
        Ok(t)
    }
}

} // verus!
