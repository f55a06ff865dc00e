//! The in-order view of a measured B-Tree: the sequence of its data items from left
//! to right, and a traversal that lists them.
use vstd::prelude::*;
use crate::btree::{MeasuredBTree, MeasuredBTreeData, MeasuredBTreeNode, PoolIndex, node_ok, node_shape_ok, data_models, kid_models, Measure};
use crate::measure::{psum, padd, plt, ple, psub, lemma_psum_concat, lemma_psum_push, lemma_psum_take_below};

verus! {

/// The data items under node `i`, from left to right; `depth` bounds the descent (the
/// level of `i` suffices in a well-formed tree).
pub open spec fn items_under<T: MeasuredBTreeData>(pool: Seq<MeasuredBTreeNode<T>>, i: int, depth: nat) -> Seq<T>
    decreases depth, 0nat,
{
    match pool[i] {
        MeasuredBTreeNode::Leaf { data, .. } => data@,
        MeasuredBTreeNode::Internal { children, .. } => if depth == 0 {
            Seq::empty()
        } else {
            items_of_kids(pool, children@, (depth - 1) as nat)
        },
    }
}

/// The data items under the given children, from left to right.
pub open spec fn items_of_kids<T: MeasuredBTreeData>(
    pool: Seq<MeasuredBTreeNode<T>>,
    kids: Seq<PoolIndex>,
    depth: nat,
) -> Seq<T>
    decreases depth, kids.len() + 1,
{
    if kids.len() == 0 {
        Seq::empty()
    } else {
        items_of_kids(pool, kids.drop_last(), depth) + items_under(pool, kids.last() as int, depth)
    }
}

/// Where the data items under node `i` sit, from left to right: for each, the pool index
/// of its leaf and its index within that leaf.
pub open spec fn locs_under<T: MeasuredBTreeData>(pool: Seq<MeasuredBTreeNode<T>>, i: int, depth: nat) -> Seq<(int, int)>
    decreases depth, 0nat,
{
    match pool[i] {
        MeasuredBTreeNode::Leaf { data, .. } => Seq::new(data@.len(), |k: int| (i, k)),
        MeasuredBTreeNode::Internal { children, .. } => if depth == 0 {
            Seq::empty()
        } else {
            locs_of_kids(pool, children@, (depth - 1) as nat)
        },
    }
}

/// Where the data items under the given children sit, from left to right.
pub open spec fn locs_of_kids<T: MeasuredBTreeData>(
    pool: Seq<MeasuredBTreeNode<T>>,
    kids: Seq<PoolIndex>,
    depth: nat,
) -> Seq<(int, int)>
    decreases depth, kids.len() + 1,
{
    if kids.len() == 0 {
        Seq::empty()
    } else {
        locs_of_kids(pool, kids.drop_last(), depth) + locs_under(pool, kids.last() as int, depth)
    }
}

/// The locations under node `i` match its items one for one: the item at position `j`
/// is the item stored at location `j`.
pub proof fn lemma_locs_under<T: MeasuredBTreeData>(pool: Seq<MeasuredBTreeNode<T>>, i: int, depth: nat)
    ensures
        locs_under(pool, i, depth).len() == items_under(pool, i, depth).len(),
        forall|j: int| 0 <= j < items_under(pool, i, depth).len()
            ==> pool[(#[trigger] locs_under(pool, i, depth)[j]).0].items()[locs_under(pool, i, depth)[j].1]
                == items_under(pool, i, depth)[j],
    decreases depth, 0nat, 0int,
{
    match pool[i] {
        MeasuredBTreeNode::Leaf { data, .. } => {},
        MeasuredBTreeNode::Internal { children, .. } => {
            if depth > 0 {
                lemma_locs_kids(pool, children@, (depth - 1) as nat);
            }
        },
    }
}

/// The locations under a list of children match their items one for one.
pub proof fn lemma_locs_kids<T: MeasuredBTreeData>(pool: Seq<MeasuredBTreeNode<T>>, kids: Seq<PoolIndex>, depth: nat)
    ensures
        locs_of_kids(pool, kids, depth).len() == items_of_kids(pool, kids, depth).len(),
        forall|j: int| 0 <= j < items_of_kids(pool, kids, depth).len()
            ==> pool[(#[trigger] locs_of_kids(pool, kids, depth)[j]).0].items()[locs_of_kids(pool, kids, depth)[j].1]
                == items_of_kids(pool, kids, depth)[j],
    decreases depth, 1nat, kids.len(),
{
    if kids.len() > 0 {
        lemma_locs_kids(pool, kids.drop_last(), depth);
        lemma_locs_under(pool, kids.last() as int, depth);
        let la = locs_of_kids(pool, kids.drop_last(), depth);
        let lb = locs_under(pool, kids.last() as int, depth);
        let ia = items_of_kids(pool, kids.drop_last(), depth);
        let ib = items_under(pool, kids.last() as int, depth);
        assert forall|j: int| 0 <= j < (ia + ib).len() implies
            pool[(#[trigger] (la + lb)[j]).0].items()[(la + lb)[j].1] == (ia + ib)[j] by {
            if j < ia.len() {
                assert((la + lb)[j] == la[j]);
                assert((ia + ib)[j] == ia[j]);
            } else {
                assert((la + lb)[j] == lb[j - la.len()]);
                assert((ia + ib)[j] == ib[j - ia.len()]);
            }
        }
    }
}

/// The locations under a list of children split where the list splits.
pub proof fn lemma_locs_of_kids_concat<T: MeasuredBTreeData>(
    pool: Seq<MeasuredBTreeNode<T>>,
    a: Seq<PoolIndex>,
    b: Seq<PoolIndex>,
    d: nat,
)
    ensures
        locs_of_kids(pool, a + b, d) == locs_of_kids(pool, a, d) + locs_of_kids(pool, b, d),
    decreases b.len(),
{
    if b.len() == 0 {
        assert(a + b =~= a);
        assert(locs_of_kids(pool, a, d) + locs_of_kids(pool, b, d) =~= locs_of_kids(pool, a, d));
    } else {
        lemma_locs_of_kids_concat(pool, a, b.drop_last(), d);
        assert((a + b).drop_last() =~= a + b.drop_last());
        assert((a + b).last() == b.last());
        assert(locs_of_kids(pool, a + b, d) =~= locs_of_kids(pool, a, d) + locs_of_kids(pool, b, d));
    }
}

/// The locations under the children of a node are those under the children before child
/// `i`, then those under child `i`, then those under the children after it.
pub proof fn lemma_locs_of_kids_at<T: MeasuredBTreeData>(
    pool: Seq<MeasuredBTreeNode<T>>,
    kids: Seq<PoolIndex>,
    i: int,
    d: nat,
)
    requires
        0 <= i < kids.len(),
    ensures
        locs_of_kids(pool, kids, d) == locs_of_kids(pool, kids.take(i), d) + locs_under(pool, kids[i] as int, d)
            + locs_of_kids(pool, kids.skip(i + 1), d),
{
    let one = seq![kids[i]];
    assert(kids =~= kids.take(i) + one + kids.skip(i + 1));
    lemma_locs_of_kids_concat(pool, kids.take(i) + one, kids.skip(i + 1), d);
    lemma_locs_of_kids_concat(pool, kids.take(i), one, d);
    assert(one.drop_last() =~= Seq::<PoolIndex>::empty());
    assert(locs_of_kids(pool, one.drop_last(), d) =~= Seq::<(int, int)>::empty());
    assert(locs_of_kids(pool, one, d) =~= locs_under(pool, kids[i] as int, d));
}

/// The values behind a sequence of references.
pub open spec fn deref_all<T>(s: Seq<&T>) -> Seq<T> {
    s.map_values(|r: &T| *r)
}

impl<T: MeasuredBTreeData> MeasuredBTree<T> {
    /// The data items of the tree, from left to right.
    pub open spec fn in_order(&self) -> Seq<T> {
        match self.root_idx {
            Some(r) => items_under(self.pool@, r as int, self.level@[r as int]),
            None => Seq::empty(),
        }
    }

    /// Where the data items of the tree sit, from left to right: for each, the pool index
    /// of its leaf and its index within that leaf.
    pub open spec fn in_order_locs(&self) -> Seq<(int, int)> {
        match self.root_idx {
            Some(r) => locs_under(self.pool@, r as int, self.level@[r as int]),
            None => Seq::empty(),
        }
    }

    /// The item at position `j` of the tree's in-order items is the one stored at location
    /// `j` of its in-order locations.
    pub proof fn lemma_in_order_locs(&self)
        ensures
            self.in_order_locs().len() == self.in_order().len(),
            forall|j: int| 0 <= j < self.in_order().len()
                ==> self.pool@[(#[trigger] self.in_order_locs()[j]).0].items()[self.in_order_locs()[j].1]
                    == self.in_order()[j],
    {
        if let Some(r) = self.root_idx {
            lemma_locs_under(self.pool@, r as int, self.level@[r as int]);
        }
    }

    /// Appends the data items under node `idx`, from left to right, to `out`.
    fn collect_items<'a>(&'a self, idx: PoolIndex, out: &mut Vec<&'a T>)
        requires
            self.wf(),
            idx < self.pool@.len(),
        ensures
            deref_all(final(out)@) == deref_all(old(out)@) + items_under(self.pool@, idx as int, self.level@[idx as int]),
        decreases self.level@[idx as int],
    {
        proof {
            self.lemma_wf_node_ok(idx as int);
        }
        let ghost start = deref_all(out@);
        match &self.pool[idx] {
            MeasuredBTreeNode::Leaf { data, .. } => {
                let mut k: usize = 0;
                while k < data.len()
                    invariant
                        0 <= k <= data.len(),
                        deref_all(out@) == start + data@.take(k as int),
                    decreases data.len() - k,
                {
                    let ghost prev = out@;
                    out.push(&data[k]);
                    proof {
                        assert(deref_all(out@) =~= deref_all(prev).push(data@[k as int]));
                        assert(data@.take(k + 1) =~= data@.take(k as int).push(data@[k as int]));
                    }
                    k += 1;
                }
                proof {
                    assert(data@.take(k as int) =~= data@);
                }
            },
            MeasuredBTreeNode::Internal { children, .. } => {
                let ghost depth = (self.level@[idx as int] - 1) as nat;
                let mut i: usize = 0;
                proof {
                    assert(children@.take(0) =~= Seq::<PoolIndex>::empty());
                    assert(items_of_kids(self.pool@, Seq::<PoolIndex>::empty(), depth) =~= Seq::<T>::empty());
                    assert(start + Seq::<T>::empty() =~= start);
                }
                while i < children.len()
                    invariant
                        self.wf(),
                        idx < self.pool@.len(),
                        children@ == self.pool@[idx as int].kids(),
                        self.pool@[idx as int] is Internal,
                        node_ok(self.pool@, self.level@, idx as int),
                        depth + 1 == self.level@[idx as int],
                        0 <= i <= children.len(),
                        deref_all(out@) == start + items_of_kids(self.pool@, children@.take(i as int), depth),
                    decreases children.len() - i,
                {
                    let c = children[i];
                    assert(c < self.pool@.len() && self.level@[c as int] == depth);
                    self.collect_items(c, out);
                    i += 1;
                    proof {
                        assert(children@.take(i as int).drop_last() =~= children@.take(i - 1));
                        assert(children@.take(i as int).last() == c);
                    }
                }
                proof {
                    assert(children@.take(i as int) =~= children@);
                }
            },
        }
    }

    /// The data items of the tree, from left to right.
    pub fn iter(&self) -> (r: Vec<&T>)
        requires
            self.wf(),
        ensures
            deref_all(r@) == self.in_order(),
    {
        let mut out: Vec<&T> = Vec::new();
        proof {
            assert(deref_all(out@) =~= Seq::<T>::empty());
        }
        match self.root_idx {
            None => {},
            Some(r) => {
                proof {
                    self.lemma_wf_root();
                }
                self.collect_items(r, &mut out);
                proof {
                    assert(Seq::<T>::empty() + items_under(self.pool@, r as int, self.level@[r as int])
                        =~= items_under(self.pool@, r as int, self.level@[r as int]));
                }
            },
        }
        out
    }
}

/// The measures of a concatenation are those of its parts.
pub proof fn lemma_data_models_concat<T: MeasuredBTreeData>(a: Seq<T>, b: Seq<T>)
    ensures
        data_models(a + b) == data_models(a) + data_models(b),
{
    assert(data_models(a + b) =~= data_models(a) + data_models(b));
}

impl<T: MeasuredBTreeData> MeasuredBTree<T> {
    /// The items under a node of a well-formed tree add up to the node's cached measure.
    pub proof fn lemma_items_under_sum(&self, i: int)
        requires
            self.wf(),
            0 <= i < self.pool@.len(),
        ensures
            psum(data_models(items_under(self.pool@, i, self.level@[i]))) == self.pool@[i].weight(),
        decreases self.level@[i], 1nat, 0int,
    {
        self.lemma_wf_node_ok(i);
        match self.pool@[i] {
            MeasuredBTreeNode::Leaf { .. } => {},
            MeasuredBTreeNode::Internal { children, .. } => {
                self.lemma_kids_sum(i, children@.len() as int);
                assert(children@.take(children@.len() as int) =~= children@);
            },
        }
    }

    /// The items under the first `n` children of internal node `i` add up to the measures
    /// of those children.
    pub proof fn lemma_kids_sum(&self, i: int, n: int)
        requires
            self.wf(),
            0 <= i < self.pool@.len(),
            self.pool@[i] is Internal,
            0 <= n <= self.pool@[i].kids().len(),
        ensures
            psum(data_models(items_of_kids(self.pool@, self.pool@[i].kids().take(n), (self.level@[i] - 1) as nat)))
                == psum(kid_models(self.pool@, self.pool@[i].kids().take(n))),
        decreases self.level@[i], 0nat, n,
    {
        self.lemma_wf_node_ok(i);
        let kids = self.pool@[i].kids();
        let d = (self.level@[i] - 1) as nat;
        if n == 0 {
            assert(kids.take(0) =~= Seq::<PoolIndex>::empty());
            assert(data_models(Seq::<T>::empty()) =~= Seq::<(nat, nat)>::empty());
            assert(kid_models(self.pool@, Seq::<PoolIndex>::empty()) =~= Seq::<(nat, nat)>::empty());
        } else {
            let c = kids[n - 1] as int;
            assert(kids.take(n).drop_last() =~= kids.take(n - 1));
            assert(kids.take(n).last() == kids[n - 1]);
            self.lemma_kids_sum(i, n - 1);
            assert(self.level@[c] == d);
            self.lemma_items_under_sum(c);
            lemma_data_models_concat(
                items_of_kids(self.pool@, kids.take(n - 1), d),
                items_under(self.pool@, c, d),
            );
            lemma_psum_concat(
                data_models(items_of_kids(self.pool@, kids.take(n - 1), d)),
                data_models(items_under(self.pool@, c, d)),
            );
            assert(kid_models(self.pool@, kids.take(n)) =~= kid_models(self.pool@, kids.take(n - 1)).push(
                self.pool@[c].weight()));
            lemma_psum_push(kid_models(self.pool@, kids.take(n - 1)), self.pool@[c].weight());
        }
    }

    /// The data items of a well-formed tree, taken from left to right, add up to the
    /// tree's total measure.
    pub proof fn lemma_in_order_total(&self)
        requires
            self.wf(),
        ensures
            psum(data_models(self.in_order())) == self.total(),
    {
        match self.root_idx {
            Some(r) => {
                self.lemma_wf_root();
                self.lemma_items_under_sum(r as int);
            },
            None => {
                assert(data_models(Seq::<T>::empty()) =~= Seq::<(nat, nat)>::empty());
            },
        }
    }
}

impl<T: MeasuredBTreeData> MeasuredBTree<T> {
    proof fn lemma_items_under_wf(&self, i: int)
        requires
            self.wf(),
            0 <= i < self.pool@.len(),
        ensures
            forall|k: int| 0 <= k < items_under(self.pool@, i, self.level@[i]).len()
                ==> (#[trigger] items_under(self.pool@, i, self.level@[i])[k]).wf(),
        decreases self.level@[i], 1nat, 0int,
    {
        self.lemma_wf_node_ok(i);
        match self.pool@[i] {
            MeasuredBTreeNode::Leaf { data, .. } => {
                assert(items_under(self.pool@, i, self.level@[i]) == data@);
                assert(forall|k: int| 0 <= k < data@.len() ==> (#[trigger] data@[k]).wf());
            },
            MeasuredBTreeNode::Internal { children, .. } => {
                let n = children@.len() as int;
                let d = (self.level@[i] - 1) as nat;
                self.lemma_kids_wf(i, n);
                assert(self.pool@[i].kids() == children@);
                assert(children@.take(n) =~= children@);
                let s = items_of_kids(self.pool@, children@, d);
                assert(forall|k: int| 0 <= k < s.len() ==> (#[trigger] s[k]).wf());
                assert(items_under(self.pool@, i, self.level@[i]) == s);
            },
        }
    }

    proof fn lemma_kids_wf(&self, i: int, n: int)
        requires
            self.wf(),
            0 <= i < self.pool@.len(),
            self.pool@[i] is Internal,
            0 <= n <= self.pool@[i].kids().len(),
        ensures
            forall|k: int| 0 <= k < items_of_kids(self.pool@, self.pool@[i].kids().take(n), (self.level@[i] - 1) as nat).len()
                ==> (#[trigger] items_of_kids(self.pool@, self.pool@[i].kids().take(n), (self.level@[i] - 1) as nat)[k]).wf(),
        decreases self.level@[i], 0nat, n,
    {
        self.lemma_wf_node_ok(i);
        let kids = self.pool@[i].kids();
        let d = (self.level@[i] - 1) as nat;
        if n == 0 {
            assert(kids.take(0) =~= Seq::<PoolIndex>::empty());
        } else {
            let c = kids[n - 1] as int;
            assert(kids.take(n).drop_last() =~= kids.take(n - 1));
            assert(kids.take(n).last() == kids[n - 1]);
            self.lemma_kids_wf(i, n - 1);
            assert(self.level@[c] == d);
            self.lemma_items_under_wf(c);
            let a = items_of_kids(self.pool@, kids.take(n - 1), d);
            let b = items_under(self.pool@, c, d);
            assert forall|k: int| 0 <= k < (a + b).len() implies (#[trigger] (a + b)[k]).wf() by {
                if k < a.len() {
                    assert((a + b)[k] == a[k]);
                } else {
                    assert((a + b)[k] == b[k - a.len()]);
                }
            }
        }
    }

    /// Every data item of a well-formed tree is internally consistent.
    pub proof fn lemma_in_order_wf(&self)
        requires
            self.wf(),
        ensures
            forall|k: int| 0 <= k < self.in_order().len() ==> (#[trigger] self.in_order()[k]).wf(),
    {
        if let Some(r) = self.root_idx {
            self.lemma_wf_root();
            self.lemma_items_under_wf(r as int);
        }
    }
}

/// Measures whose second component is always zero: they count positions only, and their
/// order is the order of positions.
pub open spec fn primary_only<M: Measure>() -> bool {
    forall|m: M| (#[trigger] m.model()).1 == 0
}

/// The items under a list of children split where the lists split.
pub proof fn lemma_items_of_kids_concat<T: MeasuredBTreeData>(
    pool: Seq<MeasuredBTreeNode<T>>,
    a: Seq<PoolIndex>,
    b: Seq<PoolIndex>,
    d: nat,
)
    ensures
        items_of_kids(pool, a + b, d) == items_of_kids(pool, a, d) + items_of_kids(pool, b, d),
    decreases b.len(),
{
    if b.len() == 0 {
        assert(a + b =~= a);
        assert(items_of_kids(pool, a, d) + items_of_kids(pool, b, d) =~= items_of_kids(pool, a, d));
    } else {
        lemma_items_of_kids_concat(pool, a, b.drop_last(), d);
        assert((a + b).drop_last() =~= a + b.drop_last());
        assert((a + b).last() == b.last());
        assert(items_of_kids(pool, a + b, d) =~= items_of_kids(pool, a, d) + items_of_kids(pool, b, d));
    }
}

/// The items under the children of a node are those under the children before child `i`,
/// then those under child `i`, then those under the children after it.
pub proof fn lemma_items_of_kids_at<T: MeasuredBTreeData>(
    pool: Seq<MeasuredBTreeNode<T>>,
    kids: Seq<PoolIndex>,
    i: int,
    d: nat,
)
    requires
        0 <= i < kids.len(),
    ensures
        items_of_kids(pool, kids, d) == items_of_kids(pool, kids.take(i), d) + items_under(pool, kids[i] as int, d)
            + items_of_kids(pool, kids.skip(i + 1), d),
{
    let one = seq![kids[i]];
    assert(kids =~= kids.take(i) + one + kids.skip(i + 1));
    lemma_items_of_kids_concat(pool, kids.take(i) + one, kids.skip(i + 1), d);
    lemma_items_of_kids_concat(pool, kids.take(i), one, d);
    assert(one.drop_last() =~= Seq::<PoolIndex>::empty());
    assert(items_of_kids(pool, one.drop_last(), d) =~= Seq::<T>::empty());
    assert(items_of_kids(pool, one, d) =~= items_under(pool, kids[i] as int, d));
}

impl<T: MeasuredBTreeData> MeasuredBTree<T> {
    /// The leaf, the index of the item in it, and the offset within that item, where
    /// position `target` of the tree lies; `None` when the tree is empty or `target` is at
    /// or beyond its total measure. The location found is the one that `in_order_locs` lists
    /// at the in-order position whose predecessors and the offset add up to the target's
    /// position.
    #[verifier::spinoff_prover]
    #[verifier::rlimit(60)]
    pub fn get_location(&self, target: T::Measure) -> (r: Option<(PoolIndex, usize, T::Measure)>)
        requires
            self.wf(),
        ensures
            r matches Some((leaf, k, off)) ==> {
                &&& self.holds_leaf(leaf as int, k as int)
                &&& plt(off.model(), self.pool@[leaf as int].items()[k as int].spec_measure().model())
                &&& exists|j: int| #![trigger self.in_order_locs()[j]] 0 <= j < self.in_order().len()
                    && self.in_order_locs()[j] == (leaf as int, k as int)
                    && self.in_order()[j] == self.pool@[leaf as int].items()[k as int]
                    && psum(data_models(self.in_order().take(j))).0 + off.model().0 == target.model().0
            },
            self.root_idx.is_none() || !plt(target.model(), self.total()) ==> r is None,
            primary_only::<T::Measure>() && self.root_idx.is_some() && target.model().0 < self.total().0
                ==> r is Some,
    {
        let mut pool_idx = match self.root_idx {
            None => {
                return None;
            },
            Some(r) => r,
        };
        proof {
            self.lemma_wf_root();
        }
        let mut local_target = target;
        if self.pool[pool_idx].measure().at_most(&local_target) {
            return None;
        }
        let ghost po = primary_only::<T::Measure>();
        let ghost mut pre: Seq<T> = Seq::empty();
        let ghost mut post: Seq<T> = Seq::empty();
        let ghost mut lpre: Seq<(int, int)> = Seq::empty();
        let ghost mut lpost: Seq<(int, int)> = Seq::empty();
        proof {
            let root_locs = locs_under(self.pool@, pool_idx as int, self.level@[pool_idx as int]);
            assert(lpre + root_locs + lpost =~= root_locs);
            let root_items = items_under(self.pool@, pool_idx as int, self.level@[pool_idx as int]);
            assert(pre + root_items + post =~= root_items);
            assert(data_models(pre) =~= Seq::<(nat, nat)>::empty());
            if po {
                assert(local_target.model().1 == 0);
                assert(self.pool@[pool_idx as int].node_measure().model().1 == 0);
            }
        }
        loop
            invariant
                self.wf(),
                pool_idx < self.pool@.len(),
                plt(target.model(), self.total()),
                po == primary_only::<T::Measure>(),
                self.in_order() == pre + items_under(self.pool@, pool_idx as int, self.level@[pool_idx as int]) + post,
                self.in_order_locs() == lpre + locs_under(self.pool@, pool_idx as int, self.level@[pool_idx as int]) + lpost,
                lpre.len() == pre.len(),
                psum(data_models(pre)).0 + local_target.model().0 == target.model().0,
                plt(local_target.model(), self.pool@[pool_idx as int].weight()),
            decreases self.level@[pool_idx as int],
        {
            proof {
                self.lemma_wf_node_ok(pool_idx as int);
            }
            match &self.pool[pool_idx] {
                MeasuredBTreeNode::Internal { children, .. } => {
                    let ghost cur = pool_idx as int;
                    let ghost d = (self.level@[cur] - 1) as nat;
                    let ghost km = kid_models(self.pool@, children@);
                    let ghost entry = local_target.model();
                    let mut i: usize = 0;
                    let mut next: Option<PoolIndex> = None;
                    proof {
                        assert(km.take(0) =~= Seq::<(nat, nat)>::empty());
                    }
                    while i < children.len()
                        invariant_except_break
                            next is None,
                        invariant
                            self.wf(),
                            0 <= cur < self.pool@.len(),
                            children@ == self.pool@[cur].kids(),
                            self.pool@[cur] is Internal,
                            node_ok(self.pool@, self.level@, cur),
                            km == kid_models(self.pool@, children@),
                            d + 1 == self.level@[cur],
                            0 <= i <= children.len(),
                            po == primary_only::<T::Measure>(),
                            psum(km.take(i as int)).0 + local_target.model().0 == entry.0,
                            plt(entry, self.pool@[cur].weight()),
                            po ==> local_target.model().1 == 0 && entry.1 == 0,
                        ensures
                            0 <= i <= children.len(),
                            psum(km.take(i as int)).0 + local_target.model().0 == entry.0,
                            next matches Some(c) ==> {
                                &&& i < children.len()
                                &&& c == children@[i as int]
                                &&& plt(local_target.model(), self.pool@[c as int].weight())
                            },
                            next is None ==> i == children.len(),
                        decreases children.len() - i,
                    {
                        let c = children[i];
                        let child_weight = self.pool[c].measure();
                        proof {
                            assert(km.take(i + 1) =~= km.take(i as int).push(km[i as int]));
                            lemma_psum_push(km.take(i as int), km[i as int]);
                        }
                        if local_target.less_than(&child_weight) {
                            next = Some(c);
                            break;
                        }
                        local_target = local_target.minus(child_weight);
                        i += 1;
                        proof {
                            if po {
                                assert(local_target.model().1 == 0);
                            }
                        }
                    }
                    match next {
                        Some(c) => {
                            proof {
                                lemma_items_of_kids_at(self.pool@, children@, i as int, d);
                                self.lemma_kids_sum(cur, i as int);
                                assert(children@.take(i as int).map_values(|x: PoolIndex| self.pool@[x as int].weight())
                                    =~= km.take(i as int));
                                let mid = items_of_kids(self.pool@, children@.take(i as int), d);
                                lemma_data_models_concat(pre, mid);
                                lemma_psum_concat(data_models(pre), data_models(mid));
                                assert(self.level@[c as int] == d);
                                assert(items_under(self.pool@, cur, self.level@[cur]) == items_of_kids(self.pool@, children@, d));
                                let after = items_of_kids(self.pool@, children@.skip(i + 1), d);
                                assert(pre + items_under(self.pool@, cur, self.level@[cur]) + post
                                    =~= (pre + mid) + items_under(self.pool@, c as int, d) + (after + post));
                                lemma_locs_of_kids_at(self.pool@, children@, i as int, d);
                                lemma_locs_kids(self.pool@, children@.take(i as int), d);
                                let lmid = locs_of_kids(self.pool@, children@.take(i as int), d);
                                let lafter = locs_of_kids(self.pool@, children@.skip(i + 1), d);
                                assert(locs_under(self.pool@, cur, self.level@[cur]) == locs_of_kids(self.pool@, children@, d));
                                assert(lpre + locs_under(self.pool@, cur, self.level@[cur]) + lpost
                                    =~= (lpre + lmid) + locs_under(self.pool@, c as int, d) + (lafter + lpost));
                                pre = pre + mid;
                                post = after + post;
                                lpre = lpre + lmid;
                                lpost = lafter + lpost;
                            }
                            pool_idx = c;
                        },
                        None => {
                            proof {
                                assert(km.take(i as int) =~= km);
                                if po {
                                    assert(self.pool@[cur].node_measure().model().1 == 0);
                                    assert(false);
                                }
                            }
                            return None;
                        },
                    }
                },
                MeasuredBTreeNode::Leaf { data, .. } => {
                    let ghost leaf = pool_idx as int;
                    let ghost dm = data_models(data@);
                    let ghost entry = local_target.model();
                    let mut k: usize = 0;
                    proof {
                        assert(dm.take(0) =~= Seq::<(nat, nat)>::empty());
                        assert(data_models(data@.take(0)) =~= Seq::<(nat, nat)>::empty());
                        assert(items_under(self.pool@, leaf, self.level@[leaf]) == data@);
                        assert(locs_under(self.pool@, leaf, self.level@[leaf]) == Seq::new(data@.len(), |q: int| (leaf, q)));
                    }
                    while k < data.len()
                        invariant
                            data@ == self.pool@[leaf].items(),
                            self.pool@[leaf] is Leaf,
                            0 <= leaf < self.pool@.len(),
                            leaf == pool_idx,
                            node_ok(self.pool@, self.level@, leaf),
                            dm == data_models(data@),
                            0 <= k <= data.len(),
                            plt(target.model(), self.total()),
                            self.root_idx.is_some(),
                            po == primary_only::<T::Measure>(),
                            self.in_order() == pre + data@ + post,
                            self.in_order_locs() == lpre + Seq::new(data@.len(), |q: int| (leaf, q)) + lpost,
                            lpre.len() == pre.len(),
                            psum(data_models(pre)).0 + entry.0 == target.model().0,
                            psum(dm.take(k as int)).0 + local_target.model().0 == entry.0,
                            plt(entry, self.pool@[leaf].weight()),
                            po ==> local_target.model().1 == 0 && entry.1 == 0,
                        decreases data.len() - k,
                    {
                        let m = data[k].measure();
                        proof {
                            assert(dm.take(k + 1) =~= dm.take(k as int).push(dm[k as int]));
                            lemma_psum_push(dm.take(k as int), dm[k as int]);
                        }
                        if local_target.less_than(&m) {
                            proof {
                                let j = pre.len() + k;
                                assert(self.in_order()[j] == data@[k as int]);
                                assert(self.in_order_locs()[j] == (leaf, k as int));
                                assert(self.in_order().take(j) =~= pre + data@.take(k as int));
                                lemma_data_models_concat(pre, data@.take(k as int));
                                lemma_psum_concat(data_models(pre), data_models(data@.take(k as int)));
                                assert(data_models(data@.take(k as int)) =~= dm.take(k as int));
                                assert(self.holds_leaf(leaf, k as int));
                            }
                            return Some((pool_idx, k, local_target));
                        }
                        local_target = local_target.minus(m);
                        k += 1;
                        proof {
                            if po {
                                assert(local_target.model().1 == 0);
                            }
                        }
                    }
                    proof {
                        assert(dm.take(k as int) =~= dm);
                        if po {
                            assert(self.pool@[leaf].node_measure().model().1 == 0);
                            assert(false);
                        }
                    }
                    return None;
                },
            }
        }
    }
}

impl<T: MeasuredBTreeData> MeasuredBTree<T> {
    /// The item in which position `target` lies, found by descending from node `pool_idx`
    /// into the first child whose measure exceeds what is left of the target (or the last
    /// child), with the offset within that item.
    fn get_recursive(&self, pool_idx: PoolIndex, target: T::Measure) -> (r: Option<(&T, T::Measure)>)
        requires
            self.wf(),
            pool_idx < self.pool@.len(),
        ensures
            r matches Some((item, off)) ==> {
                &&& exists|leaf: int, k: int| #![auto] self.holds_leaf(leaf, k) && *item == self.pool@[leaf].items()[k]
                &&& exists|j: int| 0 <= j < items_under(self.pool@, pool_idx as int, self.level@[pool_idx as int]).len()
                    && #[trigger] items_under(self.pool@, pool_idx as int, self.level@[pool_idx as int])[j] == *item
                    && psum(data_models(items_under(self.pool@, pool_idx as int, self.level@[pool_idx as int]).take(j))).0
                        + off.model().0 == target.model().0
                &&& primary_only::<T::Measure>() ==> off.model().0 < item.spec_measure().model().0
            },
            primary_only::<T::Measure>() && target.model().0 < self.pool@[pool_idx as int].weight().0 ==> r is Some,
        decreases self.level@[pool_idx as int],
    {
        proof {
            self.lemma_wf_node_ok(pool_idx as int);
        }
        let ghost po = primary_only::<T::Measure>();
        match &self.pool[pool_idx] {
            MeasuredBTreeNode::Leaf { data, .. } => {
                let ghost dm = data_models(data@);
                let mut current_offset = T::Measure::zero();
                let mut k: usize = 0;
                proof {
                    T::Measure::lemma_fits(self.pool@[pool_idx as int].node_measure());
                    assert(data_models(data@.take(0)) =~= Seq::<(nat, nat)>::empty());
                    assert(items_under(self.pool@, pool_idx as int, self.level@[pool_idx as int]) == data@);
                }
                while k < data.len()
                    invariant
                        data@ == self.pool@[pool_idx as int].items(),
                        self.pool@[pool_idx as int] is Leaf,
                        pool_idx < self.pool@.len(),
                        node_ok(self.pool@, self.level@, pool_idx as int),
                        dm == data_models(data@),
                        0 <= k <= data.len(),
                        current_offset.model() == psum(data_models(data@.take(k as int))),
                        T::Measure::fits(psum(data_models(data@))),
                        po == primary_only::<T::Measure>(),
                        po ==> current_offset.model().0 <= target.model().0,
                    decreases data.len() - k,
                {
                    let item = &data[k];
                    let item_measure = item.measure();
                    proof {
                        assert(data_models(data@.take(k + 1)) =~= data_models(data@.take(k as int)).push(item_measure.model()));
                        lemma_psum_push(data_models(data@.take(k as int)), item_measure.model());
                        assert(data_models(data@.take(k + 1)) =~= data_models(data@).take(k + 1));
                        lemma_psum_take_below(data_models(data@), k + 1);
                        T::Measure::lemma_fits_below(psum(data_models(data@)), psum(data_models(data@.take(k + 1))));
                    }
                    let next_offset = current_offset.plus(item_measure);
                    if current_offset.at_most(&target) && target.less_than(&next_offset) {
                        let local_offset = target.minus(current_offset);
                        proof {
                            assert(self.holds_leaf(pool_idx as int, k as int) && *item == self.pool@[pool_idx as int].items()[k as int]);
                            assert(items_under(self.pool@, pool_idx as int, self.level@[pool_idx as int])[k as int] == *item);
                            if po {
                                assert(target.model().1 == 0);
                                assert(next_offset.model().1 == 0);
                                assert(current_offset.model().1 == 0);
                            }
                        }
                        return Some((item, local_offset));
                    }
                    proof {
                        if po {
                            assert(target.model().1 == 0);
                            assert(next_offset.model().1 == 0);
                            assert(current_offset.model().1 == 0);
                        }
                    }
                    current_offset = next_offset;
                    k += 1;
                }
                proof {
                    assert(data@.take(k as int) =~= data@);
                }
                None
            },
            MeasuredBTreeNode::Internal { children, .. } => {
                let ghost cur = pool_idx as int;
                let ghost d = (self.level@[cur] - 1) as nat;
                let ghost km = kid_models(self.pool@, children@);
                let mut local_target = target;
                let last_idx = children.len().saturating_sub(1);
                let mut i: usize = 0;
                proof {
                    assert(km.take(0) =~= Seq::<(nat, nat)>::empty());
                    assert(items_under(self.pool@, cur, self.level@[cur]) == items_of_kids(self.pool@, children@, d));
                    if po {
                        assert(target.model().1 == 0);
                    }
                }
                while i < children.len()
                    invariant
                        self.wf(),
                        pool_idx < self.pool@.len(),
                        cur == pool_idx,
                        children@ == self.pool@[cur].kids(),
                        self.pool@[cur] is Internal,
                        node_ok(self.pool@, self.level@, cur),
                        km == kid_models(self.pool@, children@),
                        d + 1 == self.level@[cur],
                        items_under(self.pool@, cur, self.level@[cur]) == items_of_kids(self.pool@, children@, d),
                        0 <= i <= children.len(),
                        last_idx == (if children.len() > 0 { children.len() - 1 } else { 0 }),
                        children.len() > 0 ==> i <= last_idx,
                        psum(km.take(i as int)).0 + local_target.model().0 == target.model().0,
                        po == primary_only::<T::Measure>(),
                        po ==> local_target.model().1 == 0,
                    decreases children.len() - i,
                {
                    let child_idx = children[i];
                    let child_measure = self.pool[child_idx].measure();
                    proof {
                        assert(km.take(i + 1) =~= km.take(i as int).push(km[i as int]));
                        lemma_psum_push(km.take(i as int), km[i as int]);
                    }
                    if local_target.less_than(&child_measure) || i == last_idx {
                        let r = self.get_recursive(child_idx, local_target);
                        proof {
                            let sub = items_under(self.pool@, child_idx as int, d);
                            let mid = items_of_kids(self.pool@, children@.take(i as int), d);
                            let after = items_of_kids(self.pool@, children@.skip(i + 1), d);
                            assert(self.level@[child_idx as int] == d);
                            lemma_items_of_kids_at(self.pool@, children@, i as int, d);
                            self.lemma_kids_sum(cur, i as int);
                            assert(children@.take(i as int).map_values(|x: PoolIndex| self.pool@[x as int].weight())
                                =~= km.take(i as int));
                            let all = items_under(self.pool@, cur, self.level@[cur]);
                            assert(all == mid + sub + after);
                            if let Some((item, off)) = r {
                                let j = choose|j: int| 0 <= j < sub.len() && #[trigger] sub[j] == *item
                                    && psum(data_models(sub.take(j))).0 + off.model().0 == local_target.model().0;
                                let jj = mid.len() + j;
                                assert(all[jj] == *item);
                                assert(all.take(jj) =~= mid + sub.take(j));
                                lemma_data_models_concat(mid, sub.take(j));
                                lemma_psum_concat(data_models(mid), data_models(sub.take(j)));
                            }
                            if po && target.model().0 < self.pool@[cur].weight().0 {
                                assert(child_measure.model().1 == 0);
                                if i == last_idx && !plt(local_target.model(), child_measure.model()) {
                                    assert(km.take(i + 1) =~= km);
                                }
                            }
                        }
                        return r;
                    }
                    local_target = local_target.minus(child_measure);
                    i += 1;
                    proof {
                        if po {
                            assert(local_target.model().1 == 0);
                        }
                    }
                }
                proof {
                    if po && target.model().0 < self.pool@[cur].weight().0 {
                        assert(children.len() == 0);
                        assert(km =~= Seq::<(nat, nat)>::empty());
                    }
                }
                None
            },
        }
    }

    /// The item in which position `target` of the tree lies, with the offset within it:
    /// the in-order item whose predecessors and the offset add up to the target's position.
    pub fn get_at(&self, target: T::Measure) -> (r: Option<(&T, T::Measure)>)
        requires
            self.wf(),
        ensures
            r matches Some((item, off)) ==> {
                &&& exists|leaf: int, k: int| #![auto] self.holds_leaf(leaf, k) && *item == self.pool@[leaf].items()[k]
                &&& exists|j: int| 0 <= j < self.in_order().len() && #[trigger] self.in_order()[j] == *item
                    && psum(data_models(self.in_order().take(j))).0 + off.model().0 == target.model().0
                &&& primary_only::<T::Measure>() ==> off.model().0 < item.spec_measure().model().0
            },
            self.root_idx.is_none() ==> r is None,
            primary_only::<T::Measure>() ==> (r is Some <==> (self.root_idx.is_some()
                && target.model().0 < self.total().0)),
    {
        match self.root_idx {
            None => None,
            Some(root_idx) => {
                proof {
                    self.lemma_wf_root();
                }
                let r = self.get_recursive(root_idx, target);
                proof {
                    if primary_only::<T::Measure>() {
                        if let Some((item, off)) = r {
                            let s = self.in_order();
                            let j = choose|j: int| 0 <= j < s.len() && #[trigger] s[j] == *item
                                && psum(data_models(s.take(j))).0 + off.model().0 == target.model().0;
                            self.lemma_in_order_total();
                            self.lemma_in_order_wf();
                            let item_j = s[j];
                            assert(data_models(s).take(j + 1) =~= data_models(s.take(j)).push(item_j.spec_measure().model()));
                            lemma_psum_push(data_models(s.take(j)), item_j.spec_measure().model());
                            lemma_psum_take_below(data_models(s), j + 1);
                        }
                    }
                }
                r
            },
        }
    }

    /// Mutable access to the item in which position `target` of the tree lies (the item
    /// that `get_location` finds), with the offset within it. What is written through the
    /// reference lands in that item's place, at its position in tree order, and nowhere else.
    pub fn get_mut_at(&mut self, target: T::Measure) -> (r: Option<(&mut T, T::Measure)>)
        requires
            old(self).wf(),
        ensures
            r is None ==> *final(self) == *old(self),
            r matches Some((item, off)) ==> exists|leaf: int, k: int, j: int|
                #![trigger old(self).in_order_locs()[j], old(self).pool@[leaf].items()[k]]
                {
                    &&& old(self).holds_leaf(leaf, k)
                    &&& 0 <= j < old(self).in_order().len()
                    &&& old(self).in_order_locs()[j] == (leaf, k)
                    &&& old(self).in_order()[j] == old(self).pool@[leaf].items()[k]
                    &&& *item == old(self).pool@[leaf].items()[k]
                    &&& plt(off.model(), item.spec_measure().model())
                    &&& psum(data_models(old(self).in_order().take(j))).0 + off.model().0 == target.model().0
                    &&& final(self).root_idx == old(self).root_idx
                    &&& final(self).level == old(self).level
                    &&& final(self).free_leaves_list == old(self).free_leaves_list
                    &&& final(self).free_internals_list == old(self).free_internals_list
                    &&& final(self).pool@.len() == old(self).pool@.len()
                    &&& forall|p: int| 0 <= p < old(self).pool@.len() && p != leaf
                        ==> #[trigger] final(self).pool@[p] == old(self).pool@[p]
                    &&& final(self).pool@[leaf] is Leaf
                    &&& final(self).pool@[leaf].node_measure() == old(self).pool@[leaf].node_measure()
                    &&& final(self).pool@[leaf].items() == old(self).pool@[leaf].items().update(k, *final(item))
                },
            primary_only::<T::Measure>() ==> (r is Some <==> (old(self).root_idx.is_some()
                && target.model().0 < old(self).total().0)),
    {
        match self.get_location(target) {
            None => None,
            Some((leaf, k, off)) => {
                let ghost s0 = *self;
                match &mut self.pool[leaf] {
                    MeasuredBTreeNode::Leaf { data, .. } => {
                        let item = &mut data[k];
                        assert(s0.holds_leaf(leaf as int, k as int));
                        Some((item, off))
                    },
                    MeasuredBTreeNode::Internal { .. } => None,
                }
            },
        }
    }
}

/// The items under node `i` do not depend on a node `x` above it: changing only `x`
/// keeps them.
pub proof fn lemma_items_under_frame<T: MeasuredBTreeData>(
    pool: Seq<MeasuredBTreeNode<T>>,
    pool2: Seq<MeasuredBTreeNode<T>>,
    level: Seq<nat>,
    i: int,
    x: int,
)
    requires
        forall|j: int| 0 <= j < pool.len() ==> #[trigger] node_ok(pool, level, j),
        pool2.len() == pool.len(),
        forall|j: int| 0 <= j < pool.len() && j != x ==> pool2[j] == pool[j],
        0 <= i < pool.len(),
        0 <= x < pool.len() ==> level[i] < level[x],
    ensures
        items_under(pool2, i, level[i]) == items_under(pool, i, level[i]),
    decreases level[i], 1nat, 0int,
{
    assert(node_ok(pool, level, i));
    assert(pool2[i] == pool[i]);
    match pool[i] {
        MeasuredBTreeNode::Leaf { .. } => {},
        MeasuredBTreeNode::Internal { children, .. } => {
            lemma_kids_frame(pool, pool2, level, i, x, children@.len() as int);
            assert(children@.take(children@.len() as int) =~= children@);
        },
    }
}

proof fn lemma_kids_frame<T: MeasuredBTreeData>(
    pool: Seq<MeasuredBTreeNode<T>>,
    pool2: Seq<MeasuredBTreeNode<T>>,
    level: Seq<nat>,
    i: int,
    x: int,
    n: int,
)
    requires
        forall|j: int| 0 <= j < pool.len() ==> #[trigger] node_ok(pool, level, j),
        pool2.len() == pool.len(),
        forall|j: int| 0 <= j < pool.len() && j != x ==> pool2[j] == pool[j],
        0 <= i < pool.len(),
        0 <= x < pool.len() ==> level[i] < level[x],
        pool[i] is Internal,
        0 <= n <= pool[i].kids().len(),
    ensures
        items_of_kids(pool2, pool[i].kids().take(n), (level[i] - 1) as nat)
            == items_of_kids(pool, pool[i].kids().take(n), (level[i] - 1) as nat),
    decreases level[i], 0nat, n,
{
    assert(node_ok(pool, level, i));
    let kids = pool[i].kids();
    let d = (level[i] - 1) as nat;
    if n > 0 {
        let c = kids[n - 1] as int;
        assert(kids.take(n).drop_last() =~= kids.take(n - 1));
        assert(kids.take(n).last() == kids[n - 1]);
        match pool[i] {
            MeasuredBTreeNode::Internal { children, .. } => {
                assert(children@[n - 1] == kids[n - 1]);
            },
            MeasuredBTreeNode::Leaf { .. } => {},
        }
        assert(level[c] == d);
        lemma_kids_frame(pool, pool2, level, i, x, n - 1);
        lemma_items_under_frame(pool, pool2, level, c, x);
    }
}


/// The items under node `i` depend only on node `i` and the nodes below its level: where
/// those are unchanged, so are the items.
pub proof fn lemma_items_under_low_frame<T: MeasuredBTreeData>(
    pool: Seq<MeasuredBTreeNode<T>>,
    pool2: Seq<MeasuredBTreeNode<T>>,
    level: Seq<nat>,
    i: int,
)
    requires
        level.len() == pool.len(),
        pool2.len() == pool.len(),
        forall|j: int| 0 <= j < pool.len() ==> #[trigger] node_shape_ok(pool, level, j),
        0 <= i < pool.len(),
        pool2[i] == pool[i],
        forall|j: int| 0 <= j < pool.len() && level[j] < level[i] ==> #[trigger] pool2[j] == pool[j],
    ensures
        items_under(pool2, i, level[i]) == items_under(pool, i, level[i]),
    decreases level[i], 0nat, 0int,
{
    assert(node_shape_ok(pool, level, i));
    match pool[i] {
        MeasuredBTreeNode::Leaf { .. } => {},
        MeasuredBTreeNode::Internal { children, .. } => {
            let d = (level[i] - 1) as nat;
            assert forall|k: int| 0 <= k < children@.len() implies (#[trigger] children@[k]) < pool.len()
                && level[children@[k] as int] == d by {}
            lemma_kids_low_frame(pool, pool2, level, children@, d);
        },
    }
}

/// The items under a list of children at level `d` are kept where the children and every
/// node below level `d` are unchanged.
pub proof fn lemma_kids_low_frame<T: MeasuredBTreeData>(
    pool: Seq<MeasuredBTreeNode<T>>,
    pool2: Seq<MeasuredBTreeNode<T>>,
    level: Seq<nat>,
    kids: Seq<PoolIndex>,
    d: nat,
)
    requires
        level.len() == pool.len(),
        pool2.len() == pool.len(),
        forall|j: int| 0 <= j < pool.len() ==> #[trigger] node_shape_ok(pool, level, j),
        forall|k: int| 0 <= k < kids.len() ==> (#[trigger] kids[k]) < pool.len() && level[kids[k] as int] == d,
        forall|k: int| 0 <= k < kids.len() ==> pool2[(#[trigger] kids[k]) as int] == pool[kids[k] as int],
        forall|j: int| 0 <= j < pool.len() && level[j] < d ==> #[trigger] pool2[j] == pool[j],
    ensures
        items_of_kids(pool2, kids, d) == items_of_kids(pool, kids, d),
    decreases d, 1nat, kids.len(),
{
    if kids.len() > 0 {
        let n = kids.len() - 1;
        assert(kids.last() == kids[n]);
        assert forall|k: int| 0 <= k < kids.drop_last().len() implies (#[trigger] kids.drop_last()[k]) < pool.len()
            && level[kids.drop_last()[k] as int] == d && pool2[kids.drop_last()[k] as int] == pool[kids.drop_last()[k] as int] by {
            assert(kids.drop_last()[k] == kids[k]);
        }
        lemma_kids_low_frame(pool, pool2, level, kids.drop_last(), d);
        lemma_items_under_low_frame(pool, pool2, level, kids[n] as int);
    }
}

/// The items under the children of a node, around two adjacent children `i` and `i + 1`.
pub proof fn lemma_items_of_kids_pair<T: MeasuredBTreeData>(
    pool: Seq<MeasuredBTreeNode<T>>,
    kids: Seq<PoolIndex>,
    i: int,
    d: nat,
)
    requires
        0 <= i,
        i + 1 < kids.len(),
    ensures
        items_of_kids(pool, kids, d) == items_of_kids(pool, kids.take(i), d)
            + (items_under(pool, kids[i] as int, d) + items_under(pool, kids[i + 1] as int, d))
            + items_of_kids(pool, kids.skip(i + 2), d),
{
    lemma_items_of_kids_at(pool, kids, i, d);
    let rest = kids.skip(i + 1);
    lemma_items_of_kids_at(pool, rest, 0, d);
    assert(rest.take(0) =~= Seq::<PoolIndex>::empty());
    assert(items_of_kids(pool, rest.take(0), d) =~= Seq::<T>::empty());
    assert(rest[0] == kids[i + 1]);
    assert(rest.skip(1) =~= kids.skip(i + 2));
    assert(items_of_kids(pool, kids, d) =~= items_of_kids(pool, kids.take(i), d)
        + (items_under(pool, kids[i] as int, d) + items_under(pool, kids[i + 1] as int, d))
        + items_of_kids(pool, kids.skip(i + 2), d));
}


/// A node keeps its items when it keeps its list of children, when among its children only
/// the adjacent `i` and `i + 1` change and keep their items between them, and when nothing
/// below them changes.
pub proof fn lemma_parent_pair_kept<T: MeasuredBTreeData>(
    pool: Seq<MeasuredBTreeNode<T>>,
    pool2: Seq<MeasuredBTreeNode<T>>,
    level: Seq<nat>,
    parent: int,
    i: int,
)
    requires
        level.len() == pool.len(),
        pool2.len() == pool.len(),
        forall|j: int| 0 <= j < pool.len() ==> #[trigger] node_shape_ok(pool, level, j),
        0 <= parent < pool.len(),
        pool[parent] is Internal,
        pool2[parent] is Internal,
        pool2[parent].kids() == pool[parent].kids(),
        0 <= i,
        i + 1 < pool[parent].kids().len(),
        forall|k: int| 0 <= k < pool[parent].kids().len() && k != i && k != i + 1
            ==> pool2[(#[trigger] pool[parent].kids()[k]) as int] == pool[pool[parent].kids()[k] as int],
        forall|j: int| 0 <= j < pool.len() && level[j] + 1 < level[parent] ==> #[trigger] pool2[j] == pool[j],
        items_under(pool2, pool[parent].kids()[i] as int, (level[parent] - 1) as nat)
            + items_under(pool2, pool[parent].kids()[i + 1] as int, (level[parent] - 1) as nat)
            == items_under(pool, pool[parent].kids()[i] as int, (level[parent] - 1) as nat)
            + items_under(pool, pool[parent].kids()[i + 1] as int, (level[parent] - 1) as nat),
    ensures
        items_under(pool2, parent, level[parent]) == items_under(pool, parent, level[parent]),
{
    assert(node_shape_ok(pool, level, parent));
    let ks = pool[parent].kids();
    let d = (level[parent] - 1) as nat;
    assert forall|k: int| 0 <= k < ks.len() implies (#[trigger] ks[k]) < pool.len() && level[ks[k] as int] == d by {
        match pool[parent] {
            MeasuredBTreeNode::Internal { children, .. } => {
                assert(children@[k] == ks[k]);
            },
            MeasuredBTreeNode::Leaf { .. } => {},
        }
    }
    let a = ks.take(i);
    let b = ks.skip(i + 2);
    assert forall|k: int| 0 <= k < a.len() implies (#[trigger] a[k]) < pool.len() && level[a[k] as int] == d
        && pool2[a[k] as int] == pool[a[k] as int] by {
        assert(a[k] == ks[k]);
    }
    assert forall|k: int| 0 <= k < b.len() implies (#[trigger] b[k]) < pool.len() && level[b[k] as int] == d
        && pool2[b[k] as int] == pool[b[k] as int] by {
        assert(b[k] == ks[k + i + 2]);
    }
    lemma_kids_low_frame(pool, pool2, level, a, d);
    lemma_kids_low_frame(pool, pool2, level, b, d);
    lemma_items_of_kids_pair(pool, ks, i, d);
    lemma_items_of_kids_pair(pool2, ks, i, d);
    match pool2[parent] {
        MeasuredBTreeNode::Internal { children, .. } => {
            assert(children@ == ks);
        },
        MeasuredBTreeNode::Leaf { .. } => {},
    }
    match pool[parent] {
        MeasuredBTreeNode::Internal { children, .. } => {
            assert(children@ == ks);
        },
        MeasuredBTreeNode::Leaf { .. } => {},
    }
}

/// A node keeps its items when its children `i` and `i + 1` merge into child `i`, which
/// takes the items of both, while its other children and nothing below them change.
pub proof fn lemma_parent_merge_kept<T: MeasuredBTreeData>(
    pool: Seq<MeasuredBTreeNode<T>>,
    pool2: Seq<MeasuredBTreeNode<T>>,
    level: Seq<nat>,
    parent: int,
    i: int,
)
    requires
        level.len() == pool.len(),
        pool2.len() == pool.len(),
        forall|j: int| 0 <= j < pool.len() ==> #[trigger] node_shape_ok(pool, level, j),
        0 <= parent < pool.len(),
        pool[parent] is Internal,
        pool2[parent] is Internal,
        0 <= i,
        i + 1 < pool[parent].kids().len(),
        pool2[parent].kids() == pool[parent].kids().remove(i + 1),
        forall|k: int| 0 <= k < pool[parent].kids().len() && k != i && k != i + 1
            ==> pool2[(#[trigger] pool[parent].kids()[k]) as int] == pool[pool[parent].kids()[k] as int],
        forall|j: int| 0 <= j < pool.len() && level[j] + 1 < level[parent] ==> #[trigger] pool2[j] == pool[j],
        items_under(pool2, pool[parent].kids()[i] as int, (level[parent] - 1) as nat)
            == items_under(pool, pool[parent].kids()[i] as int, (level[parent] - 1) as nat)
            + items_under(pool, pool[parent].kids()[i + 1] as int, (level[parent] - 1) as nat),
    ensures
        items_under(pool2, parent, level[parent]) == items_under(pool, parent, level[parent]),
{
    assert(node_shape_ok(pool, level, parent));
    let ks = pool[parent].kids();
    let ks2 = ks.remove(i + 1);
    let d = (level[parent] - 1) as nat;
    assert forall|k: int| 0 <= k < ks.len() implies (#[trigger] ks[k]) < pool.len() && level[ks[k] as int] == d by {
        match pool[parent] {
            MeasuredBTreeNode::Internal { children, .. } => {
                assert(children@[k] == ks[k]);
            },
            MeasuredBTreeNode::Leaf { .. } => {},
        }
    }
    let a = ks.take(i);
    let b = ks.skip(i + 2);
    assert forall|k: int| 0 <= k < a.len() implies (#[trigger] a[k]) < pool.len() && level[a[k] as int] == d
        && pool2[a[k] as int] == pool[a[k] as int] by {
        assert(a[k] == ks[k]);
    }
    assert forall|k: int| 0 <= k < b.len() implies (#[trigger] b[k]) < pool.len() && level[b[k] as int] == d
        && pool2[b[k] as int] == pool[b[k] as int] by {
        assert(b[k] == ks[k + i + 2]);
    }
    lemma_kids_low_frame(pool, pool2, level, a, d);
    lemma_kids_low_frame(pool, pool2, level, b, d);
    lemma_items_of_kids_pair(pool, ks, i, d);
    lemma_items_of_kids_at(pool2, ks2, i, d);
    assert(ks2.take(i) =~= a);
    assert(ks2.skip(i + 1) =~= b);
    assert(ks2[i] == ks[i]);
    match pool2[parent] {
        MeasuredBTreeNode::Internal { children, .. } => {
            assert(children@ == ks2);
        },
        MeasuredBTreeNode::Leaf { .. } => {},
    }
    match pool[parent] {
        MeasuredBTreeNode::Internal { children, .. } => {
            assert(children@ == ks);
        },
        MeasuredBTreeNode::Leaf { .. } => {},
    }
    assert(items_under(pool2, parent, level[parent]) =~= items_under(pool, parent, level[parent]));
}

} // verus!
