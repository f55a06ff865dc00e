//! # Measured B-Tree
//!
//! An arena-allocated B-Tree that routes by a cumulative `Measure` (text length,
//! line counts, ...) instead of by keys. Internal nodes cache the total measure of
//! their subtrees. Nodes live in a flat `pool` vector and refer to their children by
//! `PoolIndex`; freed nodes are recycled through two free lists.
use vstd::prelude::*;
use crate::atoms::{atoms, inserted_at, deleted_at, lemma_inserted_into_empty, lemma_deleted_nothing, lemma_atoms_len, lemma_insert_pos, lemma_insert_plain_atoms, lemma_insert_merged_atoms,
    lemma_insert_split_atoms};
use crate::subtree::{under, shapes, lemma_kids_delete, lemma_kids_sub_frame, lemma_kid_facts, lemma_under_facts, lemma_under_kid, lemma_unique_ancestor,
    lemma_under_parent, lemma_under_trans,
    lemma_items_under_sub_frame, lemma_atoms_under_len, lemma_atoms_kids_len, lemma_under_same_kids, lemma_kids_insert};
use crate::in_order::{primary_only, items_under, items_of_kids, lemma_items_under_frame, lemma_kids_low_frame,
    lemma_items_of_kids_concat, lemma_parent_pair_kept, lemma_parent_merge_kept};
use crate::measure::{padd, nsub, removed_amount, psub, plt, ple, pbelow, psum, lemma_psum_push, lemma_psum_take_below, lemma_psum_update, lemma_psum_insert, lemma_psum_split, lemma_psum_elem_below, lemma_psum_remove, lemma_psum_concat, lemma_psum_single, lemma_psum_two_below, lemma_psum_update2, lemma_psum_merge, lemma_psum_take_plus_one};

verus! {

/// Index of a node in the pool vector of a `MeasuredBTree`.
pub type PoolIndex = usize;

/// Result of a B-Tree operation.
pub type MeasuredBTreeResult<T, M> = Result<T, MeasuredBTreeError<M>>;

/// Initial capacity of the node pool.
pub const BASE_CAPACITY: usize = 1024;

/// Maximum number of data items a leaf holds before it splits (`2 * T - 1` with `T = 16`).
pub const DATA_CAPACITY: usize = 31;

/// Maximum number of children an internal node holds before it splits (`2 * T`).
pub const NODE_CHILDREN_CAPACITY: usize = 32;

/// A measure: a summary value that can be added, subtracted and compared.
///
/// Each measure has a model, a pair of natural numbers; addition is componentwise,
/// subtraction saturates componentwise and the order is lexicographic.
pub trait Measure: Sized + Copy {
    /// The mathematical value of this measure.
    spec fn model(self) -> (nat, nat);

    /// Whether a model is representable by this measure type.
    spec fn fits(m: (nat, nat)) -> bool;

    proof fn lemma_fits(a: Self)
        ensures
            Self::fits(a.model()),
    ;

    proof fn lemma_fits_below(m: (nat, nat), n: (nat, nat))
        requires
            Self::fits(m),
            pbelow(n, m),
        ensures
            Self::fits(n),
    ;

    proof fn lemma_injective(a: Self, b: Self)
        requires
            a.model() == b.model(),
        ensures
            a == b,
    ;

    /// The neutral measure.
    fn zero() -> (r: Self)
        ensures
            r.model() == (0nat, 0nat),
    ;

    /// Componentwise sum.
    fn plus(self, rhs: Self) -> (r: Self)
        requires
            Self::fits(padd(self.model(), rhs.model())),
        ensures
            r.model() == padd(self.model(), rhs.model()),
    ;

    /// Difference of a measure and a smaller one.
    fn minus(self, rhs: Self) -> (r: Self)
        requires
            ple(rhs.model(), self.model()),
        ensures
            r.model() == psub(self.model(), rhs.model()),
    ;

    /// Componentwise saturating difference.
    fn saturating_minus(self, rhs: Self) -> (r: Self)
        ensures
            r.model() == psub(self.model(), rhs.model()),
    ;

    /// Strict order.
    fn less_than(&self, rhs: &Self) -> (r: bool)
        ensures
            r == plt(self.model(), rhs.model()),
    ;

    /// Non-strict order.
    fn at_most(&self, rhs: &Self) -> (r: bool)
        ensures
            r == ple(self.model(), rhs.model()),
    ;

    /// Equality of measures.
    fn same(&self, rhs: &Self) -> (r: bool)
        ensures
            r == (self.model() == rhs.model()),
    ;

    /// The first component of the measure (positions).
    fn primary(&self) -> (r: u64)
        ensures
            r as nat == self.model().0,
    ;

    /// Resets the measure to zero.
    fn clear(&mut self)
        ensures
            final(self).model() == (0nat, 0nat),
    ;
}

/// The data stored in the leaves of a `MeasuredBTree`.
///
/// Each item stands for a sequence of atoms (its content). The measure of a
/// sequence of atoms is the pair of its length and of the number of flagged atoms
/// in it (for text: bytes and newlines); the measure of an item is the measure of
/// its content.
pub trait MeasuredBTreeData: Sized {
    type Measure: Measure;

    type Atom;

    /// Internal consistency of an item.
    spec fn wf(&self) -> bool;

    /// The atoms this item stands for.
    spec fn content(&self) -> Seq<Self::Atom>;

    /// The number of flagged atoms in a sequence.
    spec fn flags(s: Seq<Self::Atom>) -> nat;

    /// The measure of this item.
    spec fn spec_measure(&self) -> Self::Measure;

    proof fn lemma_flags_empty()
        ensures
            Self::flags(Seq::empty()) == 0,
    ;

    proof fn lemma_flags_single(a: Self::Atom)
        ensures
            Self::flags(seq![a]) <= 1,
    ;

    proof fn lemma_flags_concat(a: Seq<Self::Atom>, b: Seq<Self::Atom>)
        ensures
            Self::flags(a + b) == Self::flags(a) + Self::flags(b),
    ;

    proof fn lemma_content(x: &Self)
        requires
            x.wf(),
        ensures
            x.spec_measure().model() == (x.content().len(), Self::flags(x.content())),
    ;

    fn measure(&self) -> (r: Self::Measure)
        ensures
            r == self.spec_measure(),
    ;

    /// Keeps in `self` as many atoms as the first component of `offset` counts and
    /// returns the rest.
    fn split_at(&mut self, offset: Self::Measure) -> (r: Self)
        requires
            old(self).wf(),
            0 < offset.model().0 < old(self).content().len(),
        ensures
            final(self).wf(),
            r.wf(),
            final(self).content() == old(self).content().take(offset.model().0 as int),
            r.content() == old(self).content().skip(offset.model().0 as int),
    ;

    /// Appends `other` to `self` when the two can be represented by one item.
    fn try_merge(&mut self, other: &Self) -> (r: bool)
        requires
            old(self).wf(),
            other.wf(),
        ensures
            final(self).wf(),
            r ==> final(self).content() == old(self).content() + other.content(),
            !r ==> *final(self) == *old(self),
    ;
}

/// The measures of a sequence of items.
pub open spec fn data_models<T: MeasuredBTreeData>(s: Seq<T>) -> Seq<(nat, nat)> {
    s.map_values(|d: T| d.spec_measure().model())
}

/// Error of a B-Tree operation.
#[derive(Debug)]
pub enum MeasuredBTreeError<M> {
    OutOfBounds { max: M, requested: M },
}

/// A node of the tree: a leaf holding data, or an internal node holding children.
pub enum MeasuredBTreeNode<T: MeasuredBTreeData> {
    Leaf { measure: T::Measure, data: Vec<T> },
    Internal { measure: T::Measure, children: Vec<PoolIndex> },
}

/// A node holds at least the minimum number of entries of its kind.
pub open spec fn filled<T: MeasuredBTreeData>(n: MeasuredBTreeNode<T>) -> bool {
    n.entries() >= (if n is Leaf { DATA_CAPACITY / 2 } else { NODE_CHILDREN_CAPACITY / 2 })
}

/// Minimum number of entries of a node of the given kind.
pub fn get_min_cap(is_leaf: bool) -> (r: usize)
    ensures
        r == (if is_leaf { DATA_CAPACITY / 2 } else { NODE_CHILDREN_CAPACITY / 2 }),
{
    if is_leaf {
        DATA_CAPACITY / 2
    } else {
        NODE_CHILDREN_CAPACITY / 2
    }
}

impl<T: MeasuredBTreeData> MeasuredBTreeNode<T> {
    /// The cached measure of this node.
    pub open spec fn node_measure(&self) -> T::Measure {
        match self {
            MeasuredBTreeNode::Leaf { measure, .. } => *measure,
            MeasuredBTreeNode::Internal { measure, .. } => *measure,
        }
    }

    pub open spec fn weight(&self) -> (nat, nat) {
        self.node_measure().model()
    }

    /// The children of an internal node (empty for a leaf).
    pub open spec fn kids(&self) -> Seq<PoolIndex> {
        match self {
            MeasuredBTreeNode::Internal { children, .. } => children@,
            _ => Seq::empty(),
        }
    }

    /// The data of a leaf (empty for an internal node).
    pub open spec fn items(&self) -> Seq<T> {
        match self {
            MeasuredBTreeNode::Leaf { data, .. } => data@,
            _ => Seq::empty(),
        }
    }

    /// Number of entries: data items of a leaf, children of an internal node.
    pub open spec fn entries(&self) -> nat {
        match self {
            MeasuredBTreeNode::Leaf { data, .. } => data.len() as nat,
            MeasuredBTreeNode::Internal { children, .. } => children.len() as nat,
        }
    }

    /// This node with its cached measure replaced.
    pub open spec fn with_measure(self, m: T::Measure) -> Self {
        match self {
            MeasuredBTreeNode::Leaf { data, .. } => MeasuredBTreeNode::Leaf { measure: m, data },
            MeasuredBTreeNode::Internal { children, .. } => MeasuredBTreeNode::Internal {
                measure: m,
                children,
            },
        }
    }

    pub fn new_leaf() -> (r: Self)
        ensures
            r is Leaf,
            r.items() == Seq::<T>::empty(),
            r.weight() == (0nat, 0nat),
    {
        MeasuredBTreeNode::Leaf { data: Vec::with_capacity(DATA_CAPACITY), measure: T::Measure::zero() }
    }

    pub fn new_internal() -> (r: Self)
        ensures
            r is Internal,
            r.kids() == Seq::<PoolIndex>::empty(),
            r.weight() == (0nat, 0nat),
    {
        MeasuredBTreeNode::Internal {
            children: Vec::with_capacity(NODE_CHILDREN_CAPACITY),
            measure: T::Measure::zero(),
        }
    }

    /// A copy of the cached measure.
    pub fn measure(&self) -> (r: T::Measure)
        ensures
            r == self.node_measure(),
    {
        match self {
            MeasuredBTreeNode::Leaf { measure, .. } => *measure,
            MeasuredBTreeNode::Internal { measure, .. } => *measure,
        }
    }

    /// A mutable reference to the cached measure.
    pub fn mut_measure(&mut self) -> (r: &mut T::Measure)
        ensures
            *r == old(self).node_measure(),
            *final(self) == old(self).with_measure(*final(r)),
    {
        match self {
            MeasuredBTreeNode::Leaf { measure, .. } => measure,
            MeasuredBTreeNode::Internal { measure, .. } => measure,
        }
    }

    /// Whether the cached measure is zero.
    pub fn is_empty(&self) -> (r: bool)
        ensures
            r == (self.weight() == (0nat, 0nat)),
    {
        let zero = T::Measure::zero();
        self.measure().same(&zero)
    }

    /// Removes all entries and resets the measure.
    pub fn clear(&mut self)
        ensures
            (*final(self) is Leaf) == (*old(self) is Leaf),
            final(self).items() == Seq::<T>::empty(),
            final(self).kids() == Seq::<PoolIndex>::empty(),
            final(self).weight() == (0nat, 0nat),
    {
        match self {
            MeasuredBTreeNode::Leaf { data, measure } => {
                data.clear();
                measure.clear();
            },
            MeasuredBTreeNode::Internal { children, measure } => {
                children.clear();
                measure.clear();
            },
        }
    }

    pub fn is_leaf(&self) -> (r: bool)
        ensures
            r == (*self is Leaf),
    {
        match self {
            MeasuredBTreeNode::Leaf { .. } => true,
            MeasuredBTreeNode::Internal { .. } => false,
        }
    }

    /// Whether the node holds at least its capacity of entries.
    pub fn is_full(&self) -> (r: bool)
        ensures
            r == (if *self is Leaf {
                self.entries() >= DATA_CAPACITY
            } else {
                self.entries() >= NODE_CHILDREN_CAPACITY
            }),
    {
        match self {
            MeasuredBTreeNode::Leaf { data, .. } => data.len() >= DATA_CAPACITY,
            MeasuredBTreeNode::Internal { children, .. } => children.len() >= NODE_CHILDREN_CAPACITY,
        }
    }
}


/// The measures of the nodes at the given pool indices.
pub open spec fn kid_models<T: MeasuredBTreeData>(
    pool: Seq<MeasuredBTreeNode<T>>,
    kids: Seq<PoolIndex>,
) -> Seq<(nat, nat)> {
    kids.map_values(|c: PoolIndex| pool[c as int].weight())
}

/// Local consistency of node `i`: leaves sit at level 0 and cache the sum of their
/// data; internal nodes sit one level above each child and cache the sum of their
/// children.
pub open spec fn node_ok<T: MeasuredBTreeData>(
    pool: Seq<MeasuredBTreeNode<T>>,
    level: Seq<nat>,
    i: int,
) -> bool {
    match pool[i] {
        MeasuredBTreeNode::Leaf { measure, data } => {
            &&& level[i] == 0
            &&& forall|k: int| 0 <= k < data@.len() ==> (#[trigger] data@[k]).wf()
            &&& measure.model() == psum(data_models(data@))
        },
        MeasuredBTreeNode::Internal { measure, children } => {
            &&& level[i] > 0
            &&& forall|k: int|
                0 <= k < children@.len() ==> {
                    &&& (#[trigger] children@[k]) < pool.len()
                    &&& level[children@[k] as int] + 1 == level[i]
                }
            &&& measure.model() == psum(kid_models(pool, children@))
        },
    }
}

/// Node `i` is consistent, except that its cached measure exceeds its sum by `d`.
pub open spec fn node_ok_d<T: MeasuredBTreeData>(
    pool: Seq<MeasuredBTreeNode<T>>,
    level: Seq<nat>,
    i: int,
    d: (nat, nat),
) -> bool {
    match pool[i] {
        MeasuredBTreeNode::Leaf { measure, data } => {
            &&& level[i] == 0
            &&& forall|k: int| 0 <= k < data@.len() ==> (#[trigger] data@[k]).wf()
            &&& measure.model() == padd(psum(data_models(data@)), d)
        },
        MeasuredBTreeNode::Internal { measure, children } => {
            &&& level[i] > 0
            &&& forall|k: int|
                0 <= k < children@.len() ==> {
                    &&& (#[trigger] children@[k]) < pool.len()
                    &&& level[children@[k] as int] + 1 == level[i]
                }
            &&& measure.model() == padd(psum(kid_models(pool, children@)), d)
        },
    }
}

/// All nodes are consistent, except node `x`, whose measure exceeds its sum by `d`.
pub open spec fn nodes_ok_except<T: MeasuredBTreeData>(
    pool: Seq<MeasuredBTreeNode<T>>,
    level: Seq<nat>,
    x: int,
    d: (nat, nat),
) -> bool {
    &&& level.len() == pool.len()
    &&& forall|i: int|
        0 <= i < pool.len() && i != x ==> #[trigger] node_ok(pool, level, i)
    &&& 0 <= x < pool.len() ==> node_ok_d(pool, level, x, d)
}

pub open spec fn nodes_ok<T: MeasuredBTreeData>(
    pool: Seq<MeasuredBTreeNode<T>>,
    level: Seq<nat>,
) -> bool {
    nodes_ok_except(pool, level, -1, (0nat, 0nat))
}

/// The parts of node `i`'s consistency that do not concern its cached measure.
pub open spec fn node_shape_ok<T: MeasuredBTreeData>(
    pool: Seq<MeasuredBTreeNode<T>>,
    level: Seq<nat>,
    i: int,
) -> bool {
    match pool[i] {
        MeasuredBTreeNode::Leaf { data, .. } => {
            &&& level[i] == 0
            &&& forall|k: int| 0 <= k < data@.len() ==> (#[trigger] data@[k]).wf()
        },
        MeasuredBTreeNode::Internal { children, .. } => {
            &&& level[i] > 0
            &&& forall|k: int|
                0 <= k < children@.len() ==> {
                    &&& (#[trigger] children@[k]) < pool.len()
                    &&& level[children@[k] as int] + 1 == level[i]
                }
        },
    }
}

/// All nodes are consistent, except the nodes in `a`, whose cached measures are
/// arbitrary.
pub open spec fn nodes_ok_but<T: MeasuredBTreeData>(
    pool: Seq<MeasuredBTreeNode<T>>,
    level: Seq<nat>,
    a: Set<int>,
) -> bool {
    &&& level.len() == pool.len()
    &&& forall|i: int| 0 <= i < pool.len() && !a.contains(i) ==> #[trigger] node_ok(pool, level, i)
    &&& forall|i: int| 0 <= i < pool.len() && a.contains(i) ==> #[trigger] node_shape_ok(pool, level, i)
}

/// No node is the child of two parents, nor twice the child of one parent.
pub open spec fn unique_parents<T: MeasuredBTreeData>(pool: Seq<MeasuredBTreeNode<T>>) -> bool {
    forall|p: int, a: int, q: int, b: int|
        0 <= p < pool.len() && 0 <= q < pool.len() && 0 <= a < pool[p].kids().len() && 0 <= b
            < pool[q].kids().len() && #[trigger] pool[p].kids()[a] == #[trigger] pool[q].kids()[b]
            ==> p == q && a == b
}

/// Node `i` is the child of some node of the pool.
pub open spec fn is_child<T: MeasuredBTreeData>(pool: Seq<MeasuredBTreeNode<T>>, i: int) -> bool {
    exists|p: int, a: int|
        0 <= p < pool.len() && 0 <= a < pool[p].kids().len() && #[trigger] pool[p].kids()[a] == i
}

/// Index `i` occurs in the list.
pub open spec fn in_list(list: Seq<PoolIndex>, i: int) -> bool {
    exists|k: int| 0 <= k < list.len() && #[trigger] list[k] as int == i
}

pub proof fn lemma_in_list_push(list: Seq<PoolIndex>, x: PoolIndex, i: int)
    ensures
        in_list(list.push(x), i) == (in_list(list, i) || x as int == i),
{
    if in_list(list, i) {
        let k = choose|k: int| 0 <= k < list.len() && #[trigger] list[k] as int == i;
        assert(list.push(x)[k] as int == i);
    }
    if x as int == i {
        assert(list.push(x)[list.len() as int] as int == i);
    }
    if in_list(list.push(x), i) {
        let k = choose|k: int| 0 <= k < list.push(x).len() && #[trigger] list.push(x)[k] as int == i;
        if k < list.len() {
            assert(list[k] as int == i);
        }
    }
}

pub proof fn lemma_in_list_drop_last(list: Seq<PoolIndex>, i: int)
    requires
        list.len() > 0,
        list.no_duplicates(),
    ensures
        in_list(list.drop_last(), i) == (in_list(list, i) && list.last() as int != i),
{
    assert(list.drop_last().push(list.last()) =~= list);
    lemma_in_list_push(list.drop_last(), list.last(), i);
    if in_list(list.drop_last(), i) {
        let k = choose|k: int| 0 <= k < list.drop_last().len() && #[trigger] list.drop_last()[k] as int == i;
        assert(list[k] == list.drop_last()[k]);
        if list.last() as int == i {
            assert(list[k] == list[list.len() - 1]);
        }
    }
}

/// A B-Tree whose nodes live in a pool and whose routing is by cumulative measure.
pub struct MeasuredBTree<T: MeasuredBTreeData> {
    pub pool: Vec<MeasuredBTreeNode<T>>,
    pub root_idx: Option<PoolIndex>,
    pub free_leaves_list: Vec<PoolIndex>,
    pub free_internals_list: Vec<PoolIndex>,
    pub level: Ghost<Seq<nat>>,
}

impl<T: MeasuredBTreeData> MeasuredBTree<T> {
    /// Node `i` sits in one of the free lists.
    pub closed spec fn is_free(&self, i: int) -> bool {
        in_list(self.free_leaves_list@, i) || in_list(self.free_internals_list@, i)
    }

    /// Node `i` is the root or the child of a node.
    pub closed spec fn attached(&self, i: int) -> bool {
        self.root_idx == Some(i as PoolIndex) || is_child(self.pool@, i)
    }

    pub closed spec fn free_list_ok(&self, list: Seq<PoolIndex>, leaves: bool) -> bool {
        &&& list.no_duplicates()
        &&& forall|k: int|
            0 <= k < list.len() ==> {
                &&& (#[trigger] list[k]) < self.pool.len()
                &&& (self.pool@[list[k] as int] is Leaf) == leaves
                &&& self.pool@[list[k] as int].items().len() == 0
                &&& self.pool@[list[k] as int].kids().len() == 0
                &&& self.pool@[list[k] as int].weight() == (0nat, 0nat)
                &&& !self.attached(list[k] as int)
            }
    }

    /// Well-formedness of the tree.
    pub closed spec fn wf(&self) -> bool {
        &&& nodes_ok(self.pool@, self.level@)
        &&& self.shape_ok()
    }

    /// Well-formedness, except that the measure of node `x` exceeds its sum by `d`.
    pub closed spec fn wf_except(&self, x: int, d: (nat, nat)) -> bool {
        &&& nodes_ok_except(self.pool@, self.level@, x, d)
        &&& self.shape_ok()
    }

    /// Well-formedness, except that the cached measures of the nodes in `a` are arbitrary.
    pub closed spec fn wf_but(&self, a: Set<int>) -> bool {
        &&& nodes_ok_but(self.pool@, self.level@, a)
        &&& self.shape_ok()
    }

    /// The parts of well-formedness that do not concern cached measures.
    pub closed spec fn shape_ok(&self) -> bool {
        &&& self.level@.len() == self.pool@.len()
        &&& forall|i: int, k: int|
            0 <= i < self.pool@.len() && 0 <= k < self.pool@[i].kids().len()
                ==> #[trigger] self.pool@[i].kids()[k] < self.pool@.len()
        &&& unique_parents(self.pool@)
        &&& self.root_idx matches Some(r) ==> {
            &&& r < self.pool.len()
            &&& !is_child(self.pool@, r as int)
        }
        &&& forall|i: int|
            0 <= i < self.pool.len() && self.attached(i) && (#[trigger] self.pool@[i]) is Internal
                ==> self.pool@[i].kids().len() > 0
        &&& self.free_list_ok(self.free_leaves_list@, true)
        &&& self.free_list_ok(self.free_internals_list@, false)
    }

    /// The total measure of the tree.
    pub open spec fn total(&self) -> (nat, nat) {
        match self.root_idx {
            Some(r) => self.pool@[r as int].weight(),
            None => (0nat, 0nat),
        }
    }

    pub fn new() -> (r: Self)
        ensures
            r.wf(),
            r.pool@.len() == 0,
            r.root_idx.is_none(),
            r.total() == (0nat, 0nat),
            r.free_leaves_list@.len() == 0,
            r.free_internals_list@.len() == 0,
    {
        MeasuredBTree {
            pool: Vec::with_capacity(BASE_CAPACITY),
            root_idx: None,
            free_internals_list: Vec::new(),
            free_leaves_list: Vec::new(),
            level: Ghost(Seq::empty()),
        }
    }

    /// Clears node `pool_idx` and adds it to the free list of its kind. An index past
    /// the end of the pool is a no-op.
    pub fn deallocate_node(&mut self, pool_idx: PoolIndex)
        ensures
            pool_idx >= old(self).pool.len() ==> *final(self) == *old(self),
            pool_idx < old(self).pool.len() ==> final(self).pool@.len() == old(self).pool@.len(),
            pool_idx < old(self).pool.len() ==> (final(self).pool@[pool_idx as int] is Leaf) == (old(self).pool@[pool_idx as int] is Leaf),
            pool_idx < old(self).pool.len() ==> final(self).pool@[pool_idx as int].items().len() == 0,
            pool_idx < old(self).pool.len() ==> final(self).pool@[pool_idx as int].kids().len() == 0,
            pool_idx < old(self).pool.len() ==> final(self).pool@[pool_idx as int].weight() == (0nat, 0nat),
            pool_idx < old(self).pool.len() ==> forall|j: int| 0 <= j < old(self).pool@.len() && j != pool_idx ==> final(self).pool@[j] == old(self).pool@[j],
            final(self).root_idx == old(self).root_idx,
            final(self).level == old(self).level,
            pool_idx < old(self).pool.len() && old(self).pool@[pool_idx as int] is Leaf ==>
                final(self).free_leaves_list@ == old(self).free_leaves_list@.push(pool_idx),
            pool_idx < old(self).pool.len() && old(self).pool@[pool_idx as int] is Leaf ==>
                final(self).free_internals_list@ == old(self).free_internals_list@,
            pool_idx < old(self).pool.len() && !(old(self).pool@[pool_idx as int] is Leaf) ==>
                final(self).free_internals_list@ == old(self).free_internals_list@.push(pool_idx),
            pool_idx < old(self).pool.len() && !(old(self).pool@[pool_idx as int] is Leaf) ==>
                final(self).free_leaves_list@ == old(self).free_leaves_list@,
            pool_idx < old(self).pool.len() ==> final(self).is_free(pool_idx as int),
            pool_idx < old(self).pool.len() ==> forall|j: int| j != pool_idx ==> (final(self).is_free(j) == old(self).is_free(j)),
            old(self).shape_ok() && !old(self).attached(pool_idx as int) && !old(self).is_free(pool_idx as int)
                ==> final(self).shape_ok(),
            forall|x: int, d: (nat, nat)|
                nodes_ok_except(old(self).pool@, old(self).level@, x, d) && x != pool_idx
                    && !is_child(old(self).pool@, pool_idx as int)
                    ==> nodes_ok_except(final(self).pool@, final(self).level@, x, d),
            old(self).wf() && !old(self).attached(pool_idx as int) && !old(self).is_free(pool_idx as int) ==> final(self).wf(),
    {
        if pool_idx >= self.pool.len() {
            return ;
        }
        let ghost old_self = *self;
        let node = &mut self.pool[pool_idx];
        node.clear();
        let is_leaf = node.is_leaf();
        if is_leaf {
            self.free_leaves_list.push(pool_idx);
        } else {
            self.free_internals_list.push(pool_idx);
        }
        proof {
            assert forall|j: int| #![auto] true implies (self.is_free(j) == (old_self.is_free(j) || j == pool_idx as int)) by {
                lemma_in_list_push(old_self.free_leaves_list@, pool_idx, j);
                lemma_in_list_push(old_self.free_internals_list@, pool_idx, j);
            }
            if old_self.shape_ok() && !old_self.attached(pool_idx as int) && !old_self.is_free(pool_idx as int) {
                self.lemma_detached_change(old_self, pool_idx as int);
            }
            assert(forall|j: int| j != pool_idx ==> (self.is_free(j) == old_self.is_free(j)));
            lemma_in_list_push(old_self.free_leaves_list@, pool_idx, pool_idx as int);
            lemma_in_list_push(old_self.free_internals_list@, pool_idx, pool_idx as int);
            assert(self.is_free(pool_idx as int));
            assert forall|x: int, d: (nat, nat)|
                nodes_ok_except(old_self.pool@, old_self.level@, x, d) && x != pool_idx
                    && !is_child(old_self.pool@, pool_idx as int)
                implies nodes_ok_except(self.pool@, self.level@, x, d) by {
                lemma_cleared_nodes(old_self.pool@, self.pool@, self.level@, x, d, pool_idx as int);
            }
        }
    }
}

/// Changing the pool outside the given indices keeps their measures.
pub proof fn lemma_kid_models_frame<T: MeasuredBTreeData>(
    p1: Seq<MeasuredBTreeNode<T>>,
    p2: Seq<MeasuredBTreeNode<T>>,
    kids: Seq<PoolIndex>,
)
    requires
        forall|k: int| 0 <= k < kids.len() ==> p1[#[trigger] kids[k] as int].weight() == p2[kids[k] as int].weight(),
    ensures
        kid_models(p1, kids) == kid_models(p2, kids),
{
    assert(kid_models(p1, kids) =~= kid_models(p2, kids));
}

impl<T: MeasuredBTreeData> MeasuredBTree<T> {
    /// Clearing a node that is neither attached nor free, and pushing it on the free
    /// list of its kind, keeps the shape of the tree well-formed.
    proof fn lemma_detached_change(&self, old_self: Self, idx: int)
        requires
            old_self.shape_ok(),
            0 <= idx < old_self.pool@.len(),
            !old_self.attached(idx),
            !old_self.is_free(idx),
            self.pool@.len() == old_self.pool@.len(),
            (self.pool@[idx] is Leaf) == (old_self.pool@[idx] is Leaf),
            self.pool@[idx].items().len() == 0,
            self.pool@[idx].kids().len() == 0,
            self.pool@[idx].weight() == (0nat, 0nat),
            forall|j: int| 0 <= j < self.pool@.len() && j != idx ==> self.pool@[j] == old_self.pool@[j],
            self.root_idx == old_self.root_idx,
            self.level@ == old_self.level@,
            self.pool@[idx] is Leaf ==> self.free_leaves_list@ == old_self.free_leaves_list@.push(idx as PoolIndex)
                && self.free_internals_list@ == old_self.free_internals_list@,
            !(self.pool@[idx] is Leaf) ==> self.free_internals_list@ == old_self.free_internals_list@.push(idx as PoolIndex)
                && self.free_leaves_list@ == old_self.free_leaves_list@,
        ensures
            self.shape_ok(),
    {
        let pool = self.pool@;
        let opool = old_self.pool@;
        assert forall|i: int| #[trigger] is_child(pool, i) implies is_child(opool, i) by {
            let (p, a) = choose|p: int, a: int|
                0 <= p < pool.len() && 0 <= a < pool[p].kids().len() && #[trigger] pool[p].kids()[a] == i;
            assert(opool[p].kids()[a] == i);
        }
        assert forall|p: int, a: int, q: int, b: int|
            0 <= p < pool.len() && 0 <= q < pool.len() && 0 <= a < pool[p].kids().len() && 0 <= b
                < pool[q].kids().len() && #[trigger] pool[p].kids()[a] == #[trigger] pool[q].kids()[b]
            implies p == q && a == b by {
            assert(opool[p].kids()[a] == opool[q].kids()[b]);
        }
        if let Some(r) = self.root_idx {
            if is_child(pool, r as int) {
                assert(is_child(opool, r as int));
            }
        }
        assert forall|i: int| 0 <= i < pool.len() && self.attached(i) && (#[trigger] pool[i]) is Internal
            implies pool[i].kids().len() > 0 by {
            assert(old_self.attached(i));
        }
        assert forall|k: int| 0 <= k < self.free_leaves_list@.len() implies {
            &&& (#[trigger] self.free_leaves_list@[k]) < self.pool.len()
            &&& (self.pool@[self.free_leaves_list@[k] as int] is Leaf) == true
            &&& self.pool@[self.free_leaves_list@[k] as int].items().len() == 0
            &&& self.pool@[self.free_leaves_list@[k] as int].kids().len() == 0
            &&& self.pool@[self.free_leaves_list@[k] as int].weight() == (0nat, 0nat)
            &&& !self.attached(self.free_leaves_list@[k] as int)
        } by {
            if k < old_self.free_leaves_list@.len() {
                assert(old_self.free_leaves_list@[k] == self.free_leaves_list@[k]);
            }
        }
        assert forall|k: int| 0 <= k < self.free_internals_list@.len() implies {
            &&& (#[trigger] self.free_internals_list@[k]) < self.pool.len()
            &&& (self.pool@[self.free_internals_list@[k] as int] is Leaf) == false
            &&& self.pool@[self.free_internals_list@[k] as int].items().len() == 0
            &&& self.pool@[self.free_internals_list@[k] as int].kids().len() == 0
            &&& self.pool@[self.free_internals_list@[k] as int].weight() == (0nat, 0nat)
            &&& !self.attached(self.free_internals_list@[k] as int)
        } by {
            if k < old_self.free_internals_list@.len() {
                assert(old_self.free_internals_list@[k] == self.free_internals_list@[k]);
            }
        }
        if self.pool@[idx] is Leaf {
            assert(!old_self.free_leaves_list@.contains(idx as PoolIndex)) by {
                if old_self.free_leaves_list@.contains(idx as PoolIndex) {
                    let k = choose|k: int| 0 <= k < old_self.free_leaves_list@.len() && old_self.free_leaves_list@[k] == idx as PoolIndex;
                    assert(in_list(old_self.free_leaves_list@, idx));
                }
            }
        } else {
            assert(!old_self.free_internals_list@.contains(idx as PoolIndex)) by {
                if old_self.free_internals_list@.contains(idx as PoolIndex) {
                    let k = choose|k: int| 0 <= k < old_self.free_internals_list@.len() && old_self.free_internals_list@[k] == idx as PoolIndex;
                    assert(in_list(old_self.free_internals_list@, idx));
                }
            }
        }
    }
}

/// Clearing a node that is nobody's child keeps the other nodes consistent.
pub proof fn lemma_cleared_nodes<T: MeasuredBTreeData>(
    opool: Seq<MeasuredBTreeNode<T>>,
    pool: Seq<MeasuredBTreeNode<T>>,
    level: Seq<nat>,
    x: int,
    d: (nat, nat),
    idx: int,
)
    requires
        nodes_ok_except(opool, level, x, d),
        x != idx,
        !is_child(opool, idx),
        0 <= idx < opool.len(),
        pool.len() == opool.len(),
        (pool[idx] is Leaf) == (opool[idx] is Leaf),
        pool[idx].items().len() == 0,
        pool[idx].kids().len() == 0,
        pool[idx].weight() == (0nat, 0nat),
        forall|j: int| 0 <= j < pool.len() && j != idx ==> pool[j] == opool[j],
    ensures
        nodes_ok_except(pool, level, x, d),
{
    let r = set![idx];
    assert forall|i: int| 0 <= i < opool.len() && !r.contains(i) implies
        forall|k: int| 0 <= k < opool[i].kids().len() ==> {
            let c = #[trigger] opool[i].kids()[k];
            pool[c as int].weight() == opool[c as int].weight()
        } by {
        assert forall|k: int| 0 <= k < opool[i].kids().len() implies {
            let c = #[trigger] opool[i].kids()[k];
            pool[c as int].weight() == opool[c as int].weight()
        } by {
            if opool[i].kids()[k] == idx {
                assert(is_child(opool, idx));
            }
            if i == x {
                assert(node_ok_d(opool, level, i, d));
            } else {
                assert(node_ok(opool, level, i));
            }
            match opool[i] {
                MeasuredBTreeNode::Internal { children, .. } => {
                    assert(children@[k] == opool[i].kids()[k]);
                },
                MeasuredBTreeNode::Leaf { .. } => {},
            }
        }
    }
    assert(node_ok(pool, level, idx)) by {
        assert(psum(Seq::<(nat, nat)>::empty()) == (0nat, 0nat));
        assert(level[idx] == if opool[idx] is Leaf { 0nat } else { level[idx] }) by {
            if 0 <= x < opool.len() {} 
            assert(node_ok(opool, level, idx));
        }
        match pool[idx] {
            MeasuredBTreeNode::Leaf { measure, data } => {
                assert(data_models(data@) =~= Seq::<(nat, nat)>::empty());
            },
            MeasuredBTreeNode::Internal { measure, children } => {
                assert(node_ok(opool, level, idx));
                assert(kid_models(pool, children@) =~= Seq::<(nat, nat)>::empty());
            },
        }
    }
    lemma_nodes_frame(opool, level, pool, level, x, d, r);
}

/// Nodes outside `r` that are unchanged, and whose children keep their measures and
/// levels, stay consistent; the nodes in `r` are checked by the caller.
pub proof fn lemma_nodes_frame<T: MeasuredBTreeData>(
    opool: Seq<MeasuredBTreeNode<T>>,
    olevel: Seq<nat>,
    pool: Seq<MeasuredBTreeNode<T>>,
    level: Seq<nat>,
    x: int,
    d: (nat, nat),
    r: Set<int>,
)
    requires
        nodes_ok_except(opool, olevel, x, d),
        level.len() == pool.len(),
        pool.len() >= opool.len(),
        forall|i: int| 0 <= i < opool.len() && !r.contains(i) ==> pool[i] == opool[i] && level[i] == olevel[i],
        forall|i: int|
            0 <= i < opool.len() && !r.contains(i) ==> forall|k: int|
                0 <= k < opool[i].kids().len() ==> {
                    let c = #[trigger] opool[i].kids()[k];
                    &&& pool[c as int].weight() == opool[c as int].weight()
                    &&& level[c as int] == olevel[c as int]
                },
        forall|i: int| opool.len() <= i < pool.len() ==> r.contains(i),
        forall|i: int| 0 <= i < pool.len() && r.contains(i) && i != x ==> node_ok(pool, level, i),
        0 <= x < pool.len() && r.contains(x) ==> node_ok_d(pool, level, x, d),
    ensures
        nodes_ok_except(pool, level, x, d),
{
    assert forall|i: int| 0 <= i < pool.len() && !r.contains(i) && i != x implies #[trigger] node_ok(pool, level, i) by {
        assert(node_ok(opool, olevel, i));
        lemma_node_frame_one(opool, olevel, pool, level, i, (0nat, 0nat), r);
    }
    if 0 <= x < pool.len() && !r.contains(x) {
        lemma_node_frame_one(opool, olevel, pool, level, x, d, r);
    }
}

proof fn lemma_node_frame_one<T: MeasuredBTreeData>(
    opool: Seq<MeasuredBTreeNode<T>>,
    olevel: Seq<nat>,
    pool: Seq<MeasuredBTreeNode<T>>,
    level: Seq<nat>,
    i: int,
    d: (nat, nat),
    r: Set<int>,
)
    requires
        0 <= i < opool.len(),
        !r.contains(i),
        node_ok_d(opool, olevel, i, d),
        pool[i] == opool[i] && level[i] == olevel[i],
        pool.len() >= opool.len(),
        forall|k: int|
            0 <= k < opool[i].kids().len() ==> {
                let c = #[trigger] opool[i].kids()[k];
                &&& pool[c as int].weight() == opool[c as int].weight()
                &&& level[c as int] == olevel[c as int]
            },
    ensures
        node_ok_d(pool, level, i, d),
{
    {
        match pool[i] {
            MeasuredBTreeNode::Leaf { measure, data } => {},
            MeasuredBTreeNode::Internal { measure, children } => {
                assert(opool[i].kids() == children@);
                assert forall|k: int| 0 <= k < children@.len() implies opool[#[trigger] children@[k] as int].weight() == pool[children@[k] as int].weight() by {
                    assert(opool[i].kids()[k] == children@[k]);
                }
                lemma_kid_models_frame(opool, pool, children@);
                assert forall|k: int| 0 <= k < children@.len() implies olevel[#[trigger] children@[k] as int] == level[children@[k] as int] by {
                    assert(opool[i].kids()[k] == children@[k]);
                }
            },
        }
    }
}

impl<T: MeasuredBTreeData> MeasuredBTree<T> {
    /// Allocates an empty node of the given kind, reusing a freed index of that kind
    /// when there is one and pushing a new node otherwise.
    pub fn allocate_node(&mut self, is_leaf: bool) -> (idx: PoolIndex)
        ensures
            ({
                let list = if is_leaf { old(self).free_leaves_list@ } else { old(self).free_internals_list@ };
                if list.len() > 0 {
                    &&& idx == list.last()
                    &&& final(self).pool@ == old(self).pool@
                    &&& final(self).level == old(self).level
                    &&& is_leaf ==> final(self).free_leaves_list@ == list.drop_last()
                        && final(self).free_internals_list@ == old(self).free_internals_list@
                    &&& !is_leaf ==> final(self).free_internals_list@ == list.drop_last()
                        && final(self).free_leaves_list@ == old(self).free_leaves_list@
                } else {
                    &&& idx == old(self).pool@.len()
                    &&& final(self).pool@.len() == old(self).pool@.len() + 1
                    &&& forall|j: int| 0 <= j < old(self).pool@.len() ==> final(self).pool@[j] == old(self).pool@[j]
                    &&& (final(self).pool@[idx as int] is Leaf) == is_leaf
                    &&& final(self).pool@[idx as int].items().len() == 0
                    &&& final(self).pool@[idx as int].kids().len() == 0
                    &&& final(self).pool@[idx as int].weight() == (0nat, 0nat)
                    &&& final(self).free_leaves_list@ == old(self).free_leaves_list@
                    &&& final(self).free_internals_list@ == old(self).free_internals_list@
                }
            }),
            final(self).root_idx == old(self).root_idx,
            old(self).shape_ok() ==> {
                &&& idx < final(self).pool@.len()
                &&& (final(self).pool@[idx as int] is Leaf) == is_leaf
                &&& final(self).pool@[idx as int].items().len() == 0
                &&& final(self).pool@[idx as int].kids().len() == 0
                &&& final(self).pool@[idx as int].weight() == (0nat, 0nat)
                &&& final(self).shape_ok()
                &&& !final(self).attached(idx as int)
                &&& !final(self).is_free(idx as int)
                &&& forall|j: int| j != idx ==> final(self).is_free(j) == old(self).is_free(j)
                &&& forall|j: int| 0 <= j < old(self).pool@.len() && j != idx ==> final(self).level@[j] == old(self).level@[j]
                &&& forall|j: int| 0 <= j < old(self).pool@.len() && j != idx ==> final(self).pool@[j] == old(self).pool@[j]
                &&& (idx < old(self).pool@.len() ==> old(self).is_free(idx as int) && final(self).pool@[idx as int] == old(self).pool@[idx as int])
                &&& forall|j: int| #[trigger] is_child(final(self).pool@, j) == is_child(old(self).pool@, j)
            },
            forall|x: int, d: (nat, nat)|
                x < old(self).pool@.len() && nodes_ok_except(old(self).pool@, old(self).level@, x, d)
                    ==> nodes_ok_except(final(self).pool@, final(self).level@, x, d),
            old(self).wf() ==> final(self).wf(),
    {
        let ghost old_self = *self;
        let pooled_idx = if is_leaf {
            self.free_leaves_list.pop()
        } else {
            self.free_internals_list.pop()
        };
        if let Some(idx) = pooled_idx {
            proof {
                let list = if is_leaf { old_self.free_leaves_list@ } else { old_self.free_internals_list@ };
                if old_self.shape_ok() {
                    assert forall|j: int| j != idx implies self.is_free(j) == old_self.is_free(j) by {
                        lemma_in_list_drop_last(list, j);
                    }
                    self.lemma_popped(old_self, is_leaf, idx);
                }
            }
            return idx;
        }
        let idx = self.pool.len();
        if is_leaf {
            self.pool.push(MeasuredBTreeNode::new_leaf());
            proof { self.level@ = self.level@.push(0nat); }
        } else {
            self.pool.push(MeasuredBTreeNode::new_internal());
            proof { self.level@ = self.level@.push(1nat); }
        }
        proof {
            assert forall|x: int, d: (nat, nat)|
                x < old_self.pool@.len() && nodes_ok_except(old_self.pool@, old_self.level@, x, d)
                implies nodes_ok_except(self.pool@, self.level@, x, d) by {
                let n = old_self.pool@.len() as int;
                assert(node_ok(self.pool@, self.level@, n)) by {
                    assert(psum(Seq::<(nat, nat)>::empty()) == (0nat, 0nat));
                    match self.pool@[n] {
                        MeasuredBTreeNode::Leaf { measure, data } => {
                            assert(data_models(data@) =~= Seq::<(nat, nat)>::empty());
                        },
                        MeasuredBTreeNode::Internal { measure, children } => {
                            assert(kid_models(self.pool@, children@) =~= Seq::<(nat, nat)>::empty());
                        },
                    }
                }
                assert forall|i: int| 0 <= i < old_self.pool@.len() && !set![n].contains(i) implies
                    forall|k: int| 0 <= k < old_self.pool@[i].kids().len() ==> {
                        let c = #[trigger] old_self.pool@[i].kids()[k];
                        &&& self.pool@[c as int].weight() == old_self.pool@[c as int].weight()
                        &&& self.level@[c as int] == old_self.level@[c as int]
                    } by {
                    assert forall|k: int| 0 <= k < old_self.pool@[i].kids().len() implies {
                        let c = #[trigger] old_self.pool@[i].kids()[k];
                        &&& self.pool@[c as int].weight() == old_self.pool@[c as int].weight()
                        &&& self.level@[c as int] == old_self.level@[c as int]
                    } by {
                        if i != x {
                            assert(node_ok(old_self.pool@, old_self.level@, i));
                        }
                        let c = old_self.pool@[i].kids()[k];
                        match old_self.pool@[i] {
                            MeasuredBTreeNode::Internal { children, .. } => {
                                assert(children@[k] == c);
                            },
                            MeasuredBTreeNode::Leaf { .. } => {},
                        }
                    }
                }
                lemma_nodes_frame(old_self.pool@, old_self.level@, self.pool@, self.level@, x, d, set![n]);
            }
            if old_self.shape_ok() {
                self.lemma_fresh_push(old_self);
            }
        }
        idx
    }

    /// Pushing an empty node keeps the shape well-formed; the new node is detached.
    proof fn lemma_fresh_push(&self, old_self: Self)
        requires
            old_self.shape_ok(),
            self.pool@.len() == old_self.pool@.len() + 1,
            forall|j: int| 0 <= j < old_self.pool@.len() ==> self.pool@[j] == old_self.pool@[j],
            self.pool@.last().items().len() == 0,
            self.pool@.last().kids().len() == 0,
            self.pool@.last().weight() == (0nat, 0nat),
            self.root_idx == old_self.root_idx,
            self.level@.len() == self.pool@.len(),
            self.free_leaves_list@ == old_self.free_leaves_list@,
            self.free_internals_list@ == old_self.free_internals_list@,
        ensures
            self.shape_ok(),
            !self.attached(old_self.pool@.len() as int),
            !self.is_free(old_self.pool@.len() as int),
            forall|j: int| #[trigger] is_child(self.pool@, j) == is_child(old_self.pool@, j),
    {
        let pool = self.pool@;
        let opool = old_self.pool@;
        let n = opool.len() as int;
        assert forall|i: int| #[trigger] is_child(pool, i) implies is_child(opool, i) by {
            let (p, a) = choose|p: int, a: int|
                0 <= p < pool.len() && 0 <= a < pool[p].kids().len() && #[trigger] pool[p].kids()[a] == i;
            assert(p != n);
            assert(opool[p].kids()[a] == i);
        }
        assert forall|i: int| #[trigger] is_child(opool, i) implies is_child(pool, i) by {
            let (p, a) = choose|p: int, a: int|
                0 <= p < opool.len() && 0 <= a < opool[p].kids().len() && #[trigger] opool[p].kids()[a] == i;
            assert(pool[p].kids()[a] == i);
        }
        assert(!is_child(pool, n)) by {
            if is_child(opool, n) {
                let (p, a) = choose|p: int, a: int|
                    0 <= p < opool.len() && 0 <= a < opool[p].kids().len() && #[trigger] opool[p].kids()[a] == n;
                assert(opool[p].kids()[a] < opool.len());
            }
        }
        assert forall|p: int, a: int, q: int, b: int|
            0 <= p < pool.len() && 0 <= q < pool.len() && 0 <= a < pool[p].kids().len() && 0 <= b
                < pool[q].kids().len() && #[trigger] pool[p].kids()[a] == #[trigger] pool[q].kids()[b]
            implies p == q && a == b by {
            assert(opool[p].kids()[a] == opool[q].kids()[b]);
        }
        assert forall|i: int| 0 <= i < pool.len() && self.attached(i) && (#[trigger] pool[i]) is Internal
            implies pool[i].kids().len() > 0 by {
            assert(old_self.attached(i));
        }
        assert forall|k: int| 0 <= k < self.free_leaves_list@.len() implies !self.attached(#[trigger] self.free_leaves_list@[k] as int) by {
            assert(!old_self.attached(old_self.free_leaves_list@[k] as int));
        }
        assert forall|k: int| 0 <= k < self.free_internals_list@.len() implies !self.attached(#[trigger] self.free_internals_list@[k] as int) by {
            assert(!old_self.attached(old_self.free_internals_list@[k] as int));
        }
        if in_list(self.free_leaves_list@, n) {
            let k = choose|k: int| 0 <= k < self.free_leaves_list@.len() && #[trigger] self.free_leaves_list@[k] as int == n;
        }
        if in_list(self.free_internals_list@, n) {
            let k = choose|k: int| 0 <= k < self.free_internals_list@.len() && #[trigger] self.free_internals_list@[k] as int == n;
        }
    }

    /// Popping an index off a free list keeps the shape well-formed and yields an empty,
    /// detached node of the list's kind.
    proof fn lemma_popped(&self, old_self: Self, is_leaf: bool, idx: PoolIndex)
        requires
            old_self.shape_ok(),
            self.pool@ == old_self.pool@,
            self.level@ == old_self.level@,
            self.root_idx == old_self.root_idx,
            is_leaf ==> {
                &&& old_self.free_leaves_list@.len() > 0
                &&& idx == old_self.free_leaves_list@.last()
                &&& self.free_leaves_list@ == old_self.free_leaves_list@.drop_last()
                &&& self.free_internals_list@ == old_self.free_internals_list@
            },
            !is_leaf ==> {
                &&& old_self.free_internals_list@.len() > 0
                &&& idx == old_self.free_internals_list@.last()
                &&& self.free_internals_list@ == old_self.free_internals_list@.drop_last()
                &&& self.free_leaves_list@ == old_self.free_leaves_list@
            },
        ensures
            self.shape_ok(),
            idx < self.pool@.len(),
            (self.pool@[idx as int] is Leaf) == is_leaf,
            self.pool@[idx as int].items().len() == 0,
            self.pool@[idx as int].kids().len() == 0,
            self.pool@[idx as int].weight() == (0nat, 0nat),
            !self.attached(idx as int),
            !self.is_free(idx as int),
            old_self.is_free(idx as int),
    {
        let list = if is_leaf { old_self.free_leaves_list@ } else { old_self.free_internals_list@ };
        let k = list.len() - 1;
        assert(list[k] == idx);
        assert(in_list(list, idx as int));
        lemma_in_list_drop_last(list, idx as int);
        let other = if is_leaf { old_self.free_internals_list@ } else { old_self.free_leaves_list@ };
        if in_list(other, idx as int) {
            let k2 = choose|k2: int| 0 <= k2 < other.len() && #[trigger] other[k2] as int == idx as int;
            assert(other[k2] == idx);
        }
        assert(self.attached(idx as int) == old_self.attached(idx as int));
        assert(list.drop_last().no_duplicates());
        assert forall|j: int| 0 <= j < self.pool.len() implies self.attached(j) == old_self.attached(j) by {}
        assert forall|k2: int| 0 <= k2 < list.drop_last().len() implies #[trigger] list.drop_last()[k2] == list[k2] by {}
    }
}

impl<T: MeasuredBTreeData> MeasuredBTree<T> {
    /// The sum of the measures of a sequence of items.
    pub(crate) fn data_sum(data: &Vec<T>) -> (r: T::Measure)
        requires
            T::Measure::fits(psum(data_models(data@))),
        ensures
            r.model() == psum(data_models(data@)),
    {
        let mut acc = T::Measure::zero();
        let mut i: usize = 0;
        proof {
            assert(data_models(data@.take(0)) =~= Seq::<(nat, nat)>::empty());
        }
        while i < data.len()
            invariant
                0 <= i <= data.len(),
                acc.model() == psum(data_models(data@.take(i as int))),
                T::Measure::fits(psum(data_models(data@))),
            decreases data.len() - i,
        {
            proof {
                assert(data_models(data@.take(i + 1)) =~= data_models(data@.take(i as int)).push(
                    data@[i as int].spec_measure().model(),
                ));
                lemma_psum_push(data_models(data@.take(i as int)), data@[i as int].spec_measure().model());
                assert(data_models(data@.take(i + 1)) =~= data_models(data@).take(i + 1));
                lemma_psum_take_below(data_models(data@), i + 1);
                T::Measure::lemma_fits_below(psum(data_models(data@)), psum(data_models(data@.take(i + 1))));
            }
            acc = acc.plus(data[i].measure());
            i += 1;
        }
        proof {
            assert(data@.take(data.len() as int) =~= data@);
        }
        acc
    }

    /// The sum of the measures of the nodes at the given indices.
    fn children_sum(&self, children: &Vec<PoolIndex>) -> (r: T::Measure)
        requires
            forall|k: int| 0 <= k < children@.len() ==> #[trigger] children@[k] < self.pool@.len(),
            T::Measure::fits(psum(kid_models(self.pool@, children@))),
        ensures
            r.model() == psum(kid_models(self.pool@, children@)),
    {
        let mut acc = T::Measure::zero();
        let mut i: usize = 0;
        proof {
            assert(kid_models(self.pool@, children@.take(0)) =~= Seq::<(nat, nat)>::empty());
        }
        while i < children.len()
            invariant
                0 <= i <= children.len(),
                forall|k: int| 0 <= k < children@.len() ==> #[trigger] children@[k] < self.pool@.len(),
                acc.model() == psum(kid_models(self.pool@, children@.take(i as int))),
                T::Measure::fits(psum(kid_models(self.pool@, children@))),
            decreases children.len() - i,
        {
            let c = children[i];
            proof {
                assert(kid_models(self.pool@, children@.take(i + 1)) =~= kid_models(self.pool@, children@.take(i as int)).push(
                    self.pool@[c as int].weight(),
                ));
                lemma_psum_push(kid_models(self.pool@, children@.take(i as int)), self.pool@[c as int].weight());
                assert(kid_models(self.pool@, children@.take(i + 1)) =~= kid_models(self.pool@, children@).take(i + 1));
                lemma_psum_take_below(kid_models(self.pool@, children@), i + 1);
                T::Measure::lemma_fits_below(psum(kid_models(self.pool@, children@)), psum(kid_models(self.pool@, children@.take(i + 1))));
            }
            acc = acc.plus(self.pool[c].measure());
            i += 1;
        }
        proof {
            assert(children@.take(children.len() as int) =~= children@);
        }
        acc
    }

    /// Removes the child at position `child_index` of an internal node and deallocates it.
    pub fn remove_child_from_parent(&mut self, parent_pool_idx: PoolIndex, child_index: usize)
        requires
            parent_pool_idx < old(self).pool@.len(),
            old(self).pool@[parent_pool_idx as int] is Internal,
            child_index < old(self).pool@[parent_pool_idx as int].kids().len(),
            old(self).pool@[parent_pool_idx as int].kids()[child_index as int] != parent_pool_idx,
        ensures
            ({
                let c = old(self).pool@[parent_pool_idx as int].kids()[child_index as int];
                &&& final(self).pool@.len() == old(self).pool@.len()
                &&& final(self).pool@[parent_pool_idx as int] is Internal
                &&& final(self).pool@[parent_pool_idx as int].kids() == old(self).pool@[parent_pool_idx as int].kids().remove(child_index as int)
                &&& final(self).pool@[parent_pool_idx as int].weight() == old(self).pool@[parent_pool_idx as int].weight()
                &&& forall|j: int| 0 <= j < old(self).pool@.len() && j != parent_pool_idx && j != c ==> final(self).pool@[j] == old(self).pool@[j]
                &&& c < old(self).pool@.len() ==> {
                    &&& (final(self).pool@[c as int] is Leaf) == (old(self).pool@[c as int] is Leaf)
                    &&& final(self).pool@[c as int].items().len() == 0
                    &&& final(self).pool@[c as int].kids().len() == 0
                    &&& final(self).pool@[c as int].weight() == (0nat, 0nat)
                }
            }),
    {
        let child_pool_idx = match &mut self.pool[parent_pool_idx] {
            MeasuredBTreeNode::Internal { children, .. } => children.remove(child_index),
            MeasuredBTreeNode::Leaf { .. } => {
                return ;
            },
        };
        self.deallocate_node(child_pool_idx);
    }

    /// Recomputes the cached measure of an internal node from its children.
    pub fn update_internal_node_measure(&mut self, pool_index: PoolIndex)
        requires
            pool_index < old(self).pool@.len(),
            old(self).pool@[pool_index as int] is Internal,
            forall|k: int| 0 <= k < old(self).pool@[pool_index as int].kids().len()
                ==> #[trigger] old(self).pool@[pool_index as int].kids()[k] < old(self).pool@.len(),
            T::Measure::fits(psum(kid_models(old(self).pool@, old(self).pool@[pool_index as int].kids()))),
        ensures
            final(self).pool@.len() == old(self).pool@.len(),
            final(self).pool@[pool_index as int] is Internal,
            final(self).pool@[pool_index as int].kids() == old(self).pool@[pool_index as int].kids(),
            final(self).pool@[pool_index as int].weight() == psum(kid_models(old(self).pool@, old(self).pool@[pool_index as int].kids())),
            forall|j: int| 0 <= j < old(self).pool@.len() && j != pool_index ==> final(self).pool@[j] == old(self).pool@[j],
            final(self).root_idx == old(self).root_idx,
            final(self).level == old(self).level,
            final(self).free_leaves_list == old(self).free_leaves_list,
            final(self).free_internals_list == old(self).free_internals_list,
    {
        let new_measure = match &self.pool[pool_index] {
            MeasuredBTreeNode::Internal { children, .. } => self.children_sum(children),
            MeasuredBTreeNode::Leaf { .. } => {
                return ;
            },
        };
        let m = self.pool[pool_index].mut_measure();
        *m = new_measure;
    }
}

impl<T: MeasuredBTreeData> MeasuredBTree<T> {
    /// Moves the last item of the left leaf to the front of the right leaf.
    pub fn borrow_from_left_leaf(&mut self, left_pool_idx: PoolIndex, right_pool_idx: PoolIndex)
        requires
            left_pool_idx < old(self).pool@.len(),
            right_pool_idx < old(self).pool@.len(),
            left_pool_idx != right_pool_idx,
            old(self).pool@[left_pool_idx as int] is Leaf,
            old(self).pool@[right_pool_idx as int] is Leaf,
            old(self).pool@[left_pool_idx as int].items().len() > 0,
            T::Measure::fits(psum(data_models(old(self).pool@[left_pool_idx as int].items().drop_last()))),
            T::Measure::fits(psum(data_models(old(self).pool@[right_pool_idx as int].items().insert(
                0,
                old(self).pool@[left_pool_idx as int].items().last(),
            )))),
        ensures
            ({
                let l = old(self).pool@[left_pool_idx as int].items();
                let r = old(self).pool@[right_pool_idx as int].items();
                &&& final(self).pool@.len() == old(self).pool@.len()
                &&& final(self).pool@[left_pool_idx as int] is Leaf
                &&& final(self).pool@[left_pool_idx as int].items() == l.drop_last()
                &&& final(self).pool@[left_pool_idx as int].weight() == psum(data_models(l.drop_last()))
                &&& final(self).pool@[right_pool_idx as int] is Leaf
                &&& final(self).pool@[right_pool_idx as int].items() == r.insert(0, l.last())
                &&& final(self).pool@[right_pool_idx as int].weight() == psum(data_models(r.insert(0, l.last())))
            }),
            forall|j: int| 0 <= j < old(self).pool@.len() && j != left_pool_idx && j != right_pool_idx
                ==> final(self).pool@[j] == old(self).pool@[j],
            final(self).root_idx == old(self).root_idx,
            final(self).level == old(self).level,
            final(self).free_leaves_list == old(self).free_leaves_list,
            final(self).free_internals_list == old(self).free_internals_list,
    {
        let borrowed_piece = match &mut self.pool[left_pool_idx] {
            MeasuredBTreeNode::Leaf { data: left_data, measure: left_measure } => {
                let piece = left_data.pop().unwrap();
                *left_measure = Self::data_sum(left_data);
                piece
            },
            MeasuredBTreeNode::Internal { .. } => {
                return ;
            },
        };
        match &mut self.pool[right_pool_idx] {
            MeasuredBTreeNode::Leaf { data: right_data, measure: right_measure } => {
                right_data.insert(0, borrowed_piece);
                *right_measure = Self::data_sum(right_data);
            },
            MeasuredBTreeNode::Internal { .. } => {},
        }
    }

    /// Moves the first item of the right leaf to the end of the left leaf.
    pub fn borrow_from_right_leaf(&mut self, right_pool_idx: PoolIndex, left_pool_idx: PoolIndex)
        requires
            left_pool_idx < old(self).pool@.len(),
            right_pool_idx < old(self).pool@.len(),
            left_pool_idx != right_pool_idx,
            old(self).pool@[left_pool_idx as int] is Leaf,
            old(self).pool@[right_pool_idx as int] is Leaf,
            old(self).pool@[right_pool_idx as int].items().len() > 0,
            T::Measure::fits(psum(data_models(old(self).pool@[right_pool_idx as int].items().drop_first()))),
            T::Measure::fits(psum(data_models(old(self).pool@[left_pool_idx as int].items().push(
                old(self).pool@[right_pool_idx as int].items()[0],
            )))),
        ensures
            ({
                let l = old(self).pool@[left_pool_idx as int].items();
                let r = old(self).pool@[right_pool_idx as int].items();
                &&& final(self).pool@.len() == old(self).pool@.len()
                &&& final(self).pool@[left_pool_idx as int] is Leaf
                &&& final(self).pool@[left_pool_idx as int].items() == l.push(r[0])
                &&& final(self).pool@[left_pool_idx as int].weight() == psum(data_models(l.push(r[0])))
                &&& final(self).pool@[right_pool_idx as int] is Leaf
                &&& final(self).pool@[right_pool_idx as int].items() == r.drop_first()
                &&& final(self).pool@[right_pool_idx as int].weight() == psum(data_models(r.drop_first()))
            }),
            forall|j: int| 0 <= j < old(self).pool@.len() && j != left_pool_idx && j != right_pool_idx
                ==> final(self).pool@[j] == old(self).pool@[j],
            final(self).root_idx == old(self).root_idx,
            final(self).level == old(self).level,
            final(self).free_leaves_list == old(self).free_leaves_list,
            final(self).free_internals_list == old(self).free_internals_list,
    {
        let borrowed_piece = match &mut self.pool[right_pool_idx] {
            MeasuredBTreeNode::Leaf { data: right_data, measure: right_measure } => {
                let piece = right_data.remove(0);
                proof {
                    assert(right_data@ =~= old(self).pool@[right_pool_idx as int].items().drop_first());
                }
                *right_measure = Self::data_sum(right_data);
                piece
            },
            MeasuredBTreeNode::Internal { .. } => {
                return ;
            },
        };
        match &mut self.pool[left_pool_idx] {
            MeasuredBTreeNode::Leaf { data: left_data, measure: left_measure } => {
                left_data.push(borrowed_piece);
                *left_measure = Self::data_sum(left_data);
            },
            MeasuredBTreeNode::Internal { .. } => {},
        }
    }

    /// Appends all items of the dropped leaf to the kept leaf and deallocates the dropped leaf.
    pub fn merge_leaves(&mut self, keep_pool_idx: PoolIndex, drop_pool_idx: PoolIndex)
        requires
            keep_pool_idx < old(self).pool@.len(),
            drop_pool_idx < old(self).pool@.len(),
            keep_pool_idx != drop_pool_idx,
            old(self).pool@[keep_pool_idx as int] is Leaf,
            old(self).pool@[drop_pool_idx as int] is Leaf,
            T::Measure::fits(psum(data_models(old(self).pool@[keep_pool_idx as int].items()
                + old(self).pool@[drop_pool_idx as int].items()))),
        ensures
            ({
                let k = old(self).pool@[keep_pool_idx as int].items();
                let d = old(self).pool@[drop_pool_idx as int].items();
                &&& final(self).pool@.len() == old(self).pool@.len()
                &&& final(self).pool@[keep_pool_idx as int] is Leaf
                &&& final(self).pool@[keep_pool_idx as int].items() == k + d
                &&& final(self).pool@[keep_pool_idx as int].weight() == psum(data_models(k + d))
                &&& final(self).pool@[drop_pool_idx as int] is Leaf
                &&& final(self).pool@[drop_pool_idx as int].items().len() == 0
                &&& final(self).pool@[drop_pool_idx as int].weight() == (0nat, 0nat)
            }),
            forall|j: int| 0 <= j < old(self).pool@.len() && j != keep_pool_idx && j != drop_pool_idx
                ==> final(self).pool@[j] == old(self).pool@[j],
            final(self).root_idx == old(self).root_idx,
            final(self).level == old(self).level,
            final(self).free_leaves_list@ == old(self).free_leaves_list@.push(drop_pool_idx),
            final(self).free_internals_list@ == old(self).free_internals_list@,
    {
        let mut dropped_data = Vec::new();
        match &mut self.pool[drop_pool_idx] {
            MeasuredBTreeNode::Leaf { data, .. } => {
                std::mem::swap(data, &mut dropped_data);
            },
            MeasuredBTreeNode::Internal { .. } => {
                return ;
            },
        }
        match &mut self.pool[keep_pool_idx] {
            MeasuredBTreeNode::Leaf { data: keep_data, measure: keep_measure } => {
                keep_data.append(&mut dropped_data);
                *keep_measure = Self::data_sum(keep_data);
            },
            MeasuredBTreeNode::Internal { .. } => {},
        }
        self.deallocate_node(drop_pool_idx);
    }

    /// Moves the last child of the left internal node to the front of the right one and
    /// recomputes both measures.
    pub fn borrow_from_left_internal(&mut self, left_pool_idx: PoolIndex, right_pool_idx: PoolIndex)
        requires
            left_pool_idx < old(self).pool@.len(),
            right_pool_idx < old(self).pool@.len(),
            left_pool_idx != right_pool_idx,
            old(self).pool@[left_pool_idx as int] is Internal,
            old(self).pool@[right_pool_idx as int] is Internal,
            old(self).pool@[left_pool_idx as int].kids().len() > 0,
            forall|k: int| 0 <= k < old(self).pool@[left_pool_idx as int].kids().len() ==> {
                let c = #[trigger] old(self).pool@[left_pool_idx as int].kids()[k];
                c < old(self).pool@.len() && c != left_pool_idx && c != right_pool_idx
            },
            forall|k: int| 0 <= k < old(self).pool@[right_pool_idx as int].kids().len() ==> {
                let c = #[trigger] old(self).pool@[right_pool_idx as int].kids()[k];
                c < old(self).pool@.len() && c != left_pool_idx && c != right_pool_idx
            },
            T::Measure::fits(psum(kid_models(old(self).pool@, old(self).pool@[left_pool_idx as int].kids().drop_last()))),
            T::Measure::fits(psum(kid_models(old(self).pool@, old(self).pool@[right_pool_idx as int].kids().insert(
                0,
                old(self).pool@[left_pool_idx as int].kids().last(),
            )))),
        ensures
            ({
                let l = old(self).pool@[left_pool_idx as int].kids();
                let r = old(self).pool@[right_pool_idx as int].kids();
                &&& final(self).pool@.len() == old(self).pool@.len()
                &&& final(self).pool@[left_pool_idx as int] is Internal
                &&& final(self).pool@[left_pool_idx as int].kids() == l.drop_last()
                &&& final(self).pool@[left_pool_idx as int].weight() == psum(kid_models(old(self).pool@, l.drop_last()))
                &&& final(self).pool@[right_pool_idx as int] is Internal
                &&& final(self).pool@[right_pool_idx as int].kids() == r.insert(0, l.last())
                &&& final(self).pool@[right_pool_idx as int].weight() == psum(kid_models(old(self).pool@, r.insert(0, l.last())))
            }),
            forall|j: int| 0 <= j < old(self).pool@.len() && j != left_pool_idx && j != right_pool_idx
                ==> final(self).pool@[j] == old(self).pool@[j],
            final(self).root_idx == old(self).root_idx,
            final(self).level == old(self).level,
            final(self).free_leaves_list == old(self).free_leaves_list,
            final(self).free_internals_list == old(self).free_internals_list,
    {
        let ghost opool = self.pool@;
        let borrowed_child = match &mut self.pool[left_pool_idx] {
            MeasuredBTreeNode::Internal { children: left_children, .. } => left_children.pop().unwrap(),
            MeasuredBTreeNode::Leaf { .. } => {
                return ;
            },
        };
        match &mut self.pool[right_pool_idx] {
            MeasuredBTreeNode::Internal { children: right_children, .. } => {
                right_children.insert(0, borrowed_child);
            },
            MeasuredBTreeNode::Leaf { .. } => {},
        }
        proof {
            let l = opool[left_pool_idx as int].kids();
            let r = opool[right_pool_idx as int].kids();
            assert forall|k: int| 0 <= k < l.drop_last().len() implies l.drop_last()[k] == l[k] by {}
            lemma_kid_models_frame(opool, self.pool@, l.drop_last());
            assert forall|k: int| 0 <= k < r.insert(0, l.last()).len() implies
                (#[trigger] r.insert(0, l.last())[k]) != left_pool_idx && r.insert(0, l.last())[k] != right_pool_idx && r.insert(0, l.last())[k] < opool.len() by {
                if k > 0 {
                    assert(r.insert(0, l.last())[k] == r[k - 1]);
                } else {
                    assert(l[l.len() - 1] == l.last());
                }
            }
            lemma_kid_models_frame(opool, self.pool@, r.insert(0, l.last()));
        }
        self.update_internal_node_measure(left_pool_idx);
        proof {
            let r = opool[right_pool_idx as int].kids();
            let l = opool[left_pool_idx as int].kids();
            lemma_kid_models_frame(opool, self.pool@, r.insert(0, l.last()));
        }
        self.update_internal_node_measure(right_pool_idx);
    }

    /// Moves the first child of the right internal node to the end of the left one and
    /// recomputes both measures.
    pub fn borrow_from_right_internal(&mut self, right_pool_idx: PoolIndex, left_pool_idx: PoolIndex)
        requires
            left_pool_idx < old(self).pool@.len(),
            right_pool_idx < old(self).pool@.len(),
            left_pool_idx != right_pool_idx,
            old(self).pool@[left_pool_idx as int] is Internal,
            old(self).pool@[right_pool_idx as int] is Internal,
            old(self).pool@[right_pool_idx as int].kids().len() > 0,
            forall|k: int| 0 <= k < old(self).pool@[left_pool_idx as int].kids().len() ==> {
                let c = #[trigger] old(self).pool@[left_pool_idx as int].kids()[k];
                c < old(self).pool@.len() && c != left_pool_idx && c != right_pool_idx
            },
            forall|k: int| 0 <= k < old(self).pool@[right_pool_idx as int].kids().len() ==> {
                let c = #[trigger] old(self).pool@[right_pool_idx as int].kids()[k];
                c < old(self).pool@.len() && c != left_pool_idx && c != right_pool_idx
            },
            T::Measure::fits(psum(kid_models(old(self).pool@, old(self).pool@[left_pool_idx as int].kids().push(
                old(self).pool@[right_pool_idx as int].kids()[0],
            )))),
            T::Measure::fits(psum(kid_models(old(self).pool@, old(self).pool@[right_pool_idx as int].kids().drop_first()))),
        ensures
            ({
                let l = old(self).pool@[left_pool_idx as int].kids();
                let r = old(self).pool@[right_pool_idx as int].kids();
                &&& final(self).pool@.len() == old(self).pool@.len()
                &&& final(self).pool@[left_pool_idx as int] is Internal
                &&& final(self).pool@[left_pool_idx as int].kids() == l.push(r[0])
                &&& final(self).pool@[left_pool_idx as int].weight() == psum(kid_models(old(self).pool@, l.push(r[0])))
                &&& final(self).pool@[right_pool_idx as int] is Internal
                &&& final(self).pool@[right_pool_idx as int].kids() == r.drop_first()
                &&& final(self).pool@[right_pool_idx as int].weight() == psum(kid_models(old(self).pool@, r.drop_first()))
            }),
            forall|j: int| 0 <= j < old(self).pool@.len() && j != left_pool_idx && j != right_pool_idx
                ==> final(self).pool@[j] == old(self).pool@[j],
            final(self).root_idx == old(self).root_idx,
            final(self).level == old(self).level,
            final(self).free_leaves_list == old(self).free_leaves_list,
            final(self).free_internals_list == old(self).free_internals_list,
    {
        let ghost opool = self.pool@;
        let borrowed_child = match &mut self.pool[right_pool_idx] {
            MeasuredBTreeNode::Internal { children: right_children, .. } => right_children.remove(0),
            MeasuredBTreeNode::Leaf { .. } => {
                return ;
            },
        };
        match &mut self.pool[left_pool_idx] {
            MeasuredBTreeNode::Internal { children: left_children, .. } => {
                left_children.push(borrowed_child);
            },
            MeasuredBTreeNode::Leaf { .. } => {},
        }
        proof {
            let l = opool[left_pool_idx as int].kids();
            let r = opool[right_pool_idx as int].kids();
            assert(self.pool@[right_pool_idx as int].kids() =~= r.drop_first());
            assert forall|k: int| 0 <= k < l.push(r[0]).len() implies
                (#[trigger] l.push(r[0])[k]) != left_pool_idx && l.push(r[0])[k] != right_pool_idx && l.push(r[0])[k] < opool.len() by {
                if k < l.len() {
                    assert(l.push(r[0])[k] == l[k]);
                }
            }
            lemma_kid_models_frame(opool, self.pool@, l.push(r[0]));
            assert forall|k: int| 0 <= k < r.drop_first().len() implies r.drop_first()[k] == r[k + 1] by {}
            lemma_kid_models_frame(opool, self.pool@, r.drop_first());
        }
        self.update_internal_node_measure(left_pool_idx);
        proof {
            let r = opool[right_pool_idx as int].kids();
            lemma_kid_models_frame(opool, self.pool@, r.drop_first());
        }
        self.update_internal_node_measure(right_pool_idx);
    }

    /// Appends all children of the dropped internal node to the kept one, recomputes the
    /// kept measure and deallocates the dropped node.
    pub fn merge_internals(&mut self, keep_pool_idx: PoolIndex, drop_pool_idx: PoolIndex)
        requires
            keep_pool_idx < old(self).pool@.len(),
            drop_pool_idx < old(self).pool@.len(),
            keep_pool_idx != drop_pool_idx,
            old(self).pool@[keep_pool_idx as int] is Internal,
            old(self).pool@[drop_pool_idx as int] is Internal,
            forall|k: int| 0 <= k < old(self).pool@[keep_pool_idx as int].kids().len() ==> {
                let c = #[trigger] old(self).pool@[keep_pool_idx as int].kids()[k];
                c < old(self).pool@.len() && c != keep_pool_idx && c != drop_pool_idx
            },
            forall|k: int| 0 <= k < old(self).pool@[drop_pool_idx as int].kids().len() ==> {
                let c = #[trigger] old(self).pool@[drop_pool_idx as int].kids()[k];
                c < old(self).pool@.len() && c != keep_pool_idx && c != drop_pool_idx
            },
            T::Measure::fits(psum(kid_models(old(self).pool@, old(self).pool@[keep_pool_idx as int].kids()
                + old(self).pool@[drop_pool_idx as int].kids()))),
        ensures
            ({
                let k = old(self).pool@[keep_pool_idx as int].kids();
                let d = old(self).pool@[drop_pool_idx as int].kids();
                &&& final(self).pool@.len() == old(self).pool@.len()
                &&& final(self).pool@[keep_pool_idx as int] is Internal
                &&& final(self).pool@[keep_pool_idx as int].kids() == k + d
                &&& final(self).pool@[keep_pool_idx as int].weight() == psum(kid_models(old(self).pool@, k + d))
                &&& final(self).pool@[drop_pool_idx as int] is Internal
                &&& final(self).pool@[drop_pool_idx as int].kids().len() == 0
                &&& final(self).pool@[drop_pool_idx as int].weight() == (0nat, 0nat)
            }),
            forall|j: int| 0 <= j < old(self).pool@.len() && j != keep_pool_idx && j != drop_pool_idx
                ==> final(self).pool@[j] == old(self).pool@[j],
            final(self).root_idx == old(self).root_idx,
            final(self).level == old(self).level,
            final(self).free_leaves_list@ == old(self).free_leaves_list@,
            final(self).free_internals_list@ == old(self).free_internals_list@.push(drop_pool_idx),
    {
        let ghost opool = self.pool@;
        let mut dropped_children = Vec::new();
        match &mut self.pool[drop_pool_idx] {
            MeasuredBTreeNode::Internal { children, .. } => {
                std::mem::swap(children, &mut dropped_children);
            },
            MeasuredBTreeNode::Leaf { .. } => {
                return ;
            },
        }
        match &mut self.pool[keep_pool_idx] {
            MeasuredBTreeNode::Internal { children: keep_children, .. } => {
                keep_children.append(&mut dropped_children);
            },
            MeasuredBTreeNode::Leaf { .. } => {},
        }
        proof {
            let k = opool[keep_pool_idx as int].kids();
            let d = opool[drop_pool_idx as int].kids();
            assert forall|i: int| 0 <= i < (k + d).len() implies
                (#[trigger] (k + d)[i]) != keep_pool_idx && (k + d)[i] != drop_pool_idx && (k + d)[i] < opool.len() by {
                if i < k.len() {
                    assert((k + d)[i] == k[i]);
                } else {
                    assert((k + d)[i] == d[i - k.len()]);
                }
            }
            lemma_kid_models_frame(opool, self.pool@, k + d);
        }
        self.update_internal_node_measure(keep_pool_idx);
        self.deallocate_node(drop_pool_idx);
    }
}

/// Two items whose contents concatenate to a third one have measures adding up to it.
pub proof fn lemma_measure_concat<T: MeasuredBTreeData>(a: T, b: T, c: T)
    requires
        a.wf(),
        b.wf(),
        c.wf(),
        c.content() == a.content() + b.content(),
    ensures
        c.spec_measure().model() == padd(a.spec_measure().model(), b.spec_measure().model()),
{
    T::lemma_content(&a);
    T::lemma_content(&b);
    T::lemma_content(&c);
    T::lemma_flags_concat(a.content(), b.content());
}

/// The data models of a sequence after replacing element `k` by two elements.
pub proof fn lemma_data_models_split<T: MeasuredBTreeData>(s: Seq<T>, k: int, l: T, r: T)
    requires
        0 <= k < s.len(),
        s[k].wf(),
        l.wf(),
        r.wf(),
        s[k].content() == l.content() + r.content(),
    ensures
        psum(data_models(s.update(k, l).insert(k + 1, r))) == psum(data_models(s)),
{
    lemma_measure_concat(l, r, s[k]);
    let m = data_models(s);
    assert(data_models(s.update(k, l).insert(k + 1, r)) =~= m.update(k, l.spec_measure().model()).insert(
        k + 1,
        r.spec_measure().model(),
    ));
    lemma_psum_update(m, k, l.spec_measure().model());
    lemma_psum_insert(m.update(k, l.spec_measure().model()), k + 1, r.spec_measure().model());
}

impl<T: MeasuredBTreeData> MeasuredBTree<T> {
    /// Inserts `data` into leaf `pool_idx` at the offset `target` within the leaf: an item
    /// that strictly contains the offset is split and `data` is merged into its left half
    /// when possible; at an item boundary `data` is merged into the preceding item when
    /// possible, and inserted as an item of its own otherwise. An offset that lies at the
    /// start of an item by its first component goes before that item. Either way the
    /// content of `data` lands at the target's first component among the leaf's atoms.
    #[verifier::rlimit(80)]
    #[verifier::spinoff_prover]
    fn insert_into_leaf(&mut self, pool_idx: PoolIndex, target: T::Measure, data: T)
        requires
            pool_idx < old(self).pool@.len(),
            old(self).pool@[pool_idx as int] is Leaf,
            data.wf(),
            forall|k: int| 0 <= k < old(self).pool@[pool_idx as int].items().len()
                ==> (#[trigger] old(self).pool@[pool_idx as int].items()[k]).wf(),
        ensures
            final(self).pool@.len() == old(self).pool@.len(),
            final(self).pool@[pool_idx as int] is Leaf,
            final(self).pool@[pool_idx as int].weight() == old(self).pool@[pool_idx as int].weight(),
            forall|k: int| 0 <= k < final(self).pool@[pool_idx as int].items().len()
                ==> (#[trigger] final(self).pool@[pool_idx as int].items()[k]).wf(),
            psum(data_models(final(self).pool@[pool_idx as int].items())) == padd(
                psum(data_models(old(self).pool@[pool_idx as int].items())),
                data.spec_measure().model(),
            ),
            forall|j: int| 0 <= j < old(self).pool@.len() && j != pool_idx ==> final(self).pool@[j] == old(self).pool@[j],
            final(self).root_idx == old(self).root_idx,
            final(self).level == old(self).level,
            final(self).free_leaves_list == old(self).free_leaves_list,
            final(self).free_internals_list == old(self).free_internals_list,
            inserted_at(old(self).pool@[pool_idx as int].items(),
                final(self).pool@[pool_idx as int].items(), data, target.model().0),
    {
        let ghost old_items = self.pool@[pool_idx as int].items();
        let leaf_data = match &mut self.pool[pool_idx] {
            MeasuredBTreeNode::Leaf { data: leaf_data, .. } => leaf_data,
            MeasuredBTreeNode::Internal { .. } => {
                return ;
            },
        };
        let ghost dm = data.spec_measure().model();
        let ghost xd = data;
        let ghost dmo = data_models(old_items);
        proof {
            assert(dmo.take(0) =~= Seq::<(nat, nat)>::empty());
            lemma_atoms_len(old_items);
        }
        let mut data_idx: usize = 0;
        let mut local_target = target;
        let zero = T::Measure::zero();
        while data_idx < leaf_data.len() && leaf_data[data_idx].measure().less_than(&local_target)
            invariant
                0 <= data_idx <= leaf_data.len(),
                leaf_data@ == old_items,
                dmo == data_models(old_items),
                psum(dmo.take(data_idx as int)).0 + local_target.model().0 == target.model().0,
            decreases leaf_data.len() - data_idx,
        {
            let m = leaf_data[data_idx].measure();
            proof {
                lemma_psum_take_plus_one(dmo, data_idx as int);
            }
            local_target = local_target.minus(m);
            data_idx += 1;
        }
        let len = leaf_data.len();
        if data_idx < len && zero.less_than(&local_target) && local_target.less_than(
            &leaf_data[data_idx].measure(),
        ) && 0 < local_target.primary() && local_target.primary() < leaf_data[data_idx].measure().primary() {
            proof {
                assert(old_items[data_idx as int].wf());
                T::lemma_content(&old_items[data_idx as int]);
                assert(leaf_data@[data_idx as int] == old_items[data_idx as int]);
            }
            let right_half = leaf_data[data_idx].split_at(local_target);
            let ghost left_half = leaf_data@[data_idx as int];
            proof {
                assert(old_items[data_idx as int].content() =~= left_half.content() + right_half.content());
                lemma_data_models_split(old_items, data_idx as int, left_half, right_half);
            }
            let merged = leaf_data[data_idx].try_merge(&data);
            if merged {
                leaf_data.insert(data_idx + 1, right_half);
                proof {
                    let l2 = leaf_data@[data_idx as int];
                    lemma_measure_concat(left_half, data, l2);
                    let mid = old_items.update(data_idx as int, left_half).insert(data_idx + 1, right_half);
                    assert(leaf_data@ =~= mid.update(data_idx as int, l2));
                    lemma_psum_update(data_models(mid), data_idx as int, l2.spec_measure().model());
                    assert(data_models(mid.update(data_idx as int, l2)) =~= data_models(mid).update(data_idx as int, l2.spec_measure().model()));
                }
            } else {
                leaf_data.insert(data_idx + 1, data);
                assert(data_idx + 2 <= leaf_data.len());
                leaf_data.insert(data_idx + 2, right_half);
                proof {
                    let mid = old_items.update(data_idx as int, left_half).insert(data_idx + 1, right_half);
                    assert(leaf_data@ =~= mid.insert(data_idx + 1, data));
                    lemma_psum_insert(data_models(mid), data_idx + 1, dm);
                    assert(data_models(mid.insert(data_idx + 1, data)) =~= data_models(mid).insert(data_idx + 1, dm));
                }
            }
            proof {
                assert forall|k: int| 0 <= k < leaf_data@.len() implies (#[trigger] leaf_data@[k]).wf() by {
                    if k > data_idx + 1 {
                        if !merged && k == data_idx + 2 {} else {}
                    }
                }
            }
            proof {
                lemma_insert_split_atoms(old_items, leaf_data@, xd, data_idx as int, left_half, right_half,
                    merged, target.model().0);
            }
            return ;
        }
        let insert_idx;
        let prev_idx: Option<usize>;
        if data_idx == len || local_target.same(&zero) {
            insert_idx = data_idx;
            prev_idx = if data_idx == 0 { None } else { Some(data_idx - 1) };
        } else if local_target.primary() == 0 {
            insert_idx = data_idx;
            prev_idx = None;
        } else {
            insert_idx = data_idx + 1;
            prev_idx = Some(data_idx);
        }
        proof {
            lemma_insert_pos(old_items, data_idx as int, local_target.model(), target.model().0, insert_idx as int);
        }
        if let Some(p_idx) = prev_idx {
            let ghost before = leaf_data@[p_idx as int];
            if leaf_data[p_idx].try_merge(&data) {
                proof {
                    let after = leaf_data@[p_idx as int];
                    lemma_measure_concat(before, data, after);
                    lemma_psum_update(data_models(old_items), p_idx as int, after.spec_measure().model());
                    assert(data_models(leaf_data@) =~= data_models(old_items).update(p_idx as int, after.spec_measure().model()));
                    assert forall|k: int| 0 <= k < leaf_data@.len() implies (#[trigger] leaf_data@[k]).wf() by {}
                }
                proof {
                    lemma_insert_merged_atoms(old_items, leaf_data@, xd, p_idx as int, target.model().0);
                }
                return ;
            }
        }
        proof {
            assert(leaf_data@ =~= old_items);
        }
        leaf_data.insert(insert_idx, data);
        proof {
            assert(leaf_data@ =~= old_items.insert(insert_idx as int, xd));
            lemma_insert_plain_atoms(old_items, leaf_data@, xd, insert_idx as int, target.model().0);
        }
        proof {
            assert(data_models(leaf_data@) =~= data_models(old_items).insert(insert_idx as int, dm));
            lemma_psum_insert(data_models(old_items), insert_idx as int, dm);
            assert forall|k: int| 0 <= k < leaf_data@.len() implies (#[trigger] leaf_data@[k]).wf() by {}
        }
    }
}

impl<T: MeasuredBTreeData> MeasuredBTree<T> {
    /// Changes that keep every node's kind and children, the root and the free lists,
    /// and leave free nodes alone, keep the shape well-formed.
    proof fn lemma_shape_same_kids(&self, old_self: Self)
        requires
            old_self.shape_ok(),
            self.pool@.len() == old_self.pool@.len(),
            self.level@.len() == self.pool@.len(),
            forall|j: int| 0 <= j < self.pool@.len() ==> (#[trigger] self.pool@[j]).kids() == old_self.pool@[j].kids()
                && (self.pool@[j] is Leaf) == (old_self.pool@[j] is Leaf),
            forall|j: int| 0 <= j < self.pool@.len() && old_self.is_free(j) ==> self.pool@[j] == old_self.pool@[j],
            self.root_idx == old_self.root_idx,
            self.free_leaves_list@ == old_self.free_leaves_list@,
            self.free_internals_list@ == old_self.free_internals_list@,
        ensures
            self.shape_ok(),
            forall|j: int| #[trigger] is_child(self.pool@, j) == is_child(old_self.pool@, j),
            forall|j: int| #[trigger] self.attached(j) == old_self.attached(j),
            forall|j: int| #[trigger] self.is_free(j) == old_self.is_free(j),
    {
        let pool = self.pool@;
        let opool = old_self.pool@;
        assert forall|j: int| #[trigger] is_child(pool, j) == is_child(opool, j) by {
            if is_child(pool, j) {
                let (p, a) = choose|p: int, a: int|
                    0 <= p < pool.len() && 0 <= a < pool[p].kids().len() && #[trigger] pool[p].kids()[a] == j;
                assert(opool[p].kids()[a] == j);
            }
            if is_child(opool, j) {
                let (p, a) = choose|p: int, a: int|
                    0 <= p < opool.len() && 0 <= a < opool[p].kids().len() && #[trigger] opool[p].kids()[a] == j;
                assert(pool[p].kids()[a] == j);
            }
        }
        assert forall|i: int, k: int| 0 <= i < pool.len() && 0 <= k < pool[i].kids().len() implies #[trigger] pool[i].kids()[k] < pool.len() by {
            assert(opool[i].kids()[k] == pool[i].kids()[k]);
        }
        assert forall|p: int, a: int, q: int, b: int|
            0 <= p < pool.len() && 0 <= q < pool.len() && 0 <= a < pool[p].kids().len() && 0 <= b
                < pool[q].kids().len() && #[trigger] pool[p].kids()[a] == #[trigger] pool[q].kids()[b]
            implies p == q && a == b by {
            assert(opool[p].kids()[a] == opool[q].kids()[b]);
        }
        assert forall|i: int| 0 <= i < pool.len() && self.attached(i) && (#[trigger] pool[i]) is Internal
            implies pool[i].kids().len() > 0 by {
            assert(old_self.attached(i));
            assert(opool[i] is Internal);
        }
        assert forall|k: int| 0 <= k < self.free_leaves_list@.len() implies
            pool[#[trigger] self.free_leaves_list@[k] as int] == opool[self.free_leaves_list@[k] as int] by {
            let j = self.free_leaves_list@[k] as int;
            assert(old_self.free_leaves_list@[k] as int == j);
            assert(in_list(old_self.free_leaves_list@, j));
            assert(old_self.is_free(j));
            assert(j < opool.len());
        }
        assert forall|k: int| 0 <= k < self.free_internals_list@.len() implies
            pool[#[trigger] self.free_internals_list@[k] as int] == opool[self.free_internals_list@[k] as int] by {
            let j = self.free_internals_list@[k] as int;
            assert(old_self.free_internals_list@[k] as int == j);
            assert(in_list(old_self.free_internals_list@, j));
            assert(old_self.is_free(j));
            assert(j < opool.len());
        }
    }

    /// Splits a full leaf in half: the node keeps the first half of its items and a newly
    /// allocated leaf receives the second half.
    fn split_leaf(&mut self, pool_idx: PoolIndex) -> (s: PoolIndex)
        requires
            old(self).shape_ok(),
            pool_idx < old(self).pool@.len(),
            old(self).pool@[pool_idx as int] is Leaf,
            old(self).attached(pool_idx as int),
            node_ok(old(self).pool@, old(self).level@, pool_idx as int),
        ensures
            final(self).shape_ok(),
            final(self).root_idx == old(self).root_idx,
            s < final(self).pool@.len(),
            s != pool_idx,
            s >= old(self).pool@.len() || old(self).is_free(s as int),
            !final(self).attached(s as int),
            !final(self).is_free(s as int),
            forall|j: int| j != s ==> final(self).is_free(j) == old(self).is_free(j),
            forall|j: int| #[trigger] is_child(final(self).pool@, j) == is_child(old(self).pool@, j),
            final(self).pool@.len() >= old(self).pool@.len(),
            final(self).pool@.len() <= old(self).pool@.len() + 1,
            final(self).pool@.len() > old(self).pool@.len() ==> s == old(self).pool@.len(),
            forall|j: int| 0 <= j < old(self).pool@.len() && j != pool_idx && j != s ==> final(self).pool@[j] == old(self).pool@[j],
            forall|j: int| 0 <= j < old(self).pool@.len() && j != s ==> final(self).level@[j] == old(self).level@[j],
            final(self).pool@[pool_idx as int] is Leaf,
            final(self).pool@[s as int] is Leaf,
            final(self).pool@[pool_idx as int].items() == old(self).pool@[pool_idx as int].items().take(
                (old(self).pool@[pool_idx as int].items().len() / 2) as int,
            ),
            final(self).pool@[s as int].items() == old(self).pool@[pool_idx as int].items().skip(
                (old(self).pool@[pool_idx as int].items().len() / 2) as int,
            ),
            node_ok(final(self).pool@, final(self).level@, pool_idx as int),
            node_ok(final(self).pool@, final(self).level@, s as int),
            padd(final(self).pool@[pool_idx as int].weight(), final(self).pool@[s as int].weight())
                == old(self).pool@[pool_idx as int].weight(),
    {
        let ghost old_self = *self;
        let ghost items = self.pool@[pool_idx as int].items();
        let new_leaf_idx = self.allocate_node(true);
        proof {
            self.level@ = self.level@.update(new_leaf_idx as int, 0nat);
        }
        let ghost mid = *self;
        let ghost h = items.len() / 2;
        proof {
            let dm = data_models(items);
            lemma_psum_split(dm, h as int);
            assert(data_models(items.take(h as int)) =~= dm.take(h as int));
            assert(data_models(items.skip(h as int)) =~= dm.skip(h as int));
            T::Measure::lemma_fits(self.pool@[pool_idx as int].node_measure());
            T::Measure::lemma_fits_below(psum(dm), psum(dm.take(h as int)));
            T::Measure::lemma_fits_below(psum(dm), psum(dm.skip(h as int)));
        }
        let mut right_data = Vec::new();
        match &mut self.pool[pool_idx] {
            MeasuredBTreeNode::Leaf { data, measure } => {
                let split_at = data.len() / 2;
                right_data = data.split_off(split_at);
                *measure = Self::data_sum(data);
            },
            MeasuredBTreeNode::Internal { .. } => {
                return new_leaf_idx;
            },
        }
        let right_weight = Self::data_sum(&right_data);
        match &mut self.pool[new_leaf_idx] {
            MeasuredBTreeNode::Leaf { data: new_data, measure: new_measure } => {
                *new_data = right_data;
                *new_measure = right_weight;
            },
            MeasuredBTreeNode::Internal { .. } => {},
        }
        proof {
            assert(self.pool@[pool_idx as int].items() =~= items.take(h as int));
            assert(self.pool@[new_leaf_idx as int].items() =~= items.skip(h as int));
            assert(mid.pool@[new_leaf_idx as int] == old_self.pool@[new_leaf_idx as int] || new_leaf_idx >= old_self.pool@.len());
            assert forall|j: int| 0 <= j < self.pool@.len() && mid.is_free(j) implies self.pool@[j] == mid.pool@[j] by {
                assert(mid.attached(pool_idx as int));
            }
            assert forall|j: int| 0 <= j < self.pool@.len() implies (#[trigger] self.pool@[j]).kids() == mid.pool@[j].kids()
                && (self.pool@[j] is Leaf) == (mid.pool@[j] is Leaf) by {}
            self.lemma_shape_same_kids(mid);
            assert(node_ok(old_self.pool@, old_self.level@, pool_idx as int));
            assert forall|k: int| 0 <= k < self.pool@[new_leaf_idx as int].items().len() implies
                (#[trigger] self.pool@[new_leaf_idx as int].items()[k]).wf() by {
                assert(self.pool@[new_leaf_idx as int].items()[k] == items[k + h]);
            }
        }
        new_leaf_idx
    }
}

impl<T: MeasuredBTreeData> MeasuredBTree<T> {
    /// Moving the second half of the children of node `idx` to the detached, empty
    /// internal node `s` keeps the shape well-formed.
    proof fn lemma_split_kids(&self, mid: Self, idx: int, s: int, h: int)
        requires
            mid.shape_ok(),
            0 <= idx < mid.pool@.len(),
            0 <= s < mid.pool@.len(),
            idx != s,
            mid.attached(idx),
            !mid.attached(s),
            !mid.is_free(s),
            mid.pool@[s].kids().len() == 0,
            mid.pool@[idx] is Internal,
            mid.pool@[s] is Internal,
            1 <= h <= mid.pool@[idx].kids().len(),
            self.pool@.len() == mid.pool@.len(),
            self.level@.len() == self.pool@.len(),
            self.pool@[idx] is Internal,
            self.pool@[s] is Internal,
            self.pool@[idx].kids() == mid.pool@[idx].kids().take(h),
            self.pool@[s].kids() == mid.pool@[idx].kids().skip(h),
            forall|j: int| 0 <= j < self.pool@.len() && j != idx && j != s ==> self.pool@[j] == mid.pool@[j],
            self.root_idx == mid.root_idx,
            self.free_leaves_list@ == mid.free_leaves_list@,
            self.free_internals_list@ == mid.free_internals_list@,
        ensures
            self.shape_ok(),
            forall|j: int| #[trigger] is_child(self.pool@, j) == is_child(mid.pool@, j),
            !self.attached(s),
            forall|j: int| #[trigger] self.is_free(j) == mid.is_free(j),
    {
        let pool = self.pool@;
        let opool = mid.pool@;
        let ks = opool[idx].kids();
        assert forall|p: int, a: int| 0 <= p < pool.len() && 0 <= a < pool[p].kids().len() implies {
            let (p0, a0) = if p == s { (idx, a + h) } else { (p, a) };
            &&& 0 <= p0 < opool.len()
            &&& 0 <= a0 < opool[p0].kids().len()
            &&& #[trigger] pool[p].kids()[a] == opool[p0].kids()[a0]
        } by {
            if p == s {
                assert(pool[p].kids()[a] == ks[a + h]);
            } else if p == idx {
                assert(pool[p].kids()[a] == ks[a]);
            }
        }
        assert forall|j: int| #[trigger] is_child(pool, j) == is_child(opool, j) by {
            if is_child(pool, j) {
                let (p, a) = choose|p: int, a: int|
                    0 <= p < pool.len() && 0 <= a < pool[p].kids().len() && #[trigger] pool[p].kids()[a] == j;
                let (p0, a0) = if p == s { (idx, a + h) } else { (p, a) };
                assert(opool[p0].kids()[a0] == j);
            }
            if is_child(opool, j) {
                let (p, a) = choose|p: int, a: int|
                    0 <= p < opool.len() && 0 <= a < opool[p].kids().len() && #[trigger] opool[p].kids()[a] == j;
                if p == idx {
                    if a < h {
                        assert(pool[idx].kids()[a] == j);
                    } else {
                        assert(pool[s].kids()[a - h] == j);
                    }
                } else {
                    assert(p != s);
                    assert(pool[p].kids()[a] == j);
                }
            }
        }
        assert forall|i: int, k: int| 0 <= i < pool.len() && 0 <= k < pool[i].kids().len() implies #[trigger] pool[i].kids()[k] < pool.len() by {
            let (p0, a0) = if i == s { (idx, k + h) } else { (i, k) };
            assert(opool[p0].kids()[a0] < opool.len());
        }
        assert forall|p: int, a: int, q: int, b: int|
            0 <= p < pool.len() && 0 <= q < pool.len() && 0 <= a < pool[p].kids().len() && 0 <= b
                < pool[q].kids().len() && #[trigger] pool[p].kids()[a] == #[trigger] pool[q].kids()[b]
            implies p == q && a == b by {
            let (p0, a0) = if p == s { (idx, a + h) } else { (p, a) };
            let (q0, b0) = if q == s { (idx, b + h) } else { (q, b) };
            assert(opool[p0].kids()[a0] == opool[q0].kids()[b0]);
        }
        assert(!self.attached(s)) by {
            assert(!is_child(opool, s));
        }
        assert forall|i: int| 0 <= i < pool.len() && self.attached(i) && (#[trigger] pool[i]) is Internal
            implies pool[i].kids().len() > 0 by {
            assert(mid.attached(i));
        }
        assert forall|k: int| 0 <= k < self.free_leaves_list@.len() implies
            pool[#[trigger] self.free_leaves_list@[k] as int] == opool[self.free_leaves_list@[k] as int] by {
            let j = self.free_leaves_list@[k] as int;
            assert(mid.free_leaves_list@[k] as int == j);
            assert(!mid.attached(j));
            assert(in_list(mid.free_leaves_list@, j));
        }
        assert forall|k: int| 0 <= k < self.free_internals_list@.len() implies
            pool[#[trigger] self.free_internals_list@[k] as int] == opool[self.free_internals_list@[k] as int] by {
            let j = self.free_internals_list@[k] as int;
            assert(mid.free_internals_list@[k] as int == j);
            assert(!mid.attached(j));
            assert(in_list(mid.free_internals_list@, j));
        }
    }

    /// Splits an internal node in half: the node keeps the first half of its children
    /// and a newly allocated internal node, one level up from them, receives the rest.
    #[verifier::rlimit(80)]
    #[verifier::spinoff_prover]
    fn split_internal(&mut self, pool_idx: PoolIndex) -> (s: PoolIndex)
        requires
            old(self).shape_ok(),
            pool_idx < old(self).pool@.len(),
            old(self).pool@[pool_idx as int] is Internal,
            old(self).pool@[pool_idx as int].kids().len() >= 2,
            old(self).attached(pool_idx as int),
            node_ok(old(self).pool@, old(self).level@, pool_idx as int),
        ensures
            final(self).shape_ok(),
            final(self).root_idx == old(self).root_idx,
            s < final(self).pool@.len(),
            s != pool_idx,
            s >= old(self).pool@.len() || old(self).is_free(s as int),
            !final(self).attached(s as int),
            !final(self).is_free(s as int),
            forall|j: int| j != s ==> final(self).is_free(j) == old(self).is_free(j),
            forall|j: int| #[trigger] is_child(final(self).pool@, j) == is_child(old(self).pool@, j),
            final(self).pool@.len() >= old(self).pool@.len(),
            final(self).pool@.len() <= old(self).pool@.len() + 1,
            final(self).pool@.len() > old(self).pool@.len() ==> s == old(self).pool@.len(),
            forall|j: int| 0 <= j < old(self).pool@.len() && j != pool_idx && j != s ==> final(self).pool@[j] == old(self).pool@[j],
            forall|j: int| 0 <= j < old(self).pool@.len() && j != s ==> final(self).level@[j] == old(self).level@[j],
            final(self).level@[s as int] == old(self).level@[pool_idx as int],
            final(self).pool@[pool_idx as int] is Internal,
            final(self).pool@[s as int] is Internal,
            final(self).pool@[pool_idx as int].kids() == old(self).pool@[pool_idx as int].kids().take(
                (old(self).pool@[pool_idx as int].kids().len() / 2) as int,
            ),
            final(self).pool@[s as int].kids() == old(self).pool@[pool_idx as int].kids().skip(
                (old(self).pool@[pool_idx as int].kids().len() / 2) as int,
            ),
            final(self).pool@[s as int].kids().len() > 0,
            node_ok(final(self).pool@, final(self).level@, pool_idx as int),
            node_ok(final(self).pool@, final(self).level@, s as int),
            padd(final(self).pool@[pool_idx as int].weight(), final(self).pool@[s as int].weight())
                == old(self).pool@[pool_idx as int].weight(),
    {
        let ghost old_self = *self;
        let ghost ks = self.pool@[pool_idx as int].kids();
        let ghost h = ks.len() / 2;
        let new_idx = self.allocate_node(false);
        proof {
            self.level@ = self.level@.update(new_idx as int, old_self.level@[pool_idx as int]);
        }
        let ghost mid = *self;
        proof {
            assert(mid.pool@[pool_idx as int] == old_self.pool@[pool_idx as int]);
            assert forall|k: int| 0 <= k < ks.len() implies #[trigger] ks[k] != new_idx && ks[k] != pool_idx && ks[k] < old_self.pool@.len() by {
                assert(is_child(old_self.pool@, ks[k] as int));
                if ks[k] == new_idx && new_idx < old_self.pool@.len() {
                    assert(old_self.attached(new_idx as int));
                }
                assert(old_self.level@[ks[k] as int] + 1 == old_self.level@[pool_idx as int]);
            }
            let km = kid_models(old_self.pool@, ks);
            lemma_psum_split(km, h as int);
            assert(kid_models(self.pool@, ks.take(h as int)) =~= km.take(h as int));
            assert(kid_models(self.pool@, ks.skip(h as int)) =~= km.skip(h as int));
            T::Measure::lemma_fits(old_self.pool@[pool_idx as int].node_measure());
            T::Measure::lemma_fits_below(psum(km), psum(km.take(h as int)));
            T::Measure::lemma_fits_below(psum(km), psum(km.skip(h as int)));
        }
        let right_children = match &mut self.pool[pool_idx] {
            MeasuredBTreeNode::Internal { children, .. } => children.split_off(children.len() / 2),
            MeasuredBTreeNode::Leaf { .. } => {
                return new_idx;
            },
        };
        proof {
            assert(self.pool@[pool_idx as int].kids() =~= ks.take(h as int));
            assert(right_children@ =~= ks.skip(h as int));
            assert(kid_models(self.pool@, ks.take(h as int)) =~= kid_models(mid.pool@, ks.take(h as int)));
            assert(kid_models(self.pool@, ks.skip(h as int)) =~= kid_models(mid.pool@, ks.skip(h as int)));
        }
        let left_weight = match &self.pool[pool_idx] {
            MeasuredBTreeNode::Internal { children, .. } => self.children_sum(children),
            MeasuredBTreeNode::Leaf { .. } => {
                return new_idx;
            },
        };
        let right_weight = self.children_sum(&right_children);
        let m = self.pool[pool_idx].mut_measure();
        *m = left_weight;
        match &mut self.pool[new_idx] {
            MeasuredBTreeNode::Internal { children, measure } => {
                *measure = right_weight;
                *children = right_children;
            },
            MeasuredBTreeNode::Leaf { .. } => {},
        }
        proof {
            assert(self.pool@[new_idx as int].kids() =~= ks.skip(h as int));
            self.lemma_split_kids(mid, pool_idx as int, new_idx as int, h as int);
            assert(kid_models(self.pool@, ks.take(h as int)) =~= kid_models(mid.pool@, ks.take(h as int)));
            assert(kid_models(self.pool@, ks.skip(h as int)) =~= kid_models(mid.pool@, ks.skip(h as int)));
            assert(node_ok(old_self.pool@, old_self.level@, pool_idx as int));
            assert forall|k: int| 0 <= k < ks.skip(h as int).len() implies #[trigger] ks.skip(h as int)[k] == ks[k + h] by {}
        }
        new_idx
    }
}

/// Raising the cached measure of node `idx` by `d`, when its parent `p` (or nobody, for
/// `p == -1`) is the one node whose measure exceeds its sum by `d`, moves the excess
/// from the parent to `idx`.
pub proof fn lemma_push_delta<T: MeasuredBTreeData>(
    opool: Seq<MeasuredBTreeNode<T>>,
    pool: Seq<MeasuredBTreeNode<T>>,
    level: Seq<nat>,
    p: int,
    pos: int,
    idx: int,
    d: (nat, nat),
)
    requires
        nodes_ok_except(opool, level, p, d),
        unique_parents(opool),
        0 <= idx < opool.len(),
        p == -1 ==> !is_child(opool, idx),
        p != -1 ==> 0 <= p < opool.len() && 0 <= pos < opool[p].kids().len() && opool[p].kids()[pos] == idx,
        pool.len() == opool.len(),
        pool[idx].kids() == opool[idx].kids(),
        pool[idx].items() == opool[idx].items(),
        (pool[idx] is Leaf) == (opool[idx] is Leaf),
        pool[idx].weight() == padd(opool[idx].weight(), d),
        forall|j: int| 0 <= j < pool.len() && j != idx ==> pool[j] == opool[j],
    ensures
        nodes_ok_except(pool, level, idx, d),
{
    if p != -1 {
        assert(node_ok_d(opool, level, p, d));
        assert(p != idx) by {
            assert(level[opool[p].kids()[pos] as int] + 1 == level[p]) by {
                match opool[p] {
                    MeasuredBTreeNode::Internal { children, .. } => {
                        assert(children@[pos] == opool[p].kids()[pos]);
                    },
                    MeasuredBTreeNode::Leaf { .. } => {},
                }
            }
        }
    }
    assert forall|i: int, k: int| 0 <= i < opool.len() && i != p && 0 <= k < opool[i].kids().len()
        implies #[trigger] opool[i].kids()[k] != idx by {
        if opool[i].kids()[k] == idx {
            if p == -1 {
                assert(is_child(opool, idx));
            } else {
                assert(opool[p].kids()[pos] == opool[i].kids()[k]);
            }
        }
    }
    assert forall|i: int| 0 <= i < pool.len() && i != idx implies #[trigger] node_ok(pool, level, i) by {
        if i == p {
            let ks = opool[p].kids();
            match opool[p] {
                MeasuredBTreeNode::Internal { children, .. } => {
                    assert(children@ == ks);
                    let km = kid_models(opool, ks);
                    assert forall|k: int| 0 <= k < ks.len() && k != pos implies #[trigger] ks[k] != idx by {
                        assert(opool[p].kids()[k] == ks[k]);
                        if ks[k] == idx {
                            assert(opool[p].kids()[pos] == opool[p].kids()[k]);
                        }
                    }
                    assert(kid_models(pool, ks) =~= km.update(pos, pool[idx].weight()));
                    lemma_psum_update(km, pos, pool[idx].weight());
                    assert forall|k: int| 0 <= k < children@.len() implies {
                        &&& (#[trigger] children@[k]) < pool.len()
                        &&& level[children@[k] as int] + 1 == level[i]
                    } by {}
                },
                MeasuredBTreeNode::Leaf { .. } => {},
            }
        } else {
            assert(node_ok(opool, level, i));
            assert forall|k: int| 0 <= k < opool[i].kids().len() implies {
                let c = #[trigger] opool[i].kids()[k];
                &&& pool[c as int].weight() == opool[c as int].weight()
                &&& level[c as int] == level[c as int]
            } by {
                let c = opool[i].kids()[k];
                assert(c != idx);
                match opool[i] {
                    MeasuredBTreeNode::Internal { children, .. } => {
                        assert(children@[k] == c);
                    },
                    MeasuredBTreeNode::Leaf { .. } => {},
                }
            }
            lemma_node_frame_one(opool, level, pool, level, i, (0nat, 0nat), set![idx]);
        }
    }
    assert(node_ok(opool, level, idx));
    match pool[idx] {
        MeasuredBTreeNode::Internal { children, .. } => {
            assert(children@ == opool[idx].kids());
            assert forall|k: int| 0 <= k < children@.len() implies pool[#[trigger] children@[k] as int].weight()
                == opool[children@[k] as int].weight() by {
                match opool[idx] {
                    MeasuredBTreeNode::Internal { children: oc, .. } => {
                        assert(oc@[k] == children@[k]);
                        assert(level[oc@[k] as int] + 1 == level[idx]);
                    },
                    MeasuredBTreeNode::Leaf { .. } => {},
                }
            }
            lemma_kid_models_frame(opool, pool, children@);
            match opool[idx] {
                MeasuredBTreeNode::Internal { children: oc, .. } => {
                    assert(oc@ == children@);
                },
                MeasuredBTreeNode::Leaf { .. } => {},
            }
        },
        MeasuredBTreeNode::Leaf { data, .. } => {
            match opool[idx] {
                MeasuredBTreeNode::Leaf { data: od, .. } => {
                    assert(od@ == data@);
                },
                MeasuredBTreeNode::Internal { .. } => {},
            }
        },
    }
}

/// When only node `x` changed, keeping its weight, and it is now consistent, all
/// nodes are consistent.
pub proof fn lemma_fix_node<T: MeasuredBTreeData>(
    opool: Seq<MeasuredBTreeNode<T>>,
    pool: Seq<MeasuredBTreeNode<T>>,
    level: Seq<nat>,
    x: int,
    d: (nat, nat),
)
    requires
        nodes_ok_except(opool, level, x, d),
        0 <= x < opool.len(),
        pool.len() == opool.len(),
        forall|j: int| 0 <= j < pool.len() && j != x ==> pool[j] == opool[j],
        pool[x].weight() == opool[x].weight(),
        node_ok(pool, level, x),
    ensures
        nodes_ok(pool, level),
{
    assert forall|i: int| 0 <= i < pool.len() && i != -1 implies #[trigger] node_ok(pool, level, i) by {
        if i != x {
            assert(node_ok(opool, level, i));
            assert forall|k: int| 0 <= k < opool[i].kids().len() implies {
                let c = #[trigger] opool[i].kids()[k];
                &&& pool[c as int].weight() == opool[c as int].weight()
                &&& level[c as int] == level[c as int]
            } by {
                let c = opool[i].kids()[k];
                match opool[i] {
                    MeasuredBTreeNode::Internal { children, .. } => {
                        assert(children@[k] == c);
                    },
                    MeasuredBTreeNode::Leaf { .. } => {},
                }
            }
            lemma_node_frame_one(opool, level, pool, level, i, (0nat, 0nat), set![x]);
        }
    }
}

/// After node `idx` was split into `idx` and the new node `s`, the parent `p` of `idx`
/// (or nobody, for `p == -1`) exceeds its sum by the weight of `s`, and all other
/// nodes are consistent.
pub proof fn lemma_split_nodes<T: MeasuredBTreeData>(
    opool: Seq<MeasuredBTreeNode<T>>,
    olevel: Seq<nat>,
    pool: Seq<MeasuredBTreeNode<T>>,
    level: Seq<nat>,
    p: int,
    pos: int,
    idx: int,
    s: int,
)
    requires
        nodes_ok(opool, olevel),
        unique_parents(opool),
        0 <= idx < opool.len(),
        p == -1 ==> !is_child(opool, idx),
        p != -1 ==> 0 <= p < opool.len() && 0 <= pos < opool[p].kids().len() && opool[p].kids()[pos] == idx,
        0 <= s < pool.len(),
        s != idx,
        s < opool.len() ==> !is_child(opool, s) && opool[s].kids().len() == 0,
        pool.len() >= opool.len(),
        level.len() == pool.len(),
        forall|j: int| 0 <= j < opool.len() && j != idx && j != s ==> pool[j] == opool[j],
        forall|j: int| 0 <= j < opool.len() && j != s ==> level[j] == olevel[j],
        pool.len() <= opool.len() + 1,
        pool.len() > opool.len() ==> s == opool.len(),
        node_ok(pool, level, idx),
        node_ok(pool, level, s),
        padd(pool[idx].weight(), pool[s].weight()) == opool[idx].weight(),
    ensures
        nodes_ok_except(pool, level, p, pool[s].weight()),
{
    assert forall|i: int, k: int| 0 <= i < opool.len() && 0 <= k < opool[i].kids().len()
        implies #[trigger] opool[i].kids()[k] != s && (i != p ==> opool[i].kids()[k] != idx) by {
        if opool[i].kids()[k] == s {
            assert(is_child(opool, s));
            assert(opool[i].kids()[k] < opool.len()) by {
                assert(node_ok(opool, olevel, i));
                match opool[i] {
                    MeasuredBTreeNode::Internal { children, .. } => {
                        assert(children@[k] == opool[i].kids()[k]);
                    },
                    MeasuredBTreeNode::Leaf { .. } => {},
                }
            }
        }
        if i != p && opool[i].kids()[k] == idx {
            if p == -1 {
                assert(is_child(opool, idx));
            } else {
                assert(opool[p].kids()[pos] == opool[i].kids()[k]);
            }
        }
    }
    if p != -1 {
        assert(p != s);
        assert(p != idx) by {
            assert(node_ok(opool, olevel, p));
            match opool[p] {
                MeasuredBTreeNode::Internal { children, .. } => {
                    assert(children@[pos] == opool[p].kids()[pos]);
                },
                MeasuredBTreeNode::Leaf { .. } => {},
            }
        }
    }
    assert forall|i: int| 0 <= i < pool.len() && i != p implies #[trigger] node_ok(pool, level, i) by {
        if i != idx && i != s {
            assert(node_ok(opool, olevel, i));
            assert forall|k: int| 0 <= k < opool[i].kids().len() implies {
                let c = #[trigger] opool[i].kids()[k];
                &&& pool[c as int].weight() == opool[c as int].weight()
                &&& level[c as int] == olevel[c as int]
            } by {
                let c = opool[i].kids()[k];
                match opool[i] {
                    MeasuredBTreeNode::Internal { children, .. } => {
                        assert(children@[k] == c);
                    },
                    MeasuredBTreeNode::Leaf { .. } => {},
                }
            }
            lemma_node_frame_one(opool, olevel, pool, level, i, (0nat, 0nat), set![idx, s]);
        }
    }
    if p != -1 {
        let ks = opool[p].kids();
        assert(node_ok(opool, olevel, p));
        match opool[p] {
            MeasuredBTreeNode::Internal { children, .. } => {
                assert(children@ == ks);
                let km = kid_models(opool, ks);
                assert forall|k: int| 0 <= k < ks.len() && k != pos implies #[trigger] ks[k] != idx by {
                    assert(opool[p].kids()[k] == ks[k]);
                    if ks[k] == idx {
                        assert(opool[p].kids()[pos] == opool[p].kids()[k]);
                    }
                }
                assert forall|k: int| 0 <= k < ks.len() implies #[trigger] ks[k] != s by {
                    assert(opool[p].kids()[k] == ks[k]);
                }
                assert(kid_models(pool, ks) =~= km.update(pos, pool[idx].weight()));
                lemma_psum_update(km, pos, pool[idx].weight());
                assert forall|k: int| 0 <= k < children@.len() implies {
                    &&& (#[trigger] children@[k]) < pool.len()
                    &&& level[children@[k] as int] + 1 == level[p]
                } by {}
            },
            MeasuredBTreeNode::Leaf { .. } => {},
        }
    }
}

/// Inserting the detached node `c` into the children of node `x`, whose measure exceeded
/// its sum by the weight of `c`, makes every node consistent.
pub proof fn lemma_insert_kid<T: MeasuredBTreeData>(
    opool: Seq<MeasuredBTreeNode<T>>,
    pool: Seq<MeasuredBTreeNode<T>>,
    level: Seq<nat>,
    x: int,
    at: int,
    c: PoolIndex,
)
    requires
        nodes_ok_except(opool, level, x, opool[c as int].weight()),
        0 <= x < opool.len(),
        opool[x] is Internal,
        pool[x] is Internal,
        0 <= at <= opool[x].kids().len(),
        c < opool.len(),
        c != x,
        level[c as int] + 1 == level[x],
        pool.len() == opool.len(),
        pool[x].kids() == opool[x].kids().insert(at, c),
        pool[x].weight() == opool[x].weight(),
        forall|j: int| 0 <= j < pool.len() && j != x ==> pool[j] == opool[j],
    ensures
        nodes_ok(pool, level),
{
    let ks = opool[x].kids();
    assert(node_ok_d(opool, level, x, opool[c as int].weight()));
    match opool[x] {
        MeasuredBTreeNode::Internal { children, .. } => {
            assert(children@ == ks);
            assert forall|k: int| 0 <= k < ks.len() implies #[trigger] ks[k] != x by {
                assert(children@[k] == ks[k]);
            }
            let km = kid_models(opool, ks);
            assert(kid_models(pool, ks.insert(at, c)) =~= km.insert(at, opool[c as int].weight()));
            lemma_psum_insert(km, at, opool[c as int].weight());
            match pool[x] {
                MeasuredBTreeNode::Internal { children: nc, .. } => {
                    assert(nc@ == ks.insert(at, c));
                    assert forall|k: int| 0 <= k < nc@.len() implies {
                        &&& (#[trigger] nc@[k]) < pool.len()
                        &&& level[nc@[k] as int] + 1 == level[x]
                    } by {
                        if k < at {
                            assert(nc@[k] == children@[k]);
                        } else if k > at {
                            assert(nc@[k] == children@[k - 1]);
                        }
                    }
                },
                MeasuredBTreeNode::Leaf { .. } => {},
            }
        },
        MeasuredBTreeNode::Leaf { .. } => {},
    }
    assert(node_ok(pool, level, x));
    lemma_fix_node(opool, pool, level, x, opool[c as int].weight());
}

impl<T: MeasuredBTreeData> MeasuredBTree<T> {
    /// A free node is empty, weightless and detached.
    proof fn lemma_free_detached(&self, j: int)
        requires
            self.shape_ok(),
            self.is_free(j),
        ensures
            0 <= j < self.pool@.len(),
            !self.attached(j),
            self.pool@[j].kids().len() == 0,
            self.pool@[j].items().len() == 0,
            self.pool@[j].weight() == (0nat, 0nat),
    {
        if in_list(self.free_leaves_list@, j) {
            let k = choose|k: int| 0 <= k < self.free_leaves_list@.len() && #[trigger] self.free_leaves_list@[k] as int == j;
            assert(self.free_leaves_list@[k] < self.pool.len());
        } else {
            let k = choose|k: int| 0 <= k < self.free_internals_list@.len() && #[trigger] self.free_internals_list@[k] as int == j;
            assert(self.free_internals_list@[k] < self.pool.len());
        }
    }

    /// Inserting the detached node `c` into the children of the attached internal node
    /// `x` keeps the shape well-formed and attaches `c`.
    proof fn lemma_attach_kid(&self, mid: Self, x: int, at: int, c: int)
        requires
            mid.shape_ok(),
            0 <= x < mid.pool@.len(),
            0 <= c < mid.pool@.len(),
            x != c,
            mid.attached(x),
            mid.pool@[x] is Internal,
            !mid.attached(c),
            !mid.is_free(c),
            mid.pool@[c] is Internal ==> mid.pool@[c].kids().len() > 0,
            0 <= at <= mid.pool@[x].kids().len(),
            self.pool@.len() == mid.pool@.len(),
            self.level@.len() == self.pool@.len(),
            self.pool@[x] is Internal,
            self.pool@[x].kids() == mid.pool@[x].kids().insert(at, c as PoolIndex),
            forall|j: int| 0 <= j < self.pool@.len() && j != x ==> self.pool@[j] == mid.pool@[j],
            self.root_idx == mid.root_idx,
            self.free_leaves_list@ == mid.free_leaves_list@,
            self.free_internals_list@ == mid.free_internals_list@,
        ensures
            self.shape_ok(),
            forall|j: int| #[trigger] is_child(self.pool@, j) == (is_child(mid.pool@, j) || j == c),
            forall|j: int| #[trigger] self.attached(j) == (mid.attached(j) || j == c),
            forall|j: int| #[trigger] self.is_free(j) == mid.is_free(j),
    {
        let pool = self.pool@;
        let opool = mid.pool@;
        let ks = opool[x].kids();
        assert forall|p: int, a: int| 0 <= p < pool.len() && 0 <= a < pool[p].kids().len() && !(p == x && a == at)
            implies {
            let a0 = if p == x && a > at { a - 1 } else { a };
            &&& 0 <= a0 < opool[p].kids().len()
            &&& #[trigger] pool[p].kids()[a] == opool[p].kids()[a0]
        } by {
            if p == x {
                if a > at {
                    assert(pool[p].kids()[a] == ks[a - 1]);
                } else {
                    assert(pool[p].kids()[a] == ks[a]);
                }
            }
        }
        assert(pool[x].kids()[at] == c);
        assert forall|j: int| #[trigger] is_child(pool, j) == (is_child(opool, j) || j == c) by {
            if is_child(pool, j) {
                let (p, a) = choose|p: int, a: int|
                    0 <= p < pool.len() && 0 <= a < pool[p].kids().len() && #[trigger] pool[p].kids()[a] == j;
                if !(p == x && a == at) {
                    let a0 = if p == x && a > at { a - 1 } else { a };
                    assert(opool[p].kids()[a0] == j);
                }
            }
            if is_child(opool, j) {
                let (p, a) = choose|p: int, a: int|
                    0 <= p < opool.len() && 0 <= a < opool[p].kids().len() && #[trigger] opool[p].kids()[a] == j;
                if p == x {
                    if a < at {
                        assert(pool[x].kids()[a] == j);
                    } else {
                        assert(pool[x].kids()[a + 1] == j);
                    }
                } else {
                    assert(pool[p].kids()[a] == j);
                }
            }
            if j == c {
                assert(pool[x].kids()[at] == j);
            }
        }
        assert forall|i: int, k: int| 0 <= i < pool.len() && 0 <= k < pool[i].kids().len() implies #[trigger] pool[i].kids()[k] < pool.len() by {
            if !(i == x && k == at) {
                let a0 = if i == x && k > at { k - 1 } else { k };
                assert(opool[i].kids()[a0] < opool.len());
            }
        }
        assert forall|p: int, a: int, q: int, b: int|
            0 <= p < pool.len() && 0 <= q < pool.len() && 0 <= a < pool[p].kids().len() && 0 <= b
                < pool[q].kids().len() && #[trigger] pool[p].kids()[a] == #[trigger] pool[q].kids()[b]
            implies p == q && a == b by {
            let pa = p == x && a == at;
            let qb = q == x && b == at;
            if pa && !qb {
                let b0 = if q == x && b > at { b - 1 } else { b };
                assert(opool[q].kids()[b0] == c);
                assert(is_child(opool, c));
            } else if !pa && qb {
                let a0 = if p == x && a > at { a - 1 } else { a };
                assert(opool[p].kids()[a0] == c);
                assert(is_child(opool, c));
            } else if !pa && !qb {
                let a0 = if p == x && a > at { a - 1 } else { a };
                let b0 = if q == x && b > at { b - 1 } else { b };
                assert(opool[p].kids()[a0] == opool[q].kids()[b0]);
            }
        }
        assert forall|j: int| #[trigger] self.attached(j) == (mid.attached(j) || j == c) by {}
        if let Some(r) = self.root_idx {
            assert(r != c) by {
                assert(mid.attached(r as int));
            }
        }
        assert forall|i: int| 0 <= i < pool.len() && self.attached(i) && (#[trigger] pool[i]) is Internal
            implies pool[i].kids().len() > 0 by {
            if i != x && i != c {
                assert(mid.attached(i));
            }
        }
        assert forall|k: int| 0 <= k < self.free_leaves_list@.len() implies
            pool[#[trigger] self.free_leaves_list@[k] as int] == opool[self.free_leaves_list@[k] as int] && self.free_leaves_list@[k] != c by {
            let j = self.free_leaves_list@[k] as int;
            assert(mid.free_leaves_list@[k] as int == j);
            assert(!mid.attached(j));
            assert(in_list(mid.free_leaves_list@, j));
        }
        assert forall|k: int| 0 <= k < self.free_internals_list@.len() implies
            pool[#[trigger] self.free_internals_list@[k] as int] == opool[self.free_internals_list@[k] as int] && self.free_internals_list@[k] != c by {
            let j = self.free_internals_list@[k] as int;
            assert(mid.free_internals_list@[k] as int == j);
            assert(!mid.attached(j));
            assert(in_list(mid.free_internals_list@, j));
        }
    }

    /// Making the detached empty internal node `r` the parent of the old root `a` and of
    /// the detached node `b`, and the new root, keeps the shape well-formed.
    proof fn lemma_new_root(&self, mid: Self, r: int, a: int, b: int)
        requires
            mid.shape_ok(),
            0 <= r < mid.pool@.len(),
            0 <= a < mid.pool@.len(),
            0 <= b < mid.pool@.len(),
            r != a,
            r != b,
            a != b,
            mid.root_idx == Some(a as PoolIndex),
            !mid.attached(r),
            !mid.is_free(r),
            mid.pool@[r].kids().len() == 0,
            !mid.attached(b),
            !mid.is_free(b),
            mid.pool@[b] is Internal ==> mid.pool@[b].kids().len() > 0,
            self.pool@.len() == mid.pool@.len(),
            self.level@.len() == self.pool@.len(),
            self.pool@[r] is Internal,
            self.pool@[r].kids() == seq![a as PoolIndex, b as PoolIndex],
            forall|j: int| 0 <= j < self.pool@.len() && j != r ==> self.pool@[j] == mid.pool@[j],
            self.root_idx == Some(r as PoolIndex),
            self.free_leaves_list@ == mid.free_leaves_list@,
            self.free_internals_list@ == mid.free_internals_list@,
        ensures
            self.shape_ok(),
    {
        let pool = self.pool@;
        let opool = mid.pool@;
        assert(!is_child(opool, r)) by {
            assert(!mid.attached(r));
        }
        assert forall|j: int| #[trigger] is_child(pool, j) == (is_child(opool, j) || j == a || j == b) by {
            if is_child(pool, j) {
                let (p, x) = choose|p: int, x: int|
                    0 <= p < pool.len() && 0 <= x < pool[p].kids().len() && #[trigger] pool[p].kids()[x] == j;
                if p != r {
                    assert(opool[p].kids()[x] == j);
                }
            }
            if is_child(opool, j) {
                let (p, x) = choose|p: int, x: int|
                    0 <= p < opool.len() && 0 <= x < opool[p].kids().len() && #[trigger] opool[p].kids()[x] == j;
                assert(pool[p].kids()[x] == j);
            }
            if j == a {
                assert(pool[r].kids()[0] == j);
            }
            if j == b {
                assert(pool[r].kids()[1] == j);
            }
        }
        assert forall|i: int, k: int| 0 <= i < pool.len() && 0 <= k < pool[i].kids().len() implies #[trigger] pool[i].kids()[k] < pool.len() by {
            if i != r {
                assert(opool[i].kids()[k] < opool.len());
            }
        }
        assert forall|p: int, x: int, q: int, y: int|
            0 <= p < pool.len() && 0 <= q < pool.len() && 0 <= x < pool[p].kids().len() && 0 <= y
                < pool[q].kids().len() && #[trigger] pool[p].kids()[x] == #[trigger] pool[q].kids()[y]
            implies p == q && x == y by {
            if p != r && q != r {
                assert(opool[p].kids()[x] == opool[q].kids()[y]);
            } else if p == r && q != r {
                assert(opool[q].kids()[y] == pool[q].kids()[y]);
                assert(is_child(opool, pool[q].kids()[y] as int));
            } else if p != r && q == r {
                assert(opool[p].kids()[x] == pool[p].kids()[x]);
                assert(is_child(opool, pool[p].kids()[x] as int));
            }
        }
        assert(!is_child(pool, r));
        assert forall|i: int| 0 <= i < pool.len() && self.attached(i) && (#[trigger] pool[i]) is Internal
            implies pool[i].kids().len() > 0 by {
            if i != r && i != b {
                assert(mid.attached(i));
            }
        }
        assert forall|k: int| 0 <= k < self.free_leaves_list@.len() implies
            pool[#[trigger] self.free_leaves_list@[k] as int] == opool[self.free_leaves_list@[k] as int]
                && !self.attached(self.free_leaves_list@[k] as int) by {
            let j = self.free_leaves_list@[k] as int;
            assert(mid.free_leaves_list@[k] as int == j);
            assert(!mid.attached(j));
            assert(in_list(mid.free_leaves_list@, j));
        }
        assert forall|k: int| 0 <= k < self.free_internals_list@.len() implies
            pool[#[trigger] self.free_internals_list@[k] as int] == opool[self.free_internals_list@[k] as int]
                && !self.attached(self.free_internals_list@[k] as int) by {
            let j = self.free_internals_list@[k] as int;
            assert(mid.free_internals_list@[k] as int == j);
            assert(!mid.attached(j));
            assert(in_list(mid.free_internals_list@, j));
        }
    }
}

impl<T: MeasuredBTreeData> MeasuredBTree<T> {
    /// Number of entries of node `pool_index`: data items of a leaf, children of an
    /// internal node.
    pub fn node_len(&self, pool_index: PoolIndex) -> (r: usize)
        requires
            pool_index < self.pool@.len(),
        ensures
            r == self.pool@[pool_index as int].entries(),
    {
        match &self.pool[pool_index] {
            MeasuredBTreeNode::Leaf { data, .. } => data.len(),
            MeasuredBTreeNode::Internal { children, .. } => children.len(),
        }
    }

    /// The total measure of the tree (zero when it has no root).
    pub fn total_measure(&self) -> (r: T::Measure)
        requires
            self.wf(),
        ensures
            r.model() == self.total(),
    {
        match self.root_idx {
            Some(root_idx) => self.pool[root_idx].measure(),
            None => T::Measure::zero(),
        }
    }

    /// Whether the tree has no root or a zero total measure.
    pub fn is_empty(&self) -> (r: bool)
        requires
            self.wf(),
        ensures
            r == (self.root_idx.is_none() || self.total() == (0nat, 0nat)),
    {
        if self.root_idx.is_none() {
            return true;
        }
        let zero = T::Measure::zero();
        self.total_measure().same(&zero)
    }

    /// Pool index of child number `i` of the internal node `parent_idx`.
    pub fn get_child_idx(&self, parent_idx: PoolIndex, i: usize) -> (r: PoolIndex)
        requires
            parent_idx < self.pool@.len(),
            self.pool@[parent_idx as int] is Internal,
            i < self.pool@[parent_idx as int].kids().len(),
        ensures
            r == self.pool@[parent_idx as int].kids()[i as int],
    {
        match &self.pool[parent_idx] {
            MeasuredBTreeNode::Internal { children, .. } => children[i],
            MeasuredBTreeNode::Leaf { .. } => 0,
        }
    }

    /// Whether child number `child_i` of the internal node `parent_pool_idx` is a leaf.
    pub fn is_child_leaf(&self, parent_pool_idx: PoolIndex, child_i: usize) -> (r: bool)
        requires
            self.wf(),
            parent_pool_idx < self.pool@.len(),
            self.pool@[parent_pool_idx as int] is Internal,
            child_i < self.pool@[parent_pool_idx as int].kids().len(),
        ensures
            r == (self.pool@[self.pool@[parent_pool_idx as int].kids()[child_i as int] as int] is Leaf),
    {
        let c = self.get_child_idx(parent_pool_idx, child_i);
        assert(c < self.pool@.len());
        self.pool[c].is_leaf()
    }

    /// The data of node `pool_idx` when it is a leaf; `None` for an internal node or an
    /// index past the end of the pool.
    pub fn get_leaf_data(&self, pool_idx: PoolIndex) -> (r: Option<&[T]>)
        ensures
            match r {
                Some(d) => pool_idx < self.pool@.len() && self.pool@[pool_idx as int] is Leaf
                    && d@ == self.pool@[pool_idx as int].items(),
                None => pool_idx >= self.pool@.len() || self.pool@[pool_idx as int] is Internal,
            },
    {
        if pool_idx >= self.pool.len() {
            return None;
        }
        match &self.pool[pool_idx] {
            MeasuredBTreeNode::Leaf { data, .. } => Some(data.as_slice()),
            MeasuredBTreeNode::Internal { .. } => None,
        }
    }
}

impl<T: MeasuredBTreeData> MeasuredBTree<T> {
    /// Node `idx` is child number `pos` of node `p`, or the root when `p == -1`.
    pub closed spec fn hangs(&self, p: int, pos: int, idx: int) -> bool {
        if p == -1 {
            self.root_idx == Some(idx as PoolIndex)
        } else {
            &&& 0 <= p < self.pool@.len()
            &&& 0 <= pos < self.pool@[p].kids().len()
            &&& self.pool@[p].kids()[pos] == idx
        }
    }

    /// The child of internal node `pool_idx` that an insertion at `target` descends
    /// into: the first child whose measure is at least what is left of the target, or
    /// the last child; with the target local to that child.
    fn route_insert(&self, pool_idx: PoolIndex, target: T::Measure) -> (r: (usize, PoolIndex, T::Measure))
        requires
            pool_idx < self.pool@.len(),
            self.pool@[pool_idx as int] is Internal,
            self.pool@[pool_idx as int].kids().len() > 0,
            forall|k: int| 0 <= k < self.pool@[pool_idx as int].kids().len()
                ==> #[trigger] self.pool@[pool_idx as int].kids()[k] < self.pool@.len(),
        ensures
            r.0 < self.pool@[pool_idx as int].kids().len(),
            r.1 == self.pool@[pool_idx as int].kids()[r.0 as int],
            psum(kid_models(self.pool@, self.pool@[pool_idx as int].kids()).take(r.0 as int)).0 + r.2.model().0
                == target.model().0,
            r.0 + 1 < self.pool@[pool_idx as int].kids().len() ==> r.2.model().0 <= self.pool@[r.1 as int].weight().0,
    {
        let children = match &self.pool[pool_idx] {
            MeasuredBTreeNode::Internal { children, .. } => children,
            MeasuredBTreeNode::Leaf { .. } => {
                return (0, 0, target);
            },
        };
        let ghost ks = children@;
        let ghost km = kid_models(self.pool@, ks);
        let last_idx = children.len() - 1;
        let mut local_target = target;
        let mut i: usize = 0;
        proof {
            assert(km.take(0) =~= Seq::<(nat, nat)>::empty());
        }
        while i < children.len()
            invariant
                children@ == ks,
                ks == self.pool@[pool_idx as int].kids(),
                km == kid_models(self.pool@, ks),
                0 <= i <= last_idx,
                last_idx == children.len() - 1,
                forall|k: int| 0 <= k < ks.len() ==> #[trigger] ks[k] < self.pool@.len(),
                psum(km.take(i as int)).0 + local_target.model().0 == target.model().0,
            decreases children.len() - i,
        {
            let c = children[i];
            let child_measure = self.pool[c].measure();
            if local_target.at_most(&child_measure) || i == last_idx {
                return (i, c, local_target);
            }
            proof {
                lemma_psum_take_plus_one(km, i as int);
            }
            local_target = local_target.minus(child_measure);
            i += 1;
        }
        (last_idx, children[last_idx], local_target)
    }

    /// Second half of an insertion at a leaf whose cached measure was already raised by
    /// the weight of `data`: inserts `data` and splits the leaf when it is full.
    fn insert_leaf_step(
        &mut self,
        pool_idx: PoolIndex,
        target: T::Measure,
        data: T,
        Ghost(p): Ghost<int>,
        Ghost(pos): Ghost<int>,
    ) -> (r: Option<PoolIndex>)
        requires
            old(self).wf_except(pool_idx as int, data.spec_measure().model()),
            pool_idx < old(self).pool@.len(),
            old(self).pool@[pool_idx as int] is Leaf,
            old(self).hangs(p, pos, pool_idx as int),
            old(self).attached(pool_idx as int),
            p != pool_idx,
            data.wf(),
        ensures
            final(self).root_idx == old(self).root_idx,
            final(self).pool@.len() >= old(self).pool@.len(),
            forall|j: int| #[trigger] final(self).is_free(j) ==> old(self).is_free(j),
            forall|j: int| 0 <= j < old(self).pool@.len() && !old(self).is_free(j)
                ==> #[trigger] final(self).level@[j] == old(self).level@[j],
            forall|j: int| 0 <= j < old(self).pool@.len() && !old(self).is_free(j) && j != pool_idx
                ==> #[trigger] final(self).pool@[j] == old(self).pool@[j],
            r is None ==> final(self).wf(),
            r is None ==> final(self).pool@[pool_idx as int].weight() == old(self).pool@[pool_idx as int].weight(),
            r matches Some(s) ==> {
                &&& final(self).wf_except(p, final(self).pool@[s as int].weight())
                &&& s < final(self).pool@.len()
                &&& s != pool_idx
                &&& !final(self).attached(s as int)
                &&& !final(self).is_free(s as int)
                &&& final(self).level@[s as int] == old(self).level@[pool_idx as int]
                &&& final(self).pool@[s as int] is Leaf
                &&& padd(final(self).pool@[pool_idx as int].weight(), final(self).pool@[s as int].weight())
                    == old(self).pool@[pool_idx as int].weight()
            },
            final(self).pool@[pool_idx as int] is Leaf,
            inserted_at(old(self).pool@[pool_idx as int].items(),
                match r {
                    Some(s) => final(self).pool@[pool_idx as int].items() + final(self).pool@[s as int].items(),
                    None => final(self).pool@[pool_idx as int].items(),
                }, data, target.model().0),
    {
        let ghost a_self = *self;
        let ghost dm = data.spec_measure().model();
        proof {
            assert(node_ok_d(a_self.pool@, a_self.level@, pool_idx as int, dm));
        }
        self.insert_into_leaf(pool_idx, target, data);
        proof {
            assert(node_ok(self.pool@, self.level@, pool_idx as int));
            lemma_fix_node(a_self.pool@, self.pool@, self.level@, pool_idx as int, dm);
            self.lemma_shape_same_kids(a_self);
        }
        if self.pool[pool_idx].is_full() {
            let ghost b_self = *self;
            let s = self.split_leaf(pool_idx);
            proof {
                if s < b_self.pool@.len() {
                    b_self.lemma_free_detached(s as int);
                }
                if p == -1 {
                    assert(!is_child(b_self.pool@, pool_idx as int));
                }
                lemma_split_nodes(b_self.pool@, b_self.level@, self.pool@, self.level@, p, pos, pool_idx as int, s as int);
                assert forall|j: int| #[trigger] self.is_free(j) implies a_self.is_free(j) by {}
                let bi = b_self.pool@[pool_idx as int].items();
                assert(self.pool@[pool_idx as int].items() + self.pool@[s as int].items() =~= bi);
            }
            return Some(s);
        }
        None
    }

    /// Takes the new sibling `sc` of child number `ti` of internal node `pool_idx` into
    /// the children of `pool_idx`, and splits `pool_idx` when it is full.
    fn absorb_sibling(
        &mut self,
        pool_idx: PoolIndex,
        ti: usize,
        sc: PoolIndex,
        Ghost(p): Ghost<int>,
        Ghost(pos): Ghost<int>,
    ) -> (r: Option<PoolIndex>)
        requires
            old(self).wf_except(pool_idx as int, old(self).pool@[sc as int].weight()),
            pool_idx < old(self).pool@.len(),
            old(self).pool@[pool_idx as int] is Internal,
            ti < old(self).pool@[pool_idx as int].kids().len(),
            sc < old(self).pool@.len(),
            sc != pool_idx,
            !old(self).attached(sc as int),
            !old(self).is_free(sc as int),
            old(self).pool@[sc as int] is Internal ==> old(self).pool@[sc as int].kids().len() > 0,
            old(self).level@[sc as int] + 1 == old(self).level@[pool_idx as int],
            old(self).hangs(p, pos, pool_idx as int),
            old(self).attached(pool_idx as int),
            p != pool_idx,
        ensures
            final(self).root_idx == old(self).root_idx,
            final(self).pool@.len() >= old(self).pool@.len(),
            forall|j: int| #[trigger] final(self).is_free(j) ==> old(self).is_free(j),
            forall|j: int| 0 <= j < old(self).pool@.len() && !old(self).is_free(j)
                ==> #[trigger] final(self).level@[j] == old(self).level@[j],
            forall|j: int| 0 <= j < old(self).pool@.len() && !old(self).is_free(j) && j != pool_idx
                ==> #[trigger] final(self).pool@[j] == old(self).pool@[j],
            r is None ==> final(self).wf(),
            r is None ==> final(self).pool@[pool_idx as int].weight() == old(self).pool@[pool_idx as int].weight(),
            r matches Some(s) ==> {
                &&& final(self).wf_except(p, final(self).pool@[s as int].weight())
                &&& s < final(self).pool@.len()
                &&& s != pool_idx
                &&& !final(self).attached(s as int)
                &&& !final(self).is_free(s as int)
                &&& final(self).level@[s as int] == old(self).level@[pool_idx as int]
                &&& final(self).pool@[s as int] is Internal
                &&& final(self).pool@[s as int].kids().len() > 0
                &&& padd(final(self).pool@[pool_idx as int].weight(), final(self).pool@[s as int].weight())
                    == old(self).pool@[pool_idx as int].weight()
            },
            final(self).pool@[pool_idx as int] is Internal,
            r is None ==> final(self).pool@[pool_idx as int].kids() == old(self).pool@[pool_idx as int].kids().insert(ti + 1, sc),
            r matches Some(s) ==> final(self).pool@[pool_idx as int].kids() + final(self).pool@[s as int].kids()
                == old(self).pool@[pool_idx as int].kids().insert(ti + 1, sc),
    {
        let ghost b_self = *self;
        match &mut self.pool[pool_idx] {
            MeasuredBTreeNode::Internal { children, .. } => {
                if ti < children.len() {
                    children.insert(ti + 1, sc);
                }
            },
            MeasuredBTreeNode::Leaf { .. } => {},
        }
        let ghost c_self = *self;
        proof {
            lemma_insert_kid(b_self.pool@, self.pool@, self.level@, pool_idx as int, ti + 1, sc);
            self.lemma_attach_kid(b_self, pool_idx as int, ti + 1, sc as int);
            if p != -1 {
                assert(self.pool@[p] == b_self.pool@[p]);
            }
        }
        if self.node_len(pool_idx) >= NODE_CHILDREN_CAPACITY {
            let s = self.split_internal(pool_idx);
            proof {
                if s < c_self.pool@.len() {
                    c_self.lemma_free_detached(s as int);
                }
                if p == -1 {
                    assert(!is_child(c_self.pool@, pool_idx as int));
                }
                lemma_split_nodes(c_self.pool@, c_self.level@, self.pool@, self.level@, p, pos, pool_idx as int, s as int);
                assert forall|j: int| #[trigger] self.is_free(j) implies b_self.is_free(j) by {}
                let ck = c_self.pool@[pool_idx as int].kids();
                assert(self.pool@[pool_idx as int].kids() + self.pool@[s as int].kids() =~= ck);
            }
            return Some(s);
        }
        None
    }

    /// Routes an insertion down from node `pool_idx`, raising the cached measures on the
    /// way down and handling node splits on the way back up. Returns the new right
    /// sibling of `pool_idx` when `pool_idx` itself split.
    #[verifier::rlimit(80)]
    #[verifier::spinoff_prover]
    fn insert_recursive(
        &mut self,
        pool_idx: PoolIndex,
        target: T::Measure,
        data: T,
        Ghost(p): Ghost<int>,
        Ghost(pos): Ghost<int>,
    ) -> (r: Option<PoolIndex>)
        requires
            old(self).wf_except(p, data.spec_measure().model()),
            pool_idx < old(self).pool@.len(),
            old(self).hangs(p, pos, pool_idx as int),
            data.wf(),
            T::Measure::fits(padd(old(self).pool@[pool_idx as int].weight(), data.spec_measure().model())),
        ensures
            final(self).root_idx == old(self).root_idx,
            final(self).pool@.len() >= old(self).pool@.len(),
            forall|j: int| #[trigger] final(self).is_free(j) ==> old(self).is_free(j),
            forall|j: int| 0 <= j < old(self).pool@.len() && !old(self).is_free(j)
                ==> #[trigger] final(self).level@[j] == old(self).level@[j],
            forall|j: int| 0 <= j < old(self).pool@.len() && !old(self).is_free(j) && j != pool_idx
                && old(self).level@[j] >= old(self).level@[pool_idx as int]
                ==> #[trigger] final(self).pool@[j] == old(self).pool@[j],
            r is None ==> final(self).wf(),
            r is None ==> final(self).pool@[pool_idx as int].weight() == padd(
                old(self).pool@[pool_idx as int].weight(),
                data.spec_measure().model(),
            ),
            r matches Some(s) ==> {
                &&& final(self).wf_except(p, final(self).pool@[s as int].weight())
                &&& s < final(self).pool@.len()
                &&& s != pool_idx
                &&& !final(self).attached(s as int)
                &&& !final(self).is_free(s as int)
                &&& final(self).level@[s as int] == old(self).level@[pool_idx as int]
                &&& (final(self).pool@[s as int] is Internal ==> final(self).pool@[s as int].kids().len() > 0)
                &&& padd(final(self).pool@[pool_idx as int].weight(), final(self).pool@[s as int].weight())
                    == padd(old(self).pool@[pool_idx as int].weight(), data.spec_measure().model())
            },
            inserted_at(
                items_under(old(self).pool@, pool_idx as int, old(self).level@[pool_idx as int]),
                match r {
                    Some(s) => items_under(final(self).pool@, pool_idx as int, final(self).level@[pool_idx as int])
                        + items_under(final(self).pool@, s as int, final(self).level@[s as int]),
                    None => items_under(final(self).pool@, pool_idx as int, final(self).level@[pool_idx as int]),
                }, data, target.model().0),
            forall|j: int| 0 <= j < old(self).pool@.len() && !old(self).is_free(j)
                && !under(old(self).pool@, pool_idx as int, old(self).level@[pool_idx as int], j)
                ==> #[trigger] final(self).pool@[j] == old(self).pool@[j],
        decreases old(self).level@[pool_idx as int],
    {
        let ghost old_self = *self;
        let ghost dm = data.spec_measure().model();
        let dmeasure = data.measure();
        proof {
            assert(!old_self.is_free(pool_idx as int)) by {
                if old_self.is_free(pool_idx as int) {
                    old_self.lemma_free_detached(pool_idx as int);
                    if p != -1 {
                        assert(is_child(old_self.pool@, pool_idx as int));
                    }
                }
            }
            assert(old_self.attached(pool_idx as int)) by {
                if p != -1 {
                    assert(is_child(old_self.pool@, pool_idx as int));
                }
            }
            if p != -1 {
                assert(p != pool_idx) by {
                    assert(old_self.pool@[p].kids()[pos] == pool_idx);
                    if p == pool_idx {
                        if p == pos as int { }
                        assert(node_ok_d(old_self.pool@, old_self.level@, p, dm));
                        match old_self.pool@[p] {
                            MeasuredBTreeNode::Internal { children, .. } => {
                                assert(children@[pos] == old_self.pool@[p].kids()[pos]);
                            },
                            MeasuredBTreeNode::Leaf { .. } => {},
                        }
                    }
                }
            }
        }
        {
            let m = self.pool[pool_idx].mut_measure();
            *m = m.plus(dmeasure);
        }
        let ghost a_self = *self;
        proof {
            lemma_push_delta(old_self.pool@, self.pool@, self.level@, p, pos, pool_idx as int, dm);
            self.lemma_shape_same_kids(old_self);
            assert(self.hangs(p, pos, pool_idx as int));
            assert(self.attached(pool_idx as int));
        }
        if self.pool[pool_idx].is_leaf() {
            let r = self.insert_leaf_step(pool_idx, target, data, Ghost(p), Ghost(pos));
            proof {
                assert(a_self.pool@[pool_idx as int].items() == old_self.pool@[pool_idx as int].items());
                assert(items_under(old_self.pool@, pool_idx as int, old_self.level@[pool_idx as int])
                    == old_self.pool@[pool_idx as int].items());
                assert(self.level@[pool_idx as int] == old_self.level@[pool_idx as int]);
                assert(items_under(self.pool@, pool_idx as int, self.level@[pool_idx as int]) == self.pool@[pool_idx as int].items());
                if let Some(s) = r {
                    assert(items_under(self.pool@, s as int, self.level@[s as int]) == self.pool@[s as int].items());
                }
                assert forall|j: int| 0 <= j < old_self.pool@.len() && !old_self.is_free(j)
                    && !under(old_self.pool@, pool_idx as int, old_self.level@[pool_idx as int], j)
                    implies #[trigger] self.pool@[j] == old_self.pool@[j] by {
                    assert(a_self.pool@[j] == old_self.pool@[j]);
                }
                assert forall|j: int| 0 <= j < old_self.pool@.len() && !old_self.is_free(j) && j != pool_idx
                    implies #[trigger] self.pool@[j] == old_self.pool@[j] by {
                    assert(a_self.pool@[j] == old_self.pool@[j]);
                }
            }
            return r;
        }
        let ghost ks = self.pool@[pool_idx as int].kids();
        proof {
            assert(ks.len() > 0);
            assert forall|k: int| 0 <= k < ks.len() implies #[trigger] ks[k] < self.pool@.len() by {
                assert(self.pool@[pool_idx as int].kids()[k] == ks[k]);
            }
        }
        let (target_child_idx, child_pool_idx, local_target) = self.route_insert(pool_idx, target);
        let ghost c = child_pool_idx as int;
        let ghost ti = target_child_idx as int;
        proof {
            assert(node_ok_d(self.pool@, self.level@, pool_idx as int, dm));
            match self.pool@[pool_idx as int] {
                MeasuredBTreeNode::Internal { children, .. } => {
                    assert(children@[ti] == ks[ti]);
                },
                MeasuredBTreeNode::Leaf { .. } => {},
            }
            assert(self.level@[c] + 1 == self.level@[pool_idx as int]);
            let km = kid_models(self.pool@, ks);
            lemma_psum_elem_below(km, ti);
            T::Measure::lemma_fits(self.pool@[pool_idx as int].node_measure());
            T::Measure::lemma_fits_below(padd(psum(km), dm), padd(km[ti], dm));
            assert(self.hangs(pool_idx as int, ti, c));
        }
        let sub = self.insert_recursive(child_pool_idx, local_target, data, Ghost(pool_idx as int), Ghost(ti));
        let ghost b_self = *self;
        proof {
            assert(b_self.pool@[pool_idx as int] == a_self.pool@[pool_idx as int]);
            if p != -1 {
                assert(a_self.level@[p] == a_self.level@[pool_idx as int] + 1) by {
                    assert(node_ok(a_self.pool@, a_self.level@, p));
                    match a_self.pool@[p] {
                        MeasuredBTreeNode::Internal { children, .. } => {
                            assert(children@[pos] == a_self.pool@[p].kids()[pos]);
                        },
                        MeasuredBTreeNode::Leaf { .. } => {},
                    }
                }
                assert(!a_self.is_free(p)) by {
                    if a_self.is_free(p) {
                        a_self.lemma_free_detached(p);
                    }
                }
                assert(b_self.pool@[p] == a_self.pool@[p]);
                assert(is_child(b_self.pool@, pool_idx as int));
            }
            assert(b_self.attached(pool_idx as int));
            assert(b_self.hangs(p, pos, pool_idx as int));
            assert forall|j: int| 0 <= j < old_self.pool@.len() && !old_self.is_free(j) && j != pool_idx
                && old_self.level@[j] >= old_self.level@[pool_idx as int]
                implies #[trigger] b_self.pool@[j] == old_self.pool@[j] by {
                assert(a_self.pool@[j] == old_self.pool@[j]);
            }
        }
        let ghost lt = local_target.model().0;
        proof {
            if p != -1 {
                assert(old_self.level@[p] == old_self.level@[pool_idx as int] + 1) by {
                    assert(node_ok_d(old_self.pool@, old_self.level@, p, dm));
                    match old_self.pool@[p] {
                        MeasuredBTreeNode::Internal { children, .. } => {
                            assert(children@[pos] == old_self.pool@[p].kids()[pos]);
                        },
                        MeasuredBTreeNode::Leaf { .. } => {},
                    }
                }
            }
            match sub {
                None => {
                    assert(b_self.wf_except(-1, (0nat, 0nat)));
                    b_self.lemma_shapes(-1, (0nat, 0nat));
                },
                Some(sc) => {
                    b_self.lemma_shapes(pool_idx as int, b_self.pool@[sc as int].weight());
                },
            }
            assert(a_self.level == old_self.level);
            assert forall|j: int| #[trigger] a_self.is_free(j) == old_self.is_free(j) by {}
            assert forall|j: int| 0 <= j < old_self.pool@.len() && j != pool_idx
                implies #[trigger] a_self.pool@[j] == old_self.pool@[j] by {}
            assert(a_self.pool@[pool_idx as int].kids() == ks);
        }
        match sub {
            None => {
                proof {
                    Self::lemma_insert_step_law(old_self, a_self, b_self, *self, pool_idx as int, p, ks, ti, c, lt,
                        target.model().0, data, sub, None);
                }
                None
            },
            Some(new_sibling_idx) => {
                let r = self.absorb_sibling(pool_idx, target_child_idx, new_sibling_idx, Ghost(p), Ghost(pos));
                proof {
                    assert forall|j: int| 0 <= j < old_self.pool@.len() && !old_self.is_free(j) && j != pool_idx
                        && old_self.level@[j] >= old_self.level@[pool_idx as int]
                        implies #[trigger] self.pool@[j] == old_self.pool@[j] by {
                        assert(b_self.pool@[j] == old_self.pool@[j]);
                    }
                    assert forall|j: int| 0 <= j < old_self.pool@.len() && !old_self.is_free(j)
                        implies #[trigger] self.level@[j] == old_self.level@[j] by {
                        assert(b_self.level@[j] == old_self.level@[j]);
                    }
                    Self::lemma_insert_step_law(old_self, a_self, b_self, *self, pool_idx as int, p, ks, ti, c, lt,
                        target.model().0, data, sub, r);
                }
                r
            },
        }
    }
}

impl<T: MeasuredBTreeData> MeasuredBTree<T> {
    /// Every node of a tree consistent but for one node has the shape its level asks for,
    /// and no node has two parents.
    proof fn lemma_shapes(&self, x: int, d: (nat, nat))
        requires
            self.wf_except(x, d),
        ensures
            shapes(self.pool@, self.level@),
            unique_parents(self.pool@),
    {
        assert forall|j: int| 0 <= j < self.pool@.len() implies #[trigger] node_shape_ok(self.pool@, self.level@, j) by {
            if j != x {
                assert(node_ok(self.pool@, self.level@, j));
            } else {
                assert(node_ok_d(self.pool@, self.level@, x, d));
            }
        }
    }

    /// No node under a node that is not free is free.
    proof fn lemma_under_not_free(&self, i: int, j: int)
        requires
            self.shape_ok(),
            shapes(self.pool@, self.level@),
            0 <= i < self.pool@.len(),
            !self.is_free(i),
            under(self.pool@, i, self.level@[i], j),
        ensures
            0 <= j < self.pool@.len(),
            !self.is_free(j),
    {
        lemma_under_facts(self.pool@, self.level@, i, j);
        if j != i && self.is_free(j) {
            self.lemma_free_detached(j);
            assert(self.attached(j));
        }
    }

    /// The nodes reachable from the root and outside the subtree of `x` are the same nodes,
    /// at the same levels, in `s`.
    #[verifier::opaque]
    pub closed spec fn kept_outside(&self, s: Self, x: int) -> bool {
        &&& self.root_idx is Some
        &&& forall|k: int| #![trigger s.pool@[k]] #![trigger s.level@[k]]
            under(self.pool@, self.root_idx->0 as int, self.level@[self.root_idx->0 as int], k)
                && !under(self.pool@, x, self.level@[x], k) ==> s.pool@[k] == self.pool@[k] && s.level@[k] == self.level@[k]
    }

    /// What `kept_outside` says of one node.
    proof fn lemma_kept_at(o: Self, s: Self, x: int, k: int)
        requires
            o.kept_outside(s, x),
            under(o.pool@, o.root_idx->0 as int, o.level@[o.root_idx->0 as int], k),
            !under(o.pool@, x, o.level@[x], k),
        ensures
            s.pool@[k] == o.pool@[k],
            s.level@[k] == o.level@[k],
    {
        reveal(MeasuredBTree::kept_outside);
    }

    /// A node reachable from the root and outside the subtree of `x` stays outside it while
    /// everything outside the subtree is kept.
    proof fn lemma_stays_outside(o: Self, s: Self, x: int, j: int)
        requires
            o.shape_ok(),
            shapes(o.pool@, o.level@),
            s.shape_ok(),
            shapes(s.pool@, s.level@),
            s.root_idx == o.root_idx,
            0 <= x < o.pool@.len(),
            s.pool@.len() >= o.pool@.len(),
            s.level@[x] == o.level@[x],
            o.kept_outside(s, x),
            under(o.pool@, o.root_idx->0 as int, o.level@[o.root_idx->0 as int], j),
            !under(o.pool@, x, o.level@[x], j),
        ensures
            !under(s.pool@, x, s.level@[x], j),
        decreases o.level@[o.root_idx->0 as int] - o.level@[j],
    {
        reveal(MeasuredBTree::kept_outside);
        let r = o.root_idx->0 as int;
        lemma_under_facts(o.pool@, o.level@, r, j);
        if under(s.pool@, x, s.level@[x], j) {
            assert(under(o.pool@, x, o.level@[x], x));
            lemma_under_facts(s.pool@, s.level@, x, j);
            if j == r {
                assert(is_child(s.pool@, j));
                assert(false);
            } else {
                let qm = lemma_under_parent(o.pool@, o.level@, r, j);
                let qo = qm.0;
                if under(o.pool@, x, o.level@[x], qo) {
                    assert(under(o.pool@, j, o.level@[j], j));
                    lemma_under_kid(o.pool@, o.level@, qo, qm.1, j);
                    lemma_under_trans(o.pool@, o.level@, x, qo, j);
                }
                assert(s.pool@[qo] == o.pool@[qo]);
                let qs = lemma_under_parent(s.pool@, s.level@, x, j);
                assert(s.pool@[qo].kids()[qm.1] == s.pool@[qs.0].kids()[qs.1]);
                assert(unique_parents(s.pool@));
                assert(qs.0 == qo);
                lemma_under_facts(o.pool@, o.level@, r, qo);
                Self::lemma_stays_outside(o, s, x, qo);
            }
        }
    }

    /// A node reachable from the root, outside the subtree of `x` or `x` itself, stays
    /// reachable while everything outside the subtree is kept.
    proof fn lemma_reach_kept(o: Self, s: Self, x: int, j: int)
        requires
            o.shape_ok(),
            shapes(o.pool@, o.level@),
            shapes(s.pool@, s.level@),
            s.root_idx == o.root_idx,
            0 <= x < o.pool@.len(),
            s.pool@.len() >= o.pool@.len(),
            o.kept_outside(s, x),
            under(o.pool@, o.root_idx->0 as int, o.level@[o.root_idx->0 as int], j),
            j == x || !under(o.pool@, x, o.level@[x], j),
        ensures
            under(s.pool@, s.root_idx->0 as int, s.level@[s.root_idx->0 as int], j),
        decreases o.level@[o.root_idx->0 as int] - o.level@[j],
    {
        reveal(MeasuredBTree::kept_outside);
        let r = o.root_idx->0 as int;
        lemma_under_facts(o.pool@, o.level@, r, j);
        if j != r {
            let qm = lemma_under_parent(o.pool@, o.level@, r, j);
            let qo = qm.0;
            if under(o.pool@, x, o.level@[x], qo) {
                if j == x {
                    lemma_under_facts(o.pool@, o.level@, x, qo);
                } else {
                    assert(under(o.pool@, j, o.level@[j], j));
                    lemma_under_kid(o.pool@, o.level@, qo, qm.1, j);
                    lemma_under_trans(o.pool@, o.level@, x, qo, j);
                }
            }
            lemma_under_facts(o.pool@, o.level@, r, qo);
            assert(under(o.pool@, r, o.level@[r], r));
            if !under(o.pool@, x, o.level@[x], r) {
                assert(s.pool@[r] == o.pool@[r] && s.level@[r] == o.level@[r]);
            } else {
                lemma_under_facts(o.pool@, o.level@, x, r);
                lemma_under_trans(o.pool@, o.level@, x, r, qo);
            }
            Self::lemma_reach_kept(o, s, x, qo);
            assert(s.pool@[qo] == o.pool@[qo]);
            assert(s.pool@[qo].kids()[qm.1] as int == j);
            assert(under(s.pool@, j, s.level@[j], j));
            lemma_kid_facts(s.pool@, s.level@, qo);
            lemma_under_kid(s.pool@, s.level@, qo, qm.1, j);
            lemma_under_trans(s.pool@, s.level@, r, qo, j);
        }
    }

    /// Every node of a tree consistent outside `a` has the shape its level asks for, and no
    /// node has two parents.
    proof fn lemma_shapes_but(&self, a: Set<int>)
        requires
            self.wf_but(a),
        ensures
            shapes(self.pool@, self.level@),
            unique_parents(self.pool@),
    {
        assert forall|j: int| 0 <= j < self.pool@.len() implies #[trigger] node_shape_ok(self.pool@, self.level@, j) by {
            if !a.contains(j) {
                assert(node_ok(self.pool@, self.level@, j));
            }
        }
    }

    /// A node reachable from the root is attached and not free.
    proof fn lemma_reach_attached(&self, j: int)
        requires
            self.shape_ok(),
            shapes(self.pool@, self.level@),
            self.root_idx is Some,
            under(self.pool@, self.root_idx->0 as int, self.level@[self.root_idx->0 as int], j),
        ensures
            0 <= j < self.pool@.len(),
            self.attached(j),
            !self.is_free(j),
    {
        let r = self.root_idx->0 as int;
        assert(self.attached(r));
        assert(!self.is_free(r)) by {
            if self.is_free(r) {
                self.lemma_free_detached(r);
            }
        }
        self.lemma_under_not_free(r, j);
        lemma_under_facts(self.pool@, self.level@, r, j);
    }

    /// One step of a deletion among the children of `pool_idx`: the deletion below child
    /// `i0`, and the attachment of its new sibling, delete `ov` atoms at the target from
    /// the atoms under the children, and keep everything outside the subtree.
    #[verifier::rlimit(80)]
    #[verifier::spinoff_prover]
    proof fn lemma_delete_step_law(
        o: Self,
        b: Self,
        m: Self,
        f: Self,
        a2: Set<int>,
        pool_idx: int,
        ks: Seq<PoolIndex>,
        i0: int,
        c: int,
        ns: Option<PoolIndex>,
        lt: nat,
        ov: nat,
        removed: nat,
        t: nat,
        sa: Seq<T::Atom>,
        p0: int,
    )
        requires
            o.shape_ok(),
            shapes(o.pool@, o.level@),
            o.root_idx is Some,
            under(o.pool@, o.root_idx->0 as int, o.level@[o.root_idx->0 as int], pool_idx),
            0 <= pool_idx < o.pool@.len(),
            b.wf_but(a2),
            forall|j: int| #[trigger] a2.contains(j) ==> b.level@[j] >= b.level@[pool_idx],
            b.root_idx == o.root_idx,
            b.pool@.len() >= o.pool@.len(),
            b.level@[pool_idx] == o.level@[pool_idx],
            o.kept_outside(b, pool_idx),
            b.pool@[pool_idx] is Internal,
            ks == b.pool@[pool_idx].kids(),
            0 <= i0 < ks.len(),
            c == ks[i0] as int,
            m.wf_but(a2),
            m.root_idx == b.root_idx,
            m.pool@.len() >= b.pool@.len(),
            b.kept_outside(m, c),
            forall|j: int| 0 <= j < b.pool@.len() && !b.is_free(j) && b.level@[j] >= b.level@[c]
                ==> #[trigger] m.level@[j] == b.level@[j],
            forall|j: int| 0 <= j < b.pool@.len() && !b.is_free(j) && j != c && b.level@[j] >= b.level@[c]
                ==> #[trigger] m.pool@[j] == b.pool@[j],
            ns matches Some(s) ==> (s as int) < m.pool@.len() && m.level@[s as int] == b.level@[c],
            ns is None ==> f == m,
            ns matches Some(s) ==> {
                &&& f.pool@.len() == m.pool@.len()
                &&& f.level == m.level
                &&& f.root_idx == m.root_idx
                &&& forall|j: int| 0 <= j < m.pool@.len() && j != pool_idx ==> #[trigger] f.pool@[j] == m.pool@[j]
                &&& f.pool@[pool_idx] is Internal
                &&& f.pool@[pool_idx].kids() == m.pool@[pool_idx].kids().insert(i0 + 1, s)
            },
            primary_only::<T::Measure>() ==> {
                &&& deleted_at(items_under(b.pool@, c, b.level@[c]),
                    match ns {
                        Some(s) => items_under(m.pool@, c, m.level@[c]) + items_under(m.pool@, s as int, m.level@[s as int]),
                        None => items_under(m.pool@, c, m.level@[c]),
                    }, lt, ov)
                &&& psum(kid_models(b.pool@, ks).take(i0)).0 + lt == t
                &&& lt + ov <= b.pool@[c].weight().0
                &&& atoms(items_of_kids(b.pool@, ks, (o.level@[pool_idx] - 1) as nat)) == sa.take(p0) + sa.skip(p0 + removed)
                &&& p0 + removed <= sa.len()
                &&& p0 == (if t <= sa.len() { t as int } else { sa.len() as int })
            },
        ensures
            o.kept_outside(f, pool_idx),
            f.pool@[pool_idx] is Internal,
            primary_only::<T::Measure>() ==> {
                &&& atoms(items_of_kids(f.pool@, f.pool@[pool_idx].kids(), (o.level@[pool_idx] - 1) as nat))
                    == sa.take(p0) + sa.skip(p0 + removed + ov)
                &&& p0 + removed + ov <= sa.len()
            },
    {
        reveal(MeasuredBTree::kept_outside);
        let r = o.root_idx->0 as int;
        let big = o.level@[pool_idx];
        let d = (big - 1) as nat;
        let bpool = b.pool@;
        let mpool = m.pool@;
        let fpool = f.pool@;
        b.lemma_shapes_but(a2);
        m.lemma_shapes_but(a2);
        lemma_kid_facts(bpool, b.level@, pool_idx);
        assert(big > 0);
        assert(b.level@[c] == d);
        // `pool_idx` and its children are reachable in `b`
        Self::lemma_reach_kept(o, b, pool_idx, pool_idx);
        assert forall|k: int| 0 <= k < ks.len() implies
            under(bpool, r, b.level@[r], #[trigger] ks[k] as int) by {
            assert(under(bpool, ks[k] as int, b.level@[ks[k] as int], ks[k] as int));
            lemma_under_kid(bpool, b.level@, pool_idx, k, ks[k] as int);
            lemma_under_trans(bpool, b.level@, r, pool_idx, ks[k] as int);
        }
        assert(!b.is_free(c)) by {
            b.lemma_reach_attached(c);
        }
        assert(mpool[pool_idx] == bpool[pool_idx]) by {
            b.lemma_reach_attached(pool_idx);
        }
        // outside the subtree of `pool_idx`
        assert forall|k: int| #![trigger fpool[k]]
            under(o.pool@, r, o.level@[r], k) && !under(o.pool@, pool_idx, big, k)
            implies fpool[k] == o.pool@[k] && f.level@[k] == o.level@[k] by {
            Self::lemma_reach_kept(o, b, pool_idx, k);
            Self::lemma_stays_outside(o, b, pool_idx, k);
            if under(bpool, c, b.level@[c], k) {
                assert(under(bpool, c, b.level@[c], c));
                lemma_under_kid(bpool, b.level@, pool_idx, i0, c);
                lemma_under_trans(bpool, b.level@, pool_idx, c, k);
            }
            assert(b.root_idx->0 as int == r);
            assert(under(bpool, r, b.level@[r], k));
            assert(!under(bpool, c, b.level@[c], k));
            Self::lemma_kept_at(b, m, c, k);
            Self::lemma_kept_at(o, b, pool_idx, k);
            assert(under(o.pool@, pool_idx, big, pool_idx));
            assert(k != pool_idx);
            lemma_under_facts(o.pool@, o.level@, r, k);
            match ns {
                Some(s) => {
                    assert(fpool[k] == mpool[k]);
                },
                None => {},
            }
        }
        assert(o.kept_outside(f, pool_idx));
        if primary_only::<T::Measure>() {
            let mid: Seq<PoolIndex> = match ns {
                Some(s) => seq![c as PoolIndex, s],
                None => seq![c as PoolIndex],
            };
            // the other children keep their subtrees
            assert forall|k: int, j: int| 0 <= k < ks.len() && k != i0 && #[trigger] under(bpool, ks[k] as int, d, j)
                implies fpool[j] == bpool[j] by {
                let sk = ks[k] as int;
                lemma_under_trans(bpool, b.level@, r, sk, j);
                lemma_under_facts(bpool, b.level@, sk, j);
                if under(bpool, c, d, j) {
                    lemma_unique_ancestor(bpool, b.level@, sk, c, j);
                    assert(ks[k] == ks[i0]);
                }
                assert(mpool[j] == bpool[j]);
            }
            // the new items under `c` and its sibling
            assert(m.level@[c] == d);
            assert forall|j: int| #[trigger] under(mpool, c, m.level@[c], j) implies fpool[j] == mpool[j] by {
                lemma_under_facts(mpool, m.level@, c, j);
                assert(m.level@[pool_idx] == big);
            }
            lemma_items_under_sub_frame(mpool, fpool, m.level@, c);
            match ns {
                None => {
                    assert(mid.drop_last() =~= Seq::<PoolIndex>::empty());
                    assert(items_of_kids(fpool, mid.drop_last(), d) =~= Seq::<T>::empty());
                    assert(items_of_kids(fpool, mid, d) =~= items_under(mpool, c, d));
                },
                Some(s) => {
                    let sx = s as int;
                    assert forall|j: int| #[trigger] under(mpool, sx, m.level@[sx], j) implies fpool[j] == mpool[j] by {
                        lemma_under_facts(mpool, m.level@, sx, j);
                        assert(m.level@[pool_idx] == big);
                    }
                    lemma_items_under_sub_frame(mpool, fpool, m.level@, sx);
                    assert(mid.drop_last() =~= seq![c as PoolIndex]);
                    assert(seq![c as PoolIndex].drop_last() =~= Seq::<PoolIndex>::empty());
                    assert(items_of_kids(fpool, Seq::<PoolIndex>::empty(), d) =~= Seq::<T>::empty());
                    assert(items_of_kids(fpool, seq![c as PoolIndex], d) =~= items_under(fpool, c, d));
                    assert(items_of_kids(fpool, mid, d) =~= items_under(mpool, c, d) + items_under(mpool, sx, d));
                },
            }
            // positions
            assert forall|j: int| 0 <= j < bpool.len() && b.level@[j] <= d implies #[trigger] node_ok(bpool, b.level@, j) by {
                if a2.contains(j) {
                    assert(b.level@[j] >= b.level@[pool_idx]);
                }
            }
            let pre = ks.take(i0);
            assert forall|k: int| 0 <= k < pre.len() implies (#[trigger] pre[k]) < bpool.len() && b.level@[pre[k] as int] == d by {
                assert(pre[k] == ks[k]);
            }
            lemma_atoms_kids_len(bpool, b.level@, pre, d);
            assert(kid_models(bpool, ks).take(i0) =~= kid_models(bpool, pre));
            lemma_atoms_under_len(bpool, b.level@, c);
            lemma_kids_delete(bpool, fpool, b.level@, ks, mid, i0, d, lt, ov);
            let nk = ks.take(i0) + mid + ks.skip(i0 + 1);
            match ns {
                None => {
                    assert(nk =~= ks);
                },
                Some(s) => {
                    assert(nk =~= ks.insert(i0 + 1, s));
                },
            }
            let w = atoms(items_of_kids(bpool, ks, d));
            assert(w.len() == p0 + (sa.len() - p0 - removed));
            assert(p0 == t);
            assert(atoms(items_of_kids(fpool, fpool[pool_idx].kids(), d)) =~= sa.take(p0) + sa.skip(p0 + removed + ov));
        }
    }

    /// The end of a deletion at internal node `pool_idx`: rebalancing its children,
    /// recomputing its measure and splitting it keep the items under it and everything
    /// outside its subtree.
    #[verifier::rlimit(80)]
    #[verifier::spinoff_prover]
    proof fn lemma_delete_tail_law(
        o: Self,
        cs: Self,
        ds: Self,
        us: Self,
        fs: Self,
        a2: Set<int>,
        pool_idx: int,
        r: Option<PoolIndex>,
        sa: Seq<T::Atom>,
        p0: int,
        q0: int,
    )
        requires
            o.shape_ok(),
            shapes(o.pool@, o.level@),
            o.root_idx is Some,
            under(o.pool@, o.root_idx->0 as int, o.level@[o.root_idx->0 as int], pool_idx),
            0 <= pool_idx < o.pool@.len(),
            cs.wf_but(a2),
            forall|j: int| #[trigger] a2.contains(j) ==> cs.level@[j] >= cs.level@[pool_idx],
            cs.root_idx == o.root_idx,
            cs.pool@.len() >= o.pool@.len(),
            cs.level@[pool_idx] == o.level@[pool_idx],
            o.kept_outside(cs, pool_idx),
            cs.pool@[pool_idx] is Internal,
            primary_only::<T::Measure>() ==> atoms(items_of_kids(cs.pool@, cs.pool@[pool_idx].kids(),
                (o.level@[pool_idx] - 1) as nat)) == sa.take(p0) + sa.skip(q0),
            ds.rebalanced(cs, a2, pool_idx),
            us.pool@.len() == ds.pool@.len(),
            us.pool@[pool_idx] is Internal,
            us.pool@[pool_idx].kids() == ds.pool@[pool_idx].kids(),
            forall|j: int| 0 <= j < ds.pool@.len() && j != pool_idx ==> #[trigger] us.pool@[j] == ds.pool@[j],
            us.root_idx == ds.root_idx,
            us.level == ds.level,
            forall|j: int| #[trigger] us.is_free(j) == ds.is_free(j),
            r is None ==> fs == us,
            r matches Some(s) ==> {
                &&& fs.root_idx == us.root_idx
                &&& (s as int) < fs.pool@.len()
                &&& s as int != pool_idx
                &&& (s >= us.pool@.len() || us.is_free(s as int))
                &&& fs.pool@.len() >= us.pool@.len()
                &&& forall|j: int| 0 <= j < us.pool@.len() && j != pool_idx && j != s ==> #[trigger] fs.pool@[j] == us.pool@[j]
                &&& forall|j: int| 0 <= j < us.pool@.len() && j != s ==> #[trigger] fs.level@[j] == us.level@[j]
                &&& fs.level@[s as int] == us.level@[pool_idx]
                &&& fs.pool@[pool_idx] is Internal
                &&& fs.pool@[s as int] is Internal
                &&& fs.pool@[pool_idx].kids() + fs.pool@[s as int].kids() == us.pool@[pool_idx].kids()
            },
        ensures
            o.kept_outside(fs, pool_idx),
            primary_only::<T::Measure>() ==> atoms(match r {
                Some(s) => items_under(fs.pool@, pool_idx, fs.level@[pool_idx]) + items_under(fs.pool@, s as int, fs.level@[s as int]),
                None => items_under(fs.pool@, pool_idx, fs.level@[pool_idx]),
            }) == sa.take(p0) + sa.skip(q0),
    {
        reveal(MeasuredBTree::kept_outside);
        let rt = o.root_idx->0 as int;
        let big = o.level@[pool_idx];
        let d = (big - 1) as nat;
        let cpool = cs.pool@;
        let dpool = ds.pool@;
        let fpool = fs.pool@;
        cs.lemma_shapes_but(a2);
        ds.lemma_shapes_but(a2);
        assert(ds.level == cs.level);
        let kc = cpool[pool_idx].kids();
        let kd = dpool[pool_idx].kids();
        // outside: from `cs` to `ds`
        assert forall|k: int| #![trigger dpool[k]]
            under(o.pool@, rt, o.level@[rt], k) && !under(o.pool@, pool_idx, big, k)
            implies dpool[k] == o.pool@[k] && ds.level@[k] == o.level@[k] by {
            Self::lemma_kept_at(o, cs, pool_idx, k);
            Self::lemma_reach_kept(o, cs, pool_idx, k);
            Self::lemma_stays_outside(o, cs, pool_idx, k);
            lemma_under_facts(o.pool@, o.level@, rt, k);
            assert(under(o.pool@, pool_idx, big, pool_idx));
            if in_list(kc, k) {
                let m = choose|m: int| 0 <= m < kc.len() && #[trigger] kc[m] as int == k;
                lemma_kid_facts(cpool, cs.level@, pool_idx);
                assert(under(cpool, k, cs.level@[k], k));
                lemma_under_kid(cpool, cs.level@, pool_idx, m, k);
            }
        }
        assert(o.kept_outside(ds, pool_idx));
        // outside: from `ds` to `fs`
        assert forall|k: int| #![trigger fpool[k]]
            under(o.pool@, rt, o.level@[rt], k) && !under(o.pool@, pool_idx, big, k)
            implies fpool[k] == o.pool@[k] && fs.level@[k] == o.level@[k] by {
            Self::lemma_kept_at(o, ds, pool_idx, k);
            assert(under(o.pool@, pool_idx, big, pool_idx));
            Self::lemma_reach_kept(o, ds, pool_idx, k);
            ds.lemma_reach_attached(k);
            match r {
                Some(s) => {
                    assert(k != s);
                    assert(fpool[k] == us.pool@[k]);
                },
                None => {},
            }
        }
        assert(o.kept_outside(fs, pool_idx));
        if primary_only::<T::Measure>() {
            lemma_kid_facts(dpool, ds.level@, pool_idx);
            lemma_kid_facts(cpool, cs.level@, pool_idx);
            assert(node_shape_ok(cpool, cs.level@, pool_idx));
            assert(big > 0);
            // the items under the children are kept from `ds` to `fs`
            assert forall|k: int, j: int| 0 <= k < kd.len() && #[trigger] under(dpool, kd[k] as int, d, j)
                implies fpool[j] == dpool[j] by {
                lemma_under_facts(dpool, ds.level@, kd[k] as int, j);
                assert(is_child(dpool, kd[k] as int)) by {
                    assert(dpool[pool_idx].kids()[k] == kd[k]);
                }
                assert(!ds.is_free(kd[k] as int)) by {
                    if ds.is_free(kd[k] as int) {
                        ds.lemma_free_detached(kd[k] as int);
                        assert(ds.attached(kd[k] as int));
                    }
                }
                ds.lemma_under_not_free(kd[k] as int, j);
                match r {
                    Some(s) => {
                        assert(j != s);
                        assert(fpool[j] == us.pool@[j]);
                    },
                    None => {},
                }
            }
            lemma_kids_sub_frame(dpool, fpool, ds.level@, kd, d);
            // the items under `pool_idx` in `cs` and in `ds`
            match cpool[pool_idx] {
                MeasuredBTreeNode::Internal { children, .. } => {
                    assert(children@ == kc);
                },
                MeasuredBTreeNode::Leaf { .. } => {},
            }
            match dpool[pool_idx] {
                MeasuredBTreeNode::Internal { children, .. } => {
                    assert(children@ == kd);
                },
                MeasuredBTreeNode::Leaf { .. } => {},
            }
            assert(items_under(cpool, pool_idx, big) == items_of_kids(cpool, kc, d));
            assert(items_under(dpool, pool_idx, big) == items_of_kids(dpool, kd, d));
            assert(fs.level@[pool_idx] == big);
            match r {
                None => {
                    match fpool[pool_idx] {
                        MeasuredBTreeNode::Internal { children, .. } => {
                            assert(children@ == kd);
                        },
                        MeasuredBTreeNode::Leaf { .. } => {},
                    }
                    assert(items_under(fpool, pool_idx, big) == items_of_kids(fpool, kd, d));
                },
                Some(s) => {
                    let sx = s as int;
                    let k1 = fpool[pool_idx].kids();
                    let k2 = fpool[sx].kids();
                    match fpool[pool_idx] {
                        MeasuredBTreeNode::Internal { children, .. } => {
                            assert(children@ == k1);
                        },
                        MeasuredBTreeNode::Leaf { .. } => {},
                    }
                    match fpool[sx] {
                        MeasuredBTreeNode::Internal { children, .. } => {
                            assert(children@ == k2);
                        },
                        MeasuredBTreeNode::Leaf { .. } => {},
                    }
                    assert(items_under(fpool, pool_idx, big) == items_of_kids(fpool, k1, d));
                    assert(items_under(fpool, sx, big) == items_of_kids(fpool, k2, d));
                    lemma_items_of_kids_concat(fpool, k1, k2, d);
                },
            }
        }
    }

    /// Every tree keeps everything outside any subtree of itself.
    proof fn lemma_kept_refl(&self, x: int)
        requires
            self.root_idx is Some,
        ensures
            self.kept_outside(*self, x),
    {
        reveal(MeasuredBTree::kept_outside);
    }

    /// A deletion at leaf `pool_idx` deletes the atoms of the range from the items under it
    /// and keeps everything outside it.
    proof fn lemma_delete_leaf_law(o: Self, fs: Self, a: Set<int>, pool_idx: int, r: Option<PoolIndex>, t: nat, l: nat)
        requires
            o.wf_but(a),
            o.root_idx is Some,
            0 <= pool_idx < o.pool@.len(),
            o.pool@[pool_idx] is Leaf,
            fs.pool@.len() >= o.pool@.len(),
            forall|j: int| 0 <= j < o.pool@.len() && !o.is_free(j) && o.level@[j] >= o.level@[pool_idx]
                ==> #[trigger] fs.level@[j] == o.level@[j],
            forall|j: int| 0 <= j < o.pool@.len() && !o.is_free(j) && j != pool_idx && o.level@[j] >= o.level@[pool_idx]
                ==> #[trigger] fs.pool@[j] == o.pool@[j],
            fs.pool@[pool_idx] is Leaf,
            r matches Some(s) ==> (s as int) < fs.pool@.len() && fs.pool@[s as int] is Leaf,
            primary_only::<T::Measure>() ==> deleted_at(o.pool@[pool_idx].items(),
                match r {
                    Some(s) => fs.pool@[pool_idx].items() + fs.pool@[s as int].items(),
                    None => fs.pool@[pool_idx].items(),
                }, t, l),
        ensures
            o.kept_outside(fs, pool_idx),
            primary_only::<T::Measure>() ==> deleted_at(items_under(o.pool@, pool_idx, o.level@[pool_idx]),
                match r {
                    Some(s) => items_under(fs.pool@, pool_idx, fs.level@[pool_idx]) + items_under(fs.pool@, s as int, fs.level@[s as int]),
                    None => items_under(fs.pool@, pool_idx, fs.level@[pool_idx]),
                }, t, l),
    {
        reveal(MeasuredBTree::kept_outside);
        o.lemma_shapes_but(a);
        let rt = o.root_idx->0 as int;
        assert forall|k: int| #![trigger fs.pool@[k]]
            under(o.pool@, rt, o.level@[rt], k) && !under(o.pool@, pool_idx, o.level@[pool_idx], k)
            implies fs.pool@[k] == o.pool@[k] && fs.level@[k] == o.level@[k] by {
            o.lemma_reach_attached(k);
            assert(under(o.pool@, pool_idx, o.level@[pool_idx], pool_idx));
            assert(node_shape_ok(o.pool@, o.level@, pool_idx));
            assert(o.level@[pool_idx] == 0);
        }
        assert(o.kept_outside(fs, pool_idx));
        assert(items_under(o.pool@, pool_idx, o.level@[pool_idx]) == o.pool@[pool_idx].items());
        assert(items_under(fs.pool@, pool_idx, fs.level@[pool_idx]) == fs.pool@[pool_idx].items());
        if let Some(s) = r {
            assert(items_under(fs.pool@, s as int, fs.level@[s as int]) == fs.pool@[s as int].items());
        }
    }

    /// The facts a deletion at internal node `pool_idx` starts from.
    proof fn lemma_delete_setup(o: Self, a: Set<int>, pool_idx: int, t: nat, sa: Seq<T::Atom>, p0: int)
        requires
            o.wf_but(a),
            o.root_idx is Some,
            0 <= pool_idx < o.pool@.len(),
            o.pool@[pool_idx] is Internal,
            forall|j: int| #[trigger] a.contains(j) ==> 0 <= j < o.pool@.len() && o.level@[j] > o.level@[pool_idx],
            sa == atoms(items_under(o.pool@, pool_idx, o.level@[pool_idx])),
            p0 == (if t <= sa.len() { t as int } else { sa.len() as int }),
        ensures
            o.shape_ok(),
            shapes(o.pool@, o.level@),
            o.kept_outside(o, pool_idx),
            sa == atoms(items_of_kids(o.pool@, o.pool@[pool_idx].kids(), (o.level@[pool_idx] - 1) as nat)),
            sa == sa.take(p0) + sa.skip(p0 + 0),
            sa.len() == o.pool@[pool_idx].weight().0,
    {
        let big = o.level@[pool_idx];
        o.lemma_shapes_but(a);
        o.lemma_kept_refl(pool_idx);
        lemma_kid_facts(o.pool@, o.level@, pool_idx);
        assert(node_shape_ok(o.pool@, o.level@, pool_idx));
        assert(big > 0);
        match o.pool@[pool_idx] {
            MeasuredBTreeNode::Internal { children, .. } => {
                assert(children@ == o.pool@[pool_idx].kids());
            },
            MeasuredBTreeNode::Leaf { .. } => {},
        }
        assert(sa.take(p0) + sa.skip(p0) =~= sa);
        assert forall|j: int| 0 <= j < o.pool@.len() && o.level@[j] <= big implies #[trigger] node_ok(o.pool@, o.level@, j) by {
            if a.contains(j) {
                assert(o.level@[j] > big);
            }
        }
        lemma_atoms_under_len(o.pool@, o.level@, pool_idx);
    }

    /// Child `i` of node `pool_idx`, reachable in `o`, is reachable in `b` where `b` keeps
    /// everything outside the subtree of `pool_idx`.
    proof fn lemma_kid_reach(o: Self, b: Self, a2: Set<int>, pool_idx: int, i: int)
        requires
            o.shape_ok(),
            shapes(o.pool@, o.level@),
            o.root_idx is Some,
            under(o.pool@, o.root_idx->0 as int, o.level@[o.root_idx->0 as int], pool_idx),
            0 <= pool_idx < o.pool@.len(),
            b.wf_but(a2),
            b.root_idx == o.root_idx,
            b.pool@.len() >= o.pool@.len(),
            o.kept_outside(b, pool_idx),
            0 <= i < b.pool@[pool_idx].kids().len(),
        ensures
            b.root_idx is Some,
            under(b.pool@, b.root_idx->0 as int, b.level@[b.root_idx->0 as int], b.pool@[pool_idx].kids()[i] as int),
    {
        let rt = o.root_idx->0 as int;
        let c = b.pool@[pool_idx].kids()[i] as int;
        b.lemma_shapes_but(a2);
        Self::lemma_reach_kept(o, b, pool_idx, pool_idx);
        lemma_kid_facts(b.pool@, b.level@, pool_idx);
        assert(under(b.pool@, c, b.level@[c], c));
        lemma_under_kid(b.pool@, b.level@, pool_idx, i, c);
        lemma_under_trans(b.pool@, b.level@, rt, pool_idx, c);
    }

    /// An insertion routed through child `ti` of internal node `pool_idx` is an insertion
    /// into the items under `pool_idx` (and its new right sibling, where it split), at the
    /// target; only nodes under `pool_idx` change.
    #[verifier::rlimit(80)]
    #[verifier::spinoff_prover]
    proof fn lemma_insert_step_law(
        o: Self,
        a: Self,
        b: Self,
        f: Self,
        pool_idx: int,
        p: int,
        ks: Seq<PoolIndex>,
        ti: int,
        c: int,
        local: nat,
        t: nat,
        data: T,
        csc: Option<PoolIndex>,
        r: Option<PoolIndex>,
    )
        requires
            o.wf_except(p, data.spec_measure().model()),
            p == -1 || (0 <= p < o.pool@.len() && o.level@[pool_idx] + 1 == o.level@[p]),
            0 <= pool_idx < o.pool@.len(),
            !o.is_free(pool_idx),
            o.pool@[pool_idx] is Internal,
            ks == o.pool@[pool_idx].kids(),
            0 <= ti < ks.len(),
            c == ks[ti] as int,
            a.pool@.len() == o.pool@.len(),
            a.level == o.level,
            forall|j: int| #[trigger] a.is_free(j) == o.is_free(j),
            forall|j: int| 0 <= j < o.pool@.len() && j != pool_idx ==> #[trigger] a.pool@[j] == o.pool@[j],
            a.pool@[pool_idx] is Internal,
            a.pool@[pool_idx].kids() == ks,
            psum(kid_models(a.pool@, ks).take(ti)).0 + local == t,
            ti + 1 < ks.len() ==> local <= a.pool@[c].weight().0,
            b.shape_ok(),
            shapes(b.pool@, b.level@),
            b.pool@.len() >= a.pool@.len(),
            forall|j: int| #[trigger] b.is_free(j) ==> a.is_free(j),
            forall|j: int| 0 <= j < a.pool@.len() && !a.is_free(j) ==> #[trigger] b.level@[j] == a.level@[j],
            forall|j: int| 0 <= j < a.pool@.len() && !a.is_free(j) && !under(a.pool@, c, a.level@[c], j)
                ==> #[trigger] b.pool@[j] == a.pool@[j],
            inserted_at(items_under(a.pool@, c, a.level@[c]),
                match csc {
                    Some(sc) => items_under(b.pool@, c, b.level@[c]) + items_under(b.pool@, sc as int, b.level@[sc as int]),
                    None => items_under(b.pool@, c, b.level@[c]),
                }, data, local),
            csc matches Some(sc) ==> (sc as int) < b.pool@.len() && !b.is_free(sc as int) && b.level@[sc as int] == a.level@[c],
            csc is None ==> f.pool@ == b.pool@ && f.level == b.level && r is None,
            csc matches Some(sc) ==> {
                &&& f.pool@.len() >= b.pool@.len()
                &&& forall|j: int| 0 <= j < b.pool@.len() && !b.is_free(j) && j != pool_idx ==> #[trigger] f.pool@[j] == b.pool@[j]
                &&& forall|j: int| 0 <= j < b.pool@.len() && !b.is_free(j) ==> #[trigger] f.level@[j] == b.level@[j]
                &&& f.pool@[pool_idx] is Internal
                &&& r is None ==> f.pool@[pool_idx].kids() == ks.insert(ti + 1, sc)
                &&& r matches Some(s) ==> {
                    &&& f.pool@[pool_idx].kids() + f.pool@[s as int].kids() == ks.insert(ti + 1, sc)
                    &&& f.level@[s as int] == o.level@[pool_idx]
                    &&& f.pool@[s as int] is Internal
                }
            },
        ensures
            inserted_at(items_under(o.pool@, pool_idx, o.level@[pool_idx]),
                match r {
                    Some(s) => items_under(f.pool@, pool_idx, f.level@[pool_idx]) + items_under(f.pool@, s as int, f.level@[s as int]),
                    None => items_under(f.pool@, pool_idx, f.level@[pool_idx]),
                }, data, t),
            forall|j: int| 0 <= j < o.pool@.len() && !o.is_free(j) && !under(o.pool@, pool_idx, o.level@[pool_idx], j)
                ==> #[trigger] f.pool@[j] == o.pool@[j],
    {
        let opool = o.pool@;
        let apool = a.pool@;
        let bpool = b.pool@;
        let fpool = f.pool@;
        let lv = o.level@;
        let big = lv[pool_idx];
        let d = (big - 1) as nat;
        let dm = data.spec_measure().model();
        o.lemma_shapes(p, dm);
        lemma_kid_facts(opool, lv, pool_idx);
        assert(big > 0);
        assert(lv[c] == d);
        assert forall|x: int| 0 <= x < opool.len() implies (#[trigger] apool[x]).kids() == opool[x].kids() by {
            if x != pool_idx {
                assert(apool[x] == opool[x]);
            }
        }
        assert(b.level@[pool_idx] == big);
        assert(!b.is_free(pool_idx));
        assert(!o.is_free(c)) by {
            assert(is_child(opool, c)) by {
                assert(opool[pool_idx].kids()[ti] as int == c);
            }
            if o.is_free(c) {
                o.lemma_free_detached(c);
                assert(o.attached(c));
            }
        }
        assert(b.level@[c] == d);
        // nodes under the other children keep their place
        assert forall|k: int, j: int| 0 <= k < ks.len() && k != ti && #[trigger] under(opool, ks[k] as int, d, j)
            implies fpool[j] == opool[j] by {
            let sk = ks[k] as int;
            lemma_under_facts(opool, lv, sk, j);
            assert(is_child(opool, sk)) by {
                assert(opool[pool_idx].kids()[k] as int == sk);
            }
            if o.is_free(sk) {
                o.lemma_free_detached(sk);
                assert(o.attached(sk));
            }
            o.lemma_under_not_free(sk, j);
            assert(apool[j] == opool[j]);
            lemma_under_same_kids(opool, apool, lv, c, j);
            if under(opool, c, d, j) {
                lemma_unique_ancestor(opool, lv, sk, c, j);
                assert(ks[k] == ks[ti]);
            }
            assert(bpool[j] == apool[j]);
        }
        // the whole list of children, before and after
        match opool[pool_idx] {
            MeasuredBTreeNode::Internal { children, .. } => {
                assert(children@ == ks);
            },
            MeasuredBTreeNode::Leaf { .. } => {},
        }
        assert(items_under(opool, pool_idx, big) == items_of_kids(opool, ks, d));
        // frame of the nodes outside `pool_idx`
        assert forall|j: int| 0 <= j < opool.len() && !o.is_free(j) && !under(opool, pool_idx, big, j)
            implies #[trigger] fpool[j] == opool[j] by {
            assert(j != pool_idx);
            lemma_under_same_kids(opool, apool, lv, c, j);
            if under(opool, c, d, j) {
                lemma_under_kid(opool, lv, pool_idx, ti, j);
            }
            assert(bpool[j] == apool[j]);
        }
        {
            // the subtree of `c` is unchanged from `o` to `a`
            assert forall|j: int| #[trigger] under(opool, c, lv[c], j) implies apool[j] == opool[j] by {
                lemma_under_facts(opool, lv, c, j);
            }
            lemma_items_under_sub_frame(opool, apool, lv, c);
            // the new children under `pool_idx`, from `b` to `f`
            let mid: Seq<PoolIndex> = match csc {
                Some(sc) => seq![c as PoolIndex, sc],
                None => seq![c as PoolIndex],
            };
            assert(bpool[pool_idx] == apool[pool_idx]) by {
                lemma_under_same_kids(opool, apool, lv, c, pool_idx);
                if under(opool, c, d, pool_idx) {
                    lemma_under_facts(opool, lv, c, pool_idx);
                }
            }
            match csc {
                None => {
                    assert(mid.drop_last() =~= Seq::<PoolIndex>::empty());
                    assert(items_of_kids(fpool, mid.drop_last(), d) =~= Seq::<T>::empty());
                    assert(items_of_kids(fpool, mid, d) =~= items_under(bpool, c, d));
                },
                Some(sc) => {
                    let scx = sc as int;
                    assert(!b.is_free(c));
                    assert forall|j: int| #[trigger] under(bpool, c, b.level@[c], j) implies fpool[j] == bpool[j] by {
                        b.lemma_under_not_free(c, j);
                        lemma_under_facts(bpool, b.level@, c, j);
                    }
                    lemma_items_under_sub_frame(bpool, fpool, b.level@, c);
                    assert forall|j: int| #[trigger] under(bpool, scx, b.level@[scx], j) implies fpool[j] == bpool[j] by {
                        b.lemma_under_not_free(scx, j);
                        lemma_under_facts(bpool, b.level@, scx, j);
                    }
                    lemma_items_under_sub_frame(bpool, fpool, b.level@, scx);
                    assert(mid.drop_last() =~= seq![c as PoolIndex]);
                    assert(seq![c as PoolIndex].drop_last() =~= Seq::<PoolIndex>::empty());
                    assert(items_of_kids(fpool, Seq::<PoolIndex>::empty(), d) =~= Seq::<T>::empty());
                    assert(items_of_kids(fpool, seq![c as PoolIndex], d) =~= items_under(fpool, c, d));
                    assert(items_of_kids(fpool, mid, d) =~= items_under(bpool, c, d) + items_under(bpool, scx, d));
                },
            }
            // position of the target
            assert forall|j: int| 0 <= j < opool.len() && lv[j] <= d implies #[trigger] node_ok(opool, lv, j) by {
                if j == p {
                    assert(lv[p] == big + 1);
                }
            }
            let pre = ks.take(ti);
            assert forall|k: int| 0 <= k < pre.len() implies (#[trigger] pre[k]) < opool.len() && lv[pre[k] as int] == d by {
                assert(pre[k] == ks[k]);
            }
            lemma_atoms_kids_len(opool, lv, pre, d);
            assert(kid_models(apool, ks).take(ti) =~= kid_models(opool, pre)) by {
                assert forall|k: int| 0 <= k < ti implies apool[ks[k] as int] == opool[ks[k] as int] by {
                    assert(ks[k] as int != pool_idx);
                }
            }
            lemma_atoms_under_len(opool, lv, c);
            assert(apool[c] == opool[c]);
            lemma_kids_insert(opool, fpool, lv, ks, mid, ti, d, data, local, t);
            let nk = ks.take(ti) + mid + ks.skip(ti + 1);
            match r {
                None => {
                    match csc {
                        None => {
                            assert(nk =~= ks);
                            assert(fpool[pool_idx] == apool[pool_idx]);
                        },
                        Some(sc) => {
                            assert(nk =~= ks.insert(ti + 1, sc));
                        },
                    }
                    assert(f.level@[pool_idx] == big);
                    match fpool[pool_idx] {
                        MeasuredBTreeNode::Internal { children, .. } => {
                            assert(children@ == nk);
                        },
                        MeasuredBTreeNode::Leaf { .. } => {},
                    }
                    assert(items_under(fpool, pool_idx, big) == items_of_kids(fpool, nk, d));
                },
                Some(s) => {
                    let sx = s as int;
                    let sc = csc->0;
                    assert(nk =~= ks.insert(ti + 1, sc));
                    assert(f.level@[pool_idx] == big);
                    let k1 = fpool[pool_idx].kids();
                    let k2 = fpool[sx].kids();
                    match fpool[pool_idx] {
                        MeasuredBTreeNode::Internal { children, .. } => {
                            assert(children@ == k1);
                        },
                        MeasuredBTreeNode::Leaf { .. } => {},
                    }
                    match fpool[sx] {
                        MeasuredBTreeNode::Internal { children, .. } => {
                            assert(children@ == k2);
                        },
                        MeasuredBTreeNode::Leaf { .. } => {},
                    }
                    assert(items_under(fpool, pool_idx, big) == items_of_kids(fpool, k1, d));
                    assert(items_under(fpool, sx, big) == items_of_kids(fpool, k2, d));
                    lemma_items_of_kids_concat(fpool, k1, k2, d);
                },
            }
        }
    }
}

impl<T: MeasuredBTreeData> MeasuredBTree<T> {
    /// Wraps the root and its new sibling into a new internal root, one level up.
    #[verifier::spinoff_prover]
    #[verifier::rlimit(40)]
    fn grow_tree_height(&mut self, old_root_idx: PoolIndex, new_sibling_idx: PoolIndex)
        requires
            nodes_ok(old(self).pool@, old(self).level@),
            old(self).shape_ok(),
            old(self).root_idx == Some(old_root_idx),
            new_sibling_idx < old(self).pool@.len(),
            new_sibling_idx != old_root_idx,
            !old(self).attached(new_sibling_idx as int),
            !old(self).is_free(new_sibling_idx as int),
            old(self).level@[new_sibling_idx as int] == old(self).level@[old_root_idx as int],
            old(self).pool@[new_sibling_idx as int] is Internal ==> old(self).pool@[new_sibling_idx as int].kids().len() > 0,
            T::Measure::fits(padd(
                old(self).pool@[old_root_idx as int].weight(),
                old(self).pool@[new_sibling_idx as int].weight(),
            )),
        ensures
            final(self).wf(),
            final(self).total() == padd(
                old(self).pool@[old_root_idx as int].weight(),
                old(self).pool@[new_sibling_idx as int].weight(),
            ),
            final(self).in_order() == items_under(old(self).pool@, old_root_idx as int, old(self).level@[old_root_idx as int])
                + items_under(old(self).pool@, new_sibling_idx as int, old(self).level@[new_sibling_idx as int]),
    {
        let ghost old_self = *self;
        let new_root_idx = self.allocate_node(false);
        proof {
            self.level@ = self.level@.update(new_root_idx as int, old_self.level@[old_root_idx as int] + 1);
        }
        let ghost mid = *self;
        proof {
            assert(old_self.attached(old_root_idx as int));
            assert(new_root_idx != old_root_idx);
            assert(new_root_idx != new_sibling_idx);
        }
        let left_measure = self.pool[old_root_idx].measure();
        let right_measure = self.pool[new_sibling_idx].measure();
        let sum = left_measure.plus(right_measure);
        match &mut self.pool[new_root_idx] {
            MeasuredBTreeNode::Internal { children, measure } => {
                children.push(old_root_idx);
                children.push(new_sibling_idx);
                *measure = sum;
            },
            MeasuredBTreeNode::Leaf { .. } => {},
        }
        self.root_idx = Some(new_root_idx);
        proof {
            let kids = seq![old_root_idx, new_sibling_idx];
            assert(self.pool@[new_root_idx as int].kids() =~= kids);
            self.lemma_new_root(mid, new_root_idx as int, old_root_idx as int, new_sibling_idx as int);
            let km = kid_models(self.pool@, kids);
            assert(km =~= seq![left_measure.model()].push(right_measure.model()));
            lemma_psum_push(seq![left_measure.model()], right_measure.model());
            lemma_psum_single(left_measure.model());
            assert(node_ok(self.pool@, self.level@, new_root_idx as int));
            let r = set![new_root_idx as int];
            assert forall|i: int| 0 <= i < old_self.pool@.len() && !r.contains(i) implies
                forall|k: int| 0 <= k < old_self.pool@[i].kids().len() ==> {
                    let c = #[trigger] old_self.pool@[i].kids()[k];
                    &&& self.pool@[c as int].weight() == old_self.pool@[c as int].weight()
                    &&& self.level@[c as int] == old_self.level@[c as int]
                } by {
                assert forall|k: int| 0 <= k < old_self.pool@[i].kids().len() implies {
                    let c = #[trigger] old_self.pool@[i].kids()[k];
                    &&& self.pool@[c as int].weight() == old_self.pool@[c as int].weight()
                    &&& self.level@[c as int] == old_self.level@[c as int]
                } by {
                    let c = old_self.pool@[i].kids()[k];
                    assert(is_child(old_self.pool@, c as int));
                }
            }
            lemma_nodes_frame(old_self.pool@, old_self.level@, self.pool@, self.level@, -1, (0nat, 0nat), r);
        }
        proof {
            let opool = old_self.pool@;
            let olv = old_self.level@;
            let nr = new_root_idx as int;
            let ro = old_root_idx as int;
            let sib = new_sibling_idx as int;
            assert(old_self.wf_except(-1, (0nat, 0nat)));
            old_self.lemma_shapes(-1, (0nat, 0nat));
            assert(!old_self.is_free(ro)) by {
                if old_self.is_free(ro) {
                    old_self.lemma_free_detached(ro);
                }
            }
            assert(nr >= opool.len() || old_self.is_free(nr));
            assert forall|j: int| 0 <= j < opool.len() && j != nr implies #[trigger] self.pool@[j] == opool[j] by {
                assert(mid.pool@[j] == opool[j]);
            }
            assert forall|j: int| #[trigger] under(opool, ro, olv[ro], j) implies self.pool@[j] == opool[j] by {
                old_self.lemma_under_not_free(ro, j);
            }
            lemma_items_under_sub_frame(opool, self.pool@, olv, ro);
            assert forall|j: int| #[trigger] under(opool, sib, olv[sib], j) implies self.pool@[j] == opool[j] by {
                old_self.lemma_under_not_free(sib, j);
            }
            lemma_items_under_sub_frame(opool, self.pool@, olv, sib);
            let kids = seq![old_root_idx, new_sibling_idx];
            let d = olv[ro];
            assert(self.level@[nr] == d + 1);
            match self.pool@[nr] {
                MeasuredBTreeNode::Internal { children, .. } => {
                    assert(children@ == kids);
                },
                MeasuredBTreeNode::Leaf { .. } => {},
            }
            assert(kids.drop_last() =~= seq![old_root_idx]);
            assert(seq![old_root_idx].drop_last() =~= Seq::<PoolIndex>::empty());
            assert(items_of_kids(self.pool@, Seq::<PoolIndex>::empty(), d) =~= Seq::<T>::empty());
            assert(items_of_kids(self.pool@, seq![old_root_idx], d) =~= items_under(self.pool@, ro, d));
            assert(self.in_order() =~= items_under(self.pool@, ro, d) + items_under(self.pool@, sib, d));
        }
    }

    /// Creates the first leaf of an empty tree, holding `data`. A target other than zero
    /// is out of bounds.
    #[verifier::spinoff_prover]
    #[verifier::rlimit(40)]
    fn init_empty_root(&mut self, target: T::Measure, data: T) -> (r: MeasuredBTreeResult<(), T::Measure>)
        requires
            old(self).wf(),
            old(self).root_idx.is_none(),
            data.wf(),
        ensures
            r is Ok <==> target.model() == (0nat, 0nat),
            r is Ok ==> final(self).wf() && final(self).total() == data.spec_measure().model(),
            r is Ok ==> final(self).in_order() == seq![data],
            r matches Err(MeasuredBTreeError::OutOfBounds { max, requested }) ==> {
                &&& *final(self) == *old(self)
                &&& max.model() == (0nat, 0nat)
                &&& requested == target
            },
    {
        let zero = T::Measure::zero();
        if zero.less_than(&target) {
            return Err(MeasuredBTreeError::OutOfBounds { requested: target, max: zero });
        }
        let ghost old_self = *self;
        let new_root_idx = self.allocate_node(true);
        proof {
            self.level@ = self.level@.update(new_root_idx as int, 0nat);
        }
        let ghost mid = *self;
        let dmeasure = data.measure();
        match &mut self.pool[new_root_idx] {
            MeasuredBTreeNode::Leaf { data: leaf_data, measure } => {
                *measure = dmeasure;
                leaf_data.push(data);
            },
            MeasuredBTreeNode::Internal { .. } => {},
        }
        self.root_idx = Some(new_root_idx);
        proof {
            let n = new_root_idx as int;
            let pool = self.pool@;
            let opool = mid.pool@;
            assert(pool[n].items() =~= seq![data]);
            assert(data_models(seq![data]) =~= seq![data.spec_measure().model()]);
            lemma_psum_single(data.spec_measure().model());
            assert(node_ok(pool, self.level@, n));
            assert forall|j: int| #[trigger] is_child(pool, j) == is_child(opool, j) by {
                if is_child(pool, j) {
                    let (p, a) = choose|p: int, a: int|
                        0 <= p < pool.len() && 0 <= a < pool[p].kids().len() && #[trigger] pool[p].kids()[a] == j;
                    assert(opool[p].kids()[a] == j);
                }
                if is_child(opool, j) {
                    let (p, a) = choose|p: int, a: int|
                        0 <= p < opool.len() && 0 <= a < opool[p].kids().len() && #[trigger] opool[p].kids()[a] == j;
                    assert(pool[p].kids()[a] == j);
                }
            }
            assert forall|p: int, a: int, q: int, b: int|
                0 <= p < pool.len() && 0 <= q < pool.len() && 0 <= a < pool[p].kids().len() && 0 <= b
                    < pool[q].kids().len() && #[trigger] pool[p].kids()[a] == #[trigger] pool[q].kids()[b]
                implies p == q && a == b by {
                assert(opool[p].kids()[a] == opool[q].kids()[b]);
            }
            assert forall|i: int, k: int| 0 <= i < pool.len() && 0 <= k < pool[i].kids().len() implies #[trigger] pool[i].kids()[k] < pool.len() by {
                assert(opool[i].kids()[k] < opool.len());
            }
            assert forall|i: int| 0 <= i < pool.len() && self.attached(i) && (#[trigger] pool[i]) is Internal
                implies pool[i].kids().len() > 0 by {
                assert(mid.attached(i));
            }
            assert forall|k: int| 0 <= k < self.free_leaves_list@.len() implies
                pool[#[trigger] self.free_leaves_list@[k] as int] == opool[self.free_leaves_list@[k] as int]
                    && !self.attached(self.free_leaves_list@[k] as int) by {
                let j = self.free_leaves_list@[k] as int;
                assert(mid.free_leaves_list@[k] as int == j);
                assert(!mid.attached(j));
                assert(in_list(mid.free_leaves_list@, j));
            }
            assert forall|k: int| 0 <= k < self.free_internals_list@.len() implies
                pool[#[trigger] self.free_internals_list@[k] as int] == opool[self.free_internals_list@[k] as int]
                    && !self.attached(self.free_internals_list@[k] as int) by {
                let j = self.free_internals_list@[k] as int;
                assert(mid.free_internals_list@[k] as int == j);
                assert(!mid.attached(j));
                assert(in_list(mid.free_internals_list@, j));
            }
            assert(self.shape_ok());
            let r = set![n];
            let qpool = old_self.pool@;
            assert forall|i: int| 0 <= i < qpool.len() && !r.contains(i) implies
                forall|k: int| 0 <= k < qpool[i].kids().len() ==> {
                    let c = #[trigger] qpool[i].kids()[k];
                    &&& pool[c as int].weight() == qpool[c as int].weight()
                    &&& self.level@[c as int] == old_self.level@[c as int]
                } by {
                assert forall|k: int| 0 <= k < qpool[i].kids().len() implies {
                    let c = #[trigger] qpool[i].kids()[k];
                    &&& pool[c as int].weight() == qpool[c as int].weight()
                    &&& self.level@[c as int] == old_self.level@[c as int]
                } by {
                    let c = qpool[i].kids()[k];
                    assert(is_child(qpool, c as int));
                }
            }
            lemma_nodes_frame(qpool, old_self.level@, pool, self.level@, -1, (0nat, 0nat), r);
            assert(self.in_order() == pool[n].items());
        }
        Ok(())
    }

    /// Inserts `data` at position `target` of the tree. A target beyond the total measure
    /// is out of bounds and leaves the tree unchanged.
    pub fn insert(&mut self, target: T::Measure, data: T) -> (r: MeasuredBTreeResult<(), T::Measure>)
        requires
            old(self).wf(),
            data.wf(),
            T::Measure::fits(padd(old(self).total(), data.spec_measure().model())),
        ensures
            r is Ok <==> ple(target.model(), old(self).total()),
            r is Ok ==> final(self).wf() && final(self).total() == padd(old(self).total(), data.spec_measure().model()),
            r is Ok ==> inserted_at(old(self).in_order(), final(self).in_order(), data, target.model().0),
            r matches Err(MeasuredBTreeError::OutOfBounds { max, requested }) ==> {
                &&& *final(self) == *old(self)
                &&& max.model() == old(self).total()
                &&& requested == target
            },
    {
        let prev_root_idx = match self.root_idx {
            None => {
                let ghost xd = data;
                proof {
                    lemma_inserted_into_empty(xd, target.model().0);
                }
                return self.init_empty_root(target, data);
            },
            Some(r) => r,
        };
        let total_measure = self.pool[prev_root_idx].measure();
        if total_measure.less_than(&target) {
            return Err(MeasuredBTreeError::OutOfBounds { max: total_measure, requested: target });
        }
        let ghost old_self = *self;
        proof {
            assert(self.hangs(-1, 0, prev_root_idx as int));
        }
        let sub = self.insert_recursive(prev_root_idx, target, data, Ghost(-1), Ghost(0));
        match sub {
            Some(new_sibling_idx) => {
                proof {
                    T::Measure::lemma_fits(self.pool@[prev_root_idx as int].node_measure());
                    assert(self.level@[prev_root_idx as int] == old_self.level@[prev_root_idx as int]) by {
                        assert(old_self.attached(prev_root_idx as int));
                        if old_self.is_free(prev_root_idx as int) {
                            old_self.lemma_free_detached(prev_root_idx as int);
                        }
                    }
                }
                self.grow_tree_height(prev_root_idx, new_sibling_idx);
            },
            None => {},
        }
        proof {
            assert(old_self.in_order() == items_under(old_self.pool@, prev_root_idx as int, old_self.level@[prev_root_idx as int]));
        }
        Ok(())
    }
}

/// An item whose content is a prefix or a suffix of another's has a measure below it.
pub proof fn lemma_part_below<T: MeasuredBTreeData>(x: T, y: T, k: int)
    requires
        x.wf(),
        y.wf(),
        0 <= k <= x.content().len(),
        y.content() == x.content().take(k) || y.content() == x.content().skip(k),
    ensures
        pbelow(y.spec_measure().model(), x.spec_measure().model()),
{
    T::lemma_content(&x);
    T::lemma_content(&y);
    assert(x.content() =~= x.content().take(k) + x.content().skip(k));
    T::lemma_flags_concat(x.content().take(k), x.content().skip(k));
}

/// Keeping a prefix and a suffix of an item, dropping the middle, keeps the measures
/// below the item's.
pub proof fn lemma_ends_below<T: MeasuredBTreeData>(x: T, l: T, r: T, a: int, b: int)
    requires
        x.wf(),
        l.wf(),
        r.wf(),
        0 <= a <= b <= x.content().len(),
        l.content() == x.content().take(a),
        r.content() == x.content().skip(b),
    ensures
        pbelow(padd(l.spec_measure().model(), r.spec_measure().model()), x.spec_measure().model()),
{
    T::lemma_content(&x);
    T::lemma_content(&l);
    T::lemma_content(&r);
    let c = x.content();
    assert(c =~= c.take(a) + (c.subrange(a, b) + c.skip(b)));
    T::lemma_flags_concat(c.take(a), c.subrange(a, b) + c.skip(b));
    T::lemma_flags_concat(c.subrange(a, b), c.skip(b));
}


/// Node `x`'s children at positions `il` and `ir` changed, keeping the sum of their
/// weights, and are consistent again: the other nodes are unaffected, and so is the sum of
/// the weights of the children of `x`.
pub proof fn lemma_siblings_changed<T: MeasuredBTreeData>(
    opool: Seq<MeasuredBTreeNode<T>>,
    pool: Seq<MeasuredBTreeNode<T>>,
    level: Seq<nat>,
    a: Set<int>,
    x: int,
    il: int,
    ir: int,
)
    requires
        nodes_ok_but(opool, level, a),
        a.contains(x),
        forall|j: int| #[trigger] a.contains(j) ==> level[j] >= level[x],
        unique_parents(opool),
        0 <= x < opool.len(),
        opool[x] is Internal,
        0 <= il < opool[x].kids().len(),
        0 <= ir < opool[x].kids().len(),
        il != ir,
        pool.len() == opool.len(),
        pool[x] == opool[x],
        forall|j: int| 0 <= j < pool.len() && j != opool[x].kids()[il] && j != opool[x].kids()[ir] ==> pool[j] == opool[j],
        node_ok(pool, level, opool[x].kids()[il] as int),
        node_ok(pool, level, opool[x].kids()[ir] as int),
        padd(pool[opool[x].kids()[il] as int].weight(), pool[opool[x].kids()[ir] as int].weight())
            == padd(opool[opool[x].kids()[il] as int].weight(), opool[opool[x].kids()[ir] as int].weight()),
    ensures
        nodes_ok_but(pool, level, a),
        psum(kid_models(pool, opool[x].kids())) == psum(kid_models(opool, opool[x].kids())),
{
    let ks = opool[x].kids();
    let l = ks[il] as int;
    let r = ks[ir] as int;
    assert(node_shape_ok(opool, level, x));
    assert(l != r) by {
        assert(opool[x].kids()[il] == opool[x].kids()[ir] ==> il == ir);
    }
    match opool[x] {
        MeasuredBTreeNode::Internal { children, .. } => {
            assert(children@ == ks);
            assert(children@[il] == ks[il]);
            assert(children@[ir] == ks[ir]);
            assert(!a.contains(l) && !a.contains(r));
        },
        MeasuredBTreeNode::Leaf { .. } => {},
    }
    assert forall|i: int, k: int| 0 <= i < opool.len() && 0 <= k < opool[i].kids().len() && i != x
        implies #[trigger] opool[i].kids()[k] != l && opool[i].kids()[k] != r by {
        if opool[i].kids()[k] == l {
            assert(opool[x].kids()[il] == opool[i].kids()[k]);
        }
        if opool[i].kids()[k] == r {
            assert(opool[x].kids()[ir] == opool[i].kids()[k]);
        }
    }
    assert forall|i: int| 0 <= i < pool.len() && !a.contains(i) implies #[trigger] node_ok(pool, level, i) by {
        if i != l && i != r {
            assert(node_ok(opool, level, i));
            assert forall|k: int| 0 <= k < opool[i].kids().len() implies {
                let c = #[trigger] opool[i].kids()[k];
                &&& pool[c as int].weight() == opool[c as int].weight()
                &&& level[c as int] == level[c as int]
            } by {
                let c = opool[i].kids()[k];
                match opool[i] {
                    MeasuredBTreeNode::Internal { children, .. } => {
                        assert(children@[k] == c);
                    },
                    MeasuredBTreeNode::Leaf { .. } => {},
                }
            }
            lemma_node_frame_one(opool, level, pool, level, i, (0nat, 0nat), set![l, r]);
        }
    }
    assert forall|i: int| 0 <= i < pool.len() && a.contains(i) implies #[trigger] node_shape_ok(pool, level, i) by {
        assert(node_shape_ok(opool, level, i));
        assert(pool[i] == opool[i]);
    }
    let km = kid_models(opool, ks);
    assert forall|k: int| 0 <= k < ks.len() && k != il && k != ir implies #[trigger] ks[k] != l && ks[k] != r by {
        assert(opool[x].kids()[k] == ks[k]);
        if ks[k] == l {
            assert(opool[x].kids()[il] == opool[x].kids()[k]);
        }
        if ks[k] == r {
            assert(opool[x].kids()[ir] == opool[x].kids()[k]);
        }
    }
    assert(kid_models(pool, ks) =~= km.update(il, pool[l].weight()).update(ir, pool[r].weight()));
    lemma_psum_update2(km, il, ir, pool[l].weight(), pool[r].weight());
}

/// Node `x`'s child at position `ir` was merged into its child at position `il`, cleared,
/// and removed from the children of `x`: the other nodes are unaffected, and so is the sum
/// of the weights of the children of `x`.
pub proof fn lemma_sibling_merged<T: MeasuredBTreeData>(
    opool: Seq<MeasuredBTreeNode<T>>,
    pool: Seq<MeasuredBTreeNode<T>>,
    level: Seq<nat>,
    a: Set<int>,
    x: int,
    il: int,
    ir: int,
)
    requires
        nodes_ok_but(opool, level, a),
        a.contains(x),
        forall|j: int| #[trigger] a.contains(j) ==> level[j] >= level[x],
        unique_parents(opool),
        0 <= x < opool.len(),
        opool[x] is Internal,
        0 <= il < opool[x].kids().len(),
        0 <= ir < opool[x].kids().len(),
        il != ir,
        pool.len() == opool.len(),
        pool[x] is Internal,
        pool[x].kids() == opool[x].kids().remove(ir),
        pool[x].weight() == opool[x].weight(),
        forall|j: int| 0 <= j < pool.len() && j != x && j != opool[x].kids()[il] && j != opool[x].kids()[ir]
            ==> pool[j] == opool[j],
        node_ok(pool, level, opool[x].kids()[il] as int),
        node_ok(pool, level, opool[x].kids()[ir] as int),
        pool[opool[x].kids()[il] as int].weight()
            == padd(opool[opool[x].kids()[il] as int].weight(), opool[opool[x].kids()[ir] as int].weight()),
    ensures
        nodes_ok_but(pool, level, a),
        psum(kid_models(pool, pool[x].kids())) == psum(kid_models(opool, opool[x].kids())),
{
    let ks = opool[x].kids();
    let l = ks[il] as int;
    let r = ks[ir] as int;
    assert(node_shape_ok(opool, level, x));
    assert(l != r) by {
        assert(opool[x].kids()[il] == opool[x].kids()[ir] ==> il == ir);
    }
    match opool[x] {
        MeasuredBTreeNode::Internal { children, .. } => {
            assert(children@ == ks);
            assert(children@[il] == ks[il]);
            assert(children@[ir] == ks[ir]);
            assert(!a.contains(l) && !a.contains(r));
            match pool[x] {
                MeasuredBTreeNode::Internal { children: nc, .. } => {
                    assert(nc@ == ks.remove(ir));
                    assert forall|k: int| 0 <= k < nc@.len() implies {
                        &&& (#[trigger] nc@[k]) < pool.len()
                        &&& level[nc@[k] as int] + 1 == level[x]
                    } by {
                        if k < ir {
                            assert(nc@[k] == children@[k]);
                        } else {
                            assert(nc@[k] == children@[k + 1]);
                        }
                    }
                },
                MeasuredBTreeNode::Leaf { .. } => {},
            }
        },
        MeasuredBTreeNode::Leaf { .. } => {},
    }
    assert forall|i: int, k: int| 0 <= i < opool.len() && 0 <= k < opool[i].kids().len() && i != x
        implies #[trigger] opool[i].kids()[k] != l && opool[i].kids()[k] != r by {
        if opool[i].kids()[k] == l {
            assert(opool[x].kids()[il] == opool[i].kids()[k]);
        }
        if opool[i].kids()[k] == r {
            assert(opool[x].kids()[ir] == opool[i].kids()[k]);
        }
    }
    assert forall|i: int| 0 <= i < pool.len() && !a.contains(i) implies #[trigger] node_ok(pool, level, i) by {
        if i != l && i != r {
            assert(node_ok(opool, level, i));
            assert forall|k: int| 0 <= k < opool[i].kids().len() implies {
                let c = #[trigger] opool[i].kids()[k];
                &&& pool[c as int].weight() == opool[c as int].weight()
                &&& level[c as int] == level[c as int]
            } by {
                let c = opool[i].kids()[k];
                match opool[i] {
                    MeasuredBTreeNode::Internal { children, .. } => {
                        assert(children@[k] == c);
                    },
                    MeasuredBTreeNode::Leaf { .. } => {},
                }
            }
            lemma_node_frame_one(opool, level, pool, level, i, (0nat, 0nat), set![x, l, r]);
        }
    }
    assert forall|i: int| 0 <= i < pool.len() && a.contains(i) implies #[trigger] node_shape_ok(pool, level, i) by {
        if i != x {
            assert(node_shape_ok(opool, level, i));
            assert(pool[i] == opool[i]);
        }
    }
    let km = kid_models(opool, ks);
    assert forall|k: int| 0 <= k < ks.len() && k != il && k != ir implies #[trigger] ks[k] != l && ks[k] != r by {
        assert(opool[x].kids()[k] == ks[k]);
        if ks[k] == l {
            assert(opool[x].kids()[il] == opool[x].kids()[k]);
        }
        if ks[k] == r {
            assert(opool[x].kids()[ir] == opool[x].kids()[k]);
        }
    }
    assert(kid_models(pool, ks.remove(ir)) =~= km.update(il, padd(km[il], km[ir])).remove(ir));
    lemma_psum_merge(km, il, ir);
}

/// Children that are rearranged so that every new parent-child link comes from a distinct
/// old link keep parents unique, and no node becomes a child that was not one; the old
/// link (`xp`, `xa`), which no new link comes from, is dropped.
pub proof fn lemma_edges_inject<T: MeasuredBTreeData>(
    opool: Seq<MeasuredBTreeNode<T>>,
    pool: Seq<MeasuredBTreeNode<T>>,
    fp: spec_fn(int, int) -> int,
    fa: spec_fn(int, int) -> int,
    xp: int,
    xa: int,
)
    requires
        unique_parents(opool),
        forall|i: int, k: int| 0 <= i < opool.len() && 0 <= k < opool[i].kids().len()
            ==> #[trigger] opool[i].kids()[k] < opool.len(),
        pool.len() == opool.len(),
        forall|p: int, a: int|
            #![trigger pool[p].kids()[a]]
            0 <= p < pool.len() && 0 <= a < pool[p].kids().len() ==> {
                &&& 0 <= fp(p, a) < opool.len()
                &&& 0 <= fa(p, a) < opool[fp(p, a)].kids().len()
                &&& pool[p].kids()[a] == opool[fp(p, a)].kids()[fa(p, a)]
                &&& !(fp(p, a) == xp && fa(p, a) == xa)
            },
        forall|p: int, a: int, q: int, b: int|
            #![trigger pool[p].kids()[a], pool[q].kids()[b]]
            0 <= p < pool.len() && 0 <= a < pool[p].kids().len() && 0 <= q < pool.len() && 0 <= b
                < pool[q].kids().len() && fp(p, a) == fp(q, b) && fa(p, a) == fa(q, b) ==> p == q && a == b,
    ensures
        unique_parents(pool),
        forall|i: int, k: int| 0 <= i < pool.len() && 0 <= k < pool[i].kids().len()
            ==> #[trigger] pool[i].kids()[k] < pool.len(),
        forall|j: int| #[trigger] is_child(pool, j) ==> is_child(opool, j),
        0 <= xp < opool.len() && 0 <= xa < opool[xp].kids().len() ==> !is_child(pool, opool[xp].kids()[xa] as int),
{
    assert forall|p: int, a: int, q: int, b: int|
        0 <= p < pool.len() && 0 <= q < pool.len() && 0 <= a < pool[p].kids().len() && 0 <= b
            < pool[q].kids().len() && #[trigger] pool[p].kids()[a] == #[trigger] pool[q].kids()[b]
        implies p == q && a == b by {
        assert(opool[fp(p, a)].kids()[fa(p, a)] == opool[fp(q, b)].kids()[fa(q, b)]);
    }
    assert forall|i: int, k: int| 0 <= i < pool.len() && 0 <= k < pool[i].kids().len()
        implies #[trigger] pool[i].kids()[k] < pool.len() by {
        assert(pool[i].kids()[k] == opool[fp(i, k)].kids()[fa(i, k)]);
        assert(opool[fp(i, k)].kids()[fa(i, k)] < opool.len());
    }
    assert forall|j: int| #[trigger] is_child(pool, j) implies is_child(opool, j) by {
        let (p, a) = choose|p: int, a: int|
            0 <= p < pool.len() && 0 <= a < pool[p].kids().len() && #[trigger] pool[p].kids()[a] == j;
        assert(opool[fp(p, a)].kids()[fa(p, a)] == j);
    }
    if 0 <= xp < opool.len() && 0 <= xa < opool[xp].kids().len() {
        let c = opool[xp].kids()[xa] as int;
        if is_child(pool, c) {
            let (p, a) = choose|p: int, a: int|
                0 <= p < pool.len() && 0 <= a < pool[p].kids().len() && #[trigger] pool[p].kids()[a] == c;
            assert(opool[fp(p, a)].kids()[fa(p, a)] == opool[xp].kids()[xa]);
        }
    }
}

impl<T: MeasuredBTreeData> MeasuredBTree<T> {
    /// The children of an internal node are distinct valid indices, one level below it,
    /// attached and not free; they are leaves exactly when the node sits at level 1.
    proof fn lemma_kids_facts(&self, a: Set<int>, x: int)
        requires
            self.wf_but(a),
            0 <= x < self.pool@.len(),
            self.pool@[x] is Internal,
            forall|j: int| #[trigger] a.contains(j) ==> self.level@[j] >= self.level@[x],
        ensures
            forall|k: int| 0 <= k < self.pool@[x].kids().len() ==> {
                let c = #[trigger] self.pool@[x].kids()[k] as int;
                &&& 0 <= c < self.pool@.len()
                &&& c != x
                &&& self.level@[c] + 1 == self.level@[x]
                &&& (self.pool@[c] is Leaf) == (self.level@[x] == 1)
                &&& !a.contains(c)
                &&& node_ok(self.pool@, self.level@, c)
                &&& is_child(self.pool@, c)
                &&& self.attached(c)
                &&& !self.is_free(c)
                &&& forall|m: int| 0 <= m < self.pool@[c].kids().len() ==> {
                    let g = #[trigger] self.pool@[c].kids()[m] as int;
                    &&& 0 <= g < self.pool@.len()
                    &&& self.level@[g] + 1 == self.level@[c]
                }
            },
            forall|k: int, m: int| 0 <= k < self.pool@[x].kids().len() && 0 <= m < self.pool@[x].kids().len()
                && #[trigger] self.pool@[x].kids()[k] == #[trigger] self.pool@[x].kids()[m] ==> k == m,
    {
        let ks = self.pool@[x].kids();
        if a.contains(x) {
            assert(node_shape_ok(self.pool@, self.level@, x));
        } else {
            assert(node_ok(self.pool@, self.level@, x));
        }
        assert forall|k: int| 0 <= k < ks.len() implies {
            let c = #[trigger] ks[k] as int;
            &&& 0 <= c < self.pool@.len()
            &&& c != x
            &&& self.level@[c] + 1 == self.level@[x]
            &&& (self.pool@[c] is Leaf) == (self.level@[x] == 1)
            &&& !a.contains(c)
            &&& node_ok(self.pool@, self.level@, c)
            &&& is_child(self.pool@, c)
            &&& self.attached(c)
            &&& !self.is_free(c)
            &&& forall|m: int| 0 <= m < self.pool@[c].kids().len() ==> {
                let g = #[trigger] self.pool@[c].kids()[m] as int;
                &&& 0 <= g < self.pool@.len()
                &&& self.level@[g] + 1 == self.level@[c]
            }
        } by {
            let c = ks[k] as int;
            match self.pool@[x] {
                MeasuredBTreeNode::Internal { children, .. } => {
                    assert(children@[k] == ks[k]);
                },
                MeasuredBTreeNode::Leaf { .. } => {},
            }
            assert(is_child(self.pool@, c));
            assert(c != x);
            assert(node_ok(self.pool@, self.level@, c));
            if self.is_free(c) {
                self.lemma_free_detached(c);
            }
            assert forall|m: int| 0 <= m < self.pool@[c].kids().len() implies {
                let g = #[trigger] self.pool@[c].kids()[m] as int;
                &&& 0 <= g < self.pool@.len()
                &&& self.level@[g] + 1 == self.level@[c]
            } by {
                match self.pool@[c] {
                    MeasuredBTreeNode::Internal { children, .. } => {
                        assert(children@[m] == self.pool@[c].kids()[m]);
                    },
                    MeasuredBTreeNode::Leaf { .. } => {},
                }
            }
        }
    }

    /// The effect of a rebalancing step among the children of `parent`: consistency outside
    /// `a`, the sum of the weights of the children of `parent` and the items under `parent`,
    /// in order, are kept, and only `parent` and its children change.
    closed spec fn rebalanced(&self, old_self: Self, a: Set<int>, parent: int) -> bool {
        &&& self.wf_but(a)
        &&& items_under(self.pool@, parent, self.level@[parent]) == items_under(old_self.pool@, parent, old_self.level@[parent])
        &&& psum(kid_models(self.pool@, self.pool@[parent].kids())) == psum(kid_models(old_self.pool@, old_self.pool@[parent].kids()))
        &&& self.root_idx == old_self.root_idx
        &&& self.level == old_self.level
        &&& self.pool@.len() == old_self.pool@.len()
        &&& self.pool@[parent] is Internal
        &&& self.pool@[parent].weight() == old_self.pool@[parent].weight()
        &&& forall|j: int| 0 <= j < self.pool@.len() && j != parent && !in_list(old_self.pool@[parent].kids(), j)
            ==> #[trigger] self.pool@[j] == old_self.pool@[j]
        &&& forall|j: int| #[trigger] self.is_free(j) ==> old_self.is_free(j) || in_list(old_self.pool@[parent].kids(), j)
        &&& forall|j: int| #[trigger] old_self.is_free(j) ==> self.is_free(j)
        &&& forall|j: int| #[trigger] self.attached(j) ==> old_self.attached(j)
    }

    /// Moves one item between the adjacent leaf children `from_i` and `to_i` of `parent`.
    fn shift_leaf_item(&mut self, parent: PoolIndex, from_i: usize, to_i: usize, Ghost(a): Ghost<Set<int>>)
        requires
            old(self).wf_but(a),
            a.contains(parent as int),
            forall|j: int| #[trigger] a.contains(j) ==> old(self).level@[j] >= old(self).level@[parent as int],
            parent < old(self).pool@.len(),
            old(self).pool@[parent as int] is Internal,
            T::Measure::fits(psum(kid_models(old(self).pool@, old(self).pool@[parent as int].kids()))),
            from_i < old(self).pool@[parent as int].kids().len(),
            to_i < old(self).pool@[parent as int].kids().len(),
            from_i + 1 == to_i || to_i + 1 == from_i,
            old(self).level@[parent as int] == 1,
            old(self).pool@[old(self).pool@[parent as int].kids()[from_i as int] as int].entries() > 0,
        ensures
            final(self).rebalanced(*old(self), a, parent as int),
            final(self).pool@[parent as int].kids() == old(self).pool@[parent as int].kids(),
            final(self).pool@[final(self).pool@[parent as int].kids()[to_i as int] as int].entries()
                == old(self).pool@[old(self).pool@[parent as int].kids()[to_i as int] as int].entries() + 1,
            final(self).pool@[final(self).pool@[parent as int].kids()[from_i as int] as int].entries() + 1
                == old(self).pool@[old(self).pool@[parent as int].kids()[from_i as int] as int].entries(),
            (final(self).pool@[final(self).pool@[parent as int].kids()[from_i as int] as int] is Leaf)
                == (old(self).pool@[old(self).pool@[parent as int].kids()[from_i as int] as int] is Leaf),
            forall|k: int| 0 <= k < old(self).pool@[parent as int].kids().len() && k != from_i && k != to_i
                ==> final(self).pool@[#[trigger] old(self).pool@[parent as int].kids()[k] as int]
                    == old(self).pool@[old(self).pool@[parent as int].kids()[k] as int],
    {
        let ghost old_self = *self;
        let ghost ks = self.pool@[parent as int].kids();
        proof {
            self.lemma_kids_facts(a, parent as int);
        }
        let from = self.get_child_idx(parent, from_i);
        let to = self.get_child_idx(parent, to_i);
        let ghost f = from as int;
        let ghost t = to as int;
        proof {
            assert(f != t);
            let km = kid_models(self.pool@, ks);
            lemma_psum_two_below(km, from_i as int, to_i as int);
            assert(node_ok(self.pool@, self.level@, f));
            assert(node_ok(self.pool@, self.level@, t));
            let fi = self.pool@[f].items();
            let ti = self.pool@[t].items();
            if from_i < to_i {
                assert(data_models(fi) =~= data_models(fi.drop_last()).push(fi.last().spec_measure().model()));
                lemma_psum_push(data_models(fi.drop_last()), fi.last().spec_measure().model());
                assert(data_models(ti.insert(0, fi.last())) =~= data_models(ti).insert(0, fi.last().spec_measure().model()));
                lemma_psum_insert(data_models(ti), 0, fi.last().spec_measure().model());
                T::Measure::lemma_fits_below(psum(kid_models(self.pool@, ks)), psum(data_models(fi.drop_last())));
                T::Measure::lemma_fits_below(psum(kid_models(self.pool@, ks)), psum(data_models(ti.insert(0, fi.last()))));
            } else {
                assert(data_models(fi) =~= data_models(fi.drop_first()).insert(0, fi[0].spec_measure().model()));
                lemma_psum_insert(data_models(fi.drop_first()), 0, fi[0].spec_measure().model());
                assert(data_models(ti.push(fi[0])) =~= data_models(ti).push(fi[0].spec_measure().model()));
                lemma_psum_push(data_models(ti), fi[0].spec_measure().model());
                T::Measure::lemma_fits_below(psum(kid_models(self.pool@, ks)), psum(data_models(fi.drop_first())));
                T::Measure::lemma_fits_below(psum(kid_models(self.pool@, ks)), psum(data_models(ti.push(fi[0]))));
            }
        }
        if from_i < to_i {
            self.borrow_from_left_leaf(from, to);
        } else {
            self.borrow_from_right_leaf(from, to);
        }
        proof {
            let i = if from_i < to_i { from_i as int } else { to_i as int };
            let opool = old_self.pool@;
            let fi = opool[f].items();
            let ti = opool[t].items();
            let nf = self.pool@[f].items();
            let nt = self.pool@[t].items();
            assert(items_under(self.pool@, f, 0) == nf);
            assert(items_under(self.pool@, t, 0) == nt);
            assert(items_under(opool, f, 0) == fi);
            assert(items_under(opool, t, 0) == ti);
            if from_i < to_i {
                assert(nf + nt =~= fi + ti);
                assert(ks[i] as int == f && ks[i + 1] as int == t);
            } else {
                assert(nt + nf =~= ti + fi);
                assert(ks[i] as int == t && ks[i + 1] as int == f);
            }
        }
        proof {
            assert forall|k: int| 0 <= k < ks.len() && k != from_i && k != to_i
                implies self.pool@[#[trigger] ks[k] as int] == old_self.pool@[ks[k] as int] by {
                assert(ks[k] != ks[from_i as int] && ks[k] != ks[to_i as int]);
            }
        }
        proof {
            let fi = old_self.pool@[f].items();
            let ti = old_self.pool@[t].items();
            assert forall|k: int| 0 <= k < self.pool@[f].items().len() implies (#[trigger] self.pool@[f].items()[k]).wf() by {
                if from_i < to_i {
                    assert(self.pool@[f].items()[k] == fi[k]);
                } else {
                    assert(self.pool@[f].items()[k] == fi[k + 1]);
                }
            }
            assert forall|k: int| 0 <= k < self.pool@[t].items().len() implies (#[trigger] self.pool@[t].items()[k]).wf() by {
                if from_i < to_i {
                    if k > 0 {
                        assert(self.pool@[t].items()[k] == ti[k - 1]);
                    } else {
                        assert(fi[fi.len() - 1].wf());
                    }
                } else {
                    if k < ti.len() {
                        assert(self.pool@[t].items()[k] == ti[k]);
                    } else {
                        assert(fi[0].wf());
                    }
                }
            }
            assert(node_ok(self.pool@, self.level@, f));
            assert(node_ok(self.pool@, self.level@, t));
            lemma_siblings_changed(old_self.pool@, self.pool@, self.level@, a, parent as int, from_i as int, to_i as int);
            assert forall|j: int| 0 <= j < self.pool@.len() implies (#[trigger] self.pool@[j]).kids() == old_self.pool@[j].kids()
                && (self.pool@[j] is Leaf) == (old_self.pool@[j] is Leaf) by {}
            self.lemma_shape_same_kids(old_self);
            assert forall|j: int| 0 <= j < self.pool@.len() && j != parent && !in_list(ks, j)
                implies #[trigger] self.pool@[j] == old_self.pool@[j] by {
                if j == f {
                    assert(ks[from_i as int] as int == j);
                }
                if j == t {
                    assert(ks[to_i as int] as int == j);
                }
            }
        }
        proof {
            let i = if from_i < to_i { from_i as int } else { to_i as int };
            Self::lemma_rebalance_low(old_self, *self, a, parent as int, Seq::<PoolIndex>::empty());
            assert(self.pool@[parent as int] == old_self.pool@[parent as int]);
            lemma_parent_pair_kept(old_self.pool@, self.pool@, self.level@, parent as int, i);
        }
    }
}

impl<T: MeasuredBTreeData> MeasuredBTree<T> {
    /// Moves one child between the adjacent internal children `from_i` and `to_i` of
    /// `parent`.
    #[verifier::rlimit(90)]
    #[verifier::spinoff_prover]
    fn shift_internal_child(&mut self, parent: PoolIndex, from_i: usize, to_i: usize, Ghost(a): Ghost<Set<int>>)
        requires
            old(self).wf_but(a),
            a.contains(parent as int),
            forall|j: int| #[trigger] a.contains(j) ==> old(self).level@[j] >= old(self).level@[parent as int],
            parent < old(self).pool@.len(),
            old(self).pool@[parent as int] is Internal,
            T::Measure::fits(psum(kid_models(old(self).pool@, old(self).pool@[parent as int].kids()))),
            from_i < old(self).pool@[parent as int].kids().len(),
            to_i < old(self).pool@[parent as int].kids().len(),
            from_i + 1 == to_i || to_i + 1 == from_i,
            old(self).level@[parent as int] > 1,
            old(self).pool@[old(self).pool@[parent as int].kids()[from_i as int] as int].entries() > 1,
        ensures
            final(self).rebalanced(*old(self), a, parent as int),
            final(self).pool@[parent as int].kids() == old(self).pool@[parent as int].kids(),
            final(self).pool@[final(self).pool@[parent as int].kids()[to_i as int] as int].entries()
                == old(self).pool@[old(self).pool@[parent as int].kids()[to_i as int] as int].entries() + 1,
            final(self).pool@[final(self).pool@[parent as int].kids()[from_i as int] as int].entries() + 1
                == old(self).pool@[old(self).pool@[parent as int].kids()[from_i as int] as int].entries(),
            (final(self).pool@[final(self).pool@[parent as int].kids()[from_i as int] as int] is Leaf)
                == (old(self).pool@[old(self).pool@[parent as int].kids()[from_i as int] as int] is Leaf),
            forall|k: int| 0 <= k < old(self).pool@[parent as int].kids().len() && k != from_i && k != to_i
                ==> final(self).pool@[#[trigger] old(self).pool@[parent as int].kids()[k] as int]
                    == old(self).pool@[old(self).pool@[parent as int].kids()[k] as int],
    {
        let ghost old_self = *self;
        let ghost ks = self.pool@[parent as int].kids();
        proof {
            self.lemma_kids_facts(a, parent as int);
        }
        let from = self.get_child_idx(parent, from_i);
        let to = self.get_child_idx(parent, to_i);
        let ghost f = from as int;
        let ghost t = to as int;
        let ghost fk = self.pool@[f].kids();
        let ghost tk = self.pool@[t].kids();
        proof {
            assert(f != t);
            let km = kid_models(self.pool@, ks);
            lemma_psum_two_below(km, from_i as int, to_i as int);
            assert(node_ok(self.pool@, self.level@, f));
            assert(node_ok(self.pool@, self.level@, t));
            assert forall|m: int| 0 <= m < fk.len() implies #[trigger] fk[m] != f && fk[m] != t && fk[m] < self.pool@.len() by {
                assert(self.level@[fk[m] as int] + 1 == self.level@[f]);
            }
            assert forall|m: int| 0 <= m < tk.len() implies #[trigger] tk[m] != f && tk[m] != t && tk[m] < self.pool@.len() by {
                assert(self.level@[tk[m] as int] + 1 == self.level@[t]);
            }
            let fm = kid_models(self.pool@, fk);
            let tm = kid_models(self.pool@, tk);
            if from_i < to_i {
                assert(fm =~= kid_models(self.pool@, fk.drop_last()).push(self.pool@[fk.last() as int].weight()));
                lemma_psum_push(kid_models(self.pool@, fk.drop_last()), self.pool@[fk.last() as int].weight());
                assert(kid_models(self.pool@, tk.insert(0, fk.last())) =~= tm.insert(0, self.pool@[fk.last() as int].weight()));
                lemma_psum_insert(tm, 0, self.pool@[fk.last() as int].weight());
                T::Measure::lemma_fits_below(psum(kid_models(self.pool@, ks)), psum(kid_models(self.pool@, fk.drop_last())));
                T::Measure::lemma_fits_below(psum(kid_models(self.pool@, ks)), psum(kid_models(self.pool@, tk.insert(0, fk.last()))));
            } else {
                assert(fm =~= kid_models(self.pool@, fk.drop_first()).insert(0, self.pool@[fk[0] as int].weight()));
                lemma_psum_insert(kid_models(self.pool@, fk.drop_first()), 0, self.pool@[fk[0] as int].weight());
                assert(kid_models(self.pool@, tk.push(fk[0])) =~= tm.push(self.pool@[fk[0] as int].weight()));
                lemma_psum_push(tm, self.pool@[fk[0] as int].weight());
                T::Measure::lemma_fits_below(psum(kid_models(self.pool@, ks)), psum(kid_models(self.pool@, fk.drop_first())));
                T::Measure::lemma_fits_below(psum(kid_models(self.pool@, ks)), psum(kid_models(self.pool@, tk.push(fk[0]))));
            }
        }
        if from_i < to_i {
            self.borrow_from_left_internal(from, to);
        } else {
            self.borrow_from_right_internal(from, to);
        }
        proof {
            assert forall|k: int| 0 <= k < ks.len() && k != from_i && k != to_i
                implies self.pool@[#[trigger] ks[k] as int] == old_self.pool@[ks[k] as int] by {
                assert(ks[k] != ks[from_i as int] && ks[k] != ks[to_i as int]);
            }
        }
        proof {
            let opool = old_self.pool@;
            let pool = self.pool@;
            let nf = pool[f].kids();
            let nt = pool[t].kids();
            let lf = fk.len() as int;
            assert forall|m: int| 0 <= m < nf.len() implies {
                &&& (#[trigger] nf[m]) < pool.len()
                &&& self.level@[nf[m] as int] + 1 == self.level@[f]
            } by {
                if from_i < to_i {
                    assert(nf[m] == fk[m]);
                } else {
                    assert(nf[m] == fk[m + 1]);
                }
            }
            assert forall|m: int| 0 <= m < nt.len() implies {
                &&& (#[trigger] nt[m]) < pool.len()
                &&& self.level@[nt[m] as int] + 1 == self.level@[t]
            } by {
                if from_i < to_i {
                    if m > 0 {
                        assert(nt[m] == tk[m - 1]);
                    } else {
                        assert(nt[0] == fk[lf - 1]);
                    }
                } else {
                    if m < tk.len() {
                        assert(nt[m] == tk[m]);
                    } else {
                        assert(nt[m] == fk[0]);
                    }
                }
            }
            assert(kid_models(pool, nf) =~= kid_models(opool, nf));
            assert(kid_models(pool, nt) =~= kid_models(opool, nt));
            assert(node_ok(pool, self.level@, f));
            assert(node_ok(pool, self.level@, t));
            lemma_siblings_changed(opool, pool, self.level@, a, parent as int, from_i as int, to_i as int);
            let fp = |p: int, a: int| {
                if from_i < to_i {
                    if p == t && a == 0 { f } else if p == t { t } else { p }
                } else {
                    if p == f { f } else if p == t && a == tk.len() { f } else { p }
                }
            };
            let fa = |p: int, a: int| {
                if from_i < to_i {
                    if p == t && a == 0 { lf - 1 } else if p == t { a - 1 } else { a }
                } else {
                    if p == f { a + 1 } else if p == t && a == tk.len() { 0 } else { a }
                }
            };
            assert forall|p: int, a: int|
                #![trigger pool[p].kids()[a]]
                0 <= p < pool.len() && 0 <= a < pool[p].kids().len() implies {
                    &&& 0 <= fp(p, a) < opool.len()
                    &&& 0 <= fa(p, a) < opool[fp(p, a)].kids().len()
                    &&& pool[p].kids()[a] == opool[fp(p, a)].kids()[fa(p, a)]
                    &&& !(fp(p, a) == -1 && fa(p, a) == 0)
                } by {
                if p != f && p != t {
                    assert(pool[p] == opool[p]);
                }
            }
            lemma_edges_inject(opool, pool, fp, fa, -1, 0);
            assert forall|j: int| #[trigger] self.attached(j) implies old_self.attached(j) by {}
            assert forall|i: int| 0 <= i < pool.len() && self.attached(i) && (#[trigger] pool[i]) is Internal
                implies pool[i].kids().len() > 0 by {
                assert(old_self.attached(i));
            }
            assert forall|k: int| 0 <= k < self.free_leaves_list@.len() implies
                pool[#[trigger] self.free_leaves_list@[k] as int] == opool[self.free_leaves_list@[k] as int]
                    && !self.attached(self.free_leaves_list@[k] as int) by {
                let j = self.free_leaves_list@[k] as int;
                assert(in_list(old_self.free_leaves_list@, j));
                assert(old_self.is_free(j));
            }
            assert forall|k: int| 0 <= k < self.free_internals_list@.len() implies
                pool[#[trigger] self.free_internals_list@[k] as int] == opool[self.free_internals_list@[k] as int]
                    && !self.attached(self.free_internals_list@[k] as int) by {
                let j = self.free_internals_list@[k] as int;
                assert(in_list(old_self.free_internals_list@, j));
                assert(old_self.is_free(j));
            }
            assert(self.shape_ok());
            assert forall|j: int| 0 <= j < self.pool@.len() && j != parent && !in_list(ks, j)
                implies #[trigger] self.pool@[j] == old_self.pool@[j] by {
                if j == f {
                    assert(ks[from_i as int] as int == j);
                }
                if j == t {
                    assert(ks[to_i as int] as int == j);
                }
            }
        }
        proof {
            Self::lemma_shift_internal_tail(old_self, *self, a, parent as int, from_i as int, to_i as int);
        }
    }
}

impl<T: MeasuredBTreeData> MeasuredBTree<T> {
    /// Merges child `li + 1` of `parent` into child `li`, removes it from the children
    /// of `parent` and frees it.
    #[verifier::rlimit(80)]
    #[verifier::spinoff_prover]
    fn merge_leaf_children(&mut self, parent: PoolIndex, li: usize, Ghost(a): Ghost<Set<int>>)
        requires
            old(self).wf_but(a),
            a.contains(parent as int),
            forall|j: int| #[trigger] a.contains(j) ==> old(self).level@[j] >= old(self).level@[parent as int],
            parent < old(self).pool@.len(),
            old(self).pool@[parent as int] is Internal,
            T::Measure::fits(psum(kid_models(old(self).pool@, old(self).pool@[parent as int].kids()))),
            li + 1 < old(self).pool@[parent as int].kids().len(),
            old(self).level@[parent as int] == 1,
        ensures
            final(self).rebalanced(*old(self), a, parent as int),
            final(self).pool@[parent as int].kids() == old(self).pool@[parent as int].kids().remove(li + 1),
    {
        let ghost old_self = *self;
        let ghost ks = self.pool@[parent as int].kids();
        let n = self.node_len(parent);
        let ri = li + 1;
        proof {
            self.lemma_kids_facts(a, parent as int);
        }
        let left = self.get_child_idx(parent, li);
        let right = self.get_child_idx(parent, ri);
        let ghost l = left as int;
        let ghost r = right as int;
        let ghost lk = self.pool@[l].kids();
        let ghost rk = self.pool@[r].kids();
        proof {
            assert(l != r);
            let km = kid_models(self.pool@, ks);
            lemma_psum_two_below(km, li as int, ri as int);
            assert(node_ok(self.pool@, self.level@, l));
            assert(node_ok(self.pool@, self.level@, r));
            let li_items = self.pool@[l].items();
            let ri_items = self.pool@[r].items();
            assert(data_models(li_items + ri_items) =~= data_models(li_items) + data_models(ri_items));
            lemma_psum_concat(data_models(li_items), data_models(ri_items));
            T::Measure::lemma_fits_below(psum(kid_models(self.pool@, ks)), psum(data_models(li_items + ri_items)));
        }
        match &mut self.pool[parent] {
            MeasuredBTreeNode::Internal { children, .. } => {
                children.remove(ri);
            },
            MeasuredBTreeNode::Leaf { .. } => {},
        }
        let ghost mid = *self;
        proof {
            assert(mid.pool@[l] == old_self.pool@[l]);
            assert(mid.pool@[r] == old_self.pool@[r]);
        }
        self.merge_leaves(left, right);
        proof {
            let opool = old_self.pool@;
            let pool = self.pool@;
            let nl = pool[l].kids();
            let nk = pool[parent as int].kids();
            assert(nk =~= ks.remove(ri as int));
            let li_items = opool[l].items();
            let ri_items = opool[r].items();
            assert(data_models(li_items + ri_items) =~= data_models(li_items) + data_models(ri_items));
            lemma_psum_concat(data_models(li_items), data_models(ri_items));
            assert forall|k: int| 0 <= k < pool[l].items().len() implies (#[trigger] pool[l].items()[k]).wf() by {
                if k < li_items.len() {
                    assert(pool[l].items()[k] == li_items[k]);
                } else {
                    assert(pool[l].items()[k] == ri_items[k - li_items.len()]);
                }
            }
            assert(data_models(pool[r].items()) =~= Seq::<(nat, nat)>::empty());
            assert(node_ok(pool, self.level@, l));
            assert(node_ok(pool, self.level@, r));
            lemma_sibling_merged(opool, pool, self.level@, a, parent as int, li as int, ri as int);
            let x = parent as int;
            let fp = |p: int, a: int| {
                if p == l && a >= lk.len() { r } else { p }
            };
            let fa = |p: int, a: int| {
                if p == l && a >= lk.len() { a - lk.len() } else if p == x && a >= ri { a + 1 } else { a }
            };
            assert forall|p: int, a: int|
                #![trigger pool[p].kids()[a]]
                0 <= p < pool.len() && 0 <= a < pool[p].kids().len() implies {
                    &&& 0 <= fp(p, a) < opool.len()
                    &&& 0 <= fa(p, a) < opool[fp(p, a)].kids().len()
                    &&& pool[p].kids()[a] == opool[fp(p, a)].kids()[fa(p, a)]
                    &&& !(fp(p, a) == x && fa(p, a) == ri)
                } by {
                if p == x {
                    if a < ri {
                        assert(nk[a] == ks[a]);
                    } else {
                        assert(nk[a] == ks[a + 1]);
                    }
                } else if p == l {
                    if a < lk.len() {
                        assert(nl[a] == lk[a]);
                    } else {
                        assert(nl[a] == rk[a - lk.len()]);
                    }
                } else {
                    assert(p != r);
                    assert(pool[p] == opool[p]);
                }
            }
            lemma_edges_inject(opool, pool, fp, fa, x, ri as int);
            assert(!is_child(pool, r));
            assert forall|j: int| #[trigger] self.attached(j) implies old_self.attached(j) by {}
            assert(!self.attached(r)) by {
                if self.root_idx == Some(r as PoolIndex) {
                    assert(is_child(opool, r));
                }
            }
            assert forall|i: int| 0 <= i < pool.len() && self.attached(i) && (#[trigger] pool[i]) is Internal
                implies pool[i].kids().len() > 0 by {
                assert(old_self.attached(i));
            }
            assert(!old_self.is_free(r));
            assert forall|j: int| #[trigger] self.is_free(j) == (old_self.is_free(j) || j == r) by {
                lemma_in_list_push(old_self.free_leaves_list@, right, j);
                lemma_in_list_push(old_self.free_internals_list@, right, j);
            }
            assert forall|k: int| 0 <= k < self.free_leaves_list@.len() implies {
                &&& (#[trigger] self.free_leaves_list@[k]) < self.pool.len()
                &&& (self.pool@[self.free_leaves_list@[k] as int] is Leaf) == true
                &&& self.pool@[self.free_leaves_list@[k] as int].items().len() == 0
                &&& self.pool@[self.free_leaves_list@[k] as int].kids().len() == 0
                &&& self.pool@[self.free_leaves_list@[k] as int].weight() == (0nat, 0nat)
                &&& !self.attached(self.free_leaves_list@[k] as int)
            } by {
                let j = self.free_leaves_list@[k] as int;
                if k < old_self.free_leaves_list@.len() {
                    assert(old_self.free_leaves_list@[k] as int == j);
                    assert(in_list(old_self.free_leaves_list@, j));
                    assert(j != r);
                }
            }
            assert forall|k: int| 0 <= k < self.free_internals_list@.len() implies
                pool[#[trigger] self.free_internals_list@[k] as int] == opool[self.free_internals_list@[k] as int]
                    && !self.attached(self.free_internals_list@[k] as int) by {
                let j = self.free_internals_list@[k] as int;
                assert(in_list(old_self.free_internals_list@, j));
                assert(old_self.is_free(j));
            }
            assert(!old_self.free_leaves_list@.contains(right)) by {
                if old_self.free_leaves_list@.contains(right) {
                    let k = choose|k: int| 0 <= k < old_self.free_leaves_list@.len() && old_self.free_leaves_list@[k] == right;
                    assert(in_list(old_self.free_leaves_list@, r));
                }
            }
            assert(self.shape_ok());
            assert forall|j: int| 0 <= j < self.pool@.len() && j != parent && !in_list(ks, j)
                implies #[trigger] self.pool@[j] == old_self.pool@[j] by {
                if j == l {
                    assert(ks[li as int] as int == j);
                }
                if j == r {
                    assert(ks[ri as int] as int == j);
                }
            }
            assert forall|j: int| #[trigger] self.is_free(j) implies old_self.is_free(j) || in_list(ks, j) by {
                if j == r {
                    assert(ks[ri as int] as int == j);
                }
            }
        }
        proof {
            let p = parent as int;
            assert(items_under(self.pool@, p, self.level@[p]) == items_under(old_self.pool@, p, old_self.level@[p])) by {
                assert forall|k: int| 0 <= k < ks.len() && k != li && k != ri
                    implies self.pool@[(#[trigger] ks[k]) as int] == old_self.pool@[ks[k] as int] by {
                    assert(ks[k] != ks[li as int] && ks[k] != ks[ri as int]);
                    assert(ks[k] as int != p);
                }
                assert(ks[li as int] as int == l && ks[li + 1] as int == r);
                assert(self.pool@[l].items() == old_self.pool@[l].items() + old_self.pool@[r].items());
                Self::lemma_merge_items(old_self, *self, a, p, li as int);
            }
        }
    }
}
impl<T: MeasuredBTreeData> MeasuredBTree<T> {
    /// Merges child `li + 1` of `parent` into child `li`, removes it from the children
    /// of `parent` and frees it.
    #[verifier::rlimit(100)]
    #[verifier::spinoff_prover]
    fn merge_internal_children(&mut self, parent: PoolIndex, li: usize, Ghost(a): Ghost<Set<int>>)
        requires
            old(self).wf_but(a),
            a.contains(parent as int),
            forall|j: int| #[trigger] a.contains(j) ==> old(self).level@[j] >= old(self).level@[parent as int],
            parent < old(self).pool@.len(),
            old(self).pool@[parent as int] is Internal,
            T::Measure::fits(psum(kid_models(old(self).pool@, old(self).pool@[parent as int].kids()))),
            li + 1 < old(self).pool@[parent as int].kids().len(),
            old(self).level@[parent as int] > 1,
        ensures
            final(self).rebalanced(*old(self), a, parent as int),
            final(self).pool@[parent as int].kids() == old(self).pool@[parent as int].kids().remove(li + 1),
    {
        let ghost old_self = *self;
        let ghost ks = self.pool@[parent as int].kids();
        let n = self.node_len(parent);
        let ri = li + 1;
        proof {
            self.lemma_kids_facts(a, parent as int);
        }
        let left = self.get_child_idx(parent, li);
        let right = self.get_child_idx(parent, ri);
        let ghost l = left as int;
        let ghost r = right as int;
        let ghost lk = self.pool@[l].kids();
        let ghost rk = self.pool@[r].kids();
        proof {
            assert(l != r);
            let km = kid_models(self.pool@, ks);
            lemma_psum_two_below(km, li as int, ri as int);
            assert(node_ok(self.pool@, self.level@, l));
            assert(node_ok(self.pool@, self.level@, r));
            assert forall|m: int| 0 <= m < lk.len() implies #[trigger] lk[m] != l && lk[m] != r && lk[m] < self.pool@.len() by {
                assert(self.level@[lk[m] as int] + 1 == self.level@[l]);
            }
            assert forall|m: int| 0 <= m < rk.len() implies #[trigger] rk[m] != l && rk[m] != r && rk[m] < self.pool@.len() by {
                assert(self.level@[rk[m] as int] + 1 == self.level@[r]);
            }
            assert(kid_models(self.pool@, lk + rk) =~= kid_models(self.pool@, lk) + kid_models(self.pool@, rk));
            lemma_psum_concat(kid_models(self.pool@, lk), kid_models(self.pool@, rk));
            T::Measure::lemma_fits_below(psum(kid_models(self.pool@, ks)), psum(kid_models(self.pool@, lk + rk)));
        }
        match &mut self.pool[parent] {
            MeasuredBTreeNode::Internal { children, .. } => {
                children.remove(ri);
            },
            MeasuredBTreeNode::Leaf { .. } => {},
        }
        let ghost mid = *self;
        proof {
            assert(mid.pool@[l] == old_self.pool@[l]);
            assert(mid.pool@[r] == old_self.pool@[r]);
            assert(kid_models(mid.pool@, lk + rk) =~= kid_models(old_self.pool@, lk + rk));
        }
        self.merge_internals(left, right);
        proof {
            let opool = old_self.pool@;
            let pool = self.pool@;
            let nl = pool[l].kids();
            let nk = pool[parent as int].kids();
            assert(nk =~= ks.remove(ri as int));
            assert forall|m: int| 0 <= m < nl.len() implies {
                &&& (#[trigger] nl[m]) < pool.len()
                &&& self.level@[nl[m] as int] + 1 == self.level@[l]
            } by {
                if m < lk.len() {
                    assert(nl[m] == lk[m]);
                } else {
                    assert(nl[m] == rk[m - lk.len()]);
                }
            }
            assert(kid_models(pool, nl) =~= kid_models(opool, nl));
            assert(kid_models(opool, lk + rk) =~= kid_models(opool, lk) + kid_models(opool, rk));
            lemma_psum_concat(kid_models(opool, lk), kid_models(opool, rk));
            assert(kid_models(pool, pool[r].kids()) =~= Seq::<(nat, nat)>::empty());
            assert(node_ok(pool, self.level@, l));
            assert(node_ok(pool, self.level@, r));
            lemma_sibling_merged(opool, pool, self.level@, a, parent as int, li as int, ri as int);
            let x = parent as int;
            let fp = |p: int, a: int| {
                if p == l && a >= lk.len() { r } else { p }
            };
            let fa = |p: int, a: int| {
                if p == l && a >= lk.len() { a - lk.len() } else if p == x && a >= ri { a + 1 } else { a }
            };
            assert forall|p: int, a: int|
                #![trigger pool[p].kids()[a]]
                0 <= p < pool.len() && 0 <= a < pool[p].kids().len() implies {
                    &&& 0 <= fp(p, a) < opool.len()
                    &&& 0 <= fa(p, a) < opool[fp(p, a)].kids().len()
                    &&& pool[p].kids()[a] == opool[fp(p, a)].kids()[fa(p, a)]
                    &&& !(fp(p, a) == x && fa(p, a) == ri)
                } by {
                if p == x {
                    if a < ri {
                        assert(nk[a] == ks[a]);
                    } else {
                        assert(nk[a] == ks[a + 1]);
                    }
                } else if p == l {
                    if a < lk.len() {
                        assert(nl[a] == lk[a]);
                    } else {
                        assert(nl[a] == rk[a - lk.len()]);
                    }
                } else {
                    assert(p != r);
                    assert(pool[p] == opool[p]);
                }
            }
            lemma_edges_inject(opool, pool, fp, fa, x, ri as int);
            assert(!is_child(pool, r));
            assert forall|j: int| #[trigger] self.attached(j) implies old_self.attached(j) by {}
            assert(!self.attached(r)) by {
                if self.root_idx == Some(r as PoolIndex) {
                    assert(is_child(opool, r));
                }
            }
            assert forall|i: int| 0 <= i < pool.len() && self.attached(i) && (#[trigger] pool[i]) is Internal
                implies pool[i].kids().len() > 0 by {
                assert(old_self.attached(i));
            }
            assert(!old_self.is_free(r));
            assert forall|j: int| #[trigger] self.is_free(j) == (old_self.is_free(j) || j == r) by {
                lemma_in_list_push(old_self.free_leaves_list@, right, j);
                lemma_in_list_push(old_self.free_internals_list@, right, j);
            }
            assert forall|k: int| 0 <= k < self.free_internals_list@.len() implies {
                &&& (#[trigger] self.free_internals_list@[k]) < self.pool.len()
                &&& (self.pool@[self.free_internals_list@[k] as int] is Leaf) == false
                &&& self.pool@[self.free_internals_list@[k] as int].items().len() == 0
                &&& self.pool@[self.free_internals_list@[k] as int].kids().len() == 0
                &&& self.pool@[self.free_internals_list@[k] as int].weight() == (0nat, 0nat)
                &&& !self.attached(self.free_internals_list@[k] as int)
            } by {
                let j = self.free_internals_list@[k] as int;
                if k < old_self.free_internals_list@.len() {
                    assert(old_self.free_internals_list@[k] as int == j);
                    assert(in_list(old_self.free_internals_list@, j));
                    assert(j != r);
                }
            }
            assert forall|k: int| 0 <= k < self.free_leaves_list@.len() implies
                pool[#[trigger] self.free_leaves_list@[k] as int] == opool[self.free_leaves_list@[k] as int]
                    && !self.attached(self.free_leaves_list@[k] as int) by {
                let j = self.free_leaves_list@[k] as int;
                assert(in_list(old_self.free_leaves_list@, j));
                assert(old_self.is_free(j));
            }
            assert(!old_self.free_internals_list@.contains(right)) by {
                if old_self.free_internals_list@.contains(right) {
                    let k = choose|k: int| 0 <= k < old_self.free_internals_list@.len() && old_self.free_internals_list@[k] == right;
                    assert(in_list(old_self.free_internals_list@, r));
                }
            }
            assert(self.shape_ok());
            assert forall|j: int| 0 <= j < self.pool@.len() && j != parent && !in_list(ks, j)
                implies #[trigger] self.pool@[j] == old_self.pool@[j] by {
                if j == l {
                    assert(ks[li as int] as int == j);
                }
                if j == r {
                    assert(ks[ri as int] as int == j);
                }
            }
            assert forall|j: int| #[trigger] self.is_free(j) implies old_self.is_free(j) || in_list(ks, j) by {
                if j == r {
                    assert(ks[ri as int] as int == j);
                }
            }
        }
        proof {
            let p = parent as int;
            assert(items_under(self.pool@, p, self.level@[p]) == items_under(old_self.pool@, p, old_self.level@[p])) by {
                assert forall|k: int| 0 <= k < ks.len() && k != li && k != ri
                    implies self.pool@[(#[trigger] ks[k]) as int] == old_self.pool@[ks[k] as int] by {
                    assert(ks[k] != ks[li as int] && ks[k] != ks[ri as int]);
                    assert(ks[k] as int != p);
                }
                assert(ks[li as int] as int == l && ks[li + 1] as int == r);
                assert(self.pool@[l].kids() == old_self.pool@[l].kids() + old_self.pool@[r].kids());
                Self::lemma_merge_items(old_self, *self, a, p, li as int);
            }
        }
    }
}

impl<T: MeasuredBTreeData> MeasuredBTree<T> {
    /// Two rebalancing steps in a row are a rebalancing step.
    /// What a rebalancing step among the children of `parent` keeps below them: every node
    /// below the children, and so the items under any list of grandchildren.
    proof fn lemma_rebalance_low(old_self: Self, new: Self, a: Set<int>, parent: int, x: Seq<PoolIndex>)
        requires
            old_self.wf_but(a),
            forall|j: int| #[trigger] a.contains(j) ==> old_self.level@[j] >= old_self.level@[parent],
            0 <= parent < old_self.pool@.len(),
            old_self.pool@[parent] is Internal,
            new.pool@.len() == old_self.pool@.len(),
            new.level == old_self.level,
            forall|j: int| 0 <= j < new.pool@.len() && j != parent && !in_list(old_self.pool@[parent].kids(), j)
                ==> #[trigger] new.pool@[j] == old_self.pool@[j],
            forall|k: int| 0 <= k < x.len() ==> (#[trigger] x[k]) < old_self.pool@.len()
                && old_self.level@[x[k] as int] + 2 == old_self.level@[parent],
        ensures
            forall|j: int| 0 <= j < old_self.pool@.len() ==> #[trigger] node_shape_ok(old_self.pool@, old_self.level@, j),
            forall|j: int| 0 <= j < old_self.pool@.len() && old_self.level@[j] + 1 < old_self.level@[parent]
                ==> #[trigger] new.pool@[j] == old_self.pool@[j],
            old_self.level@[parent] >= 2 ==> items_of_kids(new.pool@, x, (old_self.level@[parent] - 2) as nat)
                == items_of_kids(old_self.pool@, x, (old_self.level@[parent] - 2) as nat),
    {
        let pool = old_self.pool@;
        let level = old_self.level@;
        let ks = pool[parent].kids();
        old_self.lemma_kids_facts(a, parent);
        assert forall|j: int| 0 <= j < pool.len() implies #[trigger] node_shape_ok(pool, level, j) by {
            if !a.contains(j) {
                assert(node_ok(pool, level, j));
            }
        }
        assert forall|j: int| 0 <= j < pool.len() && level[j] + 1 < level[parent]
            implies #[trigger] new.pool@[j] == pool[j] by {
            if in_list(ks, j) {
                let k = choose|k: int| 0 <= k < ks.len() && #[trigger] ks[k] as int == j;
                assert(level[ks[k] as int] + 1 == level[parent]);
            }
        }
        if level[parent] >= 2 {
            let d = (level[parent] - 2) as nat;
            assert forall|k: int| 0 <= k < x.len() implies new.pool@[(#[trigger] x[k]) as int] == pool[x[k] as int] by {
                assert(level[x[k] as int] + 1 < level[parent]);
            }
            lemma_kids_low_frame(pool, new.pool@, level, x, d);
        }
    }

    /// The items under `parent` are kept when its adjacent children `i` and `i + 1` trade
    /// entries between them, keeping their entries in order, and nothing else below it
    /// changes.
    proof fn lemma_shift_items(old_self: Self, new: Self, a: Set<int>, parent: int, i: int)
        requires
            old_self.wf_but(a),
            forall|j: int| #[trigger] a.contains(j) ==> old_self.level@[j] >= old_self.level@[parent],
            0 <= parent < old_self.pool@.len(),
            old_self.pool@[parent] is Internal,
            new.pool@.len() == old_self.pool@.len(),
            new.level == old_self.level,
            forall|j: int| 0 <= j < new.pool@.len() && j != parent && !in_list(old_self.pool@[parent].kids(), j)
                ==> #[trigger] new.pool@[j] == old_self.pool@[j],
            new.pool@[parent] is Internal,
            new.pool@[parent].kids() == old_self.pool@[parent].kids(),
            0 <= i,
            i + 1 < old_self.pool@[parent].kids().len(),
            forall|k: int| 0 <= k < old_self.pool@[parent].kids().len() && k != i && k != i + 1
                ==> new.pool@[(#[trigger] old_self.pool@[parent].kids()[k]) as int]
                    == old_self.pool@[old_self.pool@[parent].kids()[k] as int],
            ({
                let l = old_self.pool@[parent].kids()[i] as int;
                let r = old_self.pool@[parent].kids()[i + 1] as int;
                if old_self.pool@[l] is Leaf {
                    &&& new.pool@[l] is Leaf
                    &&& new.pool@[r] is Leaf
                    &&& new.pool@[l].items() + new.pool@[r].items() == old_self.pool@[l].items() + old_self.pool@[r].items()
                } else {
                    &&& new.pool@[l] is Internal
                    &&& new.pool@[r] is Internal
                    &&& new.pool@[l].kids() + new.pool@[r].kids() == old_self.pool@[l].kids() + old_self.pool@[r].kids()
                }
            }),
        ensures
            items_under(new.pool@, parent, new.level@[parent]) == items_under(old_self.pool@, parent, old_self.level@[parent]),
    {
        let pool = old_self.pool@;
        let level = old_self.level@;
        let ks = pool[parent].kids();
        let l = ks[i] as int;
        let r = ks[i + 1] as int;
        let d = (level[parent] - 1) as nat;
        old_self.lemma_kids_facts(a, parent);
        assert(level[l] + 1 == level[parent] && level[r] + 1 == level[parent]);
        if pool[l] is Leaf {
            Self::lemma_rebalance_low(old_self, new, a, parent, Seq::<PoolIndex>::empty());
            assert(items_under(new.pool@, l, d) == new.pool@[l].items());
            assert(items_under(new.pool@, r, d) == new.pool@[r].items());
            assert(items_under(pool, l, d) == pool[l].items());
            assert(items_under(pool, r, d) == pool[r].items());
        } else {
            let lk = pool[l].kids();
            let rk = pool[r].kids();
            let x = lk + rk;
            assert(pool[r] is Internal);
            assert forall|k: int| 0 <= k < x.len() implies (#[trigger] x[k]) < pool.len()
                && level[x[k] as int] + 2 == level[parent] by {
                if k < lk.len() {
                    assert(x[k] == lk[k]);
                } else {
                    assert(x[k] == rk[k - lk.len()]);
                }
            }
            Self::lemma_rebalance_low(old_self, new, a, parent, x);
            let e = (d - 1) as nat;
            assert(level[parent] >= 2);
            lemma_items_of_kids_concat(pool, lk, rk, e);
            lemma_items_of_kids_concat(new.pool@, new.pool@[l].kids(), new.pool@[r].kids(), e);
            assert(items_under(new.pool@, l, d) == items_of_kids(new.pool@, new.pool@[l].kids(), e));
            assert(items_under(new.pool@, r, d) == items_of_kids(new.pool@, new.pool@[r].kids(), e));
            assert(items_under(pool, l, d) == items_of_kids(pool, lk, e));
            assert(items_under(pool, r, d) == items_of_kids(pool, rk, e));
        }
        lemma_parent_pair_kept(pool, new.pool@, level, parent, i);
    }

    /// The items under `parent` are kept when one grandchild moves between the adjacent
    /// internal children `from_i` and `to_i` of `parent`, from the near end of one to the
    /// near end of the other.
    proof fn lemma_shift_internal_tail(old_self: Self, new: Self, a: Set<int>, parent: int, from_i: int, to_i: int)
        requires
            old_self.wf_but(a),
            forall|j: int| #[trigger] a.contains(j) ==> old_self.level@[j] >= old_self.level@[parent],
            0 <= parent < old_self.pool@.len(),
            old_self.pool@[parent] is Internal,
            0 <= from_i < old_self.pool@[parent].kids().len(),
            0 <= to_i < old_self.pool@[parent].kids().len(),
            from_i + 1 == to_i || to_i + 1 == from_i,
            new.pool@.len() == old_self.pool@.len(),
            new.level == old_self.level,
            forall|j: int| 0 <= j < new.pool@.len() && j != parent && !in_list(old_self.pool@[parent].kids(), j)
                ==> #[trigger] new.pool@[j] == old_self.pool@[j],
            new.pool@[parent] == old_self.pool@[parent],
            forall|k: int| 0 <= k < old_self.pool@[parent].kids().len() && k != from_i && k != to_i
                ==> new.pool@[#[trigger] old_self.pool@[parent].kids()[k] as int]
                    == old_self.pool@[old_self.pool@[parent].kids()[k] as int],
            ({
                let f = old_self.pool@[parent].kids()[from_i] as int;
                let t = old_self.pool@[parent].kids()[to_i] as int;
                let fk = old_self.pool@[f].kids();
                let tk = old_self.pool@[t].kids();
                &&& old_self.pool@[f] is Internal
                &&& new.pool@[f] is Internal
                &&& new.pool@[t] is Internal
                &&& fk.len() > 0
                &&& from_i < to_i ==> new.pool@[f].kids() == fk.drop_last() && new.pool@[t].kids() == tk.insert(0, fk.last())
                &&& to_i < from_i ==> new.pool@[f].kids() == fk.drop_first() && new.pool@[t].kids() == tk.push(fk[0])
            }),
        ensures
            items_under(new.pool@, parent, new.level@[parent]) == items_under(old_self.pool@, parent, old_self.level@[parent]),
    {
        let ks = old_self.pool@[parent].kids();
        let f = ks[from_i] as int;
        let t = ks[to_i] as int;
        let fk = old_self.pool@[f].kids();
        let tk = old_self.pool@[t].kids();
        let fk2 = new.pool@[f].kids();
        let tk2 = new.pool@[t].kids();
        let i = if from_i < to_i { from_i } else { to_i };
        old_self.lemma_kids_facts(a, parent);
        assert(old_self.pool@[t] is Internal);
        if from_i < to_i {
            assert(fk2 + tk2 =~= fk + tk);
            assert(ks[i] as int == f && ks[i + 1] as int == t);
        } else {
            assert(tk2 + fk2 =~= tk + fk);
            assert(ks[i] as int == t && ks[i + 1] as int == f);
        }
        assert forall|k: int| 0 <= k < ks.len() && k != i && k != i + 1
            implies new.pool@[(#[trigger] ks[k]) as int] == old_self.pool@[ks[k] as int] by {}
        Self::lemma_shift_items(old_self, new, a, parent, i);
    }

    /// The items under `parent` are kept when its child `i + 1` is merged into child `i`
    /// and removed from its children, and nothing else below it changes.
    proof fn lemma_merge_items(old_self: Self, new: Self, a: Set<int>, parent: int, i: int)
        requires
            old_self.wf_but(a),
            forall|j: int| #[trigger] a.contains(j) ==> old_self.level@[j] >= old_self.level@[parent],
            0 <= parent < old_self.pool@.len(),
            old_self.pool@[parent] is Internal,
            new.pool@.len() == old_self.pool@.len(),
            new.level == old_self.level,
            forall|j: int| 0 <= j < new.pool@.len() && j != parent && !in_list(old_self.pool@[parent].kids(), j)
                ==> #[trigger] new.pool@[j] == old_self.pool@[j],
            new.pool@[parent] is Internal,
            0 <= i,
            i + 1 < old_self.pool@[parent].kids().len(),
            new.pool@[parent].kids() == old_self.pool@[parent].kids().remove(i + 1),
            forall|k: int| 0 <= k < old_self.pool@[parent].kids().len() && k != i && k != i + 1
                ==> new.pool@[(#[trigger] old_self.pool@[parent].kids()[k]) as int]
                    == old_self.pool@[old_self.pool@[parent].kids()[k] as int],
            ({
                let l = old_self.pool@[parent].kids()[i] as int;
                let r = old_self.pool@[parent].kids()[i + 1] as int;
                if old_self.pool@[l] is Leaf {
                    &&& new.pool@[l] is Leaf
                    &&& new.pool@[l].items() == old_self.pool@[l].items() + old_self.pool@[r].items()
                } else {
                    &&& new.pool@[l] is Internal
                    &&& new.pool@[l].kids() == old_self.pool@[l].kids() + old_self.pool@[r].kids()
                }
            }),
        ensures
            items_under(new.pool@, parent, new.level@[parent]) == items_under(old_self.pool@, parent, old_self.level@[parent]),
    {
        let pool = old_self.pool@;
        let level = old_self.level@;
        let ks = pool[parent].kids();
        let l = ks[i] as int;
        let r = ks[i + 1] as int;
        let d = (level[parent] - 1) as nat;
        old_self.lemma_kids_facts(a, parent);
        assert(level[l] + 1 == level[parent] && level[r] + 1 == level[parent]);
        if pool[l] is Leaf {
            Self::lemma_rebalance_low(old_self, new, a, parent, Seq::<PoolIndex>::empty());
            assert(pool[r] is Leaf);
            assert(items_under(new.pool@, l, d) == new.pool@[l].items());
            assert(items_under(pool, l, d) == pool[l].items());
            assert(items_under(pool, r, d) == pool[r].items());
        } else {
            let lk = pool[l].kids();
            let rk = pool[r].kids();
            let x = lk + rk;
            assert(pool[r] is Internal);
            assert forall|k: int| 0 <= k < x.len() implies (#[trigger] x[k]) < pool.len()
                && level[x[k] as int] + 2 == level[parent] by {
                if k < lk.len() {
                    assert(x[k] == lk[k]);
                } else {
                    assert(x[k] == rk[k - lk.len()]);
                }
            }
            Self::lemma_rebalance_low(old_self, new, a, parent, x);
            let e = (d - 1) as nat;
            assert(level[parent] >= 2);
            lemma_items_of_kids_concat(pool, lk, rk, e);
            assert(items_under(new.pool@, l, d) == items_of_kids(new.pool@, new.pool@[l].kids(), e));
            assert(items_under(pool, l, d) == items_of_kids(pool, lk, e));
            assert(items_under(pool, r, d) == items_of_kids(pool, rk, e));
        }
        lemma_parent_merge_kept(pool, new.pool@, level, parent, i);
    }

    proof fn lemma_rebalanced_trans(x: Self, b: Self, c: Self, a: Set<int>, parent: int)
        requires
            b.rebalanced(x, a, parent),
            c.rebalanced(b, a, parent),
            forall|j: int| #[trigger] in_list(b.pool@[parent].kids(), j) ==> in_list(x.pool@[parent].kids(), j),
        ensures
            c.rebalanced(x, a, parent),
    {
        assert forall|j: int| 0 <= j < c.pool@.len() && j != parent && !in_list(x.pool@[parent].kids(), j)
            implies #[trigger] c.pool@[j] == x.pool@[j] by {
            assert(c.pool@[j] == b.pool@[j]);
        }
        assert forall|j: int| #[trigger] c.is_free(j) implies x.is_free(j) || in_list(x.pool@[parent].kids(), j) by {
            assert(b.is_free(j) || in_list(b.pool@[parent].kids(), j));
        }
        assert forall|j: int| #[trigger] x.is_free(j) implies c.is_free(j) by {
            assert(b.is_free(j));
        }
        assert forall|j: int| #[trigger] c.attached(j) implies x.attached(j) by {
            assert(b.attached(j));
        }
    }

    /// Brings child `child_i` of `parent_pool_idx` back towards its minimum size by
    /// borrowing one entry from an adjacent sibling that has more than the minimum (the
    /// left one first), and otherwise merges it with an adjacent sibling (the left one
    /// first).
    fn balance_child(&mut self, parent_pool_idx: PoolIndex, child_i: usize, Ghost(a): Ghost<Set<int>>)
        requires
            old(self).wf_but(a),
            a.contains(parent_pool_idx as int),
            forall|j: int| #[trigger] a.contains(j) ==> old(self).level@[j] >= old(self).level@[parent_pool_idx as int],
            parent_pool_idx < old(self).pool@.len(),
            old(self).pool@[parent_pool_idx as int] is Internal,
            T::Measure::fits(psum(kid_models(old(self).pool@, old(self).pool@[parent_pool_idx as int].kids()))),
            child_i < old(self).pool@[parent_pool_idx as int].kids().len(),
            old(self).pool@[parent_pool_idx as int].kids().len() >= 2,
        ensures
            final(self).rebalanced(*old(self), a, parent_pool_idx as int),
            ({
                let ok = old(self).pool@[parent_pool_idx as int].kids();
                let nk = final(self).pool@[parent_pool_idx as int].kids();
                ||| (exists|m: int| 0 <= m < ok.len() && nk == ok.remove(m))
                ||| (nk == ok && final(self).pool@[nk[child_i as int] as int].entries()
                    == old(self).pool@[ok[child_i as int] as int].entries() + 1
                    && forall|k: int| 0 <= k < nk.len() && k != child_i && filled(old(self).pool@[ok[k] as int])
                        ==> filled(#[trigger] final(self).pool@[nk[k] as int]))
            }),
    {
        let ghost old_self = *self;
        let parent = parent_pool_idx;
        proof {
            self.lemma_kids_facts(a, parent as int);
        }
        let child_pool_idx = self.get_child_idx(parent, child_i);
        let parent_len = self.node_len(parent);
        let is_leaf = self.pool[child_pool_idx].is_leaf();
        let min_cap = get_min_cap(is_leaf);
        let ghost ok = old_self.pool@[parent as int].kids();
        proof {
            assert(old_self.pool@[ok[child_i as int] as int] is Leaf == is_leaf);
        }
        if child_i > 0 {
            let sib = self.get_child_idx(parent, child_i - 1);
            if self.node_len(sib) > min_cap {
                if is_leaf {
                    self.shift_leaf_item(parent, child_i - 1, child_i, Ghost(a));
                } else {
                    self.shift_internal_child(parent, child_i - 1, child_i, Ghost(a));
                }
                proof {
                    let d = child_i - 1;
                    assert(old_self.pool@[ok[d] as int] is Leaf == is_leaf);
                    assert(filled(self.pool@[ok[d] as int]));
                    assert forall|k: int| 0 <= k < ok.len() && k != child_i && filled(old_self.pool@[ok[k] as int])
                        implies filled(#[trigger] self.pool@[ok[k] as int]) by {
                        if k != d {
                            assert(self.pool@[ok[k] as int] == old_self.pool@[ok[k] as int]);
                        }
                    }
                }
                return ;
            }
        }
        if child_i + 1 < parent_len {
            let sib = self.get_child_idx(parent, child_i + 1);
            if self.node_len(sib) > min_cap {
                if is_leaf {
                    self.shift_leaf_item(parent, child_i + 1, child_i, Ghost(a));
                } else {
                    self.shift_internal_child(parent, child_i + 1, child_i, Ghost(a));
                }
                proof {
                    let d = child_i + 1;
                    assert(old_self.pool@[ok[d] as int] is Leaf == is_leaf);
                    assert(filled(self.pool@[ok[d] as int]));
                    assert forall|k: int| 0 <= k < ok.len() && k != child_i && filled(old_self.pool@[ok[k] as int])
                        implies filled(#[trigger] self.pool@[ok[k] as int]) by {
                        if k != d {
                            assert(self.pool@[ok[k] as int] == old_self.pool@[ok[k] as int]);
                        }
                    }
                }
                return ;
            }
        }
        let li = if child_i > 0 { child_i - 1 } else { child_i };
        if is_leaf {
            self.merge_leaf_children(parent, li, Ghost(a));
        } else {
            self.merge_internal_children(parent, li, Ghost(a));
        }
    }

    /// Heals the children of `parent_pool_idx` that are below their minimum size, from
    /// left to right, starting over after every merge. A node left with a single child
    /// is left for its own parent to heal.
    fn rebalance_children(&mut self, parent_pool_idx: PoolIndex, Ghost(a): Ghost<Set<int>>)
        requires
            old(self).wf_but(a),
            a.contains(parent_pool_idx as int),
            forall|j: int| #[trigger] a.contains(j) ==> old(self).level@[j] >= old(self).level@[parent_pool_idx as int],
            parent_pool_idx < old(self).pool@.len(),
            old(self).pool@[parent_pool_idx as int] is Internal,
            T::Measure::fits(psum(kid_models(old(self).pool@, old(self).pool@[parent_pool_idx as int].kids()))),
            old(self).pool@[parent_pool_idx as int].kids().len() > 0,
        ensures
            final(self).rebalanced(*old(self), a, parent_pool_idx as int),
            final(self).pool@[parent_pool_idx as int].kids().len() > 0,
            forall|j: int| #[trigger] in_list(final(self).pool@[parent_pool_idx as int].kids(), j)
                ==> in_list(old(self).pool@[parent_pool_idx as int].kids(), j),
            final(self).pool@[parent_pool_idx as int].kids().len() == 1
                || forall|k: int| 0 <= k < final(self).pool@[parent_pool_idx as int].kids().len()
                    ==> filled(#[trigger] final(self).pool@[final(self).pool@[parent_pool_idx as int].kids()[k] as int]),
    {
        let ghost old_self = *self;
        let parent = parent_pool_idx;
        let mut idx: usize = 0;
        proof {
            assert forall|j: int| 0 <= j < self.pool@.len() && j != parent && !in_list(old_self.pool@[parent as int].kids(), j)
                implies #[trigger] self.pool@[j] == old_self.pool@[j] by {}
        }
        loop
            invariant
                self.rebalanced(old_self, a, parent as int),
                T::Measure::fits(psum(kid_models(self.pool@, self.pool@[parent as int].kids()))),
                a.contains(parent as int),
                forall|j: int| #[trigger] a.contains(j) ==> self.level@[j] >= self.level@[parent as int],
                parent < self.pool@.len(),
                self.pool@[parent as int].kids().len() > 0,
                forall|j: int| #[trigger] in_list(self.pool@[parent as int].kids(), j)
                    ==> in_list(old_self.pool@[parent as int].kids(), j),
                idx <= self.pool@[parent as int].kids().len(),
                forall|k: int| 0 <= k < idx ==> filled(#[trigger] self.pool@[self.pool@[parent as int].kids()[k] as int]),
            ensures
                idx >= self.pool@[parent as int].kids().len() || self.pool@[parent as int].kids().len() <= 1,
            decreases
                self.pool@[parent as int].kids().len(),
                self.pool@[parent as int].kids().len() - idx,
                if idx < self.pool@[parent as int].kids().len() {
                    16 - self.pool@[self.pool@[parent as int].kids()[idx as int] as int].entries()
                } else {
                    0
                },
        {
            let parent_len = self.node_len(parent);
            if idx >= parent_len || parent_len <= 1 {
                break;
            }
            proof {
                self.lemma_kids_facts(a, parent as int);
            }
            let child_pool_idx = self.get_child_idx(parent, idx);
            let is_leaf = self.pool[child_pool_idx].is_leaf();
            let min_cap = get_min_cap(is_leaf);
            if self.node_len(child_pool_idx) >= min_cap {
                proof {
                    assert(filled(self.pool@[self.pool@[parent as int].kids()[idx as int] as int]));
                }
                idx += 1;
                continue;
            }
            let ghost before = *self;
            self.balance_child(parent, idx, Ghost(a));
            proof {
                let ok = before.pool@[parent as int].kids();
                let nk = self.pool@[parent as int].kids();
                assert forall|j: int| #[trigger] in_list(nk, j) implies in_list(ok, j) by {
                    let k = choose|k: int| 0 <= k < nk.len() && #[trigger] nk[k] as int == j;
                    if nk != ok {
                        let m = choose|m: int| 0 <= m < ok.len() && nk == ok.remove(m);
                        if k < m {
                            assert(ok[k] == nk[k]);
                        } else {
                            assert(ok[k + 1] == nk[k]);
                        }
                    } else {
                        assert(ok[k] == nk[k]);
                    }
                }
                Self::lemma_rebalanced_trans(old_self, before, *self, a, parent as int);
            }
            if self.node_len(parent) < parent_len {
                idx = 0;
            } else {
                proof {
                    let ok = before.pool@[parent as int].kids();
                    let nk = self.pool@[parent as int].kids();
                    if nk != ok {
                        let m = choose|m: int| 0 <= m < ok.len() && nk == ok.remove(m);
                        assert(nk.len() < ok.len());
                    }
                    assert(nk == ok);
                    assert forall|k: int| 0 <= k < idx implies filled(#[trigger] self.pool@[nk[k] as int]) by {
                        assert(filled(before.pool@[ok[k] as int]));
                    }
                }
            }
        }
    }
}

/// Nodes in `r` changed and are consistent, and are children only of nodes in `a`; the
/// other nodes are unchanged: consistency outside `a` is kept.
pub proof fn lemma_nodes_but_frame<T: MeasuredBTreeData>(
    opool: Seq<MeasuredBTreeNode<T>>,
    olevel: Seq<nat>,
    pool: Seq<MeasuredBTreeNode<T>>,
    level: Seq<nat>,
    a: Set<int>,
    r: Set<int>,
)
    requires
        nodes_ok_but(opool, olevel, a),
        level.len() == pool.len(),
        pool.len() >= opool.len(),
        forall|i: int| 0 <= i < opool.len() && !r.contains(i) ==> pool[i] == opool[i] && level[i] == olevel[i],
        forall|i: int| opool.len() <= i < pool.len() ==> r.contains(i),
        forall|i: int| 0 <= i < pool.len() && r.contains(i) ==> !a.contains(i) && node_ok(pool, level, i),
        forall|i: int, k: int| 0 <= i < opool.len() && !a.contains(i) && 0 <= k < opool[i].kids().len()
            ==> !r.contains(#[trigger] opool[i].kids()[k] as int),
        forall|i: int| 0 <= i < opool.len() && is_child(opool, i) ==> level[i] == olevel[i],
    ensures
        nodes_ok_but(pool, level, a),
{
    assert forall|i: int| 0 <= i < pool.len() && !a.contains(i) implies #[trigger] node_ok(pool, level, i) by {
        if !r.contains(i) {
            assert(node_ok(opool, olevel, i));
            assert forall|k: int| 0 <= k < opool[i].kids().len() implies {
                let c = #[trigger] opool[i].kids()[k];
                &&& pool[c as int].weight() == opool[c as int].weight()
                &&& level[c as int] == olevel[c as int]
            } by {
                let c = opool[i].kids()[k];
                assert(!r.contains(c as int));
                match opool[i] {
                    MeasuredBTreeNode::Internal { children, .. } => {
                        assert(children@[k] == c);
                    },
                    MeasuredBTreeNode::Leaf { .. } => {},
                }
            }
            lemma_node_frame_one(opool, olevel, pool, level, i, (0nat, 0nat), r);
        }
    }
    assert forall|i: int| 0 <= i < pool.len() && a.contains(i) implies #[trigger] node_shape_ok(pool, level, i) by {
        assert(node_shape_ok(opool, olevel, i));
        match opool[i] {
            MeasuredBTreeNode::Internal { children, .. } => {
                assert forall|k: int| 0 <= k < children@.len() implies level[children@[k] as int] == olevel[children@[k] as int] by {
                    assert(opool[i].kids()[k] == children@[k]);
                    assert(is_child(opool, children@[k] as int));
                }
            },
            MeasuredBTreeNode::Leaf { .. } => {},
        }
    }
}

/// Node `x`, whose cached measure was free to differ, changed only in its cached measure
/// and is consistent now; its parents are in `a`: all nodes outside `a` are consistent.
pub proof fn lemma_fix_but<T: MeasuredBTreeData>(
    opool: Seq<MeasuredBTreeNode<T>>,
    pool: Seq<MeasuredBTreeNode<T>>,
    level: Seq<nat>,
    a: Set<int>,
    x: int,
)
    requires
        nodes_ok_but(opool, level, a.insert(x)),
        !a.contains(x),
        0 <= x < opool.len(),
        pool.len() == opool.len(),
        forall|j: int| 0 <= j < pool.len() && j != x ==> pool[j] == opool[j],
        node_ok(pool, level, x),
        forall|i: int, k: int| 0 <= i < opool.len() && 0 <= k < opool[i].kids().len()
            && #[trigger] opool[i].kids()[k] == x ==> a.contains(i),
    ensures
        nodes_ok_but(pool, level, a),
{
    assert forall|i: int| 0 <= i < pool.len() && !a.contains(i) implies #[trigger] node_ok(pool, level, i) by {
        if i != x {
            assert(node_ok(opool, level, i));
            assert forall|k: int| 0 <= k < opool[i].kids().len() implies {
                let c = #[trigger] opool[i].kids()[k];
                &&& pool[c as int].weight() == opool[c as int].weight()
                &&& level[c as int] == level[c as int]
            } by {
                let c = opool[i].kids()[k];
                match opool[i] {
                    MeasuredBTreeNode::Internal { children, .. } => {
                        assert(children@[k] == c);
                    },
                    MeasuredBTreeNode::Leaf { .. } => {},
                }
            }
            lemma_node_frame_one(opool, level, pool, level, i, (0nat, 0nat), set![x]);
        }
    }
    assert forall|i: int| 0 <= i < pool.len() && a.contains(i) implies #[trigger] node_shape_ok(pool, level, i) by {
        assert(node_shape_ok(opool, level, i));
    }
}

impl<T: MeasuredBTreeData> MeasuredBTree<T> {
    /// Inserts the detached node `ns` into the children of `idx`, whose cached measure is
    /// free to differ, at position `at`.
    fn attach_sibling(&mut self, idx: PoolIndex, at: usize, ns: PoolIndex, Ghost(a): Ghost<Set<int>>)
        requires
            old(self).wf_but(a),
            a.contains(idx as int),
            idx < old(self).pool@.len(),
            old(self).pool@[idx as int] is Internal,
            old(self).attached(idx as int),
            0 < at <= old(self).pool@[idx as int].kids().len(),
            ns < old(self).pool@.len(),
            ns != idx,
            !old(self).attached(ns as int),
            !old(self).is_free(ns as int),
            old(self).pool@[ns as int] is Internal ==> old(self).pool@[ns as int].kids().len() > 0,
            old(self).level@[ns as int] + 1 == old(self).level@[idx as int],
        ensures
            final(self).wf_but(a),
            final(self).root_idx == old(self).root_idx,
            final(self).level == old(self).level,
            final(self).pool@.len() == old(self).pool@.len(),
            final(self).pool@[idx as int] is Internal,
            final(self).pool@[idx as int].weight() == old(self).pool@[idx as int].weight(),
            final(self).pool@[idx as int].kids() == old(self).pool@[idx as int].kids().insert(at as int, ns),
            psum(kid_models(final(self).pool@, final(self).pool@[idx as int].kids())) == padd(
                psum(kid_models(old(self).pool@, old(self).pool@[idx as int].kids())),
                old(self).pool@[ns as int].weight(),
            ),
            forall|j: int| 0 <= j < old(self).pool@.len() && j != idx ==> #[trigger] final(self).pool@[j] == old(self).pool@[j],
            forall|j: int| #[trigger] final(self).is_free(j) == old(self).is_free(j),
            forall|j: int| #[trigger] final(self).attached(j) == (old(self).attached(j) || j == ns),
    {
        let ghost old_self = *self;
        let ghost ks = self.pool@[idx as int].kids();
        match &mut self.pool[idx] {
            MeasuredBTreeNode::Internal { children, .. } => {
                children.insert(at, ns);
            },
            MeasuredBTreeNode::Leaf { .. } => {},
        }
        proof {
            self.lemma_attach_kid(old_self, idx as int, at as int, ns as int);
            assert(node_shape_ok(old_self.pool@, old_self.level@, idx as int));
            let nk = self.pool@[idx as int].kids();
            assert(nk =~= ks.insert(at as int, ns));
            match self.pool@[idx as int] {
                MeasuredBTreeNode::Internal { children, .. } => {
                    assert forall|k: int| 0 <= k < children@.len() implies {
                        &&& (#[trigger] children@[k]) < self.pool@.len()
                        &&& self.level@[children@[k] as int] + 1 == self.level@[idx as int]
                    } by {
                        match old_self.pool@[idx as int] {
                            MeasuredBTreeNode::Internal { children: oc, .. } => {
                                if k < at {
                                    assert(children@[k] == oc@[k]);
                                } else if k > at {
                                    assert(children@[k] == oc@[k - 1]);
                                }
                            },
                            MeasuredBTreeNode::Leaf { .. } => {},
                        }
                    }
                },
                MeasuredBTreeNode::Leaf { .. } => {},
            }
            assert forall|i: int| 0 <= i < self.pool@.len() && !a.contains(i) implies #[trigger] node_ok(self.pool@, self.level@, i) by {
                assert(node_ok(old_self.pool@, old_self.level@, i));
                assert forall|k: int| 0 <= k < old_self.pool@[i].kids().len() implies {
                    let c = #[trigger] old_self.pool@[i].kids()[k];
                    &&& self.pool@[c as int].weight() == old_self.pool@[c as int].weight()
                    &&& self.level@[c as int] == old_self.level@[c as int]
                } by {
                    let c = old_self.pool@[i].kids()[k];
                    match old_self.pool@[i] {
                        MeasuredBTreeNode::Internal { children, .. } => {
                            assert(children@[k] == c);
                        },
                        MeasuredBTreeNode::Leaf { .. } => {},
                    }
                    if c == idx {
                        assert(self.pool@[idx as int].weight() == old_self.pool@[idx as int].weight());
                    }
                }
                lemma_node_frame_one(old_self.pool@, old_self.level@, self.pool@, self.level@, i, (0nat, 0nat), set![idx as int]);
            }
            assert forall|i: int| 0 <= i < self.pool@.len() && a.contains(i) implies #[trigger] node_shape_ok(self.pool@, self.level@, i) by {
                if i != idx {
                    assert(node_shape_ok(old_self.pool@, old_self.level@, i));
                }
            }
            let km = kid_models(old_self.pool@, ks);
            assert forall|k: int| 0 <= k < ks.len() implies #[trigger] ks[k] != idx by {
                match old_self.pool@[idx as int] {
                    MeasuredBTreeNode::Internal { children, .. } => {
                        assert(children@[k] == ks[k]);
                    },
                    MeasuredBTreeNode::Leaf { .. } => {},
                }
            }
            assert(kid_models(self.pool@, nk) =~= km.insert(at as int, old_self.pool@[ns as int].weight()));
            lemma_psum_insert(km, at as int, old_self.pool@[ns as int].weight());
        }
    }
}

impl<T: MeasuredBTreeData> MeasuredBTree<T> {
    /// Deletion at a leaf: removes `length` from offset `target` of the leaf and splits the
    /// leaf when it became full.
    fn delete_leaf_step(&mut self, pool_idx: PoolIndex, target: T::Measure, length: T::Measure, Ghost(a): Ghost<Set<int>>)
        -> (r: Option<PoolIndex>)
        requires
            old(self).wf_but(a),
            pool_idx < old(self).pool@.len(),
            !a.contains(pool_idx as int),
            forall|j: int| #[trigger] a.contains(j) ==> 0 <= j < old(self).pool@.len()
                && old(self).level@[j] > old(self).level@[pool_idx as int] && !old(self).is_free(j),
            forall|p: int, k: int| 0 <= p < old(self).pool@.len() && 0 <= k < old(self).pool@[p].kids().len()
                && #[trigger] old(self).pool@[p].kids()[k] == pool_idx ==> a.contains(p),
            old(self).attached(pool_idx as int),
            old(self).pool@[pool_idx as int] is Leaf,
        ensures
            final(self).wf_but(a),
            final(self).root_idx == old(self).root_idx,
            final(self).pool@.len() >= old(self).pool@.len(),
            forall|j: int| 0 <= j < old(self).pool@.len() && !old(self).is_free(j)
                && old(self).level@[j] >= old(self).level@[pool_idx as int]
                ==> #[trigger] final(self).level@[j] == old(self).level@[j],
            forall|j: int| 0 <= j < old(self).pool@.len() && !old(self).is_free(j) && j != pool_idx
                && old(self).level@[j] >= old(self).level@[pool_idx as int]
                ==> #[trigger] final(self).pool@[j] == old(self).pool@[j] && !final(self).is_free(j),
            final(self).pool@[pool_idx as int] is Leaf == old(self).pool@[pool_idx as int] is Leaf,
            r is None ==> pbelow(final(self).pool@[pool_idx as int].weight(), old(self).pool@[pool_idx as int].weight()),
            primary_only::<T::Measure>() ==> (r is None ==> final(self).pool@[pool_idx as int].weight().0
                + removed_amount(old(self).pool@[pool_idx as int].weight().0, target.model().0, length.model().0)
                == old(self).pool@[pool_idx as int].weight().0),
            primary_only::<T::Measure>() ==> (r matches Some(s) ==> final(self).pool@[pool_idx as int].weight().0
                + final(self).pool@[s as int].weight().0
                + removed_amount(old(self).pool@[pool_idx as int].weight().0, target.model().0, length.model().0)
                == old(self).pool@[pool_idx as int].weight().0),
            r matches Some(s) ==> {
                &&& s < final(self).pool@.len()
                &&& s != pool_idx
                &&& !final(self).attached(s as int)
                &&& !final(self).is_free(s as int)
                &&& final(self).level@[s as int] == old(self).level@[pool_idx as int]
                &&& (final(self).pool@[s as int] is Internal ==> final(self).pool@[s as int].kids().len() > 0)
                &&& pbelow(padd(final(self).pool@[pool_idx as int].weight(), final(self).pool@[s as int].weight()),
                    old(self).pool@[pool_idx as int].weight())
            },
            r matches Some(s) ==> final(self).pool@[s as int] is Leaf,
            primary_only::<T::Measure>() ==> deleted_at(old(self).pool@[pool_idx as int].items(),
                match r {
                    Some(s) => final(self).pool@[pool_idx as int].items() + final(self).pool@[s as int].items(),
                    None => final(self).pool@[pool_idx as int].items(),
                }, target.model().0, length.model().0),
    {
        let ghost old_self = *self;
        proof {
            assert(node_ok(self.pool@, self.level@, pool_idx as int));
        }
        self.delete_in_leaf(pool_idx, target, length);
        proof {
            assert(node_ok(self.pool@, self.level@, pool_idx as int));
            assert forall|j: int| 0 <= j < self.pool@.len() implies (#[trigger] self.pool@[j]).kids() == old_self.pool@[j].kids()
                && (self.pool@[j] is Leaf) == (old_self.pool@[j] is Leaf) by {}
            self.lemma_shape_same_kids(old_self);
            lemma_nodes_but_frame(old_self.pool@, old_self.level@, self.pool@, self.level@, a, set![pool_idx as int]);
        }
        if self.pool[pool_idx].is_full() {
            let ghost b_self = *self;
            let s = self.split_leaf(pool_idx);
            proof {
                if s < b_self.pool@.len() {
                    b_self.lemma_free_detached(s as int);
                }
                assert forall|i: int, k: int| 0 <= i < b_self.pool@.len() && !a.contains(i) && 0 <= k < b_self.pool@[i].kids().len()
                    implies !set![pool_idx as int, s as int].contains(#[trigger] b_self.pool@[i].kids()[k] as int) by {
                    assert(is_child(b_self.pool@, b_self.pool@[i].kids()[k] as int));
                    assert(b_self.pool@[i] == old_self.pool@[i]);
                }
                assert forall|i: int| 0 <= i < b_self.pool@.len() && is_child(b_self.pool@, i) implies self.level@[i] == b_self.level@[i] by {}
                lemma_nodes_but_frame(b_self.pool@, b_self.level@, self.pool@, self.level@, a, set![pool_idx as int, s as int]);
                let bi = b_self.pool@[pool_idx as int].items();
                assert(self.pool@[pool_idx as int].items() + self.pool@[s as int].items() =~= bi);
            }
            return Some(s);
        }
        None
    }

    /// Routes a deletion of `length` from offset `target` down from node `pool_idx`,
    /// recomputing the cached measures on the way back up and handling the splits and
    /// underflows of the children. Returns the new right sibling of `pool_idx` when
    /// `pool_idx` itself split. The nodes in `a`, the ancestors of `pool_idx`, may have
    /// stale cached measures.
    #[verifier::rlimit(100)]
    #[verifier::spinoff_prover]
    fn delete_recursive(&mut self, pool_idx: PoolIndex, target: T::Measure, length: T::Measure, Ghost(a): Ghost<Set<int>>)
        -> (r: Option<PoolIndex>)
        requires
            old(self).wf_but(a),
            pool_idx < old(self).pool@.len(),
            !a.contains(pool_idx as int),
            forall|j: int| #[trigger] a.contains(j) ==> 0 <= j < old(self).pool@.len()
                && old(self).level@[j] > old(self).level@[pool_idx as int] && !old(self).is_free(j),
            forall|p: int, k: int| 0 <= p < old(self).pool@.len() && 0 <= k < old(self).pool@[p].kids().len()
                && #[trigger] old(self).pool@[p].kids()[k] == pool_idx ==> a.contains(p),
            old(self).attached(pool_idx as int),
            old(self).root_idx is Some,
            under(old(self).pool@, old(self).root_idx->0 as int, old(self).level@[old(self).root_idx->0 as int],
                pool_idx as int),
        ensures
            final(self).wf_but(a),
            old(self).kept_outside(*final(self), pool_idx as int),
            primary_only::<T::Measure>() ==> deleted_at(
                items_under(old(self).pool@, pool_idx as int, old(self).level@[pool_idx as int]),
                match r {
                    Some(s) => items_under(final(self).pool@, pool_idx as int, final(self).level@[pool_idx as int])
                        + items_under(final(self).pool@, s as int, final(self).level@[s as int]),
                    None => items_under(final(self).pool@, pool_idx as int, final(self).level@[pool_idx as int]),
                }, target.model().0, length.model().0),
            final(self).root_idx == old(self).root_idx,
            final(self).pool@.len() >= old(self).pool@.len(),
            forall|j: int| 0 <= j < old(self).pool@.len() && !old(self).is_free(j)
                && old(self).level@[j] >= old(self).level@[pool_idx as int]
                ==> #[trigger] final(self).level@[j] == old(self).level@[j],
            forall|j: int| 0 <= j < old(self).pool@.len() && !old(self).is_free(j) && j != pool_idx
                && old(self).level@[j] >= old(self).level@[pool_idx as int]
                ==> #[trigger] final(self).pool@[j] == old(self).pool@[j] && !final(self).is_free(j),
            final(self).pool@[pool_idx as int] is Leaf == old(self).pool@[pool_idx as int] is Leaf,
            r is None ==> pbelow(final(self).pool@[pool_idx as int].weight(), old(self).pool@[pool_idx as int].weight()),
            primary_only::<T::Measure>() ==> (r is None ==> final(self).pool@[pool_idx as int].weight().0
                + removed_amount(old(self).pool@[pool_idx as int].weight().0, target.model().0, length.model().0)
                == old(self).pool@[pool_idx as int].weight().0),
            primary_only::<T::Measure>() ==> (r matches Some(s) ==> final(self).pool@[pool_idx as int].weight().0
                + final(self).pool@[s as int].weight().0
                + removed_amount(old(self).pool@[pool_idx as int].weight().0, target.model().0, length.model().0)
                == old(self).pool@[pool_idx as int].weight().0),
            r matches Some(s) ==> {
                &&& s < final(self).pool@.len()
                &&& s != pool_idx
                &&& !final(self).attached(s as int)
                &&& !final(self).is_free(s as int)
                &&& final(self).level@[s as int] == old(self).level@[pool_idx as int]
                &&& (final(self).pool@[s as int] is Internal ==> final(self).pool@[s as int].kids().len() > 0)
                &&& pbelow(padd(final(self).pool@[pool_idx as int].weight(), final(self).pool@[s as int].weight()),
                    old(self).pool@[pool_idx as int].weight())
            },
        decreases old(self).level@[pool_idx as int],
    {
        if self.pool[pool_idx].is_leaf() {
            let ghost lo = *self;
            let r = self.delete_leaf_step(pool_idx, target, length, Ghost(a));
            proof {
                Self::lemma_delete_leaf_law(lo, *self, a, pool_idx as int, r, target.model().0, length.model().0);
            }
            return r;
        }
        let ghost old_self = *self;
        let ghost a2 = a.insert(pool_idx as int);
        let ghost w0 = self.pool@[pool_idx as int].weight();
        proof {
            assert(node_ok(self.pool@, self.level@, pool_idx as int));
            assert(nodes_ok_but(self.pool@, self.level@, a2));
            assert(self.wf_but(a2));
            T::Measure::lemma_fits(self.pool@[pool_idx as int].node_measure());
            assert(!old_self.is_free(pool_idx as int)) by {
                if old_self.is_free(pool_idx as int) {
                    old_self.lemma_free_detached(pool_idx as int);
                }
            }
        }
        let mut i: usize = 0;
        let mut local_length = length;
        let mut local_target = target;
        let zero = T::Measure::zero();
        let ghost po = primary_only::<T::Measure>();
        let ghost t = target.model().0;
        let ghost len0 = length.model().0;
        let ghost big = old_self.level@[pool_idx as int];
        let ghost sa = atoms(items_under(old_self.pool@, pool_idx as int, big));
        let ghost p0: int = if t <= sa.len() { t as int } else { sa.len() as int };
        proof {
            Self::lemma_delete_setup(old_self, a, pool_idx as int, t, sa, p0);
        }
        loop
            invariant
                po == primary_only::<T::Measure>(),
                t == target.model().0,
                len0 == length.model().0,
                zero.model() == (0nat, 0nat),
                local_length.model().0 <= len0,
                po ==> psum(kid_models(self.pool@, self.pool@[pool_idx as int].kids())).0
                    + (len0 - local_length.model().0) == w0.0,
                po ==> (local_length.model().0 > 0 ==> psum(kid_models(self.pool@,
                    self.pool@[pool_idx as int].kids()).take(i as int)).0 + local_target.model().0 == t),
                po ==> (local_length.model().0 < len0 ==> psum(kid_models(self.pool@,
                    self.pool@[pool_idx as int].kids()).take(i as int)).0 >= t),
                po ==> (local_target.model().0 == 0 || local_length.model().0 == len0),
                old_self == *old(self),
                old_self.shape_ok(),
                shapes(old_self.pool@, old_self.level@),
                old_self.root_idx is Some,
                under(old_self.pool@, old_self.root_idx->0 as int, old_self.level@[old_self.root_idx->0 as int],
                    pool_idx as int),
                old_self.kept_outside(*self, pool_idx as int),
                big == old_self.level@[pool_idx as int],
                sa.len() == w0.0,
                p0 == (if t <= sa.len() { t as int } else { sa.len() as int }),
                po ==> p0 + (len0 - local_length.model().0) <= sa.len(),
                po ==> atoms(items_of_kids(self.pool@, self.pool@[pool_idx as int].kids(), (big - 1) as nat))
                    == sa.take(p0) + sa.skip(p0 + (len0 - local_length.model().0)),
                self.wf_but(a2),
                a2 == a.insert(pool_idx as int),
                !a.contains(pool_idx as int),
                forall|j: int| #[trigger] a.contains(j) ==> 0 <= j < old_self.pool@.len()
                    && old_self.level@[j] > old_self.level@[pool_idx as int] && !old_self.is_free(j),
                pool_idx < old_self.pool@.len(),
                self.pool@.len() >= old_self.pool@.len(),
                self.root_idx == old_self.root_idx,
                self.pool@[pool_idx as int] is Internal,
                self.attached(pool_idx as int),
                self.pool@[pool_idx as int].weight() == w0,
                w0 == old_self.pool@[pool_idx as int].weight(),
                self.level@[pool_idx as int] == old_self.level@[pool_idx as int],
                !old_self.is_free(pool_idx as int),
                pbelow(psum(kid_models(self.pool@, self.pool@[pool_idx as int].kids())), w0),
                T::Measure::fits(w0),
                i <= self.pool@[pool_idx as int].kids().len(),
                forall|j: int| 0 <= j < old_self.pool@.len() && !old_self.is_free(j)
                    && old_self.level@[j] >= old_self.level@[pool_idx as int]
                    ==> #[trigger] self.level@[j] == old_self.level@[j],
                forall|j: int| 0 <= j < old_self.pool@.len() && !old_self.is_free(j) && j != pool_idx
                    && old_self.level@[j] >= old_self.level@[pool_idx as int]
                    ==> #[trigger] self.pool@[j] == old_self.pool@[j] && !self.is_free(j),
            ensures
                po ==> (local_length.model().0 == 0 || i >= self.pool@[pool_idx as int].kids().len()),
            decreases self.pool@[pool_idx as int].kids().len() - i,
        {
            proof {
                if po {
                    assert(local_length.model().1 == 0);
                    assert(local_target.model().1 == 0);
                }
            }
            if !zero.less_than(&local_length) {
                break;
            }
            let n = self.node_len(pool_idx);
            if i >= n {
                break;
            }
            proof {
                assert forall|j: int| #[trigger] a2.contains(j) implies self.level@[j] >= self.level@[pool_idx as int] by {
                    if j != pool_idx {
                        assert(self.level@[j] == old_self.level@[j]);
                    }
                }
                self.lemma_kids_facts(a2, pool_idx as int);
            }
            let c = self.get_child_idx(pool_idx, i);
            let cm = self.pool[c].measure();
            if cm.at_most(&local_target) {
                assert(psum(kid_models(self.pool@, self.pool@[pool_idx as int].kids()).take(i + 1))
                    == padd(psum(kid_models(self.pool@, self.pool@[pool_idx as int].kids()).take(i as int)), cm.model())) by {
                    let kk = self.pool@[pool_idx as int].kids();
                    let km = kid_models(self.pool@, kk);
                    assert(kk[i as int] == c);
                    assert(km.take(i + 1) =~= km.take(i as int).push(cm.model()));
                    lemma_psum_push(km.take(i as int), cm.model());
                }
                assert(po ==> cm.model().1 == 0);
                local_target = local_target.minus(cm);
                i += 1;
                continue;
            }
            let rest = cm.saturating_minus(local_target);
            let delete_measure = if local_length.at_most(&rest) { local_length } else { rest };
            let ghost before = *self;
            let ghost ks = self.pool@[pool_idx as int].kids();
            let ghost i0 = i as int;
            let ghost ll0 = local_length.model().0;
            let ghost lt0 = local_target.model().0;
            proof {
                if po {
                    assert(cm.model().1 == 0);
                    assert(rest.model().1 == 0);
                    assert(delete_measure.model().1 == 0);
                }
            }
            proof {
                assert(ks[i as int] == c);
                assert forall|p: int, k: int| 0 <= p < self.pool@.len() && 0 <= k < self.pool@[p].kids().len()
                    && #[trigger] self.pool@[p].kids()[k] == c implies a2.contains(p) by {
                    assert(self.pool@[pool_idx as int].kids()[i as int] == self.pool@[p].kids()[k]);
                }
                assert forall|j: int| #[trigger] a2.contains(j) implies 0 <= j < self.pool@.len()
                    && self.level@[j] > self.level@[c as int] by {
                    if j != pool_idx {
                        assert(old_self.level@[j] > old_self.level@[pool_idx as int]);
                        assert(self.level@[j] == old_self.level@[j]);
                    }
                }
            }
            assert(self.level@[c as int] < old_self.level@[pool_idx as int]);
            proof {
                Self::lemma_kid_reach(old_self, before, a2, pool_idx as int, i as int);
            }
            let sub = self.delete_recursive(c, local_target, delete_measure, Ghost(a2));
            let ghost mid = *self;
            proof {
                assert(mid.pool@[pool_idx as int] == before.pool@[pool_idx as int]);
                let km = kid_models(before.pool@, ks);
                assert forall|k: int| 0 <= k < ks.len() && k != i implies #[trigger] ks[k] != c
                    && mid.pool@[ks[k] as int] == before.pool@[ks[k] as int] by {
                    assert(before.pool@[pool_idx as int].kids()[k] == ks[k]);
                    if ks[k] == c {
                        assert(before.pool@[pool_idx as int].kids()[i as int] == before.pool@[pool_idx as int].kids()[k]);
                    }
                }
                assert(kid_models(mid.pool@, ks) =~= km.update(i as int, mid.pool@[c as int].weight()));
                lemma_psum_update(km, i as int, mid.pool@[c as int].weight());
                assert(mid.attached(pool_idx as int)) by {
                    if mid.root_idx != Some(pool_idx) {
                        let (p, k) = choose|p: int, k: int| 0 <= p < before.pool@.len() && 0 <= k < before.pool@[p].kids().len()
                            && #[trigger] before.pool@[p].kids()[k] == pool_idx as int;
                        assert(before.pool@[p].kids()[k] == pool_idx);
                        assert(!before.is_free(p)) by {
                            if before.is_free(p) {
                                before.lemma_free_detached(p);
                            }
                        }
                        assert(before.level@[p] == before.level@[pool_idx as int] + 1) by {
                            if a2.contains(p) {
                                assert(node_shape_ok(before.pool@, before.level@, p));
                            } else {
                                assert(node_ok(before.pool@, before.level@, p));
                            }
                            match before.pool@[p] {
                                MeasuredBTreeNode::Internal { children, .. } => {
                                    assert(children@[k] == before.pool@[p].kids()[k]);
                                },
                                MeasuredBTreeNode::Leaf { .. } => {},
                            }
                        }
                        assert(mid.pool@[p] == before.pool@[p]);
                        assert(is_child(mid.pool@, pool_idx as int));
                    }
                }
            }
            match sub {
                Some(new_sibling) => {
                    self.attach_sibling(pool_idx, i + 1, new_sibling, Ghost(a2));
                    let n2 = self.node_len(pool_idx);
                    assert(i + 2 <= n2);
                    i += 2;
                },
                None => {
                    i += 1;
                },
            }
            proof {
                if po {
                    assert(local_target.model() == (lt0, 0nat));
                    assert(cm.model() == before.pool@[c as int].weight());
                }
                Self::lemma_delete_step_law(old_self, before, mid, *self, a2, pool_idx as int, ks, i0, c as int, sub,
                    lt0, delete_measure.model().0, (len0 - ll0) as nat, t, sa, p0);
            }
            local_length = local_length.minus(delete_measure);
            local_target = zero;
            assert(po ==> {
                let kn = kid_models(self.pool@, self.pool@[pool_idx as int].kids());
                let kb = kid_models(before.pool@, ks);
                &&& psum(kn).0 + delete_measure.model().0 == psum(kb).0
                &&& psum(kn.take(i as int)).0 == psum(kb.take(i0)).0 + cm.model().0 - delete_measure.model().0
            }) by {
                if po {
                    let kb = kid_models(before.pool@, ks);
                    let cw = mid.pool@[c as int].weight().0;
                    assert(kb[i0] == cm.model());
                    assert(removed_amount(cm.model().0, lt0, delete_measure.model().0) == delete_measure.model().0);
                    let kk = self.pool@[pool_idx as int].kids();
                    let kn = kid_models(self.pool@, kk);
                    assert forall|k: int| 0 <= k < i0 implies #[trigger] kn[k] == kb[k] by {
                        assert(kk[k] == ks[k]);
                        assert(ks[k] != c);
                        assert(before.pool@[pool_idx as int].kids()[k] == ks[k]);
                        assert(ks[k] != pool_idx) by {
                            assert(node_shape_ok(before.pool@, before.level@, pool_idx as int));
                            match before.pool@[pool_idx as int] {
                                MeasuredBTreeNode::Internal { children, .. } => {
                                    assert(children@[k] == ks[k]);
                                },
                                MeasuredBTreeNode::Leaf { .. } => {},
                            }
                        }
                    }
                    assert(kn.take(i0) =~= kb.take(i0));
                    match sub {
                        Some(ns) => {
                            assert(kk == ks.insert(i0 + 1, ns));
                            assert(kn.take(i0 + 2) =~= kb.take(i0).push(kn[i0]).push(kn[i0 + 1]));
                            lemma_psum_push(kb.take(i0), kn[i0]);
                            lemma_psum_push(kb.take(i0).push(kn[i0]), kn[i0 + 1]);
                            assert(kn[i0] == mid.pool@[c as int].weight());
                            assert(kn[i0 + 1] == mid.pool@[ns as int].weight());
                        },
                        None => {
                            assert(kk == ks);
                            assert(kn.take(i0 + 1) =~= kb.take(i0).push(kn[i0]));
                            lemma_psum_push(kb.take(i0), kn[i0]);
                        },
                    }
                }
            }
        }
        proof {
            assert(self.pool@[pool_idx as int].kids().len() > 0);
            T::Measure::lemma_fits_below(w0, psum(kid_models(self.pool@, self.pool@[pool_idx as int].kids())));
            assert forall|j: int| #[trigger] a2.contains(j) implies self.level@[j] >= self.level@[pool_idx as int] by {
                if j != pool_idx {
                    assert(self.level@[j] == old_self.level@[j]);
                }
            }
        }
        assert(po ==> psum(kid_models(self.pool@, self.pool@[pool_idx as int].kids())).0
            + removed_amount(w0.0, t, len0) == w0.0) by {
            if po {
                let kk = self.pool@[pool_idx as int].kids();
                let km = kid_models(self.pool@, kk);
                let ll = local_length.model().0;
                let sz = psum(km).0;
                let sb = psum(km.take(i as int)).0;
                lemma_psum_take_below(km, i as int);
                if i >= kk.len() {
                    assert(km.take(i as int) =~= km);
                }
                if ll == 0 {
                    if len0 > 0 {
                        assert(sb >= t);
                    }
                }
            }
        }
        let ghost q0: int = p0 + (len0 - local_length.model().0);
        proof {
            if po {
                assert(q0 == (if t + len0 <= sa.len() { (t + len0) as int } else { sa.len() as int }));
            }
        }
        self.finish_delete_at(pool_idx, Ghost(old_self), Ghost(a), Ghost(t), Ghost(len0), Ghost(sa), Ghost(p0), Ghost(q0))
    }

    /// The end of a deletion at internal node `pool_idx`, once the deletion has gone down
    /// through its children: rebalances the children, recomputes the cached measure of
    /// `pool_idx` and splits it when it overflows. Returns the new right sibling of
    /// `pool_idx` when it split.
    #[verifier::rlimit(100)]
    #[verifier::spinoff_prover]
    fn finish_delete_at(
        &mut self,
        pool_idx: PoolIndex,
        Ghost(old_self): Ghost<Self>,
        Ghost(a): Ghost<Set<int>>,
        Ghost(t): Ghost<nat>,
        Ghost(len0): Ghost<nat>,
        Ghost(sa): Ghost<Seq<T::Atom>>,
        Ghost(p0): Ghost<int>,
        Ghost(q0): Ghost<int>,
    ) -> (r: Option<PoolIndex>)
        requires
            old_self.wf_but(a),
            pool_idx < old_self.pool@.len(),
            !a.contains(pool_idx as int),
            forall|j: int| #[trigger] a.contains(j) ==> 0 <= j < old_self.pool@.len()
                && old_self.level@[j] > old_self.level@[pool_idx as int] && !old_self.is_free(j),
            forall|p: int, k: int| 0 <= p < old_self.pool@.len() && 0 <= k < old_self.pool@[p].kids().len()
                && #[trigger] old_self.pool@[p].kids()[k] == pool_idx ==> a.contains(p),
            old_self.attached(pool_idx as int),
            old_self.root_idx is Some,
            under(old_self.pool@, old_self.root_idx->0 as int, old_self.level@[old_self.root_idx->0 as int],
                pool_idx as int),
            old_self.shape_ok(),
            shapes(old_self.pool@, old_self.level@),
            old_self.kept_outside(*old(self), pool_idx as int),
            !old_self.is_free(pool_idx as int),
            sa == atoms(items_under(old_self.pool@, pool_idx as int, old_self.level@[pool_idx as int])),
            p0 == (if t <= sa.len() { t as int } else { sa.len() as int }),
            primary_only::<T::Measure>() ==> q0 == (if t + len0 <= sa.len() { (t + len0) as int } else { sa.len() as int }),
            primary_only::<T::Measure>() ==> atoms(items_of_kids(old(self).pool@, old(self).pool@[pool_idx as int].kids(),
                (old_self.level@[pool_idx as int] - 1) as nat)) == sa.take(p0) + sa.skip(q0),
            primary_only::<T::Measure>() ==> psum(kid_models(old(self).pool@, old(self).pool@[pool_idx as int].kids())).0
                + removed_amount(old_self.pool@[pool_idx as int].weight().0, t, len0)
                == old_self.pool@[pool_idx as int].weight().0,
            old(self).wf_but(a.insert(pool_idx as int)),
            old(self).pool@.len() >= old_self.pool@.len(),
            old(self).root_idx == old_self.root_idx,
            old(self).pool@[pool_idx as int] is Internal,
            old(self).attached(pool_idx as int),
            old(self).level@[pool_idx as int] == old_self.level@[pool_idx as int],
            old(self).pool@[pool_idx as int].kids().len() > 0,
            pbelow(psum(kid_models(old(self).pool@, old(self).pool@[pool_idx as int].kids())),
                old_self.pool@[pool_idx as int].weight()),
            T::Measure::fits(psum(kid_models(old(self).pool@, old(self).pool@[pool_idx as int].kids()))),
            forall|j: int| #[trigger] a.insert(pool_idx as int).contains(j)
                ==> old(self).level@[j] >= old(self).level@[pool_idx as int],
            forall|j: int| 0 <= j < old_self.pool@.len() && !old_self.is_free(j)
                && old_self.level@[j] >= old_self.level@[pool_idx as int]
                ==> #[trigger] old(self).level@[j] == old_self.level@[j],
            forall|j: int| 0 <= j < old_self.pool@.len() && !old_self.is_free(j) && j != pool_idx
                && old_self.level@[j] >= old_self.level@[pool_idx as int]
                ==> #[trigger] old(self).pool@[j] == old_self.pool@[j] && !old(self).is_free(j),
        ensures
            final(self).wf_but(a),
            old_self.kept_outside(*final(self), pool_idx as int),
            primary_only::<T::Measure>() ==> deleted_at(
                items_under(old_self.pool@, pool_idx as int, old_self.level@[pool_idx as int]),
                match r {
                    Some(s) => items_under(final(self).pool@, pool_idx as int, final(self).level@[pool_idx as int])
                        + items_under(final(self).pool@, s as int, final(self).level@[s as int]),
                    None => items_under(final(self).pool@, pool_idx as int, final(self).level@[pool_idx as int]),
                }, t, len0),
            final(self).root_idx == old_self.root_idx,
            final(self).pool@.len() >= old_self.pool@.len(),
            forall|j: int| 0 <= j < old_self.pool@.len() && !old_self.is_free(j)
                && old_self.level@[j] >= old_self.level@[pool_idx as int]
                ==> #[trigger] final(self).level@[j] == old_self.level@[j],
            forall|j: int| 0 <= j < old_self.pool@.len() && !old_self.is_free(j) && j != pool_idx
                && old_self.level@[j] >= old_self.level@[pool_idx as int]
                ==> #[trigger] final(self).pool@[j] == old_self.pool@[j] && !final(self).is_free(j),
            final(self).pool@[pool_idx as int] is Internal,
            r is None ==> pbelow(final(self).pool@[pool_idx as int].weight(), old_self.pool@[pool_idx as int].weight()),
            primary_only::<T::Measure>() ==> (r is None ==> final(self).pool@[pool_idx as int].weight().0
                + removed_amount(old_self.pool@[pool_idx as int].weight().0, t, len0)
                == old_self.pool@[pool_idx as int].weight().0),
            primary_only::<T::Measure>() ==> (r matches Some(s) ==> final(self).pool@[pool_idx as int].weight().0
                + final(self).pool@[s as int].weight().0
                + removed_amount(old_self.pool@[pool_idx as int].weight().0, t, len0)
                == old_self.pool@[pool_idx as int].weight().0),
            r matches Some(s) ==> {
                &&& s < final(self).pool@.len()
                &&& s != pool_idx
                &&& !final(self).attached(s as int)
                &&& !final(self).is_free(s as int)
                &&& final(self).level@[s as int] == old_self.level@[pool_idx as int]
                &&& (final(self).pool@[s as int] is Internal ==> final(self).pool@[s as int].kids().len() > 0)
                &&& pbelow(padd(final(self).pool@[pool_idx as int].weight(), final(self).pool@[s as int].weight()),
                    old_self.pool@[pool_idx as int].weight())
            },
    {
        let ghost a2 = a.insert(pool_idx as int);
        let ghost w0 = old_self.pool@[pool_idx as int].weight();
        let ghost po = primary_only::<T::Measure>();
        let ghost c_self = *self;
        self.rebalance_children(pool_idx, Ghost(a2));
        let ghost d_self = *self;
        proof {
            assert(node_shape_ok(d_self.pool@, d_self.level@, pool_idx as int));
        }
        self.update_internal_node_measure(pool_idx);
        proof {
            assert(node_ok(self.pool@, self.level@, pool_idx as int)) by {
                assert(node_shape_ok(d_self.pool@, d_self.level@, pool_idx as int));
                let kk = d_self.pool@[pool_idx as int].kids();
                match d_self.pool@[pool_idx as int] {
                    MeasuredBTreeNode::Internal { children, .. } => {
                        assert forall|k: int| 0 <= k < kk.len() implies #[trigger] kk[k] != pool_idx by {
                            assert(children@[k] == kk[k]);
                        }
                    },
                    MeasuredBTreeNode::Leaf { .. } => {},
                }
                assert(kid_models(self.pool@, kk) =~= kid_models(d_self.pool@, kk));
            }
            assert(self.attached(pool_idx as int)) by {
                if self.root_idx != Some(pool_idx) {
                    let (p, k) = choose|p: int, k: int| 0 <= p < c_self.pool@.len() && 0 <= k < c_self.pool@[p].kids().len()
                        && #[trigger] c_self.pool@[p].kids()[k] == pool_idx as int;
                    assert(c_self.pool@[p].kids()[k] == pool_idx);
                    assert(p != pool_idx) by {
                        assert(node_shape_ok(c_self.pool@, c_self.level@, pool_idx as int));
                        if p == pool_idx {
                            match c_self.pool@[p] {
                                MeasuredBTreeNode::Internal { children, .. } => {
                                    assert(children@[k] == c_self.pool@[p].kids()[k]);
                                },
                                MeasuredBTreeNode::Leaf { .. } => {},
                            }
                        }
                    }
                    assert(!in_list(c_self.pool@[pool_idx as int].kids(), p)) by {
                        if in_list(c_self.pool@[pool_idx as int].kids(), p) {
                            let m = choose|m: int| 0 <= m < c_self.pool@[pool_idx as int].kids().len()
                                && #[trigger] c_self.pool@[pool_idx as int].kids()[m] as int == p;
                            assert(c_self.pool@[pool_idx as int].kids()[m] == c_self.pool@[p].kids()[k] ==> false) by {
                                assert(c_self.pool@[pool_idx as int].kids()[m] as int == p);
                            }
                            assert(is_child(c_self.pool@, p));
                            assert(node_shape_ok(c_self.pool@, c_self.level@, pool_idx as int));
                            match c_self.pool@[pool_idx as int] {
                                MeasuredBTreeNode::Internal { children, .. } => {
                                    assert(children@[m] == c_self.pool@[pool_idx as int].kids()[m]);
                                },
                                MeasuredBTreeNode::Leaf { .. } => {},
                            }
                            if a2.contains(p) {
                                assert(node_shape_ok(c_self.pool@, c_self.level@, p));
                            } else {
                                assert(node_ok(c_self.pool@, c_self.level@, p));
                            }
                            match c_self.pool@[p] {
                                MeasuredBTreeNode::Internal { children, .. } => {
                                    assert(children@[k] == c_self.pool@[p].kids()[k]);
                                },
                                MeasuredBTreeNode::Leaf { .. } => {},
                            }
                        }
                    }
                    assert(d_self.pool@[p] == c_self.pool@[p]);
                    assert(self.pool@[p] == d_self.pool@[p]);
                    assert(is_child(self.pool@, pool_idx as int));
                }
            }
            assert forall|j: int| 0 <= j < old_self.pool@.len() && !old_self.is_free(j) && j != pool_idx
                && old_self.level@[j] >= old_self.level@[pool_idx as int]
                implies #[trigger] self.pool@[j] == old_self.pool@[j] && !self.is_free(j)
                    && self.level@[j] == old_self.level@[j] && d_self.pool@[j] == old_self.pool@[j] by {
                assert(c_self.pool@[j] == old_self.pool@[j]);
                assert(c_self.level@[j] == old_self.level@[j]);
                assert(!c_self.is_free(j));
                if in_list(c_self.pool@[pool_idx as int].kids(), j) {
                    let m = choose|m: int| 0 <= m < c_self.pool@[pool_idx as int].kids().len()
                        && #[trigger] c_self.pool@[pool_idx as int].kids()[m] as int == j;
                    assert(node_shape_ok(c_self.pool@, c_self.level@, pool_idx as int));
                    match c_self.pool@[pool_idx as int] {
                        MeasuredBTreeNode::Internal { children, .. } => {
                            assert(children@[m] == c_self.pool@[pool_idx as int].kids()[m]);
                        },
                        MeasuredBTreeNode::Leaf { .. } => {},
                    }
                }
                assert(d_self.pool@[j] == c_self.pool@[j]);
                assert(!d_self.is_free(j));
            }
            assert forall|i: int, k: int| 0 <= i < d_self.pool@.len() && 0 <= k < d_self.pool@[i].kids().len()
                && #[trigger] d_self.pool@[i].kids()[k] == pool_idx implies a.contains(i) by {
                {
                    assert(old_self.attached(pool_idx as int));
                    if old_self.root_idx == Some(pool_idx) {
                        assert(is_child(d_self.pool@, pool_idx as int));
                    } else {
                        let (p, m) = choose|p: int, m: int| 0 <= p < old_self.pool@.len() && 0 <= m < old_self.pool@[p].kids().len()
                            && #[trigger] old_self.pool@[p].kids()[m] == pool_idx as int;
                        assert(old_self.pool@[p].kids()[m] == pool_idx);
                        assert(a.contains(p));
                        assert(self.pool@[p] == old_self.pool@[p]);
                        assert(d_self.pool@[p] == old_self.pool@[p]);
                        assert(d_self.pool@[p].kids()[m] == d_self.pool@[i].kids()[k]);
                    }
                }
            }
            lemma_fix_but(d_self.pool@, self.pool@, self.level@, a, pool_idx as int);
            assert forall|j: int| #[trigger] a.contains(j) implies !self.is_free(j) by {
                assert(self.pool@[j] == old_self.pool@[j]);
            }
            assert forall|j: int| 0 <= j < self.pool@.len() implies (#[trigger] self.pool@[j]).kids() == d_self.pool@[j].kids()
                && (self.pool@[j] is Leaf) == (d_self.pool@[j] is Leaf) by {}
            self.lemma_shape_same_kids(d_self);
        }
        if self.node_len(pool_idx) >= NODE_CHILDREN_CAPACITY {
            let ghost e_self = *self;
            let s = self.split_internal(pool_idx);
            proof {
                if s < e_self.pool@.len() {
                    e_self.lemma_free_detached(s as int);
                }
                assert forall|i: int, k: int| 0 <= i < e_self.pool@.len() && !a.contains(i) && 0 <= k < e_self.pool@[i].kids().len()
                    implies !set![pool_idx as int, s as int].contains(#[trigger] e_self.pool@[i].kids()[k] as int) by {
                    assert(is_child(e_self.pool@, e_self.pool@[i].kids()[k] as int));
                    if e_self.pool@[i].kids()[k] == pool_idx {
                        assert(d_self.pool@[i] == e_self.pool@[i] || i == pool_idx);
                    }
                }
                assert forall|i: int| 0 <= i < e_self.pool@.len() && is_child(e_self.pool@, i) implies self.level@[i] == e_self.level@[i] by {}
                lemma_nodes_but_frame(e_self.pool@, e_self.level@, self.pool@, self.level@, a, set![pool_idx as int, s as int]);
                assert forall|j: int| 0 <= j < old_self.pool@.len() && !old_self.is_free(j) && j != pool_idx
                    && old_self.level@[j] >= old_self.level@[pool_idx as int]
                    implies #[trigger] self.pool@[j] == old_self.pool@[j] && !self.is_free(j)
                        && self.level@[j] == old_self.level@[j] by {
                    assert(e_self.pool@[j] == old_self.pool@[j]);
                }
            }
            proof {
                let uk = e_self.pool@[pool_idx as int].kids();
                assert(self.pool@[pool_idx as int].kids() + self.pool@[s as int].kids() =~= uk);
                assert forall|j: int| #[trigger] e_self.is_free(j) == d_self.is_free(j) by {}
                Self::lemma_delete_tail_law(old_self, c_self, d_self, e_self, *self, a2, pool_idx as int, Some(s), sa, p0, q0);
                reveal(deleted_at);
            }
            return Some(s);
        }
        proof {
            assert forall|j: int| #[trigger] self.is_free(j) == d_self.is_free(j) by {}
            Self::lemma_delete_tail_law(old_self, c_self, d_self, *self, *self, a2, pool_idx as int, None, sa, p0, q0);
            reveal(deleted_at);
        }
        None
    }
}

impl<T: MeasuredBTreeData> MeasuredBTree<T> {
    /// Collapses a root that has a single child into that child, and drops a root leaf
    /// that holds no data.
    fn shrink_tree_height(&mut self)
        requires
            old(self).wf(),
        ensures
            final(self).wf(),
            final(self).total() == old(self).total(),
            final(self).in_order() == old(self).in_order(),
            match old(self).root_idx {
                None => *final(self) == *old(self),
                Some(r) => if old(self).pool@[r as int] is Internal && old(self).pool@[r as int].kids().len() == 1 {
                    final(self).root_idx == Some(old(self).pool@[r as int].kids()[0])
                } else if old(self).pool@[r as int] is Leaf && old(self).pool@[r as int].items().len() == 0 {
                    final(self).root_idx is None
                } else {
                    *final(self) == *old(self)
                },
            },
    {
        let root_idx = match self.root_idx {
            None => {
                return ;
            },
            Some(r) => r,
        };
        let ghost old_self = *self;
        let collapse: Option<Option<PoolIndex>> = match &self.pool[root_idx] {
            MeasuredBTreeNode::Internal { children, .. } => {
                if children.len() == 1 {
                    Some(Some(children[0]))
                } else {
                    None
                }
            },
            MeasuredBTreeNode::Leaf { data, .. } => {
                if data.len() == 0 {
                    Some(None)
                } else {
                    None
                }
            },
        };
        let new_root = match collapse {
            None => {
                return ;
            },
            Some(n) => n,
        };
        let ghost ks = self.pool@[root_idx as int].kids();
        proof {
            assert(node_ok(self.pool@, self.level@, root_idx as int));
            match self.pool@[root_idx as int] {
                MeasuredBTreeNode::Internal { children, .. } => {
                    assert(children@ == ks);
                },
                MeasuredBTreeNode::Leaf { data, .. } => {
                    assert(new_root.is_none() ==> data@.len() == 0);
                },
            }
            if new_root.is_some() {
                assert(kid_models(self.pool@, ks) =~= seq![self.pool@[ks[0] as int].weight()]);
                lemma_psum_single(self.pool@[ks[0] as int].weight());
                assert(ks[0] != root_idx);
            } else {
                assert(data_models(self.pool@[root_idx as int].items()) =~= Seq::<(nat, nat)>::empty());
            }
        }
        self.pool[root_idx].clear();
        self.root_idx = new_root;
        let ghost mid = *self;
        proof {
            let opool = old_self.pool@;
            let pool = self.pool@;
            let r = root_idx as int;
            assert(!is_child(opool, r));
            assert(node_ok(pool, self.level@, r)) by {
                assert(node_ok(opool, self.level@, r));
                match pool[r] {
                    MeasuredBTreeNode::Leaf { data, .. } => {
                        assert(data_models(data@) =~= Seq::<(nat, nat)>::empty());
                    },
                    MeasuredBTreeNode::Internal { children, .. } => {
                        assert(kid_models(pool, children@) =~= Seq::<(nat, nat)>::empty());
                    },
                }
            }
            lemma_cleared_nodes(opool, pool, self.level@, -1, (0nat, 0nat), r);
            let fp = |p: int, a: int| p;
            let fa = |p: int, a: int| a;
            assert forall|p: int, a: int|
                #![trigger pool[p].kids()[a]]
                0 <= p < pool.len() && 0 <= a < pool[p].kids().len() implies {
                    &&& 0 <= fp(p, a) < opool.len()
                    &&& 0 <= fa(p, a) < opool[fp(p, a)].kids().len()
                    &&& pool[p].kids()[a] == opool[fp(p, a)].kids()[fa(p, a)]
                    &&& !(fp(p, a) == r && fa(p, a) == 0)
                } by {
                assert(p != r);
            }
            lemma_edges_inject(opool, pool, fp, fa, r, 0);
            if let Some(c) = new_root {
                assert(opool[r].kids()[0] == c);
                assert(!is_child(pool, c as int));
                assert(is_child(opool, c as int));
            }
            assert forall|j: int| 0 <= j < pool.len() && #[trigger] self.attached(j) implies old_self.attached(j) && j != r by {
                if self.root_idx == Some(j as PoolIndex) {
                    let c = new_root.unwrap();
                    assert(c as int == j);
                    assert(opool[r].kids()[0] == c);
                    assert(is_child(opool, j));
                } else {
                    assert(is_child(pool, j));
                    assert(is_child(opool, j));
                }
            }
            assert forall|i: int| 0 <= i < pool.len() && self.attached(i) && (#[trigger] pool[i]) is Internal
                implies pool[i].kids().len() > 0 by {
                assert(old_self.attached(i));
            }
            assert forall|k: int| 0 <= k < self.free_leaves_list@.len() implies
                pool[#[trigger] self.free_leaves_list@[k] as int] == opool[self.free_leaves_list@[k] as int]
                    && !self.attached(self.free_leaves_list@[k] as int) by {
                let j = self.free_leaves_list@[k] as int;
                assert(in_list(old_self.free_leaves_list@, j));
                assert(old_self.is_free(j));
                assert(!old_self.attached(j));
            }
            assert forall|k: int| 0 <= k < self.free_internals_list@.len() implies
                pool[#[trigger] self.free_internals_list@[k] as int] == opool[self.free_internals_list@[k] as int]
                    && !self.attached(self.free_internals_list@[k] as int) by {
                let j = self.free_internals_list@[k] as int;
                assert(in_list(old_self.free_internals_list@, j));
                assert(old_self.is_free(j));
                assert(!old_self.attached(j));
            }
            assert(self.shape_ok());
            assert(!self.attached(r));
            assert(!self.is_free(r)) by {
                assert(old_self.attached(r));
            }
        }
        self.deallocate_node(root_idx);
        proof {
            let r = root_idx as int;
            let opool = old_self.pool@;
            let level = old_self.level@;
            assert(self.level@ == level);
            match new_root {
                Some(c) => {
                    let ci = c as int;
                    assert(ks[0] == c);
                    assert(node_ok(opool, level, r));
                    match opool[r] {
                        MeasuredBTreeNode::Internal { children, .. } => {
                            assert(children@[0] == ks[0]);
                        },
                        MeasuredBTreeNode::Leaf { .. } => {},
                    }
                    assert(level[ci] + 1 == level[r]);
                    assert(forall|j: int| 0 <= j < opool.len() ==> #[trigger] node_ok(opool, level, j));
                    assert forall|j: int| 0 <= j < opool.len() && j != r implies self.pool@[j] == opool[j] by {
                        assert(mid.pool@[j] == opool[j]);
                    }
                    lemma_items_under_frame(opool, self.pool@, level, ci, r);
                    assert(ks.drop_last() =~= Seq::<PoolIndex>::empty());
                    assert(items_of_kids(opool, ks.drop_last(), (level[r] - 1) as nat) =~= Seq::<T>::empty());
                    assert(items_of_kids(opool, ks, (level[r] - 1) as nat) =~= items_under(opool, ci, level[ci]));
                    assert(items_under(opool, r, level[r]) == items_of_kids(opool, ks, (level[r] - 1) as nat));
                },
                None => {
                    assert(items_under(opool, r, level[r]) == opool[r].items());
                    assert(opool[r].items() =~= Seq::<T>::empty());
                },
            }
        }
    }

    /// Deletes the range `range` of the tree. An empty or reversed range is a no-op; a
    /// range that ends beyond the total measure, or any non-empty range of a tree without
    /// a root, is out of bounds and leaves the tree unchanged.
    pub fn delete(&mut self, range: std::ops::Range<T::Measure>) -> (r: MeasuredBTreeResult<(), T::Measure>)
        requires
            old(self).wf(),
        ensures
            r is Ok <==> (plt(range.end.model(), range.start.model()) || range.end.model() == range.start.model()
                || (old(self).root_idx.is_some() && ple(range.end.model(), old(self).total()))),
            r is Ok ==> final(self).wf(),
            r is Ok ==> pbelow(final(self).total(), old(self).total()),
            primary_only::<T::Measure>() ==> (r is Ok ==> final(self).total().0
                + nsub(range.end.model().0, range.start.model().0) == old(self).total().0),
            r is Ok && (plt(range.end.model(), range.start.model()) || range.end.model() == range.start.model())
                ==> *final(self) == *old(self),
            primary_only::<T::Measure>() ==> (r is Ok ==> deleted_at(old(self).in_order(), final(self).in_order(),
                range.start.model().0, nsub(range.end.model().0, range.start.model().0))),
            r matches Err(MeasuredBTreeError::OutOfBounds { max, requested }) ==> {
                &&& *final(self) == *old(self)
                &&& old(self).root_idx.is_none() ==> max.model() == (0nat, 0nat) && requested == range.start
                &&& old(self).root_idx.is_some() ==> max.model() == old(self).total() && requested == range.end
            },
    {
        proof {
            if primary_only::<T::Measure>() {
                assert(range.end.model().1 == 0);
                assert(range.start.model().1 == 0);
            }
        }
        if range.end.less_than(&range.start) {
            proof {
                lemma_deleted_nothing(self.in_order(), range.start.model().0);
            }
            return Ok(());
        }
        let length = range.end.minus(range.start);
        let zero = T::Measure::zero();
        if length.same(&zero) {
            proof {
                lemma_deleted_nothing(self.in_order(), range.start.model().0);
            }
            return Ok(());
        }
        let prev_root_idx = match self.root_idx {
            None => {
                return Err(MeasuredBTreeError::OutOfBounds { requested: range.start, max: zero });
            },
            Some(r) => r,
        };
        let total_measure = self.pool[prev_root_idx].measure();
        if total_measure.less_than(&range.end) {
            return Err(MeasuredBTreeError::OutOfBounds { requested: range.end, max: total_measure });
        }
        let ghost old_self = *self;
        proof {
            assert(self.wf_but(Set::<int>::empty()));
            assert(self.attached(prev_root_idx as int));
            assert forall|p: int, k: int| 0 <= p < self.pool@.len() && 0 <= k < self.pool@[p].kids().len()
                && #[trigger] self.pool@[p].kids()[k] == prev_root_idx implies Set::<int>::empty().contains(p) by {
                assert(is_child(self.pool@, prev_root_idx as int));
            }
        }
        proof {
            if primary_only::<T::Measure>() {
                assert(range.end.model().1 == 0);
                assert(range.start.model().1 == 0);
                assert(total_measure.model().1 == 0);
                assert(removed_amount(old_self.total().0, range.start.model().0, length.model().0)
                    == nsub(range.end.model().0, range.start.model().0));
            }
        }
        let sub = self.delete_recursive(prev_root_idx, range.start, length, Ghost(Set::<int>::empty()));
        proof {
            assert(nodes_ok(self.pool@, self.level@));
        }
        match sub {
            Some(new_sibling_idx) => {
                proof {
                    T::Measure::lemma_fits(old_self.pool@[prev_root_idx as int].node_measure());
                    T::Measure::lemma_fits_below(
                        old_self.pool@[prev_root_idx as int].weight(),
                        padd(self.pool@[prev_root_idx as int].weight(), self.pool@[new_sibling_idx as int].weight()),
                    );
                    assert(self.level@[prev_root_idx as int] == old_self.level@[prev_root_idx as int]) by {
                        assert(!old_self.is_free(prev_root_idx as int)) by {
                            if old_self.is_free(prev_root_idx as int) {
                                old_self.lemma_free_detached(prev_root_idx as int);
                            }
                        }
                    }
                }
                self.grow_tree_height(prev_root_idx, new_sibling_idx);
            },
            None => {},
        }
        self.shrink_tree_height();
        proof {
            if primary_only::<T::Measure>() {
                assert(length.model().0 == nsub(range.end.model().0, range.start.model().0));
            }
        }
        Ok(())
    }
}

impl<T: MeasuredBTreeData> MeasuredBTree<T> {
    /// Node `leaf` is a leaf of the pool and `k` indexes one of its items.
    pub open spec fn holds_leaf(&self, leaf: int, k: int) -> bool {
        &&& 0 <= leaf < self.pool@.len()
        &&& self.pool@[leaf] is Leaf
        &&& 0 <= k < self.pool@[leaf].items().len()
    }

    /// Removes every node and the root.
    pub fn clear(&mut self)
        ensures
            final(self).wf(),
            final(self).pool@.len() == 0,
            final(self).root_idx.is_none(),
            final(self).total() == (0nat, 0nat),
            final(self).free_leaves_list@.len() == 0,
            final(self).free_internals_list@.len() == 0,
    {
        self.pool.clear();
        self.free_leaves_list.clear();
        self.free_internals_list.clear();
        self.root_idx = None;
        proof {
            self.level@ = Seq::empty();
        }
    }

}

impl<T: MeasuredBTreeData> MeasuredBTree<T> {
    /// The root of a well-formed tree is a valid index.
    pub proof fn lemma_wf_root(&self)
        requires
            self.wf(),
        ensures
            self.root_idx matches Some(r) ==> r < self.pool@.len(),
    {
    }

    /// The free lists of a well-formed tree hold each index once, and each names an empty,
    /// detached node of its kind.
    pub proof fn lemma_wf_free_lists(&self)
        requires
            self.wf(),
        ensures
            self.free_leaves_list@.no_duplicates(),
            self.free_internals_list@.no_duplicates(),
            forall|k: int| 0 <= k < self.free_leaves_list@.len() ==> {
                let j = #[trigger] self.free_leaves_list@[k] as int;
                &&& 0 <= j < self.pool@.len()
                &&& self.pool@[j] is Leaf
                &&& self.pool@[j].items().len() == 0
                &&& self.root_idx != Some(j as PoolIndex)
                &&& !is_child(self.pool@, j)
            },
            forall|k: int| 0 <= k < self.free_internals_list@.len() ==> {
                let j = #[trigger] self.free_internals_list@[k] as int;
                &&& 0 <= j < self.pool@.len()
                &&& self.pool@[j] is Internal
                &&& self.pool@[j].kids().len() == 0
                &&& self.root_idx != Some(j as PoolIndex)
                &&& !is_child(self.pool@, j)
            },
    {
    }

    /// In a well-formed tree every node is consistent.
    pub proof fn lemma_wf_node_ok(&self, i: int)
        requires
            self.wf(),
            0 <= i < self.pool@.len(),
        ensures
            node_ok(self.pool@, self.level@, i),
            self.root_idx matches Some(r) ==> r < self.pool@.len(),
            self.pool@[i] is Internal ==> forall|k: int| 0 <= k < self.pool@[i].kids().len()
                ==> #[trigger] self.pool@[i].kids()[k] < self.pool@.len(),
    {
        assert(node_ok(self.pool@, self.level@, i));
    }
}
} // verus!

