//! The nodes under a node of a measured B-Tree, and what depends on them alone: the items
//! under a node change only where a node under it changes, and the subtrees of two nodes
//! of one level share no node.
use vstd::prelude::*;
use crate::btree::{MeasuredBTreeData, MeasuredBTreeNode, PoolIndex, Measure, node_ok, node_shape_ok, is_child,
    unique_parents, data_models, kid_models};
use crate::in_order::{items_under, items_of_kids};
use crate::atoms::{atoms, inserted_at, deleted_at, lemma_atoms_concat, lemma_atoms_len};
use crate::in_order::{lemma_items_of_kids_at, lemma_items_of_kids_concat};
use crate::measure::{psum, lemma_psum_push};

verus! {

/// Node `j` is node `i` or lies below it, within `depth` levels.
pub open spec fn under<T: MeasuredBTreeData>(pool: Seq<MeasuredBTreeNode<T>>, i: int, depth: nat, j: int) -> bool
    decreases depth, 0nat,
{
    j == i || (depth > 0 && under_kids(pool, pool[i].kids(), (depth - 1) as nat, j))
}

/// Node `j` lies under one of the given children, within `depth` levels.
pub open spec fn under_kids<T: MeasuredBTreeData>(
    pool: Seq<MeasuredBTreeNode<T>>,
    kids: Seq<PoolIndex>,
    depth: nat,
    j: int,
) -> bool
    decreases depth, kids.len() + 1,
{
    kids.len() > 0 && (under_kids(pool, kids.drop_last(), depth, j) || under(pool, kids.last() as int, depth, j))
}

/// Lying under one of the children is lying under a particular one of them.
pub proof fn lemma_under_kids_iff<T: MeasuredBTreeData>(
    pool: Seq<MeasuredBTreeNode<T>>,
    kids: Seq<PoolIndex>,
    depth: nat,
    j: int,
)
    ensures
        under_kids(pool, kids, depth, j) <==> exists|k: int| 0 <= k < kids.len() && #[trigger] under(pool, kids[k] as int, depth, j),
    decreases kids.len(),
{
    if kids.len() > 0 {
        lemma_under_kids_iff(pool, kids.drop_last(), depth, j);
        let n = kids.len() - 1;
        assert(kids.last() == kids[n]);
        if under_kids(pool, kids, depth, j) {
            if under_kids(pool, kids.drop_last(), depth, j) {
                let k = choose|k: int| 0 <= k < kids.drop_last().len() && #[trigger] under(pool, kids.drop_last()[k] as int, depth, j);
                assert(kids.drop_last()[k] == kids[k]);
            } else {
                assert(under(pool, kids[n] as int, depth, j));
            }
        }
        if exists|k: int| 0 <= k < kids.len() && #[trigger] under(pool, kids[k] as int, depth, j) {
            let k = choose|k: int| 0 <= k < kids.len() && #[trigger] under(pool, kids[k] as int, depth, j);
            if k < n {
                assert(kids.drop_last()[k] == kids[k]);
                assert(under(pool, kids.drop_last()[k] as int, depth, j));
            }
        }
    }
}

/// Every node of the pool has the shape its level asks for.
pub open spec fn shapes<T: MeasuredBTreeData>(pool: Seq<MeasuredBTreeNode<T>>, level: Seq<nat>) -> bool {
    &&& level.len() == pool.len()
    &&& forall|j: int| 0 <= j < pool.len() ==> #[trigger] node_shape_ok(pool, level, j)
}

/// The children of a node with the shape its level asks for lie in the pool, one level
/// below it.
pub proof fn lemma_kid_facts<T: MeasuredBTreeData>(pool: Seq<MeasuredBTreeNode<T>>, level: Seq<nat>, i: int)
    requires
        shapes(pool, level),
        0 <= i < pool.len(),
    ensures
        forall|k: int| 0 <= k < pool[i].kids().len() ==> (#[trigger] pool[i].kids()[k]) < pool.len()
            && level[pool[i].kids()[k] as int] + 1 == level[i],
{
    assert(node_shape_ok(pool, level, i));
    assert forall|k: int| 0 <= k < pool[i].kids().len() implies (#[trigger] pool[i].kids()[k]) < pool.len()
        && level[pool[i].kids()[k] as int] + 1 == level[i] by {
        match pool[i] {
            MeasuredBTreeNode::Internal { children, .. } => {
                assert(children@[k] == pool[i].kids()[k]);
            },
            MeasuredBTreeNode::Leaf { .. } => {},
        }
    }
}

/// A node under node `i` lies in the pool at a level no higher than `i`'s; any other
/// than `i` itself lies lower and is a child of some node.
pub proof fn lemma_under_facts<T: MeasuredBTreeData>(pool: Seq<MeasuredBTreeNode<T>>, level: Seq<nat>, i: int, j: int)
    requires
        shapes(pool, level),
        0 <= i < pool.len(),
        under(pool, i, level[i], j),
    ensures
        0 <= j < pool.len(),
        level[j] <= level[i],
        j != i ==> level[j] < level[i] && is_child(pool, j),
    decreases level[i],
{
    if j != i {
        lemma_under_kids_iff(pool, pool[i].kids(), (level[i] - 1) as nat, j);
        let k = choose|k: int|
            0 <= k < pool[i].kids().len() && #[trigger] under(pool, pool[i].kids()[k] as int, (level[i] - 1) as nat, j);
        lemma_kid_facts(pool, level, i);
        let c = pool[i].kids()[k] as int;
        assert(level[c] == level[i] - 1);
        lemma_under_facts(pool, level, c, j);
        if j == c {
            assert(pool[i].kids()[k] as int == j);
        }
    }
}

/// A node under a child of `i` is under `i`.
pub proof fn lemma_under_kid<T: MeasuredBTreeData>(pool: Seq<MeasuredBTreeNode<T>>, level: Seq<nat>, i: int, k: int, j: int)
    requires
        shapes(pool, level),
        0 <= i < pool.len(),
        0 <= k < pool[i].kids().len(),
        under(pool, pool[i].kids()[k] as int, level[pool[i].kids()[k] as int], j),
    ensures
        under(pool, i, level[i], j),
{
    lemma_kid_facts(pool, level, i);
    assert(level[i] > 0);
    assert(under(pool, pool[i].kids()[k] as int, (level[i] - 1) as nat, j));
    lemma_under_kids_iff(pool, pool[i].kids(), (level[i] - 1) as nat, j);
    assert(under(pool, i, level[i], j));
}

/// Two nodes of one level with a common node under them are the same node.
pub proof fn lemma_unique_ancestor<T: MeasuredBTreeData>(
    pool: Seq<MeasuredBTreeNode<T>>,
    level: Seq<nat>,
    x: int,
    y: int,
    j: int,
)
    requires
        shapes(pool, level),
        unique_parents(pool),
        0 <= x < pool.len(),
        0 <= y < pool.len(),
        level[x] == level[y],
        under(pool, x, level[x], j),
        under(pool, y, level[y], j),
    ensures
        x == y,
    decreases level[x],
{
    lemma_under_facts(pool, level, x, j);
    lemma_under_facts(pool, level, y, j);
    if j != x && j != y {
        lemma_under_kids_iff(pool, pool[x].kids(), (level[x] - 1) as nat, j);
        lemma_under_kids_iff(pool, pool[y].kids(), (level[y] - 1) as nat, j);
        let kx = choose|k: int|
            0 <= k < pool[x].kids().len() && #[trigger] under(pool, pool[x].kids()[k] as int, (level[x] - 1) as nat, j);
        let ky = choose|k: int|
            0 <= k < pool[y].kids().len() && #[trigger] under(pool, pool[y].kids()[k] as int, (level[y] - 1) as nat, j);
        lemma_kid_facts(pool, level, x);
        lemma_kid_facts(pool, level, y);
        let cx = pool[x].kids()[kx] as int;
        let cy = pool[y].kids()[ky] as int;
        lemma_unique_ancestor(pool, level, cx, cy, j);
        assert(pool[x].kids()[kx] == pool[y].kids()[ky]);
    }
}

/// The items under node `i` are kept where every node under `i` is kept.
pub proof fn lemma_items_under_sub_frame<T: MeasuredBTreeData>(
    pool: Seq<MeasuredBTreeNode<T>>,
    pool2: Seq<MeasuredBTreeNode<T>>,
    level: Seq<nat>,
    i: int,
)
    requires
        shapes(pool, level),
        pool2.len() >= pool.len(),
        0 <= i < pool.len(),
        forall|j: int| #[trigger] under(pool, i, level[i], j) ==> pool2[j] == pool[j],
    ensures
        items_under(pool2, i, level[i]) == items_under(pool, i, level[i]),
    decreases level[i], 0nat, 0int,
{
    assert(under(pool, i, level[i], i));
    match pool[i] {
        MeasuredBTreeNode::Leaf { .. } => {},
        MeasuredBTreeNode::Internal { children, .. } => {
            let d = (level[i] - 1) as nat;
            lemma_kid_facts(pool, level, i);
            assert(node_shape_ok(pool, level, i));
            assert forall|k: int, j: int| 0 <= k < children@.len() && #[trigger] under(pool, children@[k] as int, d, j)
                implies pool2[j] == pool[j] by {
                assert(children@[k] == pool[i].kids()[k]);
                lemma_under_kid(pool, level, i, k, j);
            }
            assert forall|k: int| 0 <= k < children@.len() implies (#[trigger] children@[k]) < pool.len()
                && level[children@[k] as int] == d by {
                assert(children@[k] == pool[i].kids()[k]);
            }
            lemma_kids_sub_frame(pool, pool2, level, children@, d);
        },
    }
}

/// The items under a list of children at level `d` are kept where every node under them
/// is kept.
pub proof fn lemma_kids_sub_frame<T: MeasuredBTreeData>(
    pool: Seq<MeasuredBTreeNode<T>>,
    pool2: Seq<MeasuredBTreeNode<T>>,
    level: Seq<nat>,
    kids: Seq<PoolIndex>,
    d: nat,
)
    requires
        shapes(pool, level),
        pool2.len() >= pool.len(),
        forall|k: int| 0 <= k < kids.len() ==> (#[trigger] kids[k]) < pool.len() && level[kids[k] as int] == d,
        forall|k: int, j: int| 0 <= k < kids.len() && #[trigger] under(pool, kids[k] as int, d, j) ==> pool2[j] == pool[j],
    ensures
        items_of_kids(pool2, kids, d) == items_of_kids(pool, kids, d),
    decreases d, 1nat, kids.len(),
{
    if kids.len() > 0 {
        let n = kids.len() - 1;
        let c = kids[n] as int;
        assert(kids.last() == kids[n]);
        assert forall|k: int| 0 <= k < kids.drop_last().len() implies (#[trigger] kids.drop_last()[k]) < pool.len()
            && level[kids.drop_last()[k] as int] == d by {
            assert(kids.drop_last()[k] == kids[k]);
        }
        assert forall|k: int, j: int| 0 <= k < kids.drop_last().len() && #[trigger] under(pool, kids.drop_last()[k] as int, d, j)
            implies pool2[j] == pool[j] by {
            assert(kids.drop_last()[k] == kids[k]);
        }
        lemma_kids_sub_frame(pool, pool2, level, kids.drop_last(), d);
        assert forall|j: int| #[trigger] under(pool, c, level[c], j) implies pool2[j] == pool[j] by {
            assert(under(pool, kids[n] as int, d, j));
        }
        lemma_items_under_sub_frame(pool, pool2, level, c);
    }
}

/// Where every node at level `level[i]` or below is consistent, the atoms under node `i`
/// are as many as the first component of its measure.
pub proof fn lemma_atoms_under_len<T: MeasuredBTreeData>(pool: Seq<MeasuredBTreeNode<T>>, level: Seq<nat>, i: int)
    requires
        level.len() == pool.len(),
        0 <= i < pool.len(),
        forall|j: int| 0 <= j < pool.len() && level[j] <= level[i] ==> #[trigger] node_ok(pool, level, j),
    ensures
        atoms(items_under(pool, i, level[i])).len() == pool[i].weight().0,
    decreases level[i], 0nat, 0int,
{
    assert(node_ok(pool, level, i));
    match pool[i] {
        MeasuredBTreeNode::Leaf { data, .. } => {
            lemma_atoms_len(data@);
        },
        MeasuredBTreeNode::Internal { children, .. } => {
            let d = (level[i] - 1) as nat;
            lemma_atoms_kids_len(pool, level, children@, d);
        },
    }
}

/// Where every node at level `d` or below is consistent, the atoms under a list of
/// children at level `d` are as many as the first components of their measures add up to.
pub proof fn lemma_atoms_kids_len<T: MeasuredBTreeData>(
    pool: Seq<MeasuredBTreeNode<T>>,
    level: Seq<nat>,
    kids: Seq<PoolIndex>,
    d: nat,
)
    requires
        level.len() == pool.len(),
        forall|k: int| 0 <= k < kids.len() ==> (#[trigger] kids[k]) < pool.len() && level[kids[k] as int] == d,
        forall|j: int| 0 <= j < pool.len() && level[j] <= d ==> #[trigger] node_ok(pool, level, j),
    ensures
        atoms(items_of_kids(pool, kids, d)).len() == psum(kid_models(pool, kids)).0,
    decreases d, 1nat, kids.len(),
{
    if kids.len() == 0 {
        assert(kid_models(pool, kids) =~= Seq::<(nat, nat)>::empty());
    } else {
        let n = kids.len() - 1;
        let c = kids[n] as int;
        assert(kids.last() == kids[n]);
        assert forall|k: int| 0 <= k < kids.drop_last().len() implies (#[trigger] kids.drop_last()[k]) < pool.len()
            && level[kids.drop_last()[k] as int] == d by {
            assert(kids.drop_last()[k] == kids[k]);
        }
        lemma_atoms_kids_len(pool, level, kids.drop_last(), d);
        lemma_atoms_under_len(pool, level, c);
        lemma_atoms_concat(items_of_kids(pool, kids.drop_last(), d), items_under(pool, c, d));
        assert(kid_models(pool, kids) =~= kid_models(pool, kids.drop_last()).push(pool[c].weight()));
        lemma_psum_push(kid_models(pool, kids.drop_last()), pool[c].weight());
    }
}

/// An insertion into the middle part of a sequence, at an offset within that part, is an
/// insertion into the whole sequence at that offset plus the length of the first part.
pub proof fn lemma_ins_compose<A>(a: Seq<A>, c: Seq<A>, b: Seq<A>, c2: Seq<A>, x: Seq<A>, local: nat, t: nat, last: bool)
    requires
        c2 == ({
            let pc = if local <= c.len() { local as int } else { c.len() as int };
            c.take(pc) + x + c.skip(pc)
        }),
        a.len() + local == t,
        !last ==> local <= c.len(),
        last ==> b.len() == 0,
    ensures
        a + c2 + b == ({
            let w = a + c + b;
            let p = if t <= w.len() { t as int } else { w.len() as int };
            w.take(p) + x + w.skip(p)
        }),
{
    let w = a + c + b;
    let pc = if local <= c.len() { local as int } else { c.len() as int };
    let p = if t <= w.len() { t as int } else { w.len() as int };
    assert(p == a.len() + pc);
    assert(w.take(p) =~= a + c.take(pc));
    assert(w.skip(p) =~= c.skip(pc) + b);
    assert(a + c2 + b =~= w.take(p) + x + w.skip(p));
}


/// Whether a node lies under another depends only on the lists of children.
pub proof fn lemma_under_same_kids<T: MeasuredBTreeData>(
    pool: Seq<MeasuredBTreeNode<T>>,
    pool2: Seq<MeasuredBTreeNode<T>>,
    level: Seq<nat>,
    i: int,
    j: int,
)
    requires
        shapes(pool, level),
        pool2.len() >= pool.len(),
        forall|x: int| 0 <= x < pool.len() ==> (#[trigger] pool2[x]).kids() == pool[x].kids(),
        0 <= i < pool.len(),
    ensures
        under(pool2, i, level[i], j) == under(pool, i, level[i], j),
    decreases level[i], 0nat, 0int,
{
    if level[i] > 0 {
        lemma_kid_facts(pool, level, i);
        assert(pool2[i].kids() == pool[i].kids());
        lemma_under_kids_same_kids(pool, pool2, level, pool[i].kids(), (level[i] - 1) as nat, j);
    }
}

pub proof fn lemma_under_kids_same_kids<T: MeasuredBTreeData>(
    pool: Seq<MeasuredBTreeNode<T>>,
    pool2: Seq<MeasuredBTreeNode<T>>,
    level: Seq<nat>,
    kids: Seq<PoolIndex>,
    d: nat,
    j: int,
)
    requires
        shapes(pool, level),
        pool2.len() >= pool.len(),
        forall|x: int| 0 <= x < pool.len() ==> (#[trigger] pool2[x]).kids() == pool[x].kids(),
        forall|k: int| 0 <= k < kids.len() ==> (#[trigger] kids[k]) < pool.len() && level[kids[k] as int] == d,
    ensures
        under_kids(pool2, kids, d, j) == under_kids(pool, kids, d, j),
    decreases d, 1nat, kids.len(),
{
    if kids.len() > 0 {
        let n = kids.len() - 1;
        assert(kids.last() == kids[n]);
        assert forall|k: int| 0 <= k < kids.drop_last().len() implies (#[trigger] kids.drop_last()[k]) < pool.len()
            && level[kids.drop_last()[k] as int] == d by {
            assert(kids.drop_last()[k] == kids[k]);
        }
        lemma_under_kids_same_kids(pool, pool2, level, kids.drop_last(), d, j);
        lemma_under_same_kids(pool, pool2, level, kids[n] as int, j);
    }
}

/// An insertion at an offset within the middle part of a sequence of items is an
/// insertion into the whole at that offset plus the atoms of the first part.
pub proof fn lemma_inserted_compose<T: MeasuredBTreeData>(
    pre: Seq<T>,
    c: Seq<T>,
    post: Seq<T>,
    c2: Seq<T>,
    x: T,
    local: nat,
    t: nat,
    last: bool,
)
    requires
        inserted_at(c, c2, x, local),
        atoms(pre).len() + local == t,
        !last ==> local <= atoms(c).len(),
        last ==> post.len() == 0,
    ensures
        inserted_at(pre + c + post, pre + c2 + post, x, t),
{
    reveal(inserted_at);
    lemma_atoms_concat(pre + c, post);
    lemma_atoms_concat(pre, c);
    lemma_atoms_concat(pre + c2, post);
    lemma_atoms_concat(pre, c2);
    if last {
        assert(post =~= Seq::<T>::empty());
        assert(atoms(post) =~= Seq::<T::Atom>::empty());
    }
    lemma_ins_compose(atoms(pre), atoms(c), atoms(post), atoms(c2), x.content(), local, t, last);
}

/// An insertion below child `ti` of a list of children, where the children before and
/// after it keep their subtrees, is an insertion into the items under the whole list.
pub proof fn lemma_kids_insert<T: MeasuredBTreeData>(
    pool: Seq<MeasuredBTreeNode<T>>,
    pool2: Seq<MeasuredBTreeNode<T>>,
    level: Seq<nat>,
    ks: Seq<PoolIndex>,
    mid: Seq<PoolIndex>,
    ti: int,
    d: nat,
    x: T,
    local: nat,
    t: nat,
)
    requires
        shapes(pool, level),
        pool2.len() >= pool.len(),
        0 <= ti < ks.len(),
        forall|k: int| 0 <= k < ks.len() ==> (#[trigger] ks[k]) < pool.len() && level[ks[k] as int] == d,
        forall|k: int, j: int| 0 <= k < ks.len() && k != ti && #[trigger] under(pool, ks[k] as int, d, j)
            ==> pool2[j] == pool[j],
        inserted_at(items_under(pool, ks[ti] as int, d), items_of_kids(pool2, mid, d), x, local),
        atoms(items_of_kids(pool, ks.take(ti), d)).len() + local == t,
        ti + 1 < ks.len() ==> local <= atoms(items_under(pool, ks[ti] as int, d)).len(),
    ensures
        inserted_at(items_of_kids(pool, ks, d), items_of_kids(pool2, ks.take(ti) + mid + ks.skip(ti + 1), d), x, t),
{
    let a = ks.take(ti);
    let b = ks.skip(ti + 1);
    assert forall|k: int| 0 <= k < a.len() implies (#[trigger] a[k]) < pool.len() && level[a[k] as int] == d by {
        assert(a[k] == ks[k]);
    }
    assert forall|k: int, j: int| 0 <= k < a.len() && #[trigger] under(pool, a[k] as int, d, j) implies pool2[j] == pool[j] by {
        assert(a[k] == ks[k]);
    }
    assert forall|k: int| 0 <= k < b.len() implies (#[trigger] b[k]) < pool.len() && level[b[k] as int] == d by {
        assert(b[k] == ks[k + ti + 1]);
    }
    assert forall|k: int, j: int| 0 <= k < b.len() && #[trigger] under(pool, b[k] as int, d, j) implies pool2[j] == pool[j] by {
        assert(b[k] == ks[k + ti + 1]);
    }
    lemma_kids_sub_frame(pool, pool2, level, a, d);
    lemma_kids_sub_frame(pool, pool2, level, b, d);
    lemma_items_of_kids_at(pool, ks, ti, d);
    lemma_items_of_kids_concat(pool2, a + mid, b, d);
    lemma_items_of_kids_concat(pool2, a, mid, d);
    if ti + 1 >= ks.len() {
        assert(b =~= Seq::<PoolIndex>::empty());
        assert(items_of_kids(pool, b, d) =~= Seq::<T>::empty());
    }
    lemma_inserted_compose(items_of_kids(pool, a, d), items_under(pool, ks[ti] as int, d), items_of_kids(pool, b, d),
        items_of_kids(pool2, mid, d), x, local, t, ti + 1 >= ks.len());
}


/// A node strictly under `x` has a parent under `x`.
pub proof fn lemma_under_parent<T: MeasuredBTreeData>(pool: Seq<MeasuredBTreeNode<T>>, level: Seq<nat>, x: int, j: int)
    -> (r: (int, int))
    requires
        shapes(pool, level),
        0 <= x < pool.len(),
        under(pool, x, level[x], j),
        j != x,
    ensures
        0 <= r.0 < pool.len(),
        under(pool, x, level[x], r.0),
        0 <= r.1 < pool[r.0].kids().len(),
        pool[r.0].kids()[r.1] as int == j,
        level[r.0] == level[j] + 1,
    decreases level[x],
{
    lemma_under_kids_iff(pool, pool[x].kids(), (level[x] - 1) as nat, j);
    let k = choose|k: int|
        0 <= k < pool[x].kids().len() && #[trigger] under(pool, pool[x].kids()[k] as int, (level[x] - 1) as nat, j);
    lemma_kid_facts(pool, level, x);
    let y = pool[x].kids()[k] as int;
    assert(level[y] == level[x] - 1);
    if j == y {
        assert(under(pool, x, level[x], x));
        (x, k)
    } else {
        let r = lemma_under_parent(pool, level, y, j);
        assert(under(pool, y, level[y], y));
        lemma_under_kid(pool, level, x, k, y);
        lemma_under_trans(pool, level, x, y, r.0);
        r
    }
}

/// A node under a node under `x` is under `x`.
pub proof fn lemma_under_trans<T: MeasuredBTreeData>(pool: Seq<MeasuredBTreeNode<T>>, level: Seq<nat>, x: int, y: int, j: int)
    requires
        shapes(pool, level),
        0 <= x < pool.len(),
        under(pool, x, level[x], y),
        under(pool, y, level[y], j),
    ensures
        under(pool, x, level[x], j),
    decreases level[x],
{
    if y != x {
        lemma_under_kids_iff(pool, pool[x].kids(), (level[x] - 1) as nat, y);
        let k = choose|k: int|
            0 <= k < pool[x].kids().len() && #[trigger] under(pool, pool[x].kids()[k] as int, (level[x] - 1) as nat, y);
        lemma_kid_facts(pool, level, x);
        let z = pool[x].kids()[k] as int;
        assert(level[z] == level[x] - 1);
        lemma_under_trans(pool, level, z, y, j);
        lemma_under_kid(pool, level, x, k, j);
    }
}


/// A deletion of `ov` atoms from offset `lt` under child `i0` of a list of children, where
/// the other children keep their subtrees, deletes those atoms from the items under the
/// whole list, after the atoms of the children before `i0`.
pub proof fn lemma_kids_delete<T: MeasuredBTreeData>(
    pool: Seq<MeasuredBTreeNode<T>>,
    pool2: Seq<MeasuredBTreeNode<T>>,
    level: Seq<nat>,
    ks: Seq<PoolIndex>,
    mid: Seq<PoolIndex>,
    i0: int,
    d: nat,
    lt: nat,
    ov: nat,
)
    requires
        shapes(pool, level),
        pool2.len() >= pool.len(),
        0 <= i0 < ks.len(),
        forall|k: int| 0 <= k < ks.len() ==> (#[trigger] ks[k]) < pool.len() && level[ks[k] as int] == d,
        forall|k: int, j: int| 0 <= k < ks.len() && k != i0 && #[trigger] under(pool, ks[k] as int, d, j)
            ==> pool2[j] == pool[j],
        deleted_at(items_under(pool, ks[i0] as int, d), items_of_kids(pool2, mid, d), lt, ov),
        lt + ov <= atoms(items_under(pool, ks[i0] as int, d)).len(),
    ensures
        ({
            let w = atoms(items_of_kids(pool, ks, d));
            let pos = (atoms(items_of_kids(pool, ks.take(i0), d)).len() + lt) as int;
            &&& pos + ov <= w.len()
            &&& atoms(items_of_kids(pool2, ks.take(i0) + mid + ks.skip(i0 + 1), d)) == w.take(pos) + w.skip(pos + ov)
        }),
{
    reveal(deleted_at);
    let a = ks.take(i0);
    let b = ks.skip(i0 + 1);
    assert forall|k: int| 0 <= k < a.len() implies (#[trigger] a[k]) < pool.len() && level[a[k] as int] == d by {
        assert(a[k] == ks[k]);
    }
    assert forall|k: int, j: int| 0 <= k < a.len() && #[trigger] under(pool, a[k] as int, d, j) implies pool2[j] == pool[j] by {
        assert(a[k] == ks[k]);
    }
    assert forall|k: int| 0 <= k < b.len() implies (#[trigger] b[k]) < pool.len() && level[b[k] as int] == d by {
        assert(b[k] == ks[k + i0 + 1]);
    }
    assert forall|k: int, j: int| 0 <= k < b.len() && #[trigger] under(pool, b[k] as int, d, j) implies pool2[j] == pool[j] by {
        assert(b[k] == ks[k + i0 + 1]);
    }
    lemma_kids_sub_frame(pool, pool2, level, a, d);
    lemma_kids_sub_frame(pool, pool2, level, b, d);
    lemma_items_of_kids_at(pool, ks, i0, d);
    lemma_items_of_kids_concat(pool2, a + mid, b, d);
    lemma_items_of_kids_concat(pool2, a, mid, d);
    let pa = atoms(items_of_kids(pool, a, d));
    let pc = atoms(items_under(pool, ks[i0] as int, d));
    let pb = atoms(items_of_kids(pool, b, d));
    let pm = atoms(items_of_kids(pool2, mid, d));
    lemma_atoms_concat(items_of_kids(pool, a, d) + items_under(pool, ks[i0] as int, d), items_of_kids(pool, b, d));
    lemma_atoms_concat(items_of_kids(pool, a, d), items_under(pool, ks[i0] as int, d));
    lemma_atoms_concat(items_of_kids(pool2, a, d) + items_of_kids(pool2, mid, d), items_of_kids(pool2, b, d));
    lemma_atoms_concat(items_of_kids(pool2, a, d), items_of_kids(pool2, mid, d));
    assert(pm == pc.take(lt as int) + pc.skip((lt + ov) as int));
    let w = pa + pc + pb;
    let pos = (pa.len() + lt) as int;
    assert(w.take(pos) =~= pa + pc.take(lt as int));
    assert(w.skip(pos + ov) =~= pc.skip((lt + ov) as int) + pb);
    assert(pa + pm + pb =~= w.take(pos) + w.skip(pos + ov));
}

} // verus!
