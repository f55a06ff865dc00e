//! The atoms of a sequence of data items: the contents of the items, one after another.
//! An edit of a leaf is described by where, among these atoms, it lands.
use vstd::prelude::*;
use crate::btree::{MeasuredBTreeData, Measure, data_models};
use crate::measure::{psum, plt, lemma_psum_push, lemma_psum_take_plus_one, lemma_psum_take_below, lemma_psum_elem_below};
use crate::in_order::primary_only;

verus! {

/// The contents of the items of `s`, one after another.
pub open spec fn atoms<T: MeasuredBTreeData>(s: Seq<T>) -> Seq<T::Atom>
    decreases s.len(),
{
    if s.len() == 0 {
        Seq::empty()
    } else {
        atoms(s.drop_last()) + s.last().content()
    }
}

/// The atoms of a concatenation are those of its parts.
pub proof fn lemma_atoms_concat<T: MeasuredBTreeData>(a: Seq<T>, b: Seq<T>)
    ensures
        atoms(a + b) == atoms(a) + atoms(b),
    decreases b.len(),
{
    if b.len() == 0 {
        assert(a + b =~= a);
        assert(atoms(a) + atoms(b) =~= atoms(a));
    } else {
        lemma_atoms_concat(a, b.drop_last());
        assert((a + b).drop_last() =~= a + b.drop_last());
        assert((a + b).last() == b.last());
        assert(atoms(a + b) =~= atoms(a) + atoms(b));
    }
}

/// The atoms of one item are its content.
pub proof fn lemma_atoms_single<T: MeasuredBTreeData>(x: T)
    ensures
        atoms(seq![x]) == x.content(),
{
    assert(seq![x].drop_last() =~= Seq::<T>::empty());
    assert(atoms(Seq::<T>::empty()) + x.content() =~= x.content());
}

/// Consistent items hold as many atoms as the first components of their measures add up to.
pub proof fn lemma_atoms_len<T: MeasuredBTreeData>(s: Seq<T>)
    requires
        forall|k: int| 0 <= k < s.len() ==> (#[trigger] s[k]).wf(),
    ensures
        atoms(s).len() == psum(data_models(s)).0,
    decreases s.len(),
{
    if s.len() > 0 {
        let x = s.last();
        assert(x == s[s.len() - 1]);
        assert forall|k: int| 0 <= k < s.drop_last().len() implies (#[trigger] s.drop_last()[k]).wf() by {
            assert(s.drop_last()[k] == s[k]);
        }
        lemma_atoms_len(s.drop_last());
        T::lemma_content(&x);
        assert(data_models(s) =~= data_models(s.drop_last()).push(x.spec_measure().model()));
        lemma_psum_push(data_models(s.drop_last()), x.spec_measure().model());
    }
}

/// The atoms of `s` around its item `i`.
pub proof fn lemma_atoms_at<T: MeasuredBTreeData>(s: Seq<T>, i: int)
    requires
        0 <= i < s.len(),
    ensures
        atoms(s) == atoms(s.take(i)) + s[i].content() + atoms(s.skip(i + 1)),
{
    assert(s =~= s.take(i) + seq![s[i]] + s.skip(i + 1));
    lemma_atoms_concat(s.take(i) + seq![s[i]], s.skip(i + 1));
    lemma_atoms_concat(s.take(i), seq![s[i]]);
    lemma_atoms_single(s[i]);
}

/// The atoms of `s` split where `s` splits.
pub proof fn lemma_atoms_cut<T: MeasuredBTreeData>(s: Seq<T>, i: int)
    requires
        0 <= i <= s.len(),
    ensures
        atoms(s) == atoms(s.take(i)) + atoms(s.skip(i)),
{
    assert(s =~= s.take(i) + s.skip(i));
    lemma_atoms_concat(s.take(i), s.skip(i));
}

/// A sequence of atoms, cut in two parts, gives back the parts by its prefix and suffix.
pub proof fn lemma_take_skip_parts<A>(whole: Seq<A>, a: Seq<A>, b: Seq<A>)
    requires
        whole == a + b,
    ensures
        whole.take(a.len() as int) == a,
        whole.skip(a.len() as int) == b,
{
    assert(whole.take(a.len() as int) =~= a);
    assert(whole.skip(a.len() as int) =~= b);
}


/// The atoms of `new_items` are those of `old_items` with the content of `x` inserted at
/// position `t`, or at their end where `t` lies beyond them.
#[verifier::opaque]
pub open spec fn inserted_at<T: MeasuredBTreeData>(old_items: Seq<T>, new_items: Seq<T>, x: T, t: nat) -> bool {
    let s = atoms(old_items);
    let p = if t <= s.len() { t as int } else { s.len() as int };
    atoms(new_items) == s.take(p) + x.content() + s.skip(p)
}

/// An insertion that puts the content of `x` between the first and the second part of
/// the old atoms lands at the position where the first part ends: `t`, or the end of
/// the old atoms where `t` lies beyond them.
pub proof fn lemma_leaf_insert_atoms<T: MeasuredBTreeData>(
    old_items: Seq<T>,
    new_items: Seq<T>,
    x: T,
    a: Seq<T::Atom>,
    b: Seq<T::Atom>,
    t: nat,
)
    requires
        atoms(new_items) == a + x.content() + b,
        atoms(old_items) == a + b,
        a.len() == t || (t >= atoms(old_items).len() && a.len() == atoms(old_items).len()),
    ensures
        inserted_at(old_items, new_items, x, t),
{
    lemma_take_skip_parts(atoms(old_items), a, b);
    reveal(inserted_at);
}


/// Where an insertion into a leaf lands when the item at `idx` is not split: the target
/// `t`, or the end of the leaf where `t` lies beyond it.
pub proof fn lemma_insert_pos<T: MeasuredBTreeData>(old_items: Seq<T>, idx: int, local: (nat, nat), t: nat, ins: int)
    requires
        0 <= idx <= old_items.len(),
        psum(data_models(old_items).take(idx)).0 + local.0 == t,
        (ins == idx && (idx == old_items.len() || local.0 == 0)) || (ins == idx + 1 && idx < old_items.len()
            && local.0 > 0
            && !plt(old_items[idx].spec_measure().model(), local)
            && !(plt((0nat, 0nat), local) && plt(local, old_items[idx].spec_measure().model()) && 0 < local.0
                && local.0 < old_items[idx].spec_measure().model().0)),
    ensures
        psum(data_models(old_items).take(ins)).0 == t || (t >= psum(data_models(old_items)).0
            && psum(data_models(old_items).take(ins)).0 == psum(data_models(old_items)).0),
{
    let dm = data_models(old_items);
    if ins == idx && idx == old_items.len() {
        assert(dm.take(idx) =~= dm);
    } else if ins == idx + 1 {
        let im = old_items[idx].spec_measure().model();
        assert(dm[idx] == im);
        lemma_psum_take_plus_one(dm, idx);
    }
    lemma_psum_take_below(dm, ins);
}

/// An item inserted at index `i` of a leaf lands, among the atoms, where the items before
/// it end.
pub proof fn lemma_insert_plain_atoms<T: MeasuredBTreeData>(old_items: Seq<T>, new_items: Seq<T>, x: T, i: int, t: nat)
    requires
        0 <= i <= old_items.len(),
        new_items == old_items.insert(i, x),
        forall|k: int| 0 <= k < old_items.len() ==> (#[trigger] old_items[k]).wf(),
        psum(data_models(old_items).take(i)).0 == t || (t >= psum(data_models(old_items)).0
            && psum(data_models(old_items).take(i)).0 == psum(data_models(old_items)).0),
    ensures
        inserted_at(old_items, new_items, x, t),
{
    let pre = old_items.take(i);
    let post = old_items.skip(i);
    assert(new_items =~= pre + seq![x] + post);
    lemma_atoms_concat(pre + seq![x], post);
    lemma_atoms_concat(pre, seq![x]);
    lemma_atoms_single(x);
    lemma_atoms_cut(old_items, i);
    lemma_atoms_len(old_items);
    assert forall|k: int| 0 <= k < pre.len() implies (#[trigger] pre[k]).wf() by {}
    lemma_atoms_len(pre);
    assert(data_models(pre) =~= data_models(old_items).take(i));
    lemma_leaf_insert_atoms(old_items, new_items, x, atoms(pre), atoms(post), t);
}

/// An item merged into the end of item `i` of a leaf lands, among the atoms, where item
/// `i` ends.
pub proof fn lemma_insert_merged_atoms<T: MeasuredBTreeData>(old_items: Seq<T>, new_items: Seq<T>, x: T, i: int, t: nat)
    requires
        0 <= i < old_items.len(),
        new_items == old_items.update(i, new_items[i]),
        new_items[i].content() == old_items[i].content() + x.content(),
        forall|k: int| 0 <= k < old_items.len() ==> (#[trigger] old_items[k]).wf(),
        psum(data_models(old_items).take(i + 1)).0 == t || (t >= psum(data_models(old_items)).0
            && psum(data_models(old_items).take(i + 1)).0 == psum(data_models(old_items)).0),
    ensures
        inserted_at(old_items, new_items, x, t),
{
    let after = new_items[i];
    let before = old_items[i];
    let pre = old_items.take(i + 1);
    let post = old_items.skip(i + 1);
    assert(new_items =~= old_items.take(i) + seq![after] + post);
    lemma_atoms_concat(old_items.take(i) + seq![after], post);
    lemma_atoms_concat(old_items.take(i), seq![after]);
    lemma_atoms_single(after);
    assert(pre =~= old_items.take(i) + seq![before]);
    lemma_atoms_concat(old_items.take(i), seq![before]);
    lemma_atoms_single(before);
    lemma_atoms_cut(old_items, i + 1);
    lemma_atoms_len(old_items);
    assert forall|k: int| 0 <= k < pre.len() implies (#[trigger] pre[k]).wf() by {}
    lemma_atoms_len(pre);
    assert(data_models(pre) =~= data_models(old_items).take(i + 1));
    assert(atoms(new_items) =~= atoms(pre) + x.content() + atoms(post));
    lemma_leaf_insert_atoms(old_items, new_items, x, atoms(pre), atoms(post), t);
}

/// An item inserted inside item `i` of a leaf, which splits into `left` and `right`,
/// lands, among the atoms, where `left` ends.
pub proof fn lemma_insert_split_atoms<T: MeasuredBTreeData>(
    old_items: Seq<T>,
    new_items: Seq<T>,
    x: T,
    i: int,
    left: T,
    right: T,
    merged: bool,
    t: nat,
)
    requires
        0 <= i < old_items.len(),
        old_items[i].content() == left.content() + right.content(),
        forall|k: int| 0 <= k < old_items.len() ==> (#[trigger] old_items[k]).wf(),
        psum(data_models(old_items).take(i)).0 + left.content().len() == t,
        merged ==> new_items == old_items.update(i, left).insert(i + 1, right).update(i, new_items[i])
            && new_items[i].content() == left.content() + x.content(),
        !merged ==> new_items == old_items.update(i, left).insert(i + 1, right).insert(i + 1, x),
    ensures
        inserted_at(old_items, new_items, x, t),
{
    let pre = old_items.take(i);
    let post = old_items.skip(i + 1);
    if merged {
        let l2 = new_items[i];
        assert(new_items =~= pre + seq![l2] + seq![right] + post);
        lemma_atoms_concat(pre + seq![l2] + seq![right], post);
        lemma_atoms_concat(pre + seq![l2], seq![right]);
        lemma_atoms_concat(pre, seq![l2]);
        lemma_atoms_single(l2);
    } else {
        assert(new_items =~= pre + seq![left] + seq![x] + seq![right] + post);
        lemma_atoms_concat(pre + seq![left] + seq![x] + seq![right], post);
        lemma_atoms_concat(pre + seq![left] + seq![x], seq![right]);
        lemma_atoms_concat(pre + seq![left], seq![x]);
        lemma_atoms_concat(pre, seq![left]);
        lemma_atoms_single(left);
        lemma_atoms_single(x);
    }
    lemma_atoms_single(right);
    lemma_atoms_at(old_items, i);
    lemma_atoms_len(old_items);
    assert forall|k: int| 0 <= k < pre.len() implies (#[trigger] pre[k]).wf() by {}
    lemma_atoms_len(pre);
    assert(data_models(pre) =~= data_models(old_items).take(i));
    let a = atoms(pre) + left.content();
    let b = right.content() + atoms(post);
    assert(atoms(new_items) =~= a + x.content() + b);
    assert(atoms(old_items) =~= a + b);
    lemma_leaf_insert_atoms(old_items, new_items, x, a, b, t);
}


/// The atoms of `new_items` are those of `old_items` without the `l` atoms from position
/// `t` on (as many of them as there are).
#[verifier::opaque]
pub open spec fn deleted_at<T: MeasuredBTreeData>(old_items: Seq<T>, new_items: Seq<T>, t: nat, l: nat) -> bool {
    let s = atoms(old_items);
    let p = if t <= s.len() { t as int } else { s.len() as int };
    let q = if t + l <= s.len() { (t + l) as int } else { s.len() as int };
    atoms(new_items) == s.take(p) + s.skip(q)
}

/// Replacing item `idx` by items whose atoms are those of item `idx` without its atoms
/// `a..a + ov` removes, from the atoms of the sequence, the `ov` atoms from where the
/// items before `idx` end plus `a`.
pub proof fn lemma_atoms_replace<T: MeasuredBTreeData>(
    before: Seq<T>,
    after: Seq<T>,
    idx: int,
    mid: Seq<T>,
    a: int,
    ov: int,
)
    requires
        0 <= idx < before.len(),
        0 <= a,
        0 <= ov,
        a + ov <= before[idx].content().len(),
        after == before.take(idx) + mid + before.skip(idx + 1),
        atoms(mid) == before[idx].content().take(a) + before[idx].content().skip(a + ov),
    ensures
        ({
            let pos = atoms(before.take(idx)).len() + a;
            &&& pos + ov <= atoms(before).len()
            &&& atoms(after) == atoms(before).take(pos) + atoms(before).skip(pos + ov)
        }),
{
    let x = before[idx].content();
    let pre = atoms(before.take(idx));
    let post = atoms(before.skip(idx + 1));
    lemma_atoms_at(before, idx);
    lemma_atoms_concat(before.take(idx) + mid, before.skip(idx + 1));
    lemma_atoms_concat(before.take(idx), mid);
    let pos = pre.len() + a;
    assert(atoms(before) == pre + x + post);
    assert(atoms(before).take(pos) =~= pre + x.take(a));
    assert(atoms(before).skip(pos + ov) =~= x.skip(a + ov) + post);
    assert(atoms(after) =~= atoms(before).take(pos) + atoms(before).skip(pos + ov));
}


/// Inserting an item into no items gives that item, wherever the target.
pub proof fn lemma_inserted_into_empty<T: MeasuredBTreeData>(x: T, t: nat)
    ensures
        inserted_at(Seq::<T>::empty(), seq![x], x, t),
{
    reveal(inserted_at);
    lemma_atoms_single(x);
    assert(atoms(Seq::<T>::empty()) =~= Seq::<T::Atom>::empty());
    let s = atoms(Seq::<T>::empty());
    assert(s.take(0) + x.content() + s.skip(0) =~= x.content());
}


/// Deleting nothing keeps the atoms.
pub proof fn lemma_deleted_nothing<T: MeasuredBTreeData>(items: Seq<T>, t: nat)
    ensures
        deleted_at(items, items, t, 0),
{
    reveal(deleted_at);
    let s = atoms(items);
    let p = if t <= s.len() { t as int } else { s.len() as int };
    assert(s.take(p) + s.skip(p) =~= s);
}

} // verus!
