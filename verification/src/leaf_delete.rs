//! Deleting a range of positions from one leaf of a measured B-Tree: items covered
//! entirely are removed, items covered at one end are trimmed, and an item that strictly
//! contains the range is cut around it.
use vstd::prelude::*;
use crate::btree::{MeasuredBTree, MeasuredBTreeData, MeasuredBTreeNode, PoolIndex, Measure, data_models,
    lemma_part_below, lemma_ends_below};
use crate::in_order::primary_only;
use crate::atoms::{atoms, deleted_at, lemma_atoms_len, lemma_atoms_replace, lemma_atoms_single, lemma_atoms_concat};
use crate::measure::{padd, nsub, ple, pbelow, psum, removed_amount, lemma_psum_push, lemma_psum_remove,
    lemma_psum_update, lemma_psum_insert, lemma_psum_take_below};

verus! {

impl<T: MeasuredBTreeData> MeasuredBTree<T> {
    /// Removes `length` from leaf `pool_idx`, starting at the offset `target` within the
    /// leaf, and recomputes the measure of the leaf. Items covered entirely are removed,
    /// items covered at one end are trimmed, and an item that strictly contains the range
    /// is split around it.
    #[verifier::rlimit(60)]
    pub(crate) fn delete_in_leaf(&mut self, pool_idx: PoolIndex, target: T::Measure, length: T::Measure)
        requires
            pool_idx < old(self).pool@.len(),
            old(self).pool@[pool_idx as int] is Leaf,
            forall|k: int| 0 <= k < old(self).pool@[pool_idx as int].items().len()
                ==> (#[trigger] old(self).pool@[pool_idx as int].items()[k]).wf(),
            old(self).pool@[pool_idx as int].weight() == psum(data_models(old(self).pool@[pool_idx as int].items())),
        ensures
            final(self).pool@.len() == old(self).pool@.len(),
            final(self).pool@[pool_idx as int] is Leaf,
            forall|k: int| 0 <= k < final(self).pool@[pool_idx as int].items().len()
                ==> (#[trigger] final(self).pool@[pool_idx as int].items()[k]).wf(),
            final(self).pool@[pool_idx as int].weight() == psum(data_models(final(self).pool@[pool_idx as int].items())),
            pbelow(final(self).pool@[pool_idx as int].weight(), old(self).pool@[pool_idx as int].weight()),
            primary_only::<T::Measure>() ==> final(self).pool@[pool_idx as int].weight().0 + removed_amount(
                old(self).pool@[pool_idx as int].weight().0, target.model().0, length.model().0)
                == old(self).pool@[pool_idx as int].weight().0,
            primary_only::<T::Measure>() ==> deleted_at(old(self).pool@[pool_idx as int].items(),
                final(self).pool@[pool_idx as int].items(), target.model().0, length.model().0),
            forall|j: int| 0 <= j < old(self).pool@.len() && j != pool_idx ==> final(self).pool@[j] == old(self).pool@[j],
            final(self).root_idx == old(self).root_idx,
            final(self).level == old(self).level,
            final(self).free_leaves_list == old(self).free_leaves_list,
            final(self).free_internals_list == old(self).free_internals_list,
    {
        let ghost old_items = self.pool@[pool_idx as int].items();
        let ghost total = psum(data_models(old_items));
        let (leaf_data, leaf_measure) = match &mut self.pool[pool_idx] {
            MeasuredBTreeNode::Leaf { data: leaf_data, measure } => (leaf_data, measure),
            MeasuredBTreeNode::Internal { .. } => {
                return ;
            },
        };
        let ghost po = primary_only::<T::Measure>();
        let ghost w = total.0;
        let ghost t = target.model().0;
        let ghost len0 = length.model().0;
        let mut idx: usize = 0;
        let mut local_target = target;
        let zero = T::Measure::zero();
        proof {
            assert(data_models(old_items.take(0)) =~= Seq::<(nat, nat)>::empty());
        }
        while idx < leaf_data.len() && leaf_data[idx].measure().at_most(&local_target)
            invariant
                0 <= idx <= leaf_data.len(),
                leaf_data@ == old_items,
                psum(data_models(old_items.take(idx as int))).0 + local_target.model().0 == t,
                t == target.model().0,
            decreases leaf_data.len() - idx,
        {
            let m = leaf_data[idx].measure();
            proof {
                assert(data_models(old_items.take(idx + 1)) =~= data_models(old_items.take(idx as int)).push(m.model()));
                lemma_psum_push(data_models(old_items.take(idx as int)), m.model());
            }
            local_target = local_target.minus(m);
            idx += 1;
        }
        let mut local_length = length;
        let ghost sa = atoms(old_items);
        let ghost p = if t <= sa.len() { t as int } else { sa.len() as int };
        proof {
            lemma_atoms_len(old_items);
            assert(sa.take(p) + sa.skip(p) =~= sa);
        }
        while idx < leaf_data.len() && zero.less_than(&local_length)
            invariant
                sa == atoms(old_items),
                sa.len() == w,
                p == (if t <= sa.len() { t as int } else { sa.len() as int }),
                po ==> p + (len0 - local_length.model().0) <= sa.len(),
                po ==> atoms(leaf_data@) == sa.take(p) + sa.skip(p + (len0 - local_length.model().0)),
                0 <= idx <= leaf_data.len(),
                forall|k: int| 0 <= k < leaf_data@.len() ==> (#[trigger] leaf_data@[k]).wf(),
                pbelow(psum(data_models(leaf_data@)), total),
                po == primary_only::<T::Measure>(),
                w == total.0,
                t == target.model().0,
                len0 == length.model().0,
                zero.model() == (0nat, 0nat),
                local_length.model().0 <= len0,
                po ==> psum(data_models(leaf_data@)).0 + (len0 - local_length.model().0) == w,
                po ==> (local_length.model().0 > 0
                    ==> psum(data_models(leaf_data@.take(idx as int))).0 + local_target.model().0 == t),
                po ==> (local_length.model().0 < len0 ==> psum(data_models(leaf_data@.take(idx as int))).0 >= t),
                po ==> (local_target.model().0 == 0 || local_length.model().0 == len0),
                idx < leaf_data.len() ==> ple(local_target.model(), leaf_data@[idx as int].spec_measure().model()),
            decreases leaf_data.len() - idx,
        {
            let ghost sb = psum(data_models(leaf_data@.take(idx as int))).0;
            proof {
                if po {
                    assert(local_target.model().1 == 0);
                    assert(local_length.model().1 == 0);
                    assert(leaf_data@[idx as int].spec_measure().model().1 == 0);
                }
            }
            let ghost before = leaf_data@;
            let ghost x = leaf_data@[idx as int];
            let ghost i0 = idx as int;
            let ghost lt0 = local_target.model().0;
            let ghost ll0 = local_length.model().0;
            let ghost mut mid_g: Seq<T> = seq![x];
            let ghost mut a_g: int = lt0 as int;
            let data_measure = leaf_data[idx].measure();
            let rest = data_measure.saturating_minus(local_target);
            let overlap = if local_length.at_most(&rest) { local_length } else { rest };
            proof {
                T::lemma_content(&x);
            }
            if local_target.same(&zero) && overlap.same(&data_measure) {
                leaf_data.remove(idx);
                proof {
                    mid_g = Seq::empty();
                    assert(leaf_data@ =~= before.take(i0) + mid_g + before.skip(i0 + 1));
                    assert(data_models(leaf_data@) =~= data_models(before).remove(idx as int));
                    lemma_psum_remove(data_models(before), idx as int);
                    assert(leaf_data@.take(idx as int) =~= before.take(idx as int));
                }
            } else if local_target.same(&zero) {
                if 0 < overlap.primary() && overlap.primary() < data_measure.primary() {
                    let right_keep = leaf_data[idx].split_at(overlap);
                    proof {
                        lemma_part_below(x, right_keep, overlap.model().0 as int);
                        assert(data_models(before.update(idx as int, right_keep)) =~= data_models(before).update(
                            idx as int,
                            right_keep.spec_measure().model(),
                        ));
                        lemma_psum_update(data_models(before), idx as int, right_keep.spec_measure().model());
                    }
                    leaf_data.set(idx, right_keep);
                    proof {
                        mid_g = seq![right_keep];
                        assert(leaf_data@ =~= before.take(i0) + mid_g + before.skip(i0 + 1));
                        assert(leaf_data@ =~= before.update(idx as int, right_keep));
                        T::lemma_content(&right_keep);
                        assert(leaf_data@.take(idx + 1) =~= before.take(idx as int).push(right_keep));
                        assert(data_models(leaf_data@.take(idx + 1)) =~= data_models(before.take(idx as int)).push(
                            right_keep.spec_measure().model()));
                        lemma_psum_push(data_models(before.take(idx as int)), right_keep.spec_measure().model());
                    }
                } else {
                    proof {
                        if po {
                            assert(overlap.model().0 == 0);
                        }
                        assert(leaf_data@ =~= before.take(i0) + mid_g + before.skip(i0 + 1));
                        assert(leaf_data@.take(idx + 1) =~= before.take(idx as int).push(x));
                        assert(data_models(leaf_data@.take(idx + 1)) =~= data_models(before.take(idx as int)).push(
                            x.spec_measure().model()));
                        lemma_psum_push(data_models(before.take(idx as int)), x.spec_measure().model());
                    }
                }
                idx += 1;
            } else if overlap.same(&rest) {
                if 0 < local_target.primary() && local_target.primary() < data_measure.primary() {
                    let _discarded_right = leaf_data[idx].split_at(local_target);
                    proof {
                        let l = leaf_data@[idx as int];
                        mid_g = seq![l];
                        a_g = lt0 as int;
                        assert(leaf_data@ =~= before.take(i0) + mid_g + before.skip(i0 + 1));
                        lemma_part_below(x, l, local_target.model().0 as int);
                        assert(leaf_data@ =~= before.update(idx as int, l));
                        assert(data_models(leaf_data@) =~= data_models(before).update(
                            idx as int,
                            l.spec_measure().model(),
                        ));
                        lemma_psum_update(data_models(before), idx as int, l.spec_measure().model());
                        T::lemma_content(&l);
                        assert(leaf_data@.take(idx + 1) =~= before.take(idx as int).push(l));
                        assert(data_models(leaf_data@.take(idx + 1)) =~= data_models(before.take(idx as int)).push(
                            l.spec_measure().model()));
                        lemma_psum_push(data_models(before.take(idx as int)), l.spec_measure().model());
                    }
                } else {
                    proof {
                        if po {
                            assert(overlap.model().0 == 0);
                        }
                        assert(leaf_data@ =~= before.take(i0) + mid_g + before.skip(i0 + 1));
                        assert(leaf_data@.take(idx + 1) =~= before.take(idx as int).push(x));
                        assert(data_models(leaf_data@.take(idx + 1)) =~= data_models(before.take(idx as int)).push(
                            x.spec_measure().model()));
                        lemma_psum_push(data_models(before.take(idx as int)), x.spec_measure().model());
                    }
                }
                idx += 1;
            } else {
                if 0 < local_target.primary() && local_target.primary() < data_measure.primary()
                    && 0 < overlap.primary() && overlap.primary() < data_measure.primary() - local_target.primary() {
                    let mut mid_and_right = leaf_data[idx].split_at(local_target);
                    let ghost l = leaf_data@[idx as int];
                    let ghost mr = mid_and_right;
                    let right_keep = mid_and_right.split_at(overlap);
                    proof {
                        let a = local_target.model().0 as int;
                        let b = a + overlap.model().0;
                        assert(right_keep.content() =~= x.content().skip(b));
                        lemma_ends_below(x, l, right_keep, a, b);
                    }
                    leaf_data.insert(idx + 1, right_keep);
                    proof {
                        mid_g = seq![l, right_keep];
                        a_g = lt0 as int;
                        assert(leaf_data@ =~= before.take(i0) + mid_g + before.skip(i0 + 1));
                        let mid = before.update(idx as int, l);
                        assert(leaf_data@ =~= mid.insert(idx + 1, right_keep));
                        assert(data_models(leaf_data@) =~= data_models(mid).insert(idx + 1, right_keep.spec_measure().model()));
                        assert(data_models(mid) =~= data_models(before).update(idx as int, l.spec_measure().model()));
                        lemma_psum_update(data_models(before), idx as int, l.spec_measure().model());
                        lemma_psum_insert(data_models(mid), idx + 1, right_keep.spec_measure().model());
                        assert forall|k: int| 0 <= k < leaf_data@.len() implies (#[trigger] leaf_data@[k]).wf() by {
                            if k < idx {
                                assert(leaf_data@[k] == before[k]);
                            } else if k > idx + 1 {
                                assert(leaf_data@[k] == before[k - 1]);
                            }
                        }
                        T::lemma_content(&l);
                        T::lemma_content(&right_keep);
                        assert(leaf_data@.take(idx + 2) =~= before.take(idx as int).push(l).push(right_keep));
                        assert(data_models(leaf_data@.take(idx + 2)) =~= data_models(before.take(idx as int)).push(
                            l.spec_measure().model()).push(right_keep.spec_measure().model()));
                        lemma_psum_push(data_models(before.take(idx as int)), l.spec_measure().model());
                        lemma_psum_push(data_models(before.take(idx as int)).push(l.spec_measure().model()),
                            right_keep.spec_measure().model());
                    }
                    assert(idx + 2 <= leaf_data.len());
                    idx += 2;
                } else {
                    proof {
                        if po {
                            assert(overlap.model().0 == 0);
                        }
                        assert(leaf_data@ =~= before.take(i0) + mid_g + before.skip(i0 + 1));
                        assert(leaf_data@.take(idx + 1) =~= before.take(idx as int).push(x));
                        assert(data_models(leaf_data@.take(idx + 1)) =~= data_models(before.take(idx as int)).push(
                            x.spec_measure().model()));
                        lemma_psum_push(data_models(before.take(idx as int)), x.spec_measure().model());
                    }
                    idx += 1;
                }
            }
            proof {
                if po {
                    let ov = overlap.model().0 as int;
                    let r0 = (len0 - ll0) as int;
                    T::lemma_content(&x);
                    assert(atoms(mid_g) =~= x.content().take(a_g) + x.content().skip(a_g + ov)) by {
                        if mid_g.len() == 0 {
                        } else if mid_g.len() == 1 {
                            lemma_atoms_single(mid_g[0]);
                            assert(mid_g =~= seq![mid_g[0]]);
                        } else {
                            assert(mid_g =~= seq![mid_g[0]] + seq![mid_g[1]]);
                            lemma_atoms_concat(seq![mid_g[0]], seq![mid_g[1]]);
                            lemma_atoms_single(mid_g[0]);
                            lemma_atoms_single(mid_g[1]);
                        }
                    }
                    lemma_atoms_replace(before, leaf_data@, i0, mid_g, a_g, ov);
                    assert forall|k: int| 0 <= k < before.take(i0).len() implies (#[trigger] before.take(i0)[k]).wf() by {
                        assert(before.take(i0)[k] == before[k]);
                    }
                    lemma_atoms_len(before.take(i0));
                    assert(atoms(before.take(i0)).len() + a_g == t);
                    assert(p == t);
                    assert(atoms(leaf_data@) =~= sa.take(p) + sa.skip(p + r0 + ov));
                }
            }
            local_length = local_length.minus(overlap);
            local_target = zero;
        }
        proof {
            T::Measure::lemma_fits(*leaf_measure);
            T::Measure::lemma_fits_below(total, psum(data_models(leaf_data@)));
            if po {
                let ll = local_length.model().0;
                let sz = psum(data_models(leaf_data@)).0;
                let sb = psum(data_models(leaf_data@.take(idx as int))).0;
                assert(local_length.model().1 == 0);
                assert(data_models(leaf_data@.take(idx as int)) =~= data_models(leaf_data@).take(idx as int));
                lemma_psum_take_below(data_models(leaf_data@), idx as int);
                assert(sb <= sz);
                if idx >= leaf_data.len() {
                    assert(leaf_data@.take(idx as int) =~= leaf_data@);
                    assert(sb == sz);
                    if ll > 0 {
                        assert(sz + local_target.model().0 == t);
                        if ll < len0 {
                            assert(local_target.model().0 == 0);
                            assert(sz == t);
                            assert(len0 - ll == w - t);
                        } else {
                            assert(w == sz);
                            assert(nsub(w, t) == 0);
                        }
                    }
                }
                if ll == 0 {
                    if len0 > 0 {
                        assert(sb >= t);
                        assert(w == sz + len0);
                        assert(len0 <= nsub(w, t));
                    }
                }
                assert(sz + removed_amount(w, t, len0) == w);
            }
        }
        proof {
            reveal(deleted_at);
        }
        *leaf_measure = Self::data_sum(leaf_data);
    }
}

} // verus!
