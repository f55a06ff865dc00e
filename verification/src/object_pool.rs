//! An object pool: objects live in a vector and are handed out by index; freed slots
//! are reset and recycled before the vector grows.
use vstd::prelude::*;

verus! {

/// Initial capacity of the pool and of its free list.
pub const INITIAL_OBJECT_POOL_CAPACITY: usize = 1024;

/// Index of an object in an `ObjectPool`.
pub type ObjectPoolIndex = usize;

/// Objects that an `ObjectPool` can create and recycle.
pub trait Poolable: Sized {
    /// The object is in the state of a new one, ready to be handed out.
    spec fn is_fresh(&self) -> bool;

    fn new() -> (r: Self)
        ensures
            r.is_fresh(),
    ;

    /// Brings the object back to the state of a new one.
    fn reset(&mut self)
        ensures
            final(self).is_fresh(),
    ;
}

/// An object of the pool with its liveness.
pub struct PoolableWrapper<T> {
    pub object: T,
    pub is_alive: bool,
}

/// The number of `false` entries of a sequence.
pub open spec fn count_dead(s: Seq<bool>) -> nat
    decreases s.len(),
{
    if s.len() == 0 {
        0
    } else {
        count_dead(s.drop_last()) + if s.last() { 0nat } else { 1nat }
    }
}

pub proof fn lemma_count_dead_bound(s: Seq<bool>)
    ensures
        count_dead(s) <= s.len(),
    decreases s.len(),
{
    if s.len() > 0 {
        lemma_count_dead_bound(s.drop_last());
    }
}

/// Changing one entry changes the count by the difference of the entries.
pub proof fn lemma_count_dead_update(s: Seq<bool>, i: int, v: bool)
    requires
        0 <= i < s.len(),
    ensures
        count_dead(s.update(i, v)) + (if s[i] { 0int } else { 1int }) == count_dead(s) + (if v { 0int } else { 1int }),
    decreases s.len(),
{
    if i == s.len() - 1 {
        assert(s.update(i, v).drop_last() =~= s.drop_last());
    } else {
        lemma_count_dead_update(s.drop_last(), i, v);
        assert(s.update(i, v).drop_last() =~= s.drop_last().update(i, v));
    }
}

/// What freeing slot `i` does to the liveness of the slots and to the free list: a live
/// slot dies and its index goes on top of the free list; anything else changes nothing.
pub open spec fn dealloc_model(slots: Seq<bool>, free: Seq<usize>, i: usize) -> (Seq<bool>, Seq<usize>) {
    if i < slots.len() && slots[i as int] {
        (slots.update(i as int, false), free.push(i))
    } else {
        (slots, free)
    }
}

/// What an allocation does to the liveness of the slots and to the free list, and the
/// index it hands out: the index on top of the free list, or else a new slot at the end.
pub open spec fn alloc_model(slots: Seq<bool>, free: Seq<usize>) -> (Seq<bool>, Seq<usize>, usize) {
    if free.len() > 0 {
        (slots.update(free.last() as int, true), free.drop_last(), free.last())
    } else {
        (slots.push(true), free, slots.len() as usize)
    }
}

/// Freeing a live slot and then allocating hands the same slot back and restores the
/// liveness of the slots and the free list.
pub proof fn lemma_free_then_allocate(slots: Seq<bool>, free: Seq<usize>, i: usize)
    requires
        i < slots.len(),
        slots[i as int],
    ensures
        ({
            let (s1, f1) = dealloc_model(slots, free, i);
            alloc_model(s1, f1) == (slots, free, i)
        }),
{
    assert(slots.update(i as int, false).update(i as int, true) =~= slots);
    assert(free.push(i).drop_last() =~= free);
}

pub struct ObjectPool<T: Poolable> {
    pub pool: Vec<PoolableWrapper<T>>,
    pub free_object_indices: Vec<ObjectPoolIndex>,
}

impl<T: Poolable> ObjectPool<T> {
    /// The liveness of each slot.
    pub open spec fn slots(&self) -> Seq<bool> {
        self.pool@.map_values(|w: PoolableWrapper<T>| w.is_alive)
    }

    /// The number of live objects.
    pub open spec fn live_count(&self) -> nat {
        (self.slots().len() - count_dead(self.slots())) as nat
    }

    /// The free list holds, once each, exactly as many indices as there are dead slots,
    /// and each of them is a dead slot; the object of every dead slot is fresh.
    pub open spec fn wf(&self) -> bool {
        &&& forall|i: int| 0 <= i < self.pool@.len() && !(#[trigger] self.pool@[i]).is_alive
            ==> self.pool@[i].object.is_fresh()
        &&& self.free_object_indices@.no_duplicates()
        &&& forall|k: int| 0 <= k < self.free_object_indices@.len() ==> {
            &&& (#[trigger] self.free_object_indices@[k]) < self.pool@.len()
            &&& !self.pool@[self.free_object_indices@[k] as int].is_alive
        }
        &&& self.free_object_indices@.len() == count_dead(self.slots())
    }

    pub fn new() -> (r: Self)
        ensures
            r.wf(),
            r.slots() == Seq::<bool>::empty(),
    {
        let r = ObjectPool {
            pool: Vec::with_capacity(INITIAL_OBJECT_POOL_CAPACITY),
            free_object_indices: Vec::with_capacity(INITIAL_OBJECT_POOL_CAPACITY),
        };
        assert(r.slots() =~= Seq::<bool>::empty());
        r
    }

    /// Hands out a slot: the most recently freed one, or a new one holding `T::new()`;
    /// either way its object is fresh.
    pub fn allocate(&mut self) -> (index: ObjectPoolIndex)
        requires
            old(self).wf(),
        ensures
            final(self).wf(),
            index < final(self).slots().len(),
            final(self).slots() == (if index < old(self).slots().len() {
                old(self).slots().update(index as int, true)
            } else {
                old(self).slots().push(true)
            }),
            index < old(self).slots().len() ==> !old(self).slots()[index as int]
                && final(self).pool@[index as int].object == old(self).pool@[index as int].object,
            index >= old(self).slots().len() ==> index == old(self).slots().len(),
            old(self).free_object_indices@.len() > 0 <==> index < old(self).slots().len(),
            (final(self).slots(), final(self).free_object_indices@, index)
                == alloc_model(old(self).slots(), old(self).free_object_indices@),
            forall|j: int| 0 <= j < old(self).pool@.len() && j != index ==> final(self).pool@[j] == old(self).pool@[j],
            final(self).live_count() == old(self).live_count() + 1,
            final(self).pool@[index as int].object.is_fresh(),
    {
        let ghost s0 = self.slots();
        let ghost f0 = self.free_object_indices@;
        match self.free_object_indices.pop() {
            Some(index) => {
                let ghost k = f0.len() - 1;
                assert(f0[k] == index);
                assert(self.free_object_indices@ =~= f0.drop_last());
                let obj_wrapper = &mut self.pool[index];
                obj_wrapper.is_alive = true;
                proof {
                    assert(self.slots() =~= s0.update(index as int, true));
                    lemma_count_dead_update(s0, index as int, true);
                    lemma_count_dead_bound(s0);
                    lemma_count_dead_bound(self.slots());
                    assert forall|m: int| 0 <= m < self.free_object_indices@.len() implies {
                        &&& (#[trigger] self.free_object_indices@[m]) < self.pool@.len()
                        &&& !self.pool@[self.free_object_indices@[m] as int].is_alive
                    } by {
                        assert(self.free_object_indices@[m] == f0[m]);
                        assert(f0[m] != f0[k]);
                    }
                }
                index
            },
            None => {
                let index = self.pool.len();
                self.pool.push(PoolableWrapper { object: T::new(), is_alive: true });
                proof {
                    assert(self.slots() =~= s0.push(true));
                    assert(self.slots().drop_last() =~= s0);
                    lemma_count_dead_bound(s0);
                }
                index
            },
        }
    }

    /// Frees a live slot: resets its object and puts its index on the free list. An index
    /// past the end, or of a slot that is already free, is a no-op.
    pub fn deallocate(&mut self, index: ObjectPoolIndex)
        requires
            old(self).wf(),
        ensures
            final(self).wf(),
            index >= old(self).slots().len() || !old(self).slots()[index as int] ==> *final(self) == *old(self),
            index < old(self).slots().len() && old(self).slots()[index as int] ==> {
                &&& final(self).slots() == old(self).slots().update(index as int, false)
                &&& final(self).live_count() + 1 == old(self).live_count()
                &&& final(self).free_object_indices@ == old(self).free_object_indices@.push(index)
                &&& final(self).pool@[index as int].object.is_fresh()
            },
            (final(self).slots(), final(self).free_object_indices@)
                == dealloc_model(old(self).slots(), old(self).free_object_indices@, index),
            forall|j: int| 0 <= j < old(self).pool@.len() && j != index ==> final(self).pool@[j] == old(self).pool@[j],
            final(self).pool@.len() == old(self).pool@.len(),
    {
        if index >= self.pool.len() {
            return ;
        }
        if !self.pool[index].is_alive {
            return ;
        }
        let ghost s0 = self.slots();
        let ghost f0 = self.free_object_indices@;
        let obj_wrapper = &mut self.pool[index];
        obj_wrapper.is_alive = false;
        obj_wrapper.object.reset();
        self.free_object_indices.push(index);
        proof {
            assert(self.slots() =~= s0.update(index as int, false));
            lemma_count_dead_update(s0, index as int, false);
            lemma_count_dead_bound(s0);
            lemma_count_dead_bound(self.slots());
            assert forall|m: int| 0 <= m < self.free_object_indices@.len() implies {
                &&& (#[trigger] self.free_object_indices@[m]) < self.pool@.len()
                &&& !self.pool@[self.free_object_indices@[m] as int].is_alive
            } by {
                if m < f0.len() {
                    assert(self.free_object_indices@[m] == f0[m]);
                }
            }
            assert(self.free_object_indices@.no_duplicates()) by {
                assert forall|a: int, b: int| 0 <= a < b < self.free_object_indices@.len() implies
                    self.free_object_indices@[a] != self.free_object_indices@[b] by {
                    if b == f0.len() {
                        assert(!s0[f0[a] as int]);
                    }
                }
            }
        }
    }

    /// The object at `index`, when that slot is live.
    pub fn get_object(&self, index: ObjectPoolIndex) -> (r: Option<&T>)
        ensures
            match r {
                Some(o) => index < self.pool@.len() && self.pool@[index as int].is_alive && *o
                    == self.pool@[index as int].object,
                None => index >= self.pool@.len() || !self.pool@[index as int].is_alive,
            },
    {
        if index < self.pool.len() && self.pool[index].is_alive {
            Some(&self.pool[index].object)
        } else {
            None
        }
    }

    /// Mutable access to the object at `index`, when that slot is live.
    pub fn get_object_mut(&mut self, index: ObjectPoolIndex) -> (r: Option<&mut T>)
        ensures
            r is None ==> *final(self) == *old(self) && (index >= old(self).pool@.len()
                || !old(self).pool@[index as int].is_alive),
            r matches Some(o) ==> {
                &&& index < old(self).pool@.len()
                &&& old(self).pool@[index as int].is_alive
                &&& *o == old(self).pool@[index as int].object
                &&& final(self).pool@ == old(self).pool@.update(index as int,
                    PoolableWrapper { object: *final(o), is_alive: true })
                &&& final(self).free_object_indices == old(self).free_object_indices
            },
    {
        if index < self.pool.len() && self.pool[index].is_alive {
            let w = &mut self.pool[index];
            Some(&mut w.object)
        } else {
            None
        }
    }

    /// The number of live objects.
    pub fn len(&self) -> (r: usize)
        requires
            self.wf(),
        ensures
            r == self.live_count(),
    {
        proof {
            lemma_count_dead_bound(self.slots());
        }
        self.pool.len() - self.free_object_indices.len()
    }

    /// Whether no object is live.
    pub fn is_empty(&self) -> (r: bool)
        requires
            self.wf(),
        ensures
            r == (self.live_count() == 0),
    {
        self.len() == 0
    }
}

} // verus!
