//! Nodes of a measured B-Tree whose nodes live in object pools: leaves hold data items,
//! internal nodes hold the pool indices of their children, and both cache a measure.
use vstd::prelude::*;
use crate::object_pool::{ObjectPoolIndex, Poolable};

verus! {

/// Maximum number of data items of a leaf.
pub const BTREE_DATA_CAPACITY: u8 = 31;

/// Maximum number of children of an internal node.
pub const BTREE_CHILD_CAPACITY: u8 = 32;

/// A measure that summarizes the data under a node.
pub trait Measure: Sized + Copy {
    /// The neutral measure.
    fn zero() -> Self;

    /// Resets the measure to the neutral one.
    fn reset(&mut self);
}

/// The data items of the leaves.
pub trait Data: Sized {
    type Measure: Measure;

    /// The measure of the item.
    fn get_measure(&self) -> Self::Measure;

    /// Keeps the left part of the item in `self` and returns the right part.
    fn split_off(&mut self, at: Self::Measure) -> Self;

    /// Appends `other` to `self` when possible; returns whether it did.
    fn try_merge(&mut self, other: &Self) -> bool;
}

/// A node of the tree.
pub trait Node: Poolable {
    type NodeMeasure: Measure;

    fn get_measure(&self) -> Self::NodeMeasure;

    fn get_mut_measure(&mut self) -> &mut Self::NodeMeasure;

    /// Whether the node holds no entry.
    fn is_empty(&self) -> bool;

    /// Whether the node holds its capacity of entries.
    fn is_full(&self) -> bool;
}

/// A leaf: data items and their measure.
pub struct Leaf<T: Data> {
    pub data_vec: Vec<T>,
    pub measure: T::Measure,
}

/// An internal node: the pool indices of its children and their measure.
pub struct Internal<T: Data> {
    pub children: Vec<ObjectPoolIndex>,
    pub measure: T::Measure,
}


impl<T: Data> Poolable for Leaf<T> {
    open spec fn is_fresh(&self) -> bool {
        self.data_vec@.len() == 0
    }

    fn new() -> (r: Self)
        ensures
            r.data_vec@.len() == 0,
    {
        Leaf { data_vec: Vec::with_capacity(BTREE_DATA_CAPACITY as usize), measure: T::Measure::zero() }
    }

    fn reset(&mut self)
        ensures
            final(self).data_vec@.len() == 0,
    {
        self.data_vec.clear();
        self.measure.reset();
    }
}

impl<T: Data> Node for Leaf<T> {
    type NodeMeasure = T::Measure;

    fn get_measure(&self) -> (r: T::Measure)
        ensures
            r == self.measure,
    {
        self.measure
    }

    fn get_mut_measure(&mut self) -> (r: &mut T::Measure)
        ensures
            *r == old(self).measure,
            final(self).measure == *final(r),
            final(self).data_vec@ == old(self).data_vec@,
    {
        &mut self.measure
    }

    fn is_empty(&self) -> (r: bool)
        ensures
            r == (self.data_vec@.len() == 0),
    {
        self.data_vec.len() == 0
    }

    fn is_full(&self) -> (r: bool)
        ensures
            r == (self.data_vec@.len() >= BTREE_DATA_CAPACITY),
    {
        self.data_vec.len() >= BTREE_DATA_CAPACITY as usize
    }
}


impl<T: Data> Poolable for Internal<T> {
    open spec fn is_fresh(&self) -> bool {
        self.children@.len() == 0
    }

    fn new() -> (r: Self)
        ensures
            r.children@.len() == 0,
    {
        Internal { children: Vec::with_capacity(BTREE_CHILD_CAPACITY as usize), measure: T::Measure::zero() }
    }

    fn reset(&mut self)
        ensures
            final(self).children@.len() == 0,
    {
        self.children.clear();
        self.measure.reset();
    }
}

impl<T: Data> Node for Internal<T> {
    type NodeMeasure = T::Measure;

    fn get_measure(&self) -> (r: T::Measure)
        ensures
            r == self.measure,
    {
        self.measure
    }

    fn get_mut_measure(&mut self) -> (r: &mut T::Measure)
        ensures
            *r == old(self).measure,
            final(self).measure == *final(r),
            final(self).children@ == old(self).children@,
    {
        &mut self.measure
    }

    fn is_empty(&self) -> (r: bool)
        ensures
            r == (self.children@.len() == 0),
    {
        self.children.len() == 0
    }

    fn is_full(&self) -> (r: bool)
        ensures
            r == (self.children@.len() >= BTREE_CHILD_CAPACITY),
    {
        self.children.len() >= BTREE_CHILD_CAPACITY as usize
    }
}

/// A data structure that renders itself as text, for debugging or for a diagram viewer.
pub trait Visualizer {
    fn visualize(&self) -> String;
}

/// A remembered position of a line search: a line index and its byte offset.
#[derive(Clone, Copy, Debug)]
pub struct SearchCache {
    pub line_idx: usize,
    pub byte_offset: u64,
}

} // verus!
