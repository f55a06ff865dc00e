//! Cursors: a position in the document, and a selection given by an anchor, which stays
//! put, and a head, which moves.
use vstd::prelude::*;

verus! {

/// A location in the document: a row and a byte offset within it. Positions are ordered
/// by row, then by column.
#[derive(Debug, Clone, Copy, PartialEq, Eq, Structural, PartialOrd, Ord, Default, Hash)]
pub struct Position {
    pub row: u64,
    /// The byte offset or character index within the line.
    pub col: u64,
}

/// Positions in document order: by row, then by column.
pub open spec fn pos_le(a: Position, b: Position) -> bool {
    a.row < b.row || (a.row == b.row && a.col <= b.col)
}

/// A cursor with its selection, in the anchor-and-head model.
#[derive(Debug, Clone, Copy, PartialEq, Eq, Default)]
pub struct Cursor {
    /// The preferred visual column, kept when moving across shorter lines.
    pub preferred_column: Option<u64>,
    /// The fixed end of the selection.
    pub anchor: Position,
    /// The moving end of the selection (where the caret is).
    pub head: Position,
}

impl Position {
    pub fn new(row: u64, column: u64) -> (r: Self)
        ensures
            r.row == row,
            r.col == column,
    {
        Position { row, col: column }
    }

    pub fn get_row(&self) -> (r: u64)
        ensures
            r == self.row,
    {
        self.row
    }

    pub fn get_col(&self) -> (r: u64)
        ensures
            r == self.col,
    {
        self.col
    }

    pub fn set_row(&mut self, row: u64)
        ensures
            *final(self) == (Position { row, col: old(self).col }),
    {
        self.row = row;
    }

    pub fn set_col(&mut self, col: u64)
        ensures
            *final(self) == (Position { row: old(self).row, col }),
    {
        self.col = col;
    }

    /// Whether `self` comes at or before `other` in the document.
    fn at_or_before(&self, other: &Position) -> (r: bool)
        ensures
            r == pos_le(*self, *other),
    {
        self.row < other.row || (self.row == other.row && self.col <= other.col)
    }
}

impl Cursor {
    /// A cursor at a position, with no selection.
    pub fn new(row: u64, column: u64) -> (r: Self)
        ensures
            r.anchor == (Position { row, col: column }),
            r.head == (Position { row, col: column }),
            r.preferred_column == Some(column),
    {
        Cursor { anchor: Position::new(row, column), head: Position::new(row, column), preferred_column: Some(column) }
    }

    /// A selection from `anchor` to `head`; the preferred column is the head's.
    pub fn new_selection(anchor: Position, head: Position) -> (r: Self)
        ensures
            r.anchor == anchor,
            r.head == head,
            r.preferred_column == Some(head.col),
    {
        Cursor { anchor, head, preferred_column: Some(head.col) }
    }

    /// Whether nothing is selected.
    pub fn get_no_selection(&self) -> (r: bool)
        ensures
            r == (self.anchor == self.head),
    {
        self.anchor == self.head
    }

    /// The end of the selection that comes first in the document.
    pub fn get_start(&self) -> (r: &Position)
        ensures
            *r == if pos_le(self.anchor, self.head) { self.anchor } else { self.head },
            *r == self.anchor || *r == self.head,
            r.row < self.anchor.row || (r.row == self.anchor.row && r.col <= self.anchor.col),
            r.row < self.head.row || (r.row == self.head.row && r.col <= self.head.col),
    {
        if self.anchor.at_or_before(&self.head) {
            &self.anchor
        } else {
            &self.head
        }
    }

    /// The end of the selection that comes last in the document.
    pub fn get_end(&self) -> (r: &Position)
        ensures
            *r == if pos_le(self.anchor, self.head) { self.head } else { self.anchor },
            *r == self.anchor || *r == self.head,
            self.anchor.row < r.row || (self.anchor.row == r.row && self.anchor.col <= r.col),
            self.head.row < r.row || (self.head.row == r.row && self.head.col <= r.col),
    {
        if self.anchor.at_or_before(&self.head) {
            &self.head
        } else {
            &self.anchor
        }
    }

    /// The selection as (first, last) in document order.
    pub fn range(&self) -> (r: (&Position, &Position))
        ensures
            pos_le(self.anchor, self.head) ==> *r.0 == self.anchor && *r.1 == self.head,
            !pos_le(self.anchor, self.head) ==> *r.0 == self.head && *r.1 == self.anchor,
            pos_le(*r.0, *r.1),
            (*r.0 == self.anchor && *r.1 == self.head) || (*r.0 == self.head && *r.1 == self.anchor),
            r.0.row < r.1.row || (r.0.row == r.1.row && r.0.col <= r.1.col),
    {
        if self.anchor.at_or_before(&self.head) {
            (&self.anchor, &self.head)
        } else {
            (&self.head, &self.anchor)
        }
    }

    /// Mutable access to the selection as (first, last) in document order.
    pub fn range_mut(&mut self) -> (r: (&mut Position, &mut Position))
        ensures
            pos_le(old(self).anchor, old(self).head) ==> {
                &&& *r.0 == old(self).anchor
                &&& *r.1 == old(self).head
                &&& final(self).anchor == *final(r.0)
                &&& final(self).head == *final(r.1)
            },
            !pos_le(old(self).anchor, old(self).head) ==> {
                &&& *r.0 == old(self).head
                &&& *r.1 == old(self).anchor
                &&& final(self).head == *final(r.0)
                &&& final(self).anchor == *final(r.1)
            },
            final(self).preferred_column == old(self).preferred_column,
    {
        if self.anchor.at_or_before(&self.head) {
            (&mut self.anchor, &mut self.head)
        } else {
            (&mut self.head, &mut self.anchor)
        }
    }

    /// Moves the head; the preferred column follows it.
    pub fn set_head(&mut self, pos: Position)
        ensures
            final(self).head == pos,
            final(self).anchor == old(self).anchor,
            final(self).preferred_column == Some(pos.col),
    {
        self.head = pos;
        self.preferred_column = Some(pos.col);
    }

    /// Moves the anchor.
    pub fn set_anchor(&mut self, pos: Position)
        ensures
            final(self).anchor == pos,
            final(self).head == old(self).head,
            final(self).preferred_column == old(self).preferred_column,
    {
        self.anchor = pos;
    }

    /// Drops the selection, keeping the head.
    pub fn clear_selection(&mut self)
        ensures
            final(self).anchor == old(self).head,
            final(self).head == old(self).head,
            final(self).preferred_column == old(self).preferred_column,
    {
        self.anchor = self.head;
    }

    /// Swaps anchor and head; the preferred column follows the new head.
    pub fn invert(&mut self)
        ensures
            *final(self) == inverted(*old(self)),
    {
        std::mem::swap(&mut self.anchor, &mut self.head);
        self.preferred_column = Some(self.head.col);
    }
}

/// The cursor with anchor and head swapped, preferring the column of its new head.
pub open spec fn inverted(c: Cursor) -> Cursor {
    Cursor { anchor: c.head, head: c.anchor, preferred_column: Some(c.anchor.col) }
}

/// Inverting twice restores the selection, with the preferred column of its head.
pub proof fn lemma_invert_twice(c: Cursor)
    ensures
        inverted(inverted(c)) == (Cursor { preferred_column: Some(c.head.col), ..c }),
{
}

/// Inverting a cursor without a selection, whose preferred column is its own, changes
/// nothing.
pub proof fn lemma_invert_no_selection(c: Cursor)
    requires
        c.anchor == c.head,
        c.preferred_column == Some(c.head.col),
    ensures
        inverted(c) == c,
{
}

/// The selection range of a cursor does not depend on which end is the anchor.
pub proof fn lemma_range_symmetric(a: Position, b: Position)
    ensures
        (if pos_le(a, b) { (a, b) } else { (b, a) }) == (if pos_le(b, a) { (b, a) } else { (a, b) }),
{
}

} // verus!
