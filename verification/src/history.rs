//! Undo history: transactions of edit actions on two stacks.
use vstd::prelude::*;
use crate::cursor::{Cursor, Position};

verus! {

/// The capacity reserved for each stack.
pub const MAX_HISTORY: u8 = 100;

/// One edit: text inserted at a position, or text deleted from a range.
#[derive(Debug, PartialEq)]
pub enum EditAction {
    Insert { position: Position, text: String },
    Delete { position: Position, end_position: Position, text: String },
}

impl Clone for EditAction {
    fn clone(&self) -> (r: Self)
        ensures
            r == *self,
    {
        match self {
            EditAction::Insert { position, text } => EditAction::Insert { position: *position, text: text.clone() },
            EditAction::Delete { position, end_position, text } => EditAction::Delete {
                position: *position,
                end_position: *end_position,
                text: text.clone(),
            },
        }
    }
}

/// Edit actions undone and redone as a unit, with the cursor before and after them.
#[derive(Debug, PartialEq)]
pub struct Transaction {
    pub actions: Vec<EditAction>,
    pub cursor_before: Cursor,
    pub cursor_after: Cursor,
}

impl View for Transaction {
    type V = (Seq<EditAction>, Cursor, Cursor);

    open spec fn view(&self) -> (Seq<EditAction>, Cursor, Cursor) {
        (self.actions@, self.cursor_before, self.cursor_after)
    }
}

impl Clone for Transaction {
    fn clone(&self) -> (r: Self)
        ensures
            r@ == self@,
    {
        let actions = self.actions.clone();
        proof {
            assert forall|i: int| 0 <= i < actions@.len() implies actions@[i] == self.actions@[i] by {
                assert(cloned::<EditAction>(self.actions[i], actions[i]));
            }
            assert(actions@ =~= self.actions@);
        }
        Transaction { actions, cursor_before: self.cursor_before, cursor_after: self.cursor_after }
    }
}

/// The undo and redo stacks.
pub struct History {
    pub undo_stack: Vec<Transaction>,
    pub redo_stack: Vec<Transaction>,
}

impl EditAction {
    pub fn new_insert(position: Position, text: String) -> (r: Self)
        ensures
            r == (EditAction::Insert { position, text }),
    {
        EditAction::Insert { position, text }
    }

    pub fn new_delete(position: Position, end_position: Position, text: String) -> (r: Self)
        ensures
            r == (EditAction::Delete { position, end_position, text }),
    {
        EditAction::Delete { position, end_position, text }
    }
}

impl Transaction {
    pub fn new(actions: Vec<EditAction>, cursor_before: Cursor, cursor_after: Cursor) -> (r: Self)
        ensures
            r@ == (actions@, cursor_before, cursor_after),
    {
        Transaction { actions, cursor_before, cursor_after }
    }
}

/// The views of a stack of transactions.
pub open spec fn stack_view(s: Seq<Transaction>) -> Seq<(Seq<EditAction>, Cursor, Cursor)> {
    s.map_values(|t: Transaction| t@)
}

/// The view of an optional transaction.
pub open spec fn opt_view(t: Option<Transaction>) -> Option<(Seq<EditAction>, Cursor, Cursor)> {
    match t {
        Some(t) => Some(t@),
        None => None,
    }
}

/// Undoing moves the top of the undo stack onto the redo stack and hands it back.
pub open spec fn undo_model<V>(undo: Seq<V>, redo: Seq<V>) -> (Seq<V>, Seq<V>, Option<V>) {
    if undo.len() == 0 {
        (undo, redo, None)
    } else {
        (undo.drop_last(), redo.push(undo.last()), Some(undo.last()))
    }
}

/// Redoing moves the top of the redo stack onto the undo stack and hands it back.
pub open spec fn redo_model<V>(undo: Seq<V>, redo: Seq<V>) -> (Seq<V>, Seq<V>, Option<V>) {
    if redo.len() == 0 {
        (undo, redo, None)
    } else {
        (undo.push(redo.last()), redo.drop_last(), Some(redo.last()))
    }
}

impl History {
    pub fn new() -> (r: Self)
        ensures
            r.undo_stack@ == Seq::<Transaction>::empty(),
            r.redo_stack@ == Seq::<Transaction>::empty(),
    {
        History {
            undo_stack: Vec::with_capacity(MAX_HISTORY as usize),
            redo_stack: Vec::with_capacity(MAX_HISTORY as usize),
        }
    }

    /// Takes the latest transaction off the undo stack, keeps it on the redo stack and
    /// returns it; `None` when there is nothing to undo.
    pub fn undo(&mut self) -> (r: Option<Transaction>)
        ensures
            (stack_view(final(self).undo_stack@), stack_view(final(self).redo_stack@), opt_view(r)) == undo_model(
                stack_view(old(self).undo_stack@),
                stack_view(old(self).redo_stack@),
            ),
    {
        let transaction = match self.undo_stack.pop() {
            None => {
                return None;
            },
            Some(t) => t,
        };
        let ghost u0 = old(self).undo_stack@;
        let ghost r0 = old(self).redo_stack@;
        self.redo_stack.push(transaction.clone());
        proof {
            assert(stack_view(self.undo_stack@) =~= stack_view(u0).drop_last());
            assert(stack_view(self.redo_stack@) =~= stack_view(r0).push(transaction@));
        }
        Some(transaction)
    }

    /// Takes the latest undone transaction off the redo stack, keeps it on the undo stack
    /// and returns it; `None` when there is nothing to redo.
    pub fn redo(&mut self) -> (r: Option<Transaction>)
        ensures
            (stack_view(final(self).undo_stack@), stack_view(final(self).redo_stack@), opt_view(r)) == redo_model(
                stack_view(old(self).undo_stack@),
                stack_view(old(self).redo_stack@),
            ),
    {
        let transaction = match self.redo_stack.pop() {
            None => {
                return None;
            },
            Some(t) => t,
        };
        let ghost u0 = old(self).undo_stack@;
        let ghost r0 = old(self).redo_stack@;
        self.undo_stack.push(transaction.clone());
        proof {
            assert(stack_view(self.redo_stack@) =~= stack_view(r0).drop_last());
            assert(stack_view(self.undo_stack@) =~= stack_view(u0).push(transaction@));
        }
        Some(transaction)
    }
}

/// Redoing right after a successful undo hands back the undone transaction and restores
/// both stacks.
pub proof fn lemma_undo_redo<V>(undo: Seq<V>, redo: Seq<V>)
    requires
        undo.len() > 0,
    ensures
        ({
            let (u1, r1, t1) = undo_model(undo, redo);
            let (u2, r2, t2) = redo_model(u1, r1);
            u2 == undo && r2 == redo && t2 == t1
        }),
{
    assert(undo.drop_last().push(undo.last()) =~= undo);
    assert(redo.push(undo.last()).drop_last() =~= redo);
}

/// Undoing right after a successful redo hands back the redone transaction and restores
/// both stacks.
pub proof fn lemma_redo_undo<V>(undo: Seq<V>, redo: Seq<V>)
    requires
        redo.len() > 0,
    ensures
        ({
            let (u1, r1, t1) = redo_model(undo, redo);
            let (u2, r2, t2) = undo_model(u1, r1);
            u2 == undo && r2 == redo && t2 == t1
        }),
{
    assert(undo.push(redo.last()).drop_last() =~= undo);
    assert(redo.drop_last().push(redo.last()) =~= redo);
}

} // verus!
