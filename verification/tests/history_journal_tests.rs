use mynotes::cursor::{Cursor, Position};
use mynotes::history::{EditAction, History, Transaction};
use mynotes::text_buffer::JournalOp;

fn transaction(text: &str, col: u64) -> Transaction {
    Transaction::new(
        vec![EditAction::new_insert(Position::new(0, col), text.to_string())],
        Cursor::new(0, col),
        Cursor::new(0, col + text.len() as u64),
    )
}

#[test]
fn undo_on_empty_history_returns_none() {
    let mut history = History::new();
    assert!(history.undo().is_none());
    assert!(history.redo().is_none());
}

#[test]
fn undo_then_redo_hands_back_the_same_transaction() {
    let mut history = History::new();
    history.undo_stack.push(transaction("ab", 0));
    history.undo_stack.push(transaction("cd", 2));

    let undone = history.undo().expect("one transaction to undo");
    assert_eq!(undone, transaction("cd", 2));
    assert_eq!(history.undo_stack.len(), 1);
    assert_eq!(history.redo_stack, vec![transaction("cd", 2)]);

    let redone = history.redo().expect("one transaction to redo");
    assert_eq!(redone, undone);
    assert_eq!(history.undo_stack, vec![transaction("ab", 0), transaction("cd", 2)]);
    assert!(history.redo_stack.is_empty());
}

#[test]
fn delete_action_keeps_its_range_and_text() {
    let action = EditAction::new_delete(Position::new(1, 2), Position::new(1, 5), "xyz".to_string());
    assert_eq!(
        action,
        EditAction::Delete {
            position: Position::new(1, 2),
            end_position: Position::new(1, 5),
            text: "xyz".to_string()
        }
    );
    assert_eq!(action.clone(), action);
}

#[test]
fn journal_insert_record_is_tag_then_little_endian_fields() {
    let op = JournalOp::Insert { offset: 1, add_buf_offset: 0x0203, len: 4 };
    let mut expected = vec![0u8];
    expected.extend_from_slice(&1usize.to_le_bytes());
    expected.extend_from_slice(&0x0203usize.to_le_bytes());
    expected.extend_from_slice(&4usize.to_le_bytes());
    assert_eq!(op.to_bytes(), expected);
    assert_eq!(op.to_bytes().len(), 1 + 3 * std::mem::size_of::<usize>());
}

#[test]
fn journal_delete_record_is_tag_then_little_endian_fields() {
    let op = JournalOp::Delete { offset: usize::MAX, len: 7 };
    let mut expected = vec![1u8];
    expected.extend_from_slice(&usize::MAX.to_le_bytes());
    expected.extend_from_slice(&7usize.to_le_bytes());
    assert_eq!(op.to_bytes(), expected);
}
