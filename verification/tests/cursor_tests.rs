use mynotes::cursor::{Cursor, Position};

#[test]
fn test_cursor_creation() {
    let cursor = Cursor::new(5, 10);
    assert_eq!(cursor.anchor, Position::new(5, 10));
    assert_eq!(cursor.head, Position::new(5, 10));
    assert_eq!(cursor.preferred_column, Some(10));
}

#[test]
fn test_cursor_selection() {
    let anchor = Position::new(3, 5);
    let head = Position::new(6, 15);
    let cursor = Cursor::new_selection(anchor, head);

    assert_eq!(cursor.anchor, anchor);
    assert_eq!(cursor.head, head);
    assert_eq!(cursor.preferred_column, Some(15));
}

#[test]
fn test_cursor_no_selection() {
    let mut cursor = Cursor::new(2, 8);

    assert!(cursor.get_no_selection());
    cursor.set_head(Position::new(2, 10));
    assert!(!cursor.get_no_selection());
    cursor.clear_selection();
    assert!(cursor.get_no_selection());
}

#[test]
fn test_cursor_range() {
    let cursor = Cursor::new_selection(Position::new(4, 20), Position::new(2, 10));
    let (start, end) = cursor.range();

    assert_eq!(start, &Position::new(2, 10));
    assert_eq!(end, &Position::new(4, 20));
}

#[test]
fn test_cursor_invert() {
    let mut cursor = Cursor::new_selection(Position::new(1, 5), Position::new(3, 15));

    cursor.invert();
    assert_eq!(cursor.anchor, Position::new(3, 15));
    assert_eq!(cursor.head, Position::new(1, 5));
    assert_eq!(cursor.preferred_column, Some(5));

    let (start, end) = cursor.range();

    assert_eq!(start, &Position::new(1, 5));
    assert_eq!(end, &Position::new(3, 15));
    assert_eq!(cursor.preferred_column, Some(5));

    cursor.invert();
    assert_eq!(cursor.anchor, Position::new(1, 5));
    assert_eq!(cursor.head, Position::new(3, 15));
    assert_eq!(cursor.preferred_column, Some(15));

    let (start, end) = cursor.range();

    assert_eq!(start, &Position::new(1, 5));
    assert_eq!(end, &Position::new(3, 15));
    assert_eq!(cursor.preferred_column, Some(15));

    let mut cursor = Cursor::new(2, 8);

    cursor.invert();
    assert_eq!(cursor.anchor, Position::new(2, 8));
    assert_eq!(cursor.head, Position::new(2, 8));
    assert_eq!(cursor.preferred_column, Some(8));

    let (start, end) = cursor.range();

    assert_eq!(start, &Position::new(2, 8));
    assert_eq!(end, &Position::new(2, 8));
    assert_eq!(cursor.preferred_column, Some(8));
}

#[test]
fn position_accessors_and_setters() {
    let mut p = Position::new(3, 4);
    assert_eq!(p.get_row(), 3);
    assert_eq!(p.get_col(), 4);
    p.set_row(7);
    p.set_col(9);
    assert_eq!(p, Position::new(7, 9));
}

#[test]
fn range_mut_edits_the_earlier_end() {
    let mut cursor = Cursor::new_selection(Position::new(5, 0), Position::new(1, 2));
    {
        let (start, end) = cursor.range_mut();
        start.set_col(3);
        end.set_col(4);
    }
    assert_eq!(cursor.head, Position::new(1, 3));
    assert_eq!(cursor.anchor, Position::new(5, 4));
    assert_eq!(cursor.get_start(), &Position::new(1, 3));
    assert_eq!(cursor.get_end(), &Position::new(5, 4));
}

#[test]
fn set_anchor_and_head_make_a_selection() {
    let mut cursor = Cursor::new(0, 0);
    cursor.set_anchor(Position::new(2, 2));
    assert!(!cursor.get_no_selection());
    cursor.set_head(Position::new(2, 2));
    assert!(cursor.get_no_selection());
}
