use mynotes::btree::{
    MeasuredBTree, MeasuredBTreeData, MeasuredBTreeError, MeasuredBTreeNode, DATA_CAPACITY,
    NODE_CHILDREN_CAPACITY,
};
use mynotes::piece_table::{BufferKind, Piece, PieceTable};

/// A piece of a given length.
fn dummy_piece(len: usize) -> Piece {
    Piece {
        buffer_kind: BufferKind::Add,
        start: 0,
        end: len,
    }
}

fn root_measure(table: &PieceTable) -> usize {
    let root_idx = table.tree.root_idx.expect("Tree should have a root");
    table.tree.pool[root_idx].measure()
}

#[test]
fn piece_measure_is_correct() {
    let piece = Piece {
        buffer_kind: BufferKind::Add,
        start: 4,
        end: 8,
    };

    assert_eq!(piece.measure(), 4);
}

#[test]
fn piece_table_tests_creates_node_correctly() {
    let leaf: MeasuredBTreeNode<Piece> = MeasuredBTreeNode::Leaf {
        measure: 0,
        data: Vec::with_capacity(DATA_CAPACITY),
    };

    let internal: MeasuredBTreeNode<Piece> = MeasuredBTreeNode::Internal {
        measure: 0,
        children: Vec::with_capacity(NODE_CHILDREN_CAPACITY),
    };

    if let MeasuredBTreeNode::Leaf { data, measure } = leaf {
        assert_eq!(data.len(), 0);
        assert_eq!(data.capacity(), DATA_CAPACITY);
        assert_eq!(measure, 0);
    } else {
        panic!("Expected Leaf");
    }

    if let MeasuredBTreeNode::Internal { children, measure } = internal {
        assert_eq!(children.len(), 0);
        assert_eq!(children.capacity(), NODE_CHILDREN_CAPACITY);
        assert_eq!(measure, 0);
    } else {
        panic!("Expected Internal");
    }
}

#[test]
fn piece_table_tests_test_get_location_routing() {
    let piece_a = dummy_piece(5);
    let piece_b = dummy_piece(5);
    let piece_c = dummy_piece(5);

    let leaf1 = MeasuredBTreeNode::Leaf {
        data: vec![piece_a, piece_b],
        measure: 10,
    };
    let leaf2 = MeasuredBTreeNode::Leaf {
        data: vec![piece_c],
        measure: 5,
    };
    let root = MeasuredBTreeNode::Internal {
        children: vec![1, 2],
        measure: 15,
    };

    let mut tree = MeasuredBTree::new();
    tree.pool = vec![root, leaf1, leaf2];
    tree.root_idx = Some(0);

    let loc1 = tree.get_location(7).expect("Should find location");

    assert_eq!(loc1.0, 1, "Should have routed to Leaf 1 (pool index 1)");
    assert_eq!(loc1.1, 1, "Should be the second piece in the leaf");
    assert_eq!(loc1.2, 2, "Local offset should be 2");

    let loc2 = tree.get_location(12).expect("Should find location");

    assert_eq!(loc2.0, 2, "Should have routed to Leaf 2 (pool index 2)");
    assert_eq!(loc2.1, 0, "Should be the first piece in the leaf");
    assert_eq!(loc2.2, 2, "Local offset should be 2");
}

#[test]
fn piece_table_tests_inserts_empty_and_gets_location_correctly() {
    let mut table = PieceTable::new();

    assert!(table.insert(0, 0, 10, BufferKind::Add).is_ok());

    let Some((pool_idx, piece_idx, offset)) = table.tree.get_location(5) else {
        panic!("get_location(5) should return a location after a valid insertion");
    };

    assert_eq!(piece_idx, 0, "Should be in the first piece");
    assert_eq!(offset, 5, "Local offset should match the absolute index here");
    assert_eq!(pool_idx, 0, "Should be the first pool");
}

#[test]
fn piece_table_tests_detects_out_of_bounds_correctly() {
    let mut table = PieceTable::new();

    table.insert(0, 0, 10, BufferKind::Add).unwrap();
    assert!(
        table.tree.get_location(10).is_none(),
        "Absolute index equal to length should return None"
    );
    assert!(
        table.tree.get_location(999).is_none(),
        "Indices far beyond length should return None"
    );
}

#[test]
fn piece_table_tests_merges_contiguous_piece_correctly() {
    let mut table = PieceTable::new();

    table.insert(0, 0, 5, BufferKind::Add).unwrap();
    table.insert(5, 5, 5, BufferKind::Add).unwrap();

    let root_idx = table.tree.root_idx.unwrap();

    if let MeasuredBTreeNode::Leaf { data, measure } = &table.tree.pool[root_idx] {
        assert_eq!(*measure, 10, "Total measure should update to 10");
        assert_eq!(data.len(), 1, "Pieces should have MERGED into exactly 1 piece");
        assert_eq!(data[0].start, 0);
        assert_eq!(data[0].end, 10, "Piece range should span the merged length");
    } else {
        panic!("Expected root to be a Leaf");
    }
}

#[test]
fn piece_table_tests_insert_at_middle_correctly() {
    let mut table = PieceTable::new();

    table.insert(0, 0, 10, BufferKind::Original).unwrap();
    table.insert(5, 0, 1, BufferKind::Add).unwrap();

    let root_idx = table.tree.root_idx.unwrap();

    if let MeasuredBTreeNode::Leaf { data, measure } = &table.tree.pool[root_idx] {
        assert_eq!(*measure, 11);
        assert_eq!(data.len(), 3, "Splicing should result in 3 distinct pieces");

        assert_eq!(data[0].buffer_kind, BufferKind::Original);
        assert_eq!(data[0].start, 0);
        assert_eq!(data[0].end, 5);

        assert_eq!(data[1].buffer_kind, BufferKind::Add);
        assert_eq!(data[1].start, 0);
        assert_eq!(data[1].end, 1);

        assert_eq!(data[2].buffer_kind, BufferKind::Original);
        assert_eq!(data[2].start, 5);
        assert_eq!(data[2].end, 10);
    } else {
        panic!("Expected root to be a Leaf");
    }

    let (pool_idx, piece_idx, offset) = table.tree.get_location(8).unwrap();

    assert_eq!(piece_idx, 2, "Should route to the 3rd piece");
    assert_eq!(offset, 2, "Local offset should be 2 into the 3rd piece");
    assert_eq!(pool_idx, 0, "Should be the first pool");
}

#[test]
fn piece_table_tests_internal_node_split_maintains_total_measure() {
    let mut table = PieceTable::new();
    let num_inserts = 1000;

    for i in 0..num_inserts {
        let insert_pos = i / 2;

        table.insert(insert_pos, i, 1, BufferKind::Add).unwrap();

        let actual_measure = root_measure(&table);

        assert_eq!(
            actual_measure,
            i + 1,
            "Tree lost weight after inserting item {}: expected {}, root reported {}",
            i,
            i + 1,
            actual_measure
        );
    }
}

#[test]
fn piece_table_tests_inserts_into_split_tree_correctly() {
    let mut table = PieceTable::new();
    let cap = DATA_CAPACITY;

    for i in 0..=cap {
        let kind = if i % 2 == 0 { BufferKind::Add } else { BufferKind::Original };
        table.insert(i, i, 1, kind).unwrap();
    }

    let root_idx = table.tree.root_idx.unwrap();

    let (left_idx, right_idx) = match &table.tree.pool[root_idx] {
        MeasuredBTreeNode::Internal { children, .. } => {
            assert_eq!(children.len(), 2, "Tree should have split into 2 leaves");
            (children[0], children[1])
        }
        _ => panic!("Expected root to be Internal"),
    };

    table.insert(0, 100, 5, BufferKind::Add).unwrap();

    let total_measure = table.tree.pool[root_idx].measure();
    table.insert(total_measure, 200, 5, BufferKind::Add).unwrap();

    if let MeasuredBTreeNode::Leaf { data, .. } = &table.tree.pool[left_idx] {
        assert_eq!(data[0].start, 100, "Leftmost piece should be the new insert");
        assert_eq!(data[0].measure(), 5);
    } else {
        panic!("Left child is not a leaf");
    }

    if let MeasuredBTreeNode::Leaf { data, .. } = &table.tree.pool[right_idx] {
        let last_idx = data.len() - 1;
        assert_eq!(data[last_idx].start, 200, "Rightmost piece should be the new insert");
        assert_eq!(data[last_idx].measure(), 5);
    } else {
        panic!("Right child is not a leaf");
    }
}

#[test]
fn piece_table_tests_splits_nodes_correctly() {
    let mut table = PieceTable::new();
    let iterations = DATA_CAPACITY + 2;

    for i in 0..iterations {
        let kind = if i % 2 == 0 { BufferKind::Add } else { BufferKind::Original };
        table.insert(i, i, 1, kind).unwrap();
    }

    let root_idx = table.tree.root_idx.unwrap();

    match &table.tree.pool[root_idx] {
        MeasuredBTreeNode::Internal { children, measure } => {
            assert_eq!(*measure, iterations, "Internal node should track total measure");
            assert_eq!(children.len(), 2, "Root should have split into exactly 2 children");
        }
        MeasuredBTreeNode::Leaf { .. } => {
            panic!("Root should have become an Internal node after capacity was reached!")
        }
    }

    let loc = table.tree.get_location(iterations - 1);
    assert!(loc.is_some(), "Should be able to find the last inserted character");
}

#[test]
fn piece_table_tests_deletes_middle_and_splits_correctly() {
    let mut table = PieceTable::new();

    table.insert(0, 0, 10, BufferKind::Original).unwrap();
    table.delete(4, 2).unwrap();

    let root_idx = table.tree.root_idx.unwrap();

    if let MeasuredBTreeNode::Leaf { data, measure } = &table.tree.pool[root_idx] {
        assert_eq!(*measure, 8, "Total measure should drop to 8");
        assert_eq!(data.len(), 2, "Deletion from middle should split the piece in two");

        assert_eq!(data[0].start, 0);
        assert_eq!(data[0].end, 4);

        assert_eq!(data[1].start, 6);
        assert_eq!(data[1].end, 10);
    } else {
        panic!("Expected root to be a Leaf");
    }
}

#[test]
fn piece_table_tests_deletes_start_correctly() {
    let mut table = PieceTable::new();

    table.insert(0, 0, 10, BufferKind::Original).unwrap();
    table.delete(0, 2).unwrap();

    let root_idx = table.tree.root_idx.unwrap();

    if let MeasuredBTreeNode::Leaf { data, measure } = &table.tree.pool[root_idx] {
        assert_eq!(*measure, 8);
        assert_eq!(data.len(), 1, "Left trim should just modify the existing piece, not split it");
        assert_eq!(data[0].start, 2);
        assert_eq!(data[0].end, 10);
    } else {
        panic!("Expected root to be a Leaf");
    }
}

#[test]
fn piece_table_tests_deletes_end_correctly() {
    let mut table = PieceTable::new();

    table.insert(0, 0, 10, BufferKind::Original).unwrap();
    table.delete(8, 2).unwrap();

    let root_idx = table.tree.root_idx.unwrap();

    if let MeasuredBTreeNode::Leaf { data, measure } = &table.tree.pool[root_idx] {
        assert_eq!(*measure, 8);
        assert_eq!(data.len(), 1, "Right trim should just modify the existing piece, not split it");
        assert_eq!(data[0].start, 0);
        assert_eq!(data[0].end, 8);
    } else {
        panic!("Expected root to be a Leaf");
    }
}

#[test]
fn piece_table_tests_deletes_spanning_multiple_pieces_correctly() {
    let mut table = PieceTable::new();

    table.insert(0, 0, 5, BufferKind::Original).unwrap();
    table.insert(5, 5, 5, BufferKind::Add).unwrap();
    table.insert(10, 10, 5, BufferKind::Original).unwrap();
    table.delete(3, 8).unwrap();

    let root_idx = table.tree.root_idx.unwrap();

    if let MeasuredBTreeNode::Leaf { data, measure } = &table.tree.pool[root_idx] {
        assert_eq!(*measure, 7, "15 total - 8 deleted = 7");
        assert_eq!(data.len(), 2, "The middle piece should be completely removed, leaving 2");

        assert_eq!(data[0].start, 0);
        assert_eq!(data[0].end, 3);
        assert_eq!(data[0].buffer_kind, BufferKind::Original);

        assert_eq!(data[1].start, 11);
        assert_eq!(data[1].end, 15);
        assert_eq!(data[1].buffer_kind, BufferKind::Original);
    } else {
        panic!("Expected root to be a Leaf");
    }
}

#[test]
fn piece_table_tests_underflow_borrows_from_left_sibling() {
    let mut table = PieceTable::new();
    let cap = DATA_CAPACITY;
    let min_cap = cap / 2;

    for i in 0..cap {
        let kind = if i % 2 == 0 { BufferKind::Add } else { BufferKind::Original };
        table.insert(i, i, 1, kind).unwrap();
    }

    table.insert(cap, cap, 1, BufferKind::Add).unwrap();

    for i in 0..min_cap {
        let kind = if i % 2 == 0 { BufferKind::Original } else { BufferKind::Add };
        table.insert(0, i, 1, kind).unwrap();
    }

    let root_idx = table.tree.root_idx.expect("Tree should have a root");

    let right_child_idx =
        if let MeasuredBTreeNode::Internal { children, .. } = &table.tree.pool[root_idx] {
            children[1]
        } else {
            panic!("Root must be Internal");
        };

    let current_len = table.tree.pool[root_idx].measure();

    table.delete(current_len - 4, 4).unwrap();

    let right_len_after = match &table.tree.pool[right_child_idx] {
        MeasuredBTreeNode::Leaf { data, .. } => data.len(),
        _ => panic!("Expected leaf"),
    };

    assert!(
        right_len_after >= min_cap,
        "The right node dropped below min_cap (Count: {}).",
        right_len_after
    );
}

#[test]
fn piece_table_tests_underflow_merges_siblings_when_borrowing_fails() {
    let mut table = PieceTable::new();

    for i in 0..=DATA_CAPACITY {
        let kind = if i % 2 == 0 { BufferKind::Add } else { BufferKind::Original };
        table.insert(i, i, 1, kind).unwrap();
    }

    table.delete(0, 3).unwrap();

    let new_root_idx = table.tree.root_idx.unwrap();

    match &table.tree.pool[new_root_idx] {
        MeasuredBTreeNode::Leaf { data, .. } => {
            assert_eq!(
                data.len(),
                DATA_CAPACITY - 2,
                "Siblings should have merged back into a single full leaf"
            );
        }
        MeasuredBTreeNode::Internal { .. } => {
            panic!("Root should have collapsed back into a Leaf after children merged");
        }
    }
}

#[test]
fn insert_past_the_end_is_out_of_bounds_and_changes_nothing() {
    let mut table = PieceTable::new();
    table.insert(0, 0, 10, BufferKind::Original).unwrap();

    match table.insert(11, 0, 3, BufferKind::Add) {
        Err(MeasuredBTreeError::OutOfBounds { max, requested }) => {
            assert_eq!(max, 10);
            assert_eq!(requested, 11);
        }
        Ok(()) => panic!("insert past the end must fail"),
    }
    assert_eq!(root_measure(&table), 10);
}

#[test]
fn empty_insert_and_empty_delete_are_no_ops() {
    let mut table = PieceTable::new();
    assert!(table.insert(5, 0, 0, BufferKind::Add).is_ok());
    assert!(table.tree.root_idx.is_none());

    table.insert(0, 0, 4, BufferKind::Add).unwrap();
    assert!(table.delete(2, 0).is_ok());
    assert_eq!(root_measure(&table), 4);
}

#[test]
fn delete_past_the_end_is_out_of_bounds() {
    let mut table = PieceTable::new();
    table.insert(0, 0, 4, BufferKind::Add).unwrap();

    match table.delete(2, 5) {
        Err(MeasuredBTreeError::OutOfBounds { max, requested }) => {
            assert_eq!(max, 4);
            assert_eq!(requested, 7);
        }
        Ok(()) => panic!("delete past the end must fail"),
    }
    assert_eq!(root_measure(&table), 4);
}

#[test]
fn insert_then_delete_restores_length() {
    let mut table = PieceTable::new();
    table.insert(0, 0, 20, BufferKind::Original).unwrap();
    for i in 0..100 {
        table.insert(7, i, 3, BufferKind::Add).unwrap();
        table.delete(7, 3).unwrap();
        assert_eq!(root_measure(&table), 20);
    }
}

#[test]
fn get_at_finds_the_piece_and_offset() {
    let mut table = PieceTable::new();
    table.insert(0, 0, 5, BufferKind::Original).unwrap();
    table.insert(5, 0, 5, BufferKind::Add).unwrap();

    let (piece, offset) = table.get_at(7).expect("offset 7 is inside the document");
    assert_eq!(piece.buffer_kind, BufferKind::Add);
    assert_eq!(offset, 2);
    assert!(table.get_at(10).is_none());
}

#[test]
fn test_btree_iter() {
    let p1 = Piece {
        buffer_kind: BufferKind::Original,
        start: 0,
        end: 5,
    };
    let p2 = Piece {
        buffer_kind: BufferKind::Add,
        start: 0,
        end: 10,
    };

    let mut tree = MeasuredBTree::<Piece>::new();

    tree.insert(0, p1).unwrap();
    tree.insert(5, p2).unwrap();

    let iter_items: Vec<&Piece> = tree.iter();
    assert_eq!(iter_items.len(), 2);
    assert_eq!(iter_items[0].end, 5);
    assert_eq!(iter_items[1].end, 10);
}

#[test]
fn pieces_come_out_in_document_order_and_add_up_to_the_length() {
    let mut table = PieceTable::new();
    for i in 0..200 {
        let kind = if i % 2 == 0 { BufferKind::Add } else { BufferKind::Original };
        table.insert(i / 3, 1000 + i, 1, kind).unwrap();
    }
    let pieces = table.get_all_pieces();
    let refs = table.iter();
    assert_eq!(pieces.len(), refs.len());
    for (p, r) in pieces.iter().zip(refs.iter()) {
        assert_eq!(p, *r);
    }
    let total: usize = pieces.iter().map(|p| p.end - p.start).sum();
    assert_eq!(total, root_measure(&table));
    assert_eq!(total, 200);

    let mut expected = PieceTable::new();
    expected.insert(0, 0, 3, BufferKind::Original).unwrap();
    expected.insert(0, 10, 2, BufferKind::Add).unwrap();
    let order = expected.get_all_pieces();
    assert_eq!(
        order,
        vec![
            Piece { buffer_kind: BufferKind::Add, start: 10, end: 12 },
            Piece { buffer_kind: BufferKind::Original, start: 0, end: 3 },
        ]
    );
}

/// The document as a sequence of (buffer, position) atoms, read off the pieces.
fn atoms_of(table: &PieceTable) -> Vec<(BufferKind, usize)> {
    let mut atoms = Vec::new();
    for piece in table.get_all_pieces() {
        for pos in piece.start..piece.end {
            atoms.push((piece.buffer_kind, pos));
        }
    }
    atoms
}

#[test]
fn edits_match_a_plain_vector_of_atoms() {
    let mut table = PieceTable::new();
    let mut shadow: Vec<(BufferKind, usize)> = Vec::new();
    let mut next_add = 0usize;
    let mut seed = 12345u64;
    let mut rand = |bound: usize| -> usize {
        seed = seed.wrapping_mul(6364136223846793005).wrapping_add(1442695040888963407);
        ((seed >> 33) as usize) % bound.max(1)
    };

    for step in 0..3000 {
        let len = shadow.len();
        if step % 3 == 2 && len > 0 {
            let start = rand(len);
            let length = 1 + rand((len - start).min(40));
            table.delete(start, length).unwrap();
            shadow.drain(start..start + length);
        } else {
            let at = rand(len + 1);
            let length = 1 + rand(8);
            table.insert(at, next_add, length, BufferKind::Add).unwrap();
            let atoms: Vec<(BufferKind, usize)> = (next_add..next_add + length).map(|p| (BufferKind::Add, p)).collect();
            shadow.splice(at..at, atoms);
            next_add += length + rand(3);
        }
        assert_eq!(root_measure_or_zero(&table), shadow.len());
        if step % 97 == 0 {
            assert_eq!(atoms_of(&table), shadow);
        }
    }
    assert_eq!(atoms_of(&table), shadow);
}

fn root_measure_or_zero(table: &PieceTable) -> usize {
    match table.tree.root_idx {
        Some(root) => table.tree.pool[root].measure(),
        None => 0,
    }
}

#[test]
fn get_at_agrees_with_the_prefix_lengths() {
    let mut table = PieceTable::new();
    for i in 0..100 {
        table.insert(i * 3, i * 10, 3, BufferKind::Original).unwrap();
    }
    let pieces = table.get_all_pieces();
    let mut prefix = 0;
    for piece in &pieces {
        for off in 0..(piece.end - piece.start) {
            let (found, found_off) = table.get_at(prefix + off).expect("inside the document");
            assert_eq!(found, piece);
            assert_eq!(found_off, off);
        }
        prefix += piece.end - piece.start;
    }
    assert!(table.get_at(prefix).is_none());
}

#[test]
fn get_mut_at_edits_the_piece_in_place() {
    let mut table = PieceTable::new();
    table.insert(0, 0, 4, BufferKind::Original).unwrap();
    table.insert(4, 0, 4, BufferKind::Add).unwrap();
    {
        let (piece, off) = table.tree.get_mut_at(6).expect("offset 6 exists");
        assert_eq!(off, 2);
        assert_eq!(piece.buffer_kind, BufferKind::Add);
        piece.buffer_kind = BufferKind::Original;
    }
    assert_eq!(table.get_all_pieces()[1].buffer_kind, BufferKind::Original);
    assert!(table.tree.get_mut_at(8).is_none());
}

#[test]
fn get_mut_at_writes_into_the_located_piece_only() {
    // Two equal pieces in one leaf: the write must land in the second one, which holds
    // position 7, and leave the first one as it was.
    let mut table = PieceTable::new();
    table.insert(0, 0, 5, BufferKind::Add).unwrap();
    table.insert(5, 0, 5, BufferKind::Add).unwrap();
    assert_eq!(table.get_all_pieces().len(), 2);
    assert_eq!(table.tree.get_location(7), Some((table.tree.root_idx.unwrap(), 1, 2)));
    {
        let (piece, offset) = table.tree.get_mut_at(7).unwrap();
        assert_eq!(offset, 2);
        piece.buffer_kind = BufferKind::Original;
    }
    let pieces = table.get_all_pieces();
    assert_eq!(pieces[0], Piece { buffer_kind: BufferKind::Add, start: 0, end: 5 });
    assert_eq!(pieces[1], Piece { buffer_kind: BufferKind::Original, start: 0, end: 5 });
}

#[test]
fn delete_inside_one_piece_keeps_the_text_around_it() {
    let mut table = PieceTable::new();
    table.insert(0, 100, 10, BufferKind::Original).unwrap();
    table.delete(2, 3).unwrap();
    assert_eq!(
        table.get_all_pieces(),
        vec![
            Piece { buffer_kind: BufferKind::Original, start: 100, end: 102 },
            Piece { buffer_kind: BufferKind::Original, start: 105, end: 110 },
        ]
    );
}
