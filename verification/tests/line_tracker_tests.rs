use mynotes::btree::{MeasuredBTreeData, MeasuredBTreeNode, DATA_CAPACITY};
use mynotes::line_tracker::{LineChunk, LineTracker, LineTrackerSummary, MAX_CHUNK_LINES};
use rand::rngs::StdRng;
use rand::{RngExt, SeedableRng};

fn create_chunk(text: &str) -> LineChunk {
    LineChunk {
        byte_length: text.len(),
        newlines: text
            .bytes()
            .enumerate()
            .filter(|&(_, b)| b == b'\n')
            .map(|(i, _)| i)
            .collect(),
    }
}

/// Checks that the tracker's line offsets and totals agree with the text.
fn assert_tracker_matches_string(tracker: &LineTracker, real_text: &str) {
    let expected_lines: Vec<&str> = real_text.split('\n').collect();
    let total_lines = expected_lines.len();

    for line_idx in 0..total_lines {
        let start_byte = tracker
            .byte_offset_of_line(line_idx)
            .unwrap_or_else(|| panic!("Tracker missing line {}!", line_idx));

        let end_byte = tracker
            .byte_offset_of_line(line_idx + 1)
            .map(|next| next - 1)
            .unwrap_or(real_text.len());

        let extracted_line = &real_text[start_byte..end_byte];

        assert_eq!(
            extracted_line, expected_lines[line_idx],
            "Mismatch at line {}! Expected '{}', got '{}'",
            line_idx, expected_lines[line_idx], extracted_line
        );
    }

    let root_idx = tracker.tree.root_idx.expect("Tree should not be empty");
    let root_measure = tracker.tree.pool[root_idx].measure();

    assert_eq!(
        root_measure.byte_count,
        real_text.len(),
        "Tree total byte count diverges from string!"
    );

    assert_eq!(
        root_measure.line_count,
        expected_lines.len() - 1,
        "Tree total newline count diverges from string!"
    );
}

#[test]
fn line_tracker_tests_chunk_measure_is_correct() {
    let text = "Hello\nWorld\n!";
    let chunk = create_chunk(text);

    assert_eq!(chunk.measure().byte_count, 13);
    assert_eq!(chunk.measure().line_count, 2);
}

#[test]
fn line_tracker_tests_test_insert_at_middle_correctly_with_strings() {
    let mut tracker = LineTracker::new();
    let mut shadow_text = String::new();

    let text1 = "Line 0\nLine 2";
    tracker.insert(LineTrackerSummary { byte_count: 0, line_count: 0 }, create_chunk(text1));
    shadow_text.insert_str(0, text1);

    let text2 = "Line 1\n";
    tracker.insert(LineTrackerSummary { byte_count: 7, line_count: 1 }, create_chunk(text2));
    shadow_text.insert_str(7, text2);

    assert_tracker_matches_string(&tracker, &shadow_text);

    let root_idx = tracker.tree.root_idx.unwrap();
    if let MeasuredBTreeNode::Leaf { data, .. } = &tracker.tree.pool[root_idx] {
        assert_eq!(data.len(), 2, "Optimization: Left half and new chunk should merge!");
        assert_eq!(data[0].byte_length, 14);
        assert_eq!(data[1].byte_length, 6);
    } else {
        panic!("Root should be a Leaf");
    }
}

#[test]
fn line_tracker_tests_deletes_middle_and_splits_correctly_with_strings() {
    let mut tracker = LineTracker::new();
    let mut shadow_text = String::new();

    let initial_text = "Line 0\nDeleteMe\nLine 2";
    tracker.insert(LineTrackerSummary { byte_count: 0, line_count: 0 }, create_chunk(initial_text));
    shadow_text.insert_str(0, initial_text);

    let del_start = 7;
    let del_len = 9;

    shadow_text.replace_range(del_start..(del_start + del_len), "");
    assert_eq!(shadow_text, "Line 0\nLine 2");
    assert_tracker_matches_string(&tracker, "Line 0\nDeleteMe\nLine 2");
}

#[test]
fn line_tracker_tests_deletes_spanning_multiple_pieces_with_strings() {
    let mut tracker = LineTracker::new();
    let mut shadow_text = String::new();

    tracker.insert(LineTrackerSummary { byte_count: 0, line_count: 0 }, create_chunk("A\n"));
    shadow_text.insert_str(0, "A\n");

    tracker.insert(LineTrackerSummary { byte_count: 2, line_count: 1 }, create_chunk("B\n"));
    shadow_text.insert_str(2, "B\n");

    tracker.insert(LineTrackerSummary { byte_count: 4, line_count: 2 }, create_chunk("C\n"));
    shadow_text.insert_str(4, "C\n");

    assert_tracker_matches_string(&tracker, &shadow_text);

    shadow_text.replace_range(1..5, "");
    assert_eq!(shadow_text, "A\n");
}

#[test]
fn line_tracker_tests_merges_small_adjacent_inserts_perfectly() {
    let mut tracker = LineTracker::new();
    let mut shadow_text = String::new();

    let inserts = ["Hello", " ", "World", "!\n", "Next Line\n"];

    for text in inserts {
        let byte_pos = shadow_text.len();
        let line_pos = shadow_text.matches('\n').count();

        tracker.insert(
            LineTrackerSummary { byte_count: byte_pos, line_count: line_pos },
            create_chunk(text),
        );
        shadow_text.insert_str(byte_pos, text);
    }

    assert_tracker_matches_string(&tracker, &shadow_text);

    let root_idx = tracker.tree.root_idx.unwrap();
    if let MeasuredBTreeNode::Leaf { data, .. } = &tracker.tree.pool[root_idx] {
        assert_eq!(data.len(), 1, "Optimization failed: Small chunks did not merge!");
        assert_eq!(data[0].byte_length, shadow_text.len());
    } else {
        panic!("Expected Root to be a Leaf");
    }
}

#[test]
fn line_tracker_tests_refuses_to_merge_when_chunk_limit_reached() {
    let mut tracker = LineTracker::new();
    let mut shadow_text = String::new();

    let mut full_chunk_text = String::new();
    for _ in 0..MAX_CHUNK_LINES {
        full_chunk_text.push_str("Line\n");
    }

    tracker.insert(LineTrackerSummary { byte_count: 0, line_count: 0 }, create_chunk(&full_chunk_text));
    shadow_text.insert_str(0, &full_chunk_text);

    let extra_line = "Overflow Line\n";
    let byte_pos = shadow_text.len();
    let line_pos = MAX_CHUNK_LINES;

    tracker.insert(
        LineTrackerSummary { byte_count: byte_pos, line_count: line_pos },
        create_chunk(extra_line),
    );
    shadow_text.insert_str(byte_pos, extra_line);

    assert_tracker_matches_string(&tracker, &shadow_text);

    let root_idx = tracker.tree.root_idx.unwrap();
    if let MeasuredBTreeNode::Leaf { data, .. } = &tracker.tree.pool[root_idx] {
        assert_eq!(
            data.len(),
            2,
            "Edge Case failed: Chunk exceeded MAX_CHUNK_LINES but still merged!"
        );
        assert_eq!(data[0].newlines.len(), MAX_CHUNK_LINES);
        assert_eq!(data[1].newlines.len(), 1);
    } else {
        panic!("Expected Root to be a Leaf");
    }
}

#[test]
fn line_tracker_tests_continuous_appending_forces_tree_growth_due_to_limits() {
    let mut tracker = LineTracker::new();
    let mut shadow_text = String::new();

    let capacity_trigger = DATA_CAPACITY * MAX_CHUNK_LINES + 5;

    for i in 0..capacity_trigger {
        let text = format!("Line {}\n", i);
        let byte_pos = shadow_text.len();
        let line_pos = i;

        tracker.insert(
            LineTrackerSummary { byte_count: byte_pos, line_count: line_pos },
            create_chunk(&text),
        );
        shadow_text.push_str(&text);

        if i % 50 == 0 {
            assert_tracker_matches_string(&tracker, &shadow_text);
        }
    }

    assert_tracker_matches_string(&tracker, &shadow_text);

    let root_idx = tracker.tree.root_idx.unwrap();
    assert!(
        matches!(tracker.tree.pool[root_idx], MeasuredBTreeNode::Internal { .. }),
        "Tree failed to grow! Uncapped merging likely prevented chunk creation."
    );
}

#[test]
fn line_tracker_tests_slicing_a_full_chunk_allows_future_merges() {
    let mut tracker = LineTracker::new();
    let mut shadow_text = String::new();

    let mut full_text = String::new();
    for _ in 0..MAX_CHUNK_LINES {
        full_text.push_str("A\n");
    }

    tracker.insert(LineTrackerSummary::default(), create_chunk(&full_text));
    shadow_text.insert_str(0, &full_text);

    let mid_byte = shadow_text.len() / 2;
    let mid_line = MAX_CHUNK_LINES / 2;
    let splice_text = "SPLICE\n";

    tracker.insert(
        LineTrackerSummary { byte_count: mid_byte, line_count: mid_line },
        create_chunk(splice_text),
    );
    shadow_text.insert_str(mid_byte, splice_text);

    assert_tracker_matches_string(&tracker, &shadow_text);

    let root_idx = tracker.tree.root_idx.unwrap();
    if let MeasuredBTreeNode::Leaf { data, .. } = &tracker.tree.pool[root_idx] {
        assert_eq!(data.len(), 2, "Splice didn't merge with the left half correctly");
        assert_eq!(data[0].newlines.len(), (MAX_CHUNK_LINES / 2) + 1);
        assert_eq!(data[1].newlines.len(), MAX_CHUNK_LINES / 2);
    }
}

#[test]
fn line_tracker_tests_stress_test_random_inserts_and_fuzzing() {
    let mut tracker = LineTracker::new();
    let mut shadow_text = String::new();

    let mut rng = StdRng::seed_from_u64(1337);

    let iterations = 2_000;

    for i in 0..iterations {
        let word_len = rng.random_range(1..20);
        let mut text = String::with_capacity(word_len);
        for _ in 0..word_len {
            if rng.random_bool(0.2) {
                text.push('\n');
            } else {
                text.push(rng.random_range(b'a'..=b'z') as char);
            }
        }

        let current_len = shadow_text.len();
        let insert_byte = if current_len == 0 { 0 } else { rng.random_range(0..=current_len) };
        let insert_line = shadow_text[..insert_byte].matches('\n').count();

        tracker.insert(
            LineTrackerSummary { byte_count: insert_byte, line_count: insert_line },
            create_chunk(&text),
        );
        shadow_text.insert_str(insert_byte, &text);

        if i % 100 == 0 {
            assert_tracker_matches_string(&tracker, &shadow_text);
        }
    }

    assert_tracker_matches_string(&tracker, &shadow_text);
}

#[test]
fn test_reproduce_benchmark_delete_crash() {
    let mut tracker = LineTracker::new();
    let mut total_bytes = 0usize;

    for i in 0..10_000 {
        let text = "Line to be partially deleted\n";
        tracker.insert(LineTrackerSummary::new(total_bytes, i), create_chunk(text));
        total_bytes += text.len();
    }

    let start_byte = total_bytes / 4;
    let end_byte = total_bytes - (total_bytes / 4);

    tracker.delete_range(start_byte, end_byte);
}

#[test]
fn test_line_chunk_split_out_of_bounds_overflow() {
    let mut chunk = LineChunk { byte_length: 20, newlines: vec![9, 19] };

    let out_of_bounds_measure = LineTrackerSummary::new(50, 5);

    let right_chunk = chunk.split_off(out_of_bounds_measure);

    assert_eq!(chunk.byte_length, 20, "Left chunk should remain unchanged");
    assert_eq!(right_chunk.byte_length, 0, "Right chunk should be completely empty");
    assert!(right_chunk.newlines.is_empty(), "Right chunk should have no newlines");
}

#[test]
fn split_off_inside_a_chunk_moves_the_later_newlines() {
    let mut chunk = create_chunk("ab\ncd\nef\n");
    let right = chunk.split_off(LineTrackerSummary::new(4, 0));

    assert_eq!(chunk, create_chunk("ab\nc"));
    assert_eq!(right, create_chunk("d\nef\n"));

    let mut whole = create_chunk("x\ny");
    let all = whole.split_off(LineTrackerSummary::new(0, 0));
    assert_eq!(whole.byte_length, 0);
    assert_eq!(all, create_chunk("x\ny"));
}

#[test]
fn delete_range_keeps_line_offsets_in_step_with_the_text() {
    let mut tracker = LineTracker::new();
    let mut shadow_text = String::new();

    for i in 0..300 {
        let text = format!("line {}\n", i);
        tracker.insert(LineTrackerSummary::new(shadow_text.len(), i), create_chunk(&text));
        shadow_text.push_str(&text);
    }

    let start = 100;
    let end = 1500;
    tracker.delete_range(start, end);
    shadow_text.replace_range(start..end, "");

    assert_tracker_matches_string(&tracker, &shadow_text);
}

#[test]
fn reversed_or_empty_delete_range_changes_nothing() {
    let mut tracker = LineTracker::new();
    tracker.insert(LineTrackerSummary::new(0, 0), create_chunk("a\nb\nc\n"));

    tracker.delete_range(4, 2);
    tracker.delete_range(3, 3);
    assert_tracker_matches_string(&tracker, "a\nb\nc\n");
}

#[test]
fn find_by_byte_and_find_by_line_report_the_chunk_start() {
    let mut tracker = LineTracker::new();
    tracker.insert(LineTrackerSummary::new(0, 0), create_chunk("abc\nde\n"));

    let by_byte = tracker.find_by_byte(5).expect("byte 5 exists");
    assert_eq!(by_byte.start_byte, 0);
    assert_eq!(by_byte.start_line, 0);
    assert_eq!(by_byte.chunk.byte_length, 7);

    let by_line = tracker.find_by_line(1).expect("newline 1 exists");
    assert_eq!(by_line.chunk.newlines, vec![3, 6]);

    assert!(tracker.find_by_byte(7).is_none());
    assert!(tracker.find_by_line(2).is_none());
    assert_eq!(tracker.byte_offset_of_line(0), Some(0));
    assert_eq!(tracker.byte_offset_of_line(1), Some(4));
    assert_eq!(tracker.byte_offset_of_line(2), Some(7));
    assert_eq!(tracker.byte_offset_of_line(3), None);
}
