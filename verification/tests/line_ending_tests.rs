use mynotes::line_ending::{create_line_ending, LineEnding, LineEndingScores};

#[test]
fn detects_lf() {
    assert_eq!(create_line_ending("l1\nl2\nl3".as_bytes()), LineEnding::LF);
}

#[test]
fn detects_crlf() {
    assert_eq!(create_line_ending("l1\r\nl2\r\nl3".as_bytes()), LineEnding::CRLF);
}

#[test]
fn detects_cr() {
    assert_eq!(create_line_ending("l1\rl2\rl3".as_bytes()), LineEnding::CR);
}

#[test]
fn detects_mixed_line_endings() {
    let mostly_lf = "l1\nl2\nl3\nl4\nl5\r\nl6\rl7";

    assert_eq!(create_line_ending(mostly_lf.as_bytes()), LineEnding::LF);
    assert_eq!(
        LineEnding::calculate_score(mostly_lf.as_bytes()),
        LineEndingScores { lf: 4, cr_lf: 1, cr: 1 }
    );

    let mostly_crlf = "l1\r\nl2\r\nl3\r\nl4\r\nl5\nl6\rl7";

    assert_eq!(create_line_ending(mostly_crlf.as_bytes()), LineEnding::CRLF);
    assert_eq!(
        LineEnding::calculate_score(mostly_crlf.as_bytes()),
        LineEndingScores { lf: 1, cr_lf: 4, cr: 1 }
    );

    let mostly_cr = "l1\rl2\rl3\rl4\rl5\r\nl6\nl7";

    assert_eq!(create_line_ending(mostly_cr.as_bytes()), LineEnding::CR);
    assert_eq!(
        LineEnding::calculate_score(mostly_cr.as_bytes()),
        LineEndingScores { lf: 1, cr_lf: 1, cr: 4 }
    );
}

#[test]
fn line_ending_handles_mixed_line_edge_cases() {
    assert_eq!(create_line_ending("l1\nl2\r\nl3\rl4".as_bytes()), LineEnding::CRLF);
    assert_eq!(create_line_ending("".as_bytes()), LineEnding::CRLF);
}

#[test]
fn as_bytes_returns_correct_bytes() {
    assert_eq!(LineEnding::LF.as_bytes(), b"\n");
    assert_eq!(LineEnding::CRLF.as_bytes(), b"\r\n");
    assert_eq!(LineEnding::CR.as_bytes(), b"\r");
}

#[test]
fn as_byte_returns_correct_bytes() {
    assert_eq!(LineEnding::LF.as_byte(), b'\n');
    assert_eq!(LineEnding::CR.as_byte(), b'\r');
}

#[test]
fn detects_lf_correctly() {
    let sample = "l1\nl2\nl3".as_bytes();

    assert_eq!(LineEnding::from(sample), LineEnding::LF);
}

#[test]
fn detects_crlf_correctly() {
    let sample = "l1\r\nl2\r\nl3".as_bytes();

    assert_eq!(LineEnding::from(sample), LineEnding::CRLF);
}

#[test]
fn detects_cr_correctly() {
    let sample = "l1\rl2\rl3".as_bytes();

    assert_eq!(LineEnding::from(sample), LineEnding::CR);
}

#[test]
fn handles_mixed_line_endings() {
    let mostly_lf = "l1\nl2\r\nl3\rl4\nl5\nl6\n".as_bytes();

    assert_eq!(LineEnding::from(mostly_lf), LineEnding::LF);
    assert_eq!(
        LineEnding::calculate_score(mostly_lf),
        LineEndingScores { lf: 4, cr_lf: 1, cr: 1 }
    );

    let mostly_cr = "l1\rl2\r\nl3\nl4\rl5\rl6\r".as_bytes();

    assert_eq!(LineEnding::from(mostly_cr), LineEnding::CR);
    assert_eq!(
        LineEnding::calculate_score(mostly_cr),
        LineEndingScores { lf: 1, cr_lf: 1, cr: 4 }
    );

    let mostly_crlf = "l1\r\nl2\rl3\nl4\r\nl5\r\nl6\r\n".as_bytes();

    assert_eq!(LineEnding::from(mostly_crlf), LineEnding::CRLF);
    assert_eq!(
        LineEnding::calculate_score(mostly_crlf),
        LineEndingScores { lf: 1, cr_lf: 4, cr: 1 }
    );
}

#[test]
fn line_ending_tests_handles_mixed_line_edge_cases() {
    let mostly_lf = "l1\nl2\r\nl3\rl4\nl5\nl6\n".as_bytes();

    assert_eq!(LineEnding::from(mostly_lf), LineEnding::LF);

    let equal_mixed = "l1\nl2\r\nl3\rl4\nl5\r\nl6\r".as_bytes();

    assert_eq!(LineEnding::from(equal_mixed), LineEnding::CRLF);

    let empty = "".as_bytes();

    assert_eq!(LineEnding::from(empty), LineEnding::CRLF);
}

#[test]
fn test_as_char_returns_single_byte_for_lf_and_cr() {
    assert_eq!(LineEnding::LF.as_byte(), b'\n');
    assert_eq!(LineEnding::CR.as_byte(), b'\r');
}

#[test]
fn calculate_score_counts_each_kind_once() {
    assert_eq!(
        LineEnding::calculate_score(b"\r\n\r\n\r"),
        LineEndingScores { lf: 0, cr_lf: 2, cr: 1 }
    );
    assert_eq!(
        LineEnding::calculate_score(b"\n\r\r\n\n"),
        LineEndingScores { lf: 2, cr_lf: 1, cr: 1 }
    );
    assert_eq!(
        LineEnding::calculate_score(b"no line endings"),
        LineEndingScores { lf: 0, cr_lf: 0, cr: 0 }
    );
}

#[test]
fn ties_between_lf_and_cr_without_crlf() {
    assert_eq!(create_line_ending(b"a\nb\rc"), LineEnding::CR);
    assert_eq!(create_line_ending(b"a\nb\nc\r"), LineEnding::LF);
}
