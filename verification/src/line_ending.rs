//! Line endings: the three styles, their bytes, and the detection of the style that a
//! text uses most.
use vstd::prelude::*;

verus! {

/// The byte `\n`.
pub const NEWLINE_BYTE: u8 = 10;

/// The byte `\r`.
pub const CARRIAGE_RETURN_BYTE: u8 = 13;

/// A line ending style.
#[derive(Debug, Clone, Copy, PartialEq, Eq, Structural, Hash)]
pub enum LineEnding {
    /// Line Feed (LF) - Common on Unix, Linux, and macOS (`\n`).
    LF,
    /// Carriage Return + Line Feed (CRLF) - Used on Windows (`\r\n`).
    CRLF,
    /// Carriage Return (CR) - Used in older Mac OS (pre-OS X) (`\r`).
    CR,
}

/// How many times each line ending occurs in a text.
#[derive(Debug, Default, Clone, Copy, PartialEq, Eq, Structural)]
pub struct LineEndingScores {
    pub lf: u64,
    pub cr_lf: u64,
    pub cr: u64,
}

/// The numbers of `LF`, `CRLF` and `CR` line endings of a byte string, read from left to
/// right: a `\r` directly followed by `\n` is one `CRLF`, any other `\r` is a `CR`, and any
/// other `\n` is an `LF`.
pub open spec fn counts(b: Seq<u8>) -> (nat, nat, nat)
    decreases b.len(),
{
    if b.len() == 0 {
        (0, 0, 0)
    } else if b[0] == NEWLINE_BYTE {
        let c = counts(b.drop_first());
        (c.0 + 1, c.1, c.2)
    } else if b[0] == CARRIAGE_RETURN_BYTE {
        if b.len() > 1 && b[1] == NEWLINE_BYTE {
            let c = counts(b.skip(2));
            (c.0, c.1 + 1, c.2)
        } else {
            let c = counts(b.drop_first());
            (c.0, c.1, c.2 + 1)
        }
    } else {
        counts(b.drop_first())
    }
}

/// The line ending that occurs most among the given numbers of `LF`, `CRLF` and `CR`;
/// `CRLF` wins ties and is the answer when there is none, then `CR`.
pub open spec fn dominant(lf: nat, cr_lf: nat, cr: nat) -> LineEnding {
    let max = if cr_lf >= cr && cr_lf >= lf {
        cr_lf
    } else if cr >= lf {
        cr
    } else {
        lf
    };
    if max == 0 || cr_lf == max {
        LineEnding::CRLF
    } else if cr == max {
        LineEnding::CR
    } else {
        LineEnding::LF
    }
}

/// The line ending that a byte string uses most.
pub open spec fn detect(b: Seq<u8>) -> LineEnding {
    let c = counts(b);
    dominant(c.0, c.1, c.2)
}

/// A line-ending byte.
pub open spec fn is_eol(x: u8) -> bool {
    x == NEWLINE_BYTE || x == CARRIAGE_RETURN_BYTE
}

/// `memchr::memchr2_iter`: the positions, in increasing order, of all bytes of
/// `haystack` equal to `n1` or to `n2`.
#[verifier::external_body]
fn memchr2_positions(n1: u8, n2: u8, haystack: &[u8]) -> (r: Vec<usize>)
    ensures
        forall|i: int, j: int| 0 <= i < j < r@.len() ==> r@[i] < r@[j],
        forall|i: int| 0 <= i < r@.len() ==> r@[i] < haystack@.len() && (haystack@[r@[i] as int] == n1
            || haystack@[r@[i] as int] == n2),
        forall|p: int| 0 <= p < haystack@.len() && (haystack@[p] == n1 || haystack@[p] == n2) ==> r@.contains(
            p as usize,
        ),
{
    memchr::memchr2_iter(n1, n2, haystack).collect()
}

/// Bytes that are not line endings do not count.
pub proof fn lemma_counts_gap(b: Seq<u8>, i: int, j: int)
    requires
        0 <= i <= j <= b.len(),
        forall|p: int| i <= p < j ==> !is_eol(b[p]),
    ensures
        counts(b.skip(i)) == counts(b.skip(j)),
    decreases j - i,
{
    if i < j {
        assert(b.skip(i).drop_first() =~= b.skip(i + 1));
        assert(b.skip(i)[0] == b[i]);
        lemma_counts_gap(b, i + 1, j);
    }
}

impl LineEnding {
    /// Counts the line endings of `bytes`.
    pub fn calculate_score(bytes: &[u8]) -> (r: LineEndingScores)
        ensures
            (r.lf as nat, r.cr_lf as nat, r.cr as nat) == counts(bytes@),
    {
        let positions = memchr2_positions(NEWLINE_BYTE, CARRIAGE_RETURN_BYTE, bytes);
        let mut crlf_score: u64 = 0;
        let mut lf_score: u64 = 0;
        let mut cr_score: u64 = 0;
        let mut skip = false;
        let mut k: usize = 0;
        let ghost b = bytes@;
        let ghost mut cur: int = 0;
        proof {
            assert(b.skip(0) =~= b);
        }
        while k < positions.len()
            invariant
                b == bytes@,
                b.len() == bytes.len(),
                0 <= k <= positions.len(),
                0 <= cur <= b.len(),
                lf_score + crlf_score + cr_score <= k,
                forall|i: int, j: int| 0 <= i < j < positions@.len() ==> positions@[i] < positions@[j],
                forall|i: int| 0 <= i < positions@.len() ==> positions@[i] < b.len() && is_eol(b[positions@[i] as int]),
                forall|p: int| 0 <= p < b.len() && is_eol(b[p]) ==> positions@.contains(p as usize),
                k == 0 ==> cur == 0 && !skip,
                k > 0 && !skip ==> cur == positions@[k - 1] + 1,
                k > 0 && skip ==> cur == positions@[k - 1] + 2 && positions@[k - 1] + 1 < b.len()
                    && b[positions@[k - 1] + 1] == NEWLINE_BYTE,
                lf_score + counts(b.skip(cur)).0 == counts(b).0,
                crlf_score + counts(b.skip(cur)).1 == counts(b).1,
                cr_score + counts(b.skip(cur)).2 == counts(b).2,
            decreases positions.len() - k,
        {
            let byte_idx = positions[k];
            proof {
                if k > 0 {
                    assert(positions@[k - 1] < positions@[k as int]);
                }
            }
            if skip {
                proof {
                    let q = positions@[k - 1] + 1;
                    assert(positions@.contains(q as usize));
                    let m = choose|m: int| 0 <= m < positions@.len() && positions@[m] == q as usize;
                    if m < k {
                        if m < k - 1 {
                            assert(positions@[m] < positions@[k - 1]);
                        }
                    } else if m > k {
                        assert(positions@[k as int] < positions@[m]);
                    }
                    assert(byte_idx as int == q);
                }
                skip = false;
                k += 1;
                proof {
                    cur = byte_idx + 1;
                }
                continue;
            }
            proof {
                assert forall|p: int| cur <= p < byte_idx implies !is_eol(b[p]) by {
                    if is_eol(b[p]) {
                        assert(positions@.contains(p as usize));
                        let m = choose|m: int| 0 <= m < positions@.len() && positions@[m] == p as usize;
                        if m < k {
                            if m < k - 1 {
                                assert(positions@[m] < positions@[k - 1]);
                            }
                        } else if m > k {
                            assert(positions@[k as int] < positions@[m]);
                        }
                    }
                }
                lemma_counts_gap(b, cur, byte_idx as int);
                assert(b.skip(byte_idx as int)[0] == b[byte_idx as int]);
                assert(b.skip(byte_idx as int).drop_first() =~= b.skip(byte_idx + 1));
            }
            if bytes[byte_idx] == NEWLINE_BYTE {
                lf_score += 1;
                proof {
                    cur = byte_idx + 1;
                }
            } else if bytes[byte_idx] == CARRIAGE_RETURN_BYTE {
                if byte_idx + 1 < bytes.len() && bytes[byte_idx + 1] == NEWLINE_BYTE {
                    crlf_score += 1;
                    skip = true;
                    proof {
                        assert(b.skip(byte_idx as int)[1] == b[byte_idx + 1]);
                        assert(b.skip(byte_idx as int).skip(2) =~= b.skip(byte_idx + 2));
                        cur = byte_idx + 2;
                    }
                } else {
                    cr_score += 1;
                    proof {
                        if byte_idx + 1 < b.len() {
                            assert(b.skip(byte_idx as int)[1] == b[byte_idx + 1]);
                        }
                        cur = byte_idx + 1;
                    }
                }
            }
            k += 1;
        }
        proof {
            assert forall|p: int| cur <= p < b.len() implies !is_eol(b[p]) by {
                if is_eol(b[p]) {
                    assert(positions@.contains(p as usize));
                    let m = choose|m: int| 0 <= m < positions@.len() && positions@[m] == p as usize;
                    assert(positions@[m] as int == p);
                    assert(k == positions@.len());
                    if m < k - 1 {
                        assert(positions@[m] < positions@[k - 1]);
                    }
                    assert(false);
                }
            }
            lemma_counts_gap(b, cur, b.len() as int);
            assert(b.skip(b.len() as int) =~= Seq::<u8>::empty());
        }
        LineEndingScores { lf: lf_score, cr_lf: crlf_score, cr: cr_score }
    }

    /// The bytes of the line ending: `\n`, `\r\n` or `\r`.
    pub fn as_bytes(&self) -> (r: &'static [u8])
        ensures
            r@ == match *self {
                LineEnding::LF => seq![NEWLINE_BYTE],
                LineEnding::CRLF => seq![CARRIAGE_RETURN_BYTE, NEWLINE_BYTE],
                LineEnding::CR => seq![CARRIAGE_RETURN_BYTE],
            },
    {
        match self {
            LineEnding::LF => &[10u8],
            LineEnding::CRLF => &[13u8, 10u8],
            LineEnding::CR => &[13u8],
        }
    }

    /// The single byte of a line ending other than `CRLF`.
    pub fn as_byte(&self) -> (r: u8)
        requires
            *self != LineEnding::CRLF,
        ensures
            *self == LineEnding::LF ==> r == NEWLINE_BYTE,
            *self == LineEnding::CR ==> r == CARRIAGE_RETURN_BYTE,
    {
        match self {
            LineEnding::LF => NEWLINE_BYTE,
            LineEnding::CR => CARRIAGE_RETURN_BYTE,
            LineEnding::CRLF => CARRIAGE_RETURN_BYTE,
        }
    }
}

/// The line ending that occurs most among the scores; `CRLF` wins ties and is the
/// answer when there is no line ending at all.
fn dominant_of(scores: LineEndingScores) -> (r: LineEnding)
    ensures
        r == dominant(scores.lf as nat, scores.cr_lf as nat, scores.cr as nat),
{
    let max_score = if scores.cr_lf >= scores.cr && scores.cr_lf >= scores.lf {
        scores.cr_lf
    } else if scores.cr >= scores.lf {
        scores.cr
    } else {
        scores.lf
    };
    if max_score == 0 || scores.cr_lf == max_score {
        LineEnding::CRLF
    } else if scores.cr == max_score {
        LineEnding::CR
    } else {
        LineEnding::LF
    }
}

/// The line ending that the bytes of `text` use most; `CRLF` when they use all equally
/// or none at all.
pub fn create_line_ending(text: &[u8]) -> (r: LineEnding)
    ensures
        r == detect(text@),
        r == LineEnding::LF ==> counts(text@).0 > counts(text@).1 && counts(text@).0 > counts(text@).2,
        r == LineEnding::CR ==> counts(text@).2 > counts(text@).1 && counts(text@).2 >= counts(text@).0,
        r == LineEnding::CRLF ==> counts(text@).1 >= counts(text@).0 && counts(text@).1 >= counts(text@).2,
{
    proof {
        lemma_detect_most_frequent(text@);
    }
    create_line_ending_impl(text)
}

/// The detected style is one that occurs most: `LF` only when it occurs strictly more
/// than each of the others, `CR` only when it occurs strictly more than `CRLF` and at
/// least as often as `LF`, and `CRLF` only when it occurs at least as often as each of
/// the others (which includes a text without line endings).
pub proof fn lemma_detect_most_frequent(b: Seq<u8>)
    ensures
        detect(b) == LineEnding::LF ==> counts(b).0 > counts(b).1 && counts(b).0 > counts(b).2,
        detect(b) == LineEnding::CR ==> counts(b).2 > counts(b).1 && counts(b).2 >= counts(b).0,
        detect(b) == LineEnding::CRLF ==> counts(b).1 >= counts(b).0 && counts(b).1 >= counts(b).2,
{
}

fn create_line_ending_impl(bytes: &[u8]) -> (r: LineEnding)
    ensures
        r == detect(bytes@),
{
    let scores = LineEnding::calculate_score(bytes);
    dominant_of(scores)
}

impl From<&[u8]> for LineEnding {
    /// The line ending that `value` uses most.
    fn from(value: &[u8]) -> (r: Self) {
        create_line_ending_impl(value)
    }
}

impl vstd::std_specs::convert::FromSpecImpl<&[u8]> for LineEnding {
    open spec fn obeys_from_spec() -> bool {
        true
    }

    open spec fn from_spec(value: &[u8]) -> Self {
        detect(value@)
    }
}

} // verus!
