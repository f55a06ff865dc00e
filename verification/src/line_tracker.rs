//! Line tracking: the document's bytes are split into chunks that record where their
//! newlines are, kept in a measured B-Tree whose measure counts bytes and newlines, so
//! that byte offsets and line numbers can be converted into each other.
use vstd::prelude::*;
use crate::btree::{MeasuredBTree, MeasuredBTreeData, MeasuredBTreeNode, Measure, data_models, kid_models, node_ok};
use crate::measure::{padd, psub, plt, ple, pbelow, psum, lemma_psum_split, lemma_psum_push, lemma_psum_take_below, lemma_psum_concat};
use crate::in_order::{items_under, items_of_kids, lemma_items_of_kids_at, lemma_data_models_concat};
use crate::atoms::{atoms, inserted_at, lemma_atoms_len};

verus! {

/// The most newlines a chunk takes in by merging.
pub const MAX_CHUNK_LINES: usize = 64;

/// The measure cached by the nodes of a line tracker: bytes and newlines. Summaries are
/// ordered by bytes first, then by newlines.
#[derive(Debug, Clone, Copy, Default, PartialEq, Eq, Structural, PartialOrd, Ord, Hash)]
pub struct LineTrackerSummary {
    pub byte_count: usize,
    pub line_count: usize,
}

impl LineTrackerSummary {
    pub fn new(byte_count: usize, line_count: usize) -> (r: Self)
        ensures
            r.byte_count == byte_count,
            r.line_count == line_count,
    {
        LineTrackerSummary { byte_count, line_count }
    }
}

impl Measure for LineTrackerSummary {
    open spec fn model(self) -> (nat, nat) {
        (self.byte_count as nat, self.line_count as nat)
    }

    open spec fn fits(m: (nat, nat)) -> bool {
        m.0 <= usize::MAX && m.1 <= usize::MAX
    }

    proof fn lemma_fits(a: Self) {
    }

    proof fn lemma_fits_below(m: (nat, nat), n: (nat, nat)) {
    }

    proof fn lemma_injective(a: Self, b: Self) {
    }

    fn zero() -> (r: Self) {
        LineTrackerSummary { byte_count: 0, line_count: 0 }
    }

    fn plus(self, rhs: Self) -> (r: Self) {
        LineTrackerSummary {
            line_count: self.line_count + rhs.line_count,
            byte_count: self.byte_count + rhs.byte_count,
        }
    }

    fn minus(self, rhs: Self) -> (r: Self) {
        self.saturating_minus(rhs)
    }

    fn saturating_minus(self, rhs: Self) -> (r: Self) {
        LineTrackerSummary {
            line_count: self.line_count.saturating_sub(rhs.line_count),
            byte_count: self.byte_count.saturating_sub(rhs.byte_count),
        }
    }

    fn less_than(&self, rhs: &Self) -> (r: bool) {
        self.byte_count < rhs.byte_count || (self.byte_count == rhs.byte_count && self.line_count < rhs.line_count)
    }

    fn at_most(&self, rhs: &Self) -> (r: bool) {
        self.byte_count < rhs.byte_count || (self.byte_count == rhs.byte_count && self.line_count <= rhs.line_count)
    }

    fn same(&self, rhs: &Self) -> (r: bool) {
        self.byte_count == rhs.byte_count && self.line_count == rhs.line_count
    }

    fn primary(&self) -> (r: u64) {
        self.byte_count as u64
    }

    fn clear(&mut self) {
        self.byte_count = 0;
        self.line_count = 0;
    }
}

/// The number of `true` entries of a sequence.
pub open spec fn count_true(s: Seq<bool>) -> nat
    decreases s.len(),
{
    if s.len() == 0 {
        0
    } else {
        count_true(s.drop_last()) + if s.last() { 1nat } else { 0nat }
    }
}

pub proof fn lemma_count_true_concat(a: Seq<bool>, b: Seq<bool>)
    ensures
        count_true(a + b) == count_true(a) + count_true(b),
    decreases b.len(),
{
    if b.len() == 0 {
        assert(a + b =~= a);
    } else {
        lemma_count_true_concat(a, b.drop_last());
        assert((a + b).drop_last() =~= a + b.drop_last());
    }
}

pub proof fn lemma_count_true_none(n: nat)
    ensures
        count_true(Seq::new(n, |i: int| false)) == 0,
    decreases n,
{
    if n > 0 {
        lemma_count_true_none((n - 1) as nat);
        assert(Seq::new(n, |i: int| false).drop_last() =~= Seq::new((n - 1) as nat, |i: int| false));
    }
}

/// Newline positions, strictly increasing and below `len`.
pub open spec fn positions_ok(nl: Seq<usize>, len: nat) -> bool {
    &&& forall|i: int, j: int| 0 <= i < j < nl.len() ==> nl[i] < nl[j]
    &&& forall|i: int| 0 <= i < nl.len() ==> nl[i] < len
}

/// The bytes of a chunk of length `len` with newlines at `nl`: `true` marks a newline.
pub open spec fn marks(nl: Seq<usize>, len: nat) -> Seq<bool> {
    Seq::new(len, |i: int| nl.contains(i as usize))
}

/// A chunk marks as many newlines as it lists.
pub proof fn lemma_marks_count(nl: Seq<usize>, len: nat)
    requires
        positions_ok(nl, len),
        len <= usize::MAX,
    ensures
        count_true(marks(nl, len)) == nl.len(),
    decreases nl.len(),
{
    if nl.len() == 0 {
        assert(marks(nl, len) =~= Seq::new(len, |i: int| false));
        lemma_count_true_none(len);
    } else {
        let last = nl.last();
        let rest = nl.drop_last();
        assert(positions_ok(rest, last as nat)) by {
            assert forall|i: int| 0 <= i < rest.len() implies rest[i] < last by {
                assert(nl[i] < nl[nl.len() - 1]);
            }
        }
        lemma_marks_count(rest, last as nat);
        let tail = Seq::new((len - last - 1) as nat, |i: int| false);
        let m = marks(rest, last as nat);
        let c = m + seq![true] + tail;
        assert(marks(nl, len) =~= c) by {
            assert forall|i: int| 0 <= i < len implies #[trigger] marks(nl, len)[i] == c[i] by {
                assert(marks(nl, len)[i] == nl.contains(i as usize));
                if i < last {
                    assert(c[i] == m[i]);
                    assert(m[i] == rest.contains(i as usize));
                    if nl.contains(i as usize) {
                        let k = choose|k: int| 0 <= k < nl.len() && nl[k] == i as usize;
                        assert(k != nl.len() - 1);
                        assert(rest[k] == nl[k]);
                    }
                    if rest.contains(i as usize) {
                        let k = choose|k: int| 0 <= k < rest.len() && rest[k] == i as usize;
                        assert(nl[k] == rest[k]);
                    }
                } else if i == last {
                    assert(c[i] == true);
                    assert(nl[nl.len() - 1] == last);
                } else {
                    assert(c[i] == tail[i - last - 1]);
                    if nl.contains(i as usize) {
                        let k = choose|k: int| 0 <= k < nl.len() && nl[k] == i as usize;
                        if k < nl.len() - 1 {
                            assert(nl[k] < nl[nl.len() - 1]);
                        }
                    }
                }
            }
        }
        lemma_count_true_concat(m + seq![true], tail);
        lemma_count_true_concat(m, seq![true]);
        lemma_count_true_none((len - last - 1) as nat);
        assert(seq![true].drop_last() =~= Seq::<bool>::empty());
        assert(count_true(Seq::<bool>::empty()) == 0);
        assert(count_true(seq![true]) == 1);
        assert(count_true(m) == rest.len());
        assert(count_true(c) == count_true(m) + 1);
    }
}

/// A chunk of bytes: its length and the positions of its newlines.
#[derive(Debug, Clone, PartialEq, Eq)]
pub struct LineChunk {
    pub byte_length: usize,
    pub newlines: Vec<usize>,
}

impl MeasuredBTreeData for LineChunk {
    type Measure = LineTrackerSummary;

    /// A chunk stands for its bytes, each marked by whether it is a newline.
    type Atom = bool;

    open spec fn wf(&self) -> bool {
        positions_ok(self.newlines@, self.byte_length as nat)
    }

    open spec fn content(&self) -> Seq<bool> {
        marks(self.newlines@, self.byte_length as nat)
    }

    open spec fn flags(s: Seq<bool>) -> nat {
        count_true(s)
    }

    open spec fn spec_measure(&self) -> LineTrackerSummary {
        LineTrackerSummary { line_count: self.newlines.len(), byte_count: self.byte_length }
    }

    proof fn lemma_flags_empty() {
    }

    proof fn lemma_flags_single(a: bool) {
        assert(seq![a].drop_last() =~= Seq::<bool>::empty());
        assert(count_true(Seq::<bool>::empty()) == 0);
    }

    proof fn lemma_flags_concat(a: Seq<bool>, b: Seq<bool>) {
        lemma_count_true_concat(a, b);
    }

    proof fn lemma_content(x: &Self) {
        lemma_marks_count(x.newlines@, x.byte_length as nat);
    }

    fn measure(&self) -> (r: LineTrackerSummary) {
        LineTrackerSummary { line_count: self.newlines.len(), byte_count: self.byte_length }
    }

    fn split_at(&mut self, offset: LineTrackerSummary) -> (r: Self) {
        let ghost before = self.newlines@;
        let ghost len0 = self.byte_length as nat;
        let split_byte = offset.byte_count;
        let mut split_idx: usize = 0;
        while split_idx < self.newlines.len() && self.newlines[split_idx] < split_byte
            invariant
                self.newlines@ == before,
                0 <= split_idx <= self.newlines.len(),
                forall|k: int| 0 <= k < split_idx ==> before[k] < split_byte,
            decreases self.newlines.len() - split_idx,
        {
            split_idx += 1;
        }
        let tail = self.newlines.split_off(split_idx);
        assert(tail@ =~= before.skip(split_idx as int));
        let mut moved: Vec<usize> = Vec::new();
        let mut k: usize = 0;
        while k < tail.len()
            invariant
                0 <= k <= tail.len(),
                tail@ == before.skip(split_idx as int),
                tail@.len() == before.len() - split_idx,
                split_idx <= before.len(),
                moved@.len() == k,
                positions_ok(before, len0),
                split_idx < before.len() ==> before[split_idx as int] >= split_byte,
                forall|m: int| 0 <= m < k ==> #[trigger] moved@[m] == tail@[m] - split_byte,
            decreases tail.len() - k,
        {
            assert(tail@[k as int] == before[split_idx + k]);
            assert(before[split_idx + k] >= split_byte) by {
                if k > 0 {
                    assert(before[split_idx as int] < before[split_idx + k]);
                }
            }
            moved.push(tail[k] - split_byte);
            k += 1;
        }
        let right_chunk = LineChunk { byte_length: self.byte_length - split_byte, newlines: moved };
        self.byte_length = split_byte;
        proof {
            assert(self.newlines@ =~= before.take(split_idx as int));
            assert(positions_ok(self.newlines@, self.byte_length as nat));
            assert forall|m: int| 0 <= m < right_chunk.newlines@.len() implies right_chunk.newlines@[m] == before[split_idx + m] - split_byte by {
                assert(tail@[m] == before[split_idx + m]);
            }
            assert(positions_ok(right_chunk.newlines@, right_chunk.byte_length as nat)) by {
                assert forall|i: int, j: int| 0 <= i < j < right_chunk.newlines@.len() implies right_chunk.newlines@[i] < right_chunk.newlines@[j] by {
                    assert(before[split_idx + i] < before[split_idx + j]);
                }
                assert forall|i: int| 0 <= i < right_chunk.newlines@.len() implies right_chunk.newlines@[i] < right_chunk.byte_length by {
                    assert(before[split_idx + i] < len0);
                    assert(before[split_idx + i] >= split_byte) by {
                        if i > 0 {
                            assert(before[split_idx as int] < before[split_idx + i]);
                        }
                    }
                }
            }
            let c0 = marks(before, len0);
            assert(self.content() =~= c0.take(split_byte as int)) by {
                assert forall|i: int| 0 <= i < split_byte implies #[trigger] self.content()[i] == c0[i] by {
                    if before.contains(i as usize) {
                        let q = choose|q: int| 0 <= q < before.len() && before[q] == i as usize;
                        if q >= split_idx {
                            if q > split_idx {
                                assert(before[split_idx as int] < before[q]);
                            }
                        }
                        assert(self.newlines@[q] == before[q]);
                    }
                    if self.newlines@.contains(i as usize) {
                        let q = choose|q: int| 0 <= q < self.newlines@.len() && self.newlines@[q] == i as usize;
                        assert(before[q] == self.newlines@[q]);
                    }
                }
            }
            assert(right_chunk.content() =~= c0.skip(split_byte as int)) by {
                assert forall|i: int| 0 <= i < right_chunk.byte_length implies #[trigger] right_chunk.content()[i] == c0[i + split_byte] by {
                    let p = (i + split_byte) as usize;
                    if before.contains(p) {
                        let q = choose|q: int| 0 <= q < before.len() && before[q] == p;
                        assert(q >= split_idx) by {
                            if q < split_idx {
                                assert(before[q] < split_byte);
                            }
                        }
                        assert(right_chunk.newlines@[q - split_idx] == i as usize);
                    }
                    if right_chunk.newlines@.contains(i as usize) {
                        let q = choose|q: int| 0 <= q < right_chunk.newlines@.len() && right_chunk.newlines@[q] == i as usize;
                        assert(before[split_idx + q] == p);
                    }
                }
            }
        }
        right_chunk
    }

    /// Merges unless the chunk would then hold more than `MAX_CHUNK_LINES` newlines (or
    /// more bytes than a `usize` counts).
    fn try_merge(&mut self, other: &Self) -> (r: bool)
        ensures
            r <==> (old(self).newlines@.len() + other.newlines@.len() <= MAX_CHUNK_LINES
                && old(self).byte_length + other.byte_length <= usize::MAX),
    {
        if self.newlines.len() > MAX_CHUNK_LINES || other.newlines.len() > MAX_CHUNK_LINES - self.newlines.len() {
            return false;
        }
        if self.byte_length > usize::MAX - other.byte_length {
            return false;
        }
        let ghost a = self.newlines@;
        let ghost la = self.byte_length;
        let byte_offset = self.byte_length;
        self.byte_length = self.byte_length + other.byte_length;
        let mut k: usize = 0;
        while k < other.newlines.len()
            invariant
                0 <= k <= other.newlines.len(),
                self.newlines@.len() == a.len() + k,
                forall|m: int| 0 <= m < a.len() ==> #[trigger] self.newlines@[m] == a[m],
                forall|m: int| a.len() <= m < a.len() + k ==> #[trigger] self.newlines@[m] == other.newlines@[m - a.len()] + la,
                byte_offset == la,
                self.byte_length == la + other.byte_length,
                positions_ok(other.newlines@, other.byte_length as nat),
                positions_ok(a, la as nat),
            decreases other.newlines.len() - k,
        {
            self.newlines.push(other.newlines[k] + byte_offset);
            k += 1;
        }
        proof {
            let b = other.newlines@;
            let n = self.newlines@;
            assert forall|i: int, j: int| 0 <= i < j < n.len() implies n[i] < n[j] by {
                if j < a.len() {
                    assert(a[i] < a[j]);
                } else if i < a.len() {
                    assert(n[i] == a[i]);
                    assert(n[i] < la);
                    assert(n[j] == b[j - a.len()] + la);
                } else {
                    assert(n[i] == b[i - a.len()] + la);
                    assert(n[j] == b[j - a.len()] + la);
                    assert(b[i - a.len()] < b[j - a.len()]);
                }
            }
            assert(self.content() =~= marks(a, la as nat) + other.content()) by {
                assert forall|i: int| 0 <= i < self.byte_length implies #[trigger] self.content()[i]
                    == (marks(a, la as nat) + other.content())[i] by {
                    assert((i as usize) as int == i);
                    if n.contains(i as usize) {
                        let q = choose|q: int| 0 <= q < n.len() && n[q] == i as usize;
                        if q < a.len() {
                            assert(a[q] == i as usize);
                        } else {
                            assert(n[q] == b[q - a.len()] + la);
                            assert(b[q - a.len()] == (i - la) as usize);
                        }
                    }
                    if i < la {
                        if a.contains(i as usize) {
                            let q = choose|q: int| 0 <= q < a.len() && a[q] == i as usize;
                            assert(n[q] == i as usize);
                        }
                    } else {
                        if b.contains((i - la) as usize) {
                            let q = choose|q: int| 0 <= q < b.len() && b[q] == (i - la) as usize;
                            assert(n[a.len() + q] == i as usize);
                        }
                    }
                }
            }
        }
        true
    }
}

} // verus!

verus! {

impl LineChunk {
    /// The chunk of the given bytes: their length and the positions of their newlines.
    pub fn from_bytes(bytes: &[u8]) -> (r: LineChunk)
        ensures
            r.wf(),
            r.byte_length == bytes@.len(),
            r.content() == Seq::new(bytes@.len(), |i: int| bytes@[i] == 10u8),
    {
        let mut newlines: Vec<usize> = Vec::new();
        let mut k: usize = 0;
        while k < bytes.len()
            invariant
                0 <= k <= bytes.len(),
                bytes@.len() == bytes.len(),
                positions_ok(newlines@, k as nat),
                forall|p: int| 0 <= p < k ==> (newlines@.contains(p as usize) <==> bytes@[p] == 10u8),
            decreases bytes.len() - k,
        {
            let ghost prev = newlines@;
            if bytes[k] == 10u8 {
                newlines.push(k);
                proof {
                    assert forall|p: int| 0 <= p < k + 1 implies (newlines@.contains(p as usize) <==> bytes@[p] == 10u8) by {
                        if p < k {
                            if prev.contains(p as usize) {
                                let q = choose|q: int| 0 <= q < prev.len() && prev[q] == p as usize;
                                assert(newlines@[q] == p as usize);
                            }
                            if newlines@.contains(p as usize) {
                                let q = choose|q: int| 0 <= q < newlines@.len() && newlines@[q] == p as usize;
                                if q < prev.len() {
                                    assert(prev[q] == p as usize);
                                }
                            }
                        } else {
                            assert(newlines@[prev.len() as int] == k);
                        }
                    }
                }
            } else {
                proof {
                    assert forall|p: int| 0 <= p < k + 1 implies (newlines@.contains(p as usize) <==> bytes@[p] == 10u8) by {
                        if p == k && newlines@.contains(p as usize) {
                            let q = choose|q: int| 0 <= q < newlines@.len() && newlines@[q] == p as usize;
                        }
                    }
                }
            }
            k += 1;
        }
        let r = LineChunk { byte_length: bytes.len(), newlines };
        proof {
            assert(r.content() =~= Seq::new(bytes@.len(), |i: int| bytes@[i] == 10u8)) by {
                assert forall|i: int| 0 <= i < bytes@.len() implies #[trigger] r.content()[i] == (bytes@[i] == 10u8) by {
                    assert((i as usize) as int == i);
                }
            }
        }
        r
    }

    /// Keeps the bytes before `offset.byte_count` (clamped to the chunk's length) and
    /// returns the rest as a chunk of its own; the newlines go with their bytes.
    pub fn split_off(&mut self, offset: LineTrackerSummary) -> (r: LineChunk)
        requires
            old(self).wf(),
        ensures
            final(self).wf(),
            r.wf(),
            final(self).content() == old(self).content().take(
                if offset.byte_count <= old(self).byte_length { offset.byte_count as int } else { old(self).byte_length as int }),
            r.content() == old(self).content().skip(
                if offset.byte_count <= old(self).byte_length { offset.byte_count as int } else { old(self).byte_length as int }),
    {
        let ghost c0 = self.content();
        if offset.byte_count >= self.byte_length {
            proof {
                assert(c0.take(self.byte_length as int) =~= c0);
                assert(c0.skip(self.byte_length as int) =~= Seq::<bool>::empty());
                assert(marks(Seq::<usize>::empty(), 0) =~= Seq::<bool>::empty());
            }
            return LineChunk { byte_length: 0, newlines: Vec::new() };
        }
        if offset.byte_count == 0 {
            let whole = LineChunk { byte_length: self.byte_length, newlines: self.newlines.clone() };
            self.byte_length = 0;
            self.newlines = Vec::new();
            proof {
                assert(whole.newlines@ =~= old(self).newlines@);
                assert(c0.take(0) =~= Seq::<bool>::empty());
                assert(c0.skip(0) =~= c0);
                assert(marks(Seq::<usize>::empty(), 0) =~= Seq::<bool>::empty());
            }
            return whole;
        }
        self.split_at(offset)
    }
}

} // verus!

verus! {

/// Line `line` (counted from zero, `line > 0`) starts at byte `b`, and the newline that
/// ends the line before it lies in chunk `j` of `chunks`: that newline is the
/// `line - 1 - n`-th of the chunk, where `n` newlines come before the chunk, and `b` is
/// one past it.
pub open spec fn line_start_in(chunks: Seq<LineChunk>, j: int, line: usize, b: usize) -> bool {
    let before = psum(data_models(chunks.take(j)));
    let c = chunks[j];
    &&& before.1 <= line - 1 < before.1 + c.newlines@.len()
    &&& b == before.0 + c.newlines@[line - 1 - before.1] + 1
}

/// The number of entries of `s` below `x`.
pub open spec fn count_below(s: Seq<usize>, x: usize) -> nat
    decreases s.len(),
{
    if s.len() == 0 {
        0
    } else {
        count_below(s.drop_last(), x) + if s.last() < x { 1nat } else { 0nat }
    }
}

/// The component of a measure model that a search goes by: newlines or bytes.
pub open spec fn pick(m: (nat, nat), by_lines: bool) -> nat {
    if by_lines {
        m.1
    } else {
        m.0
    }
}

/// A chunk found by a search, with the numbers of bytes and of newlines before it.
pub struct SearchResult<'a> {
    pub chunk: &'a LineChunk,
    pub start_byte: usize,
    pub start_line: usize,
}

/// A line tracker over a measured B-Tree of line chunks.
pub struct LineTracker {
    pub tree: MeasuredBTree<LineChunk>,
}

impl LineTracker {
    pub open spec fn wf(&self) -> bool {
        self.tree.wf()
    }

    /// The numbers of bytes and of newlines of the document.
    pub open spec fn totals(&self) -> (nat, nat) {
        self.tree.total()
    }

    /// The bytes of the document, chunk after chunk, each marked by whether it is a newline.
    pub open spec fn newline_marks(&self) -> Seq<bool> {
        atoms(self.tree.in_order())
    }

    /// The marks of a well-formed tracker are as many as the bytes of the document.
    pub proof fn lemma_marks_len(&self)
        requires
            self.wf(),
        ensures
            self.newline_marks().len() == self.totals().0,
    {
        self.tree.lemma_in_order_total();
        self.tree.lemma_in_order_wf();
        lemma_atoms_len(self.tree.in_order());
    }

    pub fn new() -> (r: Self)
        ensures
            r.wf(),
            r.totals() == (0nat, 0nat),
            r.tree.root_idx.is_none(),
    {
        LineTracker { tree: MeasuredBTree::new() }
    }

    /// The cached measure of node `node_index`.
    fn measure_of(&self, node_index: usize) -> (r: LineTrackerSummary)
        requires
            node_index < self.tree.pool@.len(),
        ensures
            r == self.tree.pool@[node_index as int].node_measure(),
    {
        match &self.tree.pool[node_index] {
            MeasuredBTreeNode::Internal { measure, .. } => *measure,
            MeasuredBTreeNode::Leaf { measure, .. } => *measure,
        }
    }

    /// Inserts the chunk `data` at position `target` (bytes and newlines before it).
    pub fn insert(&mut self, target: LineTrackerSummary, data: LineChunk)
        requires
            old(self).wf(),
            data.wf(),
            ple(target.model(), old(self).totals()),
            padd(old(self).totals(), data.spec_measure().model()).0 <= usize::MAX,
            padd(old(self).totals(), data.spec_measure().model()).1 <= usize::MAX,
        ensures
            final(self).wf(),
            final(self).totals() == padd(old(self).totals(), data.spec_measure().model()),
            final(self).newline_marks() == old(self).newline_marks().take(target.byte_count as int) + data.content()
                + old(self).newline_marks().skip(target.byte_count as int),
    {
        let ghost old_self = *self;
        let ghost xd = data;
        let _ = self.tree.insert(target, data);
        proof {
            old_self.lemma_marks_len();
            reveal(inserted_at);
        }
    }

    /// Descends to the chunk in which byte `target` (or newline number `target`, when
    /// `by_lines`) lies, accumulating the bytes and newlines before it.
    fn find_chunk(&self, target: usize, by_lines: bool) -> (r: Option<SearchResult<'_>>)
        requires
            self.wf(),
        ensures
            r is Some <==> (self.tree.root_idx.is_some() && target < pick(self.totals(), by_lines)),
            r matches Some(res) ==> {
                &&& exists|leaf: int, k: int| #![auto] self.tree.holds_leaf(leaf, k)
                    && *res.chunk == self.tree.pool@[leaf].items()[k]
                &&& pick((res.start_byte as nat, res.start_line as nat), by_lines) <= target
                &&& target < pick((res.start_byte as nat, res.start_line as nat), by_lines)
                    + pick(res.chunk.spec_measure().model(), by_lines)
                &&& res.start_byte + res.chunk.byte_length <= self.totals().0
                &&& res.start_line + res.chunk.newlines@.len() <= self.totals().1
                &&& exists|j: int| 0 <= j < self.tree.in_order().len()
                    && #[trigger] self.tree.in_order()[j] == *res.chunk
                    && psum(data_models(self.tree.in_order().take(j))) == (res.start_byte as nat, res.start_line as nat)
            },
    {
        let mut current_node_index = match self.tree.root_idx {
            None => {
                return None;
            },
            Some(r) => r,
        };
        proof {
            self.tree.lemma_wf_root();
        }
        let root_measure = self.measure_of(current_node_index);
        let root_key = if by_lines { root_measure.line_count } else { root_measure.byte_count };
        if target >= root_key {
            return None;
        }
        let mut accumulated_bytes: usize = 0;
        let mut accumulated_lines: usize = 0;
        let ghost mut pre: Seq<LineChunk> = Seq::empty();
        let ghost mut post: Seq<LineChunk> = Seq::empty();
        proof {
            let root_items = items_under(self.tree.pool@, current_node_index as int, self.tree.level@[current_node_index as int]);
            assert(pre + root_items + post =~= root_items);
            assert(data_models(pre) =~= Seq::<(nat, nat)>::empty());
        }
        loop
            invariant
                self.tree.in_order() == pre + items_under(self.tree.pool@, current_node_index as int,
                    self.tree.level@[current_node_index as int]) + post,
                psum(data_models(pre)) == (accumulated_bytes as nat, accumulated_lines as nat),
                self.wf(),
                self.tree.root_idx.is_some(),
                target < pick(self.totals(), by_lines),
                current_node_index < self.tree.pool@.len(),
                pbelow(padd((accumulated_bytes as nat, accumulated_lines as nat), self.tree.pool@[current_node_index as int].weight()),
                    self.totals()),
                pick((accumulated_bytes as nat, accumulated_lines as nat), by_lines) <= target,
                target < pick((accumulated_bytes as nat, accumulated_lines as nat), by_lines)
                    + pick(self.tree.pool@[current_node_index as int].weight(), by_lines),
            decreases self.tree.level@[current_node_index as int],
        {
            proof {
                self.tree.lemma_wf_node_ok(current_node_index as int);
                LineTrackerSummary::lemma_fits(self.tree.pool@[self.tree.root_idx.unwrap() as int].node_measure());
            }
            match &self.tree.pool[current_node_index] {
                MeasuredBTreeNode::Internal { children, .. } => {
                    let ghost km = kid_models(self.tree.pool@, children@);
                    let ghost acc0 = (accumulated_bytes as nat, accumulated_lines as nat);
                    let ghost parent = current_node_index as int;
                    let mut i: usize = 0;
                    proof {
                        assert(km.skip(0) =~= km);
                        assert(km.take(0) =~= Seq::<(nat, nat)>::empty());
                    }
                    loop
                        invariant
                            (accumulated_bytes as nat, accumulated_lines as nat) == padd(acc0, psum(km.take(i as int))),
                            self.wf(),
                            0 <= parent < self.tree.pool@.len(),
                            children@ == self.tree.pool@[parent].kids(),
                            node_ok(self.tree.pool@, self.tree.level@, parent),
                            km == kid_models(self.tree.pool@, children@),
                            0 <= i <= children.len(),
                            padd((accumulated_bytes as nat, accumulated_lines as nat), psum(km.skip(i as int)))
                                == padd(acc0, self.tree.pool@[parent].weight()),
                            pbelow(padd(acc0, self.tree.pool@[parent].weight()), self.totals()),
                            LineTrackerSummary::fits(self.totals()),
                            pick((accumulated_bytes as nat, accumulated_lines as nat), by_lines) <= target,
                            target < pick(acc0, by_lines) + pick(self.tree.pool@[parent].weight(), by_lines),
                        ensures
                            (accumulated_bytes as nat, accumulated_lines as nat) == padd(acc0, psum(km.take(i as int))),
                            0 <= i < children.len(),
                            current_node_index == children@[i as int],
                            pbelow(padd((accumulated_bytes as nat, accumulated_lines as nat), km[i as int]),
                                padd(acc0, self.tree.pool@[parent].weight())),
                            pick((accumulated_bytes as nat, accumulated_lines as nat), by_lines) <= target,
                            target < pick((accumulated_bytes as nat, accumulated_lines as nat), by_lines) + pick(km[i as int], by_lines),
                        decreases children.len() - i,
                    {
                        if i >= children.len() {
                            proof {
                                assert(km.skip(i as int) =~= Seq::<(nat, nat)>::empty());
                                assert(false);
                            }
                            continue;
                        }
                        let child_index = children[i];
                        let child_measure = self.measure_of(child_index);
                        proof {
                            lemma_psum_split(km.skip(i as int), 1);
                            assert(km.skip(i as int).take(1) =~= seq![km[i as int]]);
                            assert(km.skip(i as int).skip(1) =~= km.skip(i + 1));
                            crate::measure::lemma_psum_single(km[i as int]);
                            lemma_psum_take_below(km.skip(i as int), 1);
                            assert(km.take(i + 1) =~= km.take(i as int).push(km[i as int]));
                            lemma_psum_push(km.take(i as int), km[i as int]);
                        }
                        let child_key = if by_lines { child_measure.line_count } else { child_measure.byte_count };
                        let acc_key = if by_lines { accumulated_lines } else { accumulated_bytes };
                        if target < acc_key + child_key {
                            current_node_index = child_index;
                            break;
                        }
                        accumulated_bytes = accumulated_bytes + child_measure.byte_count;
                        accumulated_lines = accumulated_lines + child_measure.line_count;
                        i += 1;
                    }
                    proof {
                        assert(self.tree.pool@[parent].kids()[i as int] == current_node_index);
                        let d = (self.tree.level@[parent] - 1) as nat;
                        self.tree.lemma_wf_node_ok(parent);
                        lemma_items_of_kids_at(self.tree.pool@, children@, i as int, d);
                        self.tree.lemma_kids_sum(parent, i as int);
                        assert(children@.take(i as int).map_values(|x: usize| self.tree.pool@[x as int].weight())
                            =~= km.take(i as int));
                        let mid = items_of_kids(self.tree.pool@, children@.take(i as int), d);
                        lemma_data_models_concat(pre, mid);
                        lemma_psum_concat(data_models(pre), data_models(mid));
                        assert(self.tree.level@[current_node_index as int] == d);
                        assert(items_under(self.tree.pool@, parent, self.tree.level@[parent])
                            == items_of_kids(self.tree.pool@, children@, d));
                        let after = items_of_kids(self.tree.pool@, children@.skip(i + 1), d);
                        assert(pre + items_under(self.tree.pool@, parent, self.tree.level@[parent]) + post
                            =~= (pre + mid) + items_under(self.tree.pool@, current_node_index as int, d) + (after + post));
                        pre = pre + mid;
                        post = after + post;
                    }
                },
                MeasuredBTreeNode::Leaf { data, .. } => {
                    let ghost dm = data_models(data@);
                    let ghost acc0 = (accumulated_bytes as nat, accumulated_lines as nat);
                    let mut k: usize = 0;
                    proof {
                        assert(dm.skip(0) =~= dm);
                        assert(dm.take(0) =~= Seq::<(nat, nat)>::empty());
                        assert(items_under(self.tree.pool@, current_node_index as int,
                            self.tree.level@[current_node_index as int]) == data@);
                    }
                    while k < data.len()
                        invariant
                            self.tree.in_order() == pre + data@ + post,
                            psum(data_models(pre)) == acc0,
                            (accumulated_bytes as nat, accumulated_lines as nat) == padd(acc0, psum(dm.take(k as int))),
                            self.wf(),
                            current_node_index < self.tree.pool@.len(),
                            self.tree.pool@[current_node_index as int] is Leaf,
                            data@ == self.tree.pool@[current_node_index as int].items(),
                            node_ok(self.tree.pool@, self.tree.level@, current_node_index as int),
                            dm == data_models(data@),
                            0 <= k <= data.len(),
                            padd((accumulated_bytes as nat, accumulated_lines as nat), psum(dm.skip(k as int)))
                                == padd(acc0, self.tree.pool@[current_node_index as int].weight()),
                            pbelow(padd(acc0, self.tree.pool@[current_node_index as int].weight()), self.totals()),
                            LineTrackerSummary::fits(self.totals()),
                            pick((accumulated_bytes as nat, accumulated_lines as nat), by_lines) <= target,
                            target < pick(acc0, by_lines) + pick(self.tree.pool@[current_node_index as int].weight(), by_lines),
                        decreases data.len() - k,
                    {
                        let chunk = &data[k];
                        proof {
                            lemma_psum_split(dm.skip(k as int), 1);
                            assert(dm.skip(k as int).take(1) =~= seq![dm[k as int]]);
                            assert(dm.skip(k as int).skip(1) =~= dm.skip(k + 1));
                            crate::measure::lemma_psum_single(dm[k as int]);
                            assert(dm.take(k + 1) =~= dm.take(k as int).push(dm[k as int]));
                            lemma_psum_push(dm.take(k as int), dm[k as int]);
                        }
                        let chunk_key = if by_lines { chunk.newlines.len() } else { chunk.byte_length };
                        let acc_key = if by_lines { accumulated_lines } else { accumulated_bytes };
                        if target < acc_key + chunk_key {
                            assert(self.tree.holds_leaf(current_node_index as int, k as int)
                                && *chunk == self.tree.pool@[current_node_index as int].items()[k as int]);
                            proof {
                                let j = pre.len() + k;
                                assert(self.tree.in_order()[j] == data@[k as int]);
                                assert(self.tree.in_order().take(j) =~= pre + data@.take(k as int));
                                lemma_data_models_concat(pre, data@.take(k as int));
                                lemma_psum_concat(data_models(pre), data_models(data@.take(k as int)));
                                assert(data_models(data@.take(k as int)) =~= dm.take(k as int));
                            }
                            return Some(SearchResult {
                                chunk,
                                start_byte: accumulated_bytes,
                                start_line: accumulated_lines,
                            });
                        }
                        accumulated_bytes = accumulated_bytes + chunk.byte_length;
                        accumulated_lines = accumulated_lines + chunk.newlines.len();
                        k += 1;
                    }
                    proof {
                        assert(dm.skip(k as int) =~= Seq::<(nat, nat)>::empty());
                    }
                    return None;
                },
            }
        }
    }
}

} // verus!

verus! {

impl LineTracker {
    /// The chunk in which byte `target_byte` lies, with the numbers of bytes and of
    /// newlines before it; `None` when the byte is at or beyond the end of the document.
    pub fn find_by_byte(&self, target_byte: usize) -> (r: Option<SearchResult<'_>>)
        requires
            self.wf(),
        ensures
            r is Some <==> (self.tree.root_idx.is_some() && target_byte < self.totals().0),
            r matches Some(res) ==> {
                &&& exists|leaf: int, k: int| #![auto] self.tree.holds_leaf(leaf, k)
                    && *res.chunk == self.tree.pool@[leaf].items()[k]
                &&& res.start_byte <= target_byte < res.start_byte + res.chunk.byte_length
                &&& res.start_byte + res.chunk.byte_length <= self.totals().0
                &&& res.start_line + res.chunk.newlines@.len() <= self.totals().1
                &&& exists|j: int| 0 <= j < self.tree.in_order().len()
                    && #[trigger] self.tree.in_order()[j] == *res.chunk
                    && psum(data_models(self.tree.in_order().take(j))) == (res.start_byte as nat, res.start_line as nat)
            },
    {
        self.find_chunk(target_byte, false)
    }

    /// The chunk holding newline number `target_line`, with the numbers of bytes and of
    /// newlines before it; `None` when the document has no such newline.
    pub fn find_by_line(&self, target_line: usize) -> (r: Option<SearchResult<'_>>)
        requires
            self.wf(),
        ensures
            r is Some <==> (self.tree.root_idx.is_some() && target_line < self.totals().1),
            r matches Some(res) ==> {
                &&& exists|leaf: int, k: int| #![auto] self.tree.holds_leaf(leaf, k)
                    && *res.chunk == self.tree.pool@[leaf].items()[k]
                &&& res.start_line <= target_line < res.start_line + res.chunk.newlines@.len()
                &&& res.start_byte + res.chunk.byte_length <= self.totals().0
                &&& res.start_line + res.chunk.newlines@.len() <= self.totals().1
                &&& exists|j: int| 0 <= j < self.tree.in_order().len()
                    && #[trigger] self.tree.in_order()[j] == *res.chunk
                    && psum(data_models(self.tree.in_order().take(j))) == (res.start_byte as nat, res.start_line as nat)
            },
    {
        self.find_chunk(target_line, true)
    }

    /// The byte at which line `target_line` starts: zero for line zero, and one past the
    /// newline that ends the previous line otherwise; `None` when there is no such line.
    pub fn byte_offset_of_line(&self, target_line: usize) -> (r: Option<usize>)
        requires
            self.wf(),
        ensures
            target_line == 0 ==> r == Some(0usize),
            r is Some <==> (target_line == 0 || (self.tree.root_idx.is_some() && target_line - 1 < self.totals().1)),
            r matches Some(b) ==> b <= self.totals().0,
            r matches Some(b) ==> (target_line > 0 ==> exists|j: int| 0 <= j < self.tree.in_order().len()
                && #[trigger] line_start_in(self.tree.in_order(), j, target_line, b)),
    {
        if target_line == 0 {
            return Some(0);
        }
        let target_newline_idx = target_line - 1;
        let search_result = match self.find_by_line(target_newline_idx) {
            None => {
                return None;
            },
            Some(res) => res,
        };
        let local_newline_idx = target_newline_idx - search_result.start_line;
        proof {
            let c = *search_result.chunk;
            let (leaf, k) = choose|leaf: int, k: int| #![auto] self.tree.holds_leaf(leaf, k)
                && *search_result.chunk == self.tree.pool@[leaf].items()[k];
            self.tree.lemma_wf_node_ok(leaf);
            assert(self.tree.pool@[leaf].items()[k].wf());
            assert(c.newlines@[local_newline_idx as int] < c.byte_length);
        }
        let relative_byte_offset = search_result.chunk.newlines[local_newline_idx] + 1;
        proof {
            let s = self.tree.in_order();
            let j = choose|j: int| 0 <= j < s.len() && #[trigger] s[j] == *search_result.chunk
                && psum(data_models(s.take(j))) == (search_result.start_byte as nat, search_result.start_line as nat);
            assert(line_start_in(s, j, target_line, (search_result.start_byte + relative_byte_offset) as usize));
        }
        Some(search_result.start_byte + relative_byte_offset)
    }

    /// The number of newlines of `chunk` that come before its byte `local_byte_offset`.
    fn newlines_before(chunk: &LineChunk, local_byte_offset: usize) -> (r: usize)
        ensures
            r == count_below(chunk.newlines@, local_byte_offset),
            r <= chunk.newlines@.len(),
    {
        let mut count: usize = 0;
        let mut k: usize = 0;
        proof {
            assert(chunk.newlines@.take(0) =~= Seq::<usize>::empty());
        }
        while k < chunk.newlines.len()
            invariant
                0 <= k <= chunk.newlines.len(),
                count <= k,
                count == count_below(chunk.newlines@.take(k as int), local_byte_offset),
            decreases chunk.newlines.len() - k,
        {
            proof {
                assert(chunk.newlines@.take(k + 1).drop_last() =~= chunk.newlines@.take(k as int));
            }
            if chunk.newlines[k] < local_byte_offset {
                count += 1;
            }
            k += 1;
        }
        proof {
            assert(chunk.newlines@.take(k as int) =~= chunk.newlines@);
        }
        count
    }

    /// Deletes the bytes `start_byte..end_byte`, with the newlines among them; the range may
    /// reach the end of the document. An empty or reversed range is a no-op.
    pub fn delete_range(&mut self, start_byte: usize, end_byte: usize)
        requires
            old(self).wf(),
            start_byte < end_byte ==> end_byte <= old(self).totals().0,
        ensures
            final(self).wf(),
            pbelow(final(self).totals(), old(self).totals()),
            start_byte >= end_byte ==> *final(self) == *old(self),
    {
        if start_byte >= end_byte {
            return ;
        }
        let start_measure = if start_byte == 0 {
            LineTrackerSummary { byte_count: 0, line_count: 0 }
        } else {
            match self.find_by_byte(start_byte) {
                Some(res) => {
                    let local_byte_offset = start_byte - res.start_byte;
                    let local_lines = Self::newlines_before(res.chunk, local_byte_offset);
                    LineTrackerSummary { byte_count: start_byte, line_count: res.start_line + local_lines }
                },
                None => {
                    return ;
                },
            }
        };
        let end_measure = match self.find_by_byte(end_byte) {
            Some(res) => {
                let local_byte_offset = end_byte - res.start_byte;
                let local_lines = Self::newlines_before(res.chunk, local_byte_offset);
                LineTrackerSummary { byte_count: end_byte, line_count: res.start_line + local_lines }
            },
            None => self.tree.total_measure(),
        };
        let _ = self.tree.delete(start_measure..end_measure);
    }
}

} // verus!
