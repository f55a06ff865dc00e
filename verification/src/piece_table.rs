//! A piece table: the document is a sequence of pieces, each a range of one of two
//! buffers (the file as it was opened, or the append-only add buffer), kept in a measured B-Tree
//! that routes by document offset.
use vstd::prelude::*;
use crate::in_order::{deref_all, primary_only};
use crate::atoms::{atoms, inserted_at, deleted_at, lemma_atoms_len};
use crate::btree::{MeasuredBTree, MeasuredBTreeData, MeasuredBTreeResult, MeasuredBTreeError, Measure, data_models};
use crate::measure::{padd, psub, plt, ple, pbelow, psum};

verus! {

/// The measure of a piece: its length in bytes. Its model is the length and zero.
impl Measure for usize {
    open spec fn model(self) -> (nat, nat) {
        (self as nat, 0nat)
    }

    open spec fn fits(m: (nat, nat)) -> bool {
        m.0 <= usize::MAX && m.1 == 0
    }

    proof fn lemma_fits(a: Self) {
    }

    proof fn lemma_fits_below(m: (nat, nat), n: (nat, nat)) {
    }

    proof fn lemma_injective(a: Self, b: Self) {
    }

    fn zero() -> (r: Self) {
        0
    }

    fn plus(self, rhs: Self) -> (r: Self) {
        self + rhs
    }

    fn minus(self, rhs: Self) -> (r: Self) {
        self - rhs
    }

    fn saturating_minus(self, rhs: Self) -> (r: Self) {
        self.saturating_sub(rhs)
    }

    fn less_than(&self, rhs: &Self) -> (r: bool) {
        *self < *rhs
    }

    fn at_most(&self, rhs: &Self) -> (r: bool) {
        *self <= *rhs
    }

    fn same(&self, rhs: &Self) -> (r: bool) {
        *self == *rhs
    }

    fn primary(&self) -> (r: u64) {
        *self as u64
    }

    fn clear(&mut self) {
        *self = 0;
    }
}

/// Which buffer a piece refers to.
#[derive(Debug, Clone, Copy, PartialEq, Eq, Structural, PartialOrd, Ord, Hash)]
pub enum BufferKind {
    Add,
    Original,
}

/// A range `start..end` of one buffer.
#[derive(Debug, Clone, Copy, PartialEq, Eq, Structural, PartialOrd, Ord, Hash)]
pub struct Piece {
    pub buffer_kind: BufferKind,
    pub start: usize,
    pub end: usize,
}

impl Piece {
    /// The length of the piece (zero for a reversed range).
    pub open spec fn len_spec(&self) -> nat {
        if self.start <= self.end {
            (self.end - self.start) as nat
        } else {
            0
        }
    }
}

impl MeasuredBTreeData for Piece {
    type Measure = usize;

    /// A piece stands for the buffer positions it covers.
    type Atom = (BufferKind, usize);

    open spec fn wf(&self) -> bool {
        self.start <= self.end
    }

    open spec fn content(&self) -> Seq<(BufferKind, usize)> {
        Seq::new(self.len_spec(), |i: int| (self.buffer_kind, (self.start + i) as usize))
    }

    open spec fn flags(s: Seq<(BufferKind, usize)>) -> nat {
        0
    }

    open spec fn spec_measure(&self) -> usize {
        self.len_spec() as usize
    }

    proof fn lemma_flags_empty() {
    }

    proof fn lemma_flags_single(a: (BufferKind, usize)) {
    }

    proof fn lemma_flags_concat(a: Seq<(BufferKind, usize)>, b: Seq<(BufferKind, usize)>) {
    }

    proof fn lemma_content(x: &Self) {
    }

    fn measure(&self) -> (r: usize) {
        self.end.saturating_sub(self.start)
    }

    fn split_at(&mut self, offset: usize) -> (r: Self) {
        let split_point = self.start + offset;
        let right_piece = Piece { buffer_kind: self.buffer_kind, start: split_point, end: self.end };
        let ghost before = *self;
        self.end = split_point;
        proof {
            assert(self.content() =~= before.content().take(offset as int));
            assert(right_piece.content() =~= before.content().skip(offset as int));
        }
        right_piece
    }

    /// Merges a piece that continues this one in the same buffer.
    fn try_merge(&mut self, other: &Self) -> (r: bool)
        ensures
            r <==> (old(self).buffer_kind == other.buffer_kind && old(self).end == other.start),
    {
        if self.buffer_kind == other.buffer_kind && self.end == other.start {
            let ghost before = *self;
            self.end = other.end;
            proof {
                assert(self.content() =~= before.content() + other.content());
            }
            true
        } else {
            false
        }
    }
}

/// A piece table over a measured B-Tree of pieces.
pub struct PieceTable {
    pub tree: MeasuredBTree<Piece>,
}

impl PieceTable {
    /// Well-formedness: the tree is well-formed.
    pub open spec fn wf(&self) -> bool {
        self.tree.wf()
    }

    /// The length of the document.
    pub open spec fn len_spec(&self) -> nat {
        self.tree.total().0
    }

    /// The text of the document: for each position, the buffer and the buffer position it
    /// comes from, piece after piece in document order.
    pub open spec fn text(&self) -> Seq<(BufferKind, usize)> {
        atoms(self.tree.in_order())
    }

    /// The text of a well-formed table is as long as the document.
    pub proof fn lemma_text_len(&self)
        requires
            self.wf(),
        ensures
            self.text().len() == self.len_spec(),
    {
        self.tree.lemma_in_order_total();
        self.tree.lemma_in_order_wf();
        lemma_atoms_len(self.tree.in_order());
    }

    pub fn new() -> (r: Self)
        ensures
            r.wf(),
            r.len_spec() == 0,
            r.tree.root_idx.is_none(),
            r.tree.pool@.len() == 0,
            r.tree.free_leaves_list@.len() == 0,
            r.tree.free_internals_list@.len() == 0,
    {
        PieceTable { tree: MeasuredBTree::new() }
    }

    /// The piece in which document offset `target` lies, with the offset within it: the
    /// piece whose predecessors (in document order) and the offset add up to `target`.
    /// `None` when `target` is at or beyond the end of the document.
    pub fn get_at(&self, target: usize) -> (r: Option<(&Piece, usize)>)
        requires
            self.wf(),
        ensures
            r is Some <==> target < self.len_spec(),
            r matches Some((piece, off)) ==> exists|j: int| 0 <= j < self.tree.in_order().len()
                && #[trigger] self.tree.in_order()[j] == *piece
                && pieces_len(self.tree.in_order().take(j)) + off == target
                && off < piece.len_spec(),
    {
        proof {
            lemma_usize_primary_only();
        }
        let r = self.tree.get_at(target);
        proof {
            if let Some((piece, off)) = r {
                let s = self.tree.in_order();
                let j = choose|j: int| 0 <= j < s.len() && #[trigger] s[j] == *piece
                    && psum(data_models(s.take(j))).0 + off.model().0 == target.model().0;
                self.tree.lemma_in_order_wf();
                lemma_pieces_len_models(s.take(j));
            }
        }
        r
    }

    /// Inserts `length` bytes of buffer `buffer_kind`, starting at `buf_offset` in that
    /// buffer, at document offset `doc_offset`. An empty insertion is a no-op; an offset
    /// beyond the end of the document is out of bounds.
    pub fn insert(&mut self, doc_offset: usize, buf_offset: usize, length: usize, buffer_kind: BufferKind)
        -> (r: MeasuredBTreeResult<(), usize>)
        requires
            old(self).wf(),
            buf_offset + length <= usize::MAX,
            old(self).len_spec() + length <= usize::MAX,
        ensures
            final(self).wf(),
            r is Ok <==> (length == 0 || doc_offset <= old(self).len_spec()),
            r is Ok && length > 0 ==> final(self).len_spec() == old(self).len_spec() + length,
            length == 0 || r is Err ==> *final(self) == *old(self),
            r matches Err(MeasuredBTreeError::OutOfBounds { max, requested }) ==> max == old(self).len_spec()
                && requested == doc_offset,
            r is Ok && length > 0 ==> final(self).text() == old(self).text().take(doc_offset as int)
                + Seq::new(length as nat, |i: int| (buffer_kind, (buf_offset + i) as usize))
                + old(self).text().skip(doc_offset as int),
    {
        if length == 0 {
            return Ok(());
        }
        let new_piece = Piece { buffer_kind, start: buf_offset, end: buf_offset + length };
        let ghost old_self = *self;
        let r = self.tree.insert(doc_offset, new_piece);
        proof {
            if r is Ok {
                lemma_usize_primary_only();
                old_self.lemma_text_len();
                reveal(inserted_at);
                assert(new_piece.content() =~= Seq::new(length as nat, |i: int| (buffer_kind, (buf_offset + i) as usize)));
            }
        }
        r
    }

    /// Deletes `length` bytes at document offset `start`. A deletion from a table that never
    /// held a piece, or of nothing, is a no-op; a range past the end of the document is out
    /// of bounds.
    pub fn delete(&mut self, start: usize, length: usize) -> (r: MeasuredBTreeResult<(), usize>)
        requires
            old(self).wf(),
            start + length <= usize::MAX,
        ensures
            final(self).wf(),
            r is Ok <==> (old(self).tree.pool@.len() == 0 || length == 0
                || (old(self).tree.root_idx.is_some() && start + length <= old(self).len_spec())),
            r is Ok ==> final(self).len_spec() <= old(self).len_spec(),
            r is Ok && old(self).tree.pool@.len() > 0 ==> final(self).len_spec() + length == old(self).len_spec(),
            r is Err || length == 0 || old(self).tree.pool@.len() == 0 ==> *final(self) == *old(self),
            r is Ok && length > 0 && old(self).tree.pool@.len() > 0 ==> final(self).text()
                == old(self).text().take(start as int) + old(self).text().skip(start + length),
            r matches Err(MeasuredBTreeError::OutOfBounds { max, requested }) ==> {
                &&& old(self).tree.root_idx.is_none() ==> max == 0 && requested == start
                &&& old(self).tree.root_idx.is_some() ==> max == old(self).len_spec() && requested == start + length
            },
    {
        if self.tree.pool.len() == 0 {
            return Ok(());
        }
        proof {
            lemma_usize_primary_only();
        }
        let ghost old_self = *self;
        let r = self.tree.delete(start..start + length);
        proof {
            if r is Ok && length > 0 {
                old_self.lemma_text_len();
                reveal(deleted_at);
            }
        }
        r
    }
}

impl PieceTable {
    /// The pieces of the table, in document order.
    pub fn iter(&self) -> (r: Vec<&Piece>)
        requires
            self.wf(),
        ensures
            deref_all(r@) == self.tree.in_order(),
    {
        self.tree.iter()
    }

    /// A copy of the pieces of the table, in document order.
    pub fn get_all_pieces(&self) -> (r: Vec<Piece>)
        requires
            self.wf(),
        ensures
            r@ == self.tree.in_order(),
    {
        let refs = self.tree.iter();
        let mut pieces: Vec<Piece> = Vec::with_capacity(refs.len());
        let mut k: usize = 0;
        while k < refs.len()
            invariant
                0 <= k <= refs.len(),
                pieces@ == deref_all(refs@).take(k as int),
            decreases refs.len() - k,
        {
            pieces.push(*refs[k]);
            k += 1;
            proof {
                assert(deref_all(refs@).take(k as int) =~= deref_all(refs@).take(k - 1).push(*refs@[k - 1]));
            }
        }
        proof {
            assert(deref_all(refs@).take(k as int) =~= deref_all(refs@));
        }
        pieces
    }
}

/// The total length of a sequence of pieces.
pub open spec fn pieces_len(s: Seq<Piece>) -> nat
    decreases s.len(),
{
    if s.len() == 0 {
        0
    } else {
        pieces_len(s.drop_last()) + s.last().len_spec()
    }
}

proof fn lemma_pieces_len_models(s: Seq<Piece>)
    requires
        forall|k: int| 0 <= k < s.len() ==> (#[trigger] s[k]).wf(),
    ensures
        psum(data_models(s)).0 == pieces_len(s),
    decreases s.len(),
{
    if s.len() > 0 {
        lemma_pieces_len_models(s.drop_last());
        assert(data_models(s).drop_last() =~= data_models(s.drop_last()));
        assert(data_models(s).last() == s.last().spec_measure().model());
    }
}

/// The length of the document is the sum of the lengths of its pieces, taken in
/// document order.
pub proof fn lemma_len_is_sum_of_pieces(table: &PieceTable)
    requires
        table.wf(),
    ensures
        table.len_spec() == pieces_len(table.tree.in_order()),
{
    table.tree.lemma_in_order_total();
    table.tree.lemma_in_order_wf();
    lemma_pieces_len_models(table.tree.in_order());
}

/// Deleting the `length` positions that an insertion put at `doc_offset` gives back the
/// text from before the insertion: `t1` is `t0` after the insertion, `t2` is `t1` after
/// the deletion, each as the contracts of `insert` and `delete` state it.
pub proof fn lemma_delete_undoes_insert(
    t0: &PieceTable,
    t1: &PieceTable,
    t2: &PieceTable,
    doc_offset: usize,
    buf_offset: usize,
    length: usize,
    buffer_kind: BufferKind,
)
    requires
        doc_offset <= t0.text().len(),
        t1.text() == t0.text().take(doc_offset as int)
            + Seq::new(length as nat, |i: int| (buffer_kind, (buf_offset + i) as usize))
            + t0.text().skip(doc_offset as int),
        t2.text() == t1.text().take(doc_offset as int) + t1.text().skip(doc_offset + length),
    ensures
        t2.text() == t0.text(),
{
    let pre = t0.text().take(doc_offset as int);
    let ins = Seq::new(length as nat, |i: int| (buffer_kind, (buf_offset + i) as usize));
    let post = t0.text().skip(doc_offset as int);
    assert(t1.text().take(doc_offset as int) =~= pre);
    assert(t1.text().skip(doc_offset + length) =~= post);
    assert(pre + post =~= t0.text());
}

/// Lengths are measures that count positions only.
pub proof fn lemma_usize_primary_only()
    ensures
        primary_only::<usize>(),
{
    assert forall|m: usize| (#[trigger] m.model()).1 == 0 by {}
}

} // verus!
