//! The write-ahead journal of a text buffer: each change is recorded as a compact
//! record of bytes.
use vstd::prelude::*;

verus! {

/// One change of the document, as recorded in the journal.
#[derive(Debug, Clone, Copy, PartialEq, Eq, Structural)]
pub enum JournalOp {
    Insert { offset: usize, add_buf_offset: usize, len: usize },
    Delete { offset: usize, len: usize },
}

/// The number of bytes of a `usize`.
pub open spec fn usize_bytes() -> nat {
    (usize::BITS / 8) as nat
}

/// The little-endian bytes of `x`.
pub open spec fn le_bytes(x: usize) -> Seq<u8> {
    Seq::new(usize_bytes(), |i: int| ((x >> (8 * i) as u32) & 0xff) as u8)
}

/// The record of a journal operation: a tag byte (0 for an insertion, 1 for a deletion)
/// followed by the little-endian bytes of its fields.
pub open spec fn record(op: JournalOp) -> Seq<u8> {
    match op {
        JournalOp::Insert { offset, add_buf_offset, len } => seq![0u8] + le_bytes(offset) + le_bytes(add_buf_offset)
            + le_bytes(len),
        JournalOp::Delete { offset, len } => seq![1u8] + le_bytes(offset) + le_bytes(len),
    }
}

/// Appends the little-endian bytes of `x` to `buf`.
fn push_le_bytes(buf: &mut Vec<u8>, x: usize)
    ensures
        final(buf)@ == old(buf)@ + le_bytes(x),
{
    let n: u32 = usize::BITS / 8;
    let mut i: u32 = 0;
    let ghost start = buf@;
    while i < n
        invariant
            n == usize::BITS / 8,
            n <= 8,
            0 <= i <= n,
            buf@ == start + le_bytes(x).take(i as int),
        decreases n - i,
    {
        let b = ((x >> (8 * i)) & 0xff) as u8;
        buf.push(b);
        i += 1;
        proof {
            assert(le_bytes(x).take(i as int) =~= le_bytes(x).take(i - 1).push(b));
        }
    }
    proof {
        assert(le_bytes(x).take(n as int) =~= le_bytes(x));
    }
}

impl JournalOp {
    /// Serializes the operation into its journal record.
    pub fn to_bytes(&self) -> (r: Vec<u8>)
        ensures
            r@ == record(*self),
            match *self {
                JournalOp::Insert { offset, add_buf_offset, len } => {
                    &&& r@.len() == 1 + 3 * usize_bytes()
                    &&& r@[0] == 0u8
                    &&& r@.subrange(1, 1 + usize_bytes() as int) == le_bytes(offset)
                    &&& r@.subrange(1 + usize_bytes() as int, 1 + 2 * usize_bytes() as int) == le_bytes(add_buf_offset)
                    &&& r@.subrange(1 + 2 * usize_bytes() as int, 1 + 3 * usize_bytes() as int) == le_bytes(len)
                },
                JournalOp::Delete { offset, len } => {
                    &&& r@.len() == 1 + 2 * usize_bytes()
                    &&& r@[0] == 1u8
                    &&& r@.subrange(1, 1 + usize_bytes() as int) == le_bytes(offset)
                    &&& r@.subrange(1 + usize_bytes() as int, 1 + 2 * usize_bytes() as int) == le_bytes(len)
                },
            },
    {
        proof {
            lemma_record_fields(*self);
        }
        match self {
            JournalOp::Insert { offset, add_buf_offset, len } => {
                let mut buf = vec![0u8];
                push_le_bytes(&mut buf, *offset);
                push_le_bytes(&mut buf, *add_buf_offset);
                push_le_bytes(&mut buf, *len);
                buf
            },
            JournalOp::Delete { offset, len } => {
                let mut buf = vec![1u8];
                push_le_bytes(&mut buf, *offset);
                push_le_bytes(&mut buf, *len);
                buf
            },
        }
    }
}

/// An insertion record is one tag byte and three fields, a deletion record one tag byte
/// and two fields; the tag tells them apart.
pub proof fn lemma_record_shape(op: JournalOp)
    ensures
        record(op).len() == match op {
            JournalOp::Insert { .. } => 1 + 3 * usize_bytes(),
            JournalOp::Delete { .. } => 1 + 2 * usize_bytes(),
        },
        record(op)[0] == match op {
            JournalOp::Insert { .. } => 0u8,
            JournalOp::Delete { .. } => 1u8,
        },
{
}


/// The fields of a record: after the tag byte, the little-endian bytes of each field of
/// the operation, in order.
pub proof fn lemma_record_fields(op: JournalOp)
    ensures
        match op {
            JournalOp::Insert { offset, add_buf_offset, len } => {
                &&& record(op).len() == 1 + 3 * usize_bytes()
                &&& record(op)[0] == 0u8
                &&& record(op).subrange(1, 1 + usize_bytes() as int) == le_bytes(offset)
                &&& record(op).subrange(1 + usize_bytes() as int, 1 + 2 * usize_bytes() as int) == le_bytes(add_buf_offset)
                &&& record(op).subrange(1 + 2 * usize_bytes() as int, 1 + 3 * usize_bytes() as int) == le_bytes(len)
            },
            JournalOp::Delete { offset, len } => {
                &&& record(op).len() == 1 + 2 * usize_bytes()
                &&& record(op)[0] == 1u8
                &&& record(op).subrange(1, 1 + usize_bytes() as int) == le_bytes(offset)
                &&& record(op).subrange(1 + usize_bytes() as int, 1 + 2 * usize_bytes() as int) == le_bytes(len)
            },
        },
{
    let w = usize_bytes() as int;
    match op {
        JournalOp::Insert { offset, add_buf_offset, len } => {
            let r = record(op);
            assert(r.subrange(1, 1 + w) =~= le_bytes(offset));
            assert(r.subrange(1 + w, 1 + 2 * w) =~= le_bytes(add_buf_offset));
            assert(r.subrange(1 + 2 * w, 1 + 3 * w) =~= le_bytes(len));
        },
        JournalOp::Delete { offset, len } => {
            let r = record(op);
            assert(r.subrange(1, 1 + w) =~= le_bytes(offset));
            assert(r.subrange(1 + w, 1 + 2 * w) =~= le_bytes(len));
        },
    }
}

} // verus!
