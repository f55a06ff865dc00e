//! Windows into a byte buffer (such as a memory-mapped file): an exact window that
//! exists only when it fits, and a window clamped to the end of the buffer.
use vstd::prelude::*;

verus! {

/// The `length` bytes of `bytes` from `start`; `None` when `start + length` overflows or
/// runs past the end of `bytes`.
pub fn get_bytes_exact(bytes: &[u8], start: usize, length: usize) -> (r: Option<&[u8]>)
    ensures
        r is Some <==> start + length <= bytes@.len(),
        r matches Some(w) ==> w@ == bytes@.subrange(start as int, start + length),
{
    let len = bytes.len();
    let end = match start.checked_add(length) {
        None => {
            return None;
        },
        Some(e) => e,
    };
    if end > len {
        return None;
    }
    Some(&bytes[start..end])
}

/// The bytes of `bytes` from `start`, at most `length` of them; empty when `start` is at
/// or past the end.
pub fn get_bytes_clamped(bytes: &[u8], start: usize, length: usize) -> (r: &[u8])
    ensures
        start >= bytes@.len() ==> r@ == Seq::<u8>::empty(),
        start < bytes@.len() ==> r@ == bytes@.subrange(
            start as int,
            if start + length <= bytes@.len() { start + length } else { bytes@.len() as int },
        ),
{
    let len = bytes.len();
    if start >= len {
        return &[];
    }
    let end = if length <= len - start { start + length } else { len };
    &bytes[start..end]
}

} // verus!
