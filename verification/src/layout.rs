//! Where the parts of a shared region lie: the `tail` word, the `head` word,
//! and behind them the payload.
use crate::SZ_OF_USIZE;
use vstd::prelude::*;

verus! {

/// Offset of the `tail` word in a region.
pub const TAIL_OFFSET: usize = 0;

/// Offset of the `head` word in a region.
pub const HEAD_OFFSET: usize = SZ_OF_USIZE;

/// Offset of the payload in a region.
pub const PAYLOAD_OFFSET: usize = 2 * SZ_OF_USIZE;

/// The length of the payload in a region of `size` bytes, or `None` where the
/// region has no room for the two index words and one byte of payload.
pub fn payload_len(size: usize) -> (len: Option<usize>)
    ensures
        size > PAYLOAD_OFFSET ==> len == Some((size - PAYLOAD_OFFSET) as usize),
        size <= PAYLOAD_OFFSET ==> len is None,
{
    if size > PAYLOAD_OFFSET {
        Some(size - PAYLOAD_OFFSET)
    } else {
        None
    }
}

} // verus!
