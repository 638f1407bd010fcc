//! A framed single-producer, single-consumer byte ring for a region of memory
//! that two endpoints share, and the bulk move of whole frames from one ring
//! into another.
//!
//! A region starts with two index words, `tail` then `head`, and the rest of it
//! is the circular payload. A message lies in the payload as a frame: its
//! length in [`SZ_OF_USIZE`] little-endian bytes, then its bytes. The writer
//! owns `tail`, the reader owns `head`, and one slot of the payload always
//! stays free, so that `head == tail` means empty.
//!
//! A handle borrows the index words and the payload, so the two ends of one
//! ring are never open at once in one place: an end takes its handle for an
//! operation and lets it go.
use vstd::prelude::*;

pub mod copy;
pub mod drain_and_fill;
pub mod frame;
pub mod laws;
pub mod layout;
pub mod ring;
pub mod ringbuffer_ro;
pub mod ringbuffer_rw;

verus! {

/// Width, in bytes, of an index word and of a frame's length prefix. It is
/// eight on every target, so that the two ends of a region agree on its layout
/// whatever their own word size is.
pub const SZ_OF_USIZE: usize = 8;

} // verus!
