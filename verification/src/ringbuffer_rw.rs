//! The writing end of a ring.
use crate::copy::lay_down;
use crate::frame::{encode_len, frame};
use crate::laws::lemma_push_adds_last;
use crate::ring::{
    lemma_pushed, lemma_used_free, lemma_write_around_concat, lemma_write_around_cut, Ring,
};
use crate::SZ_OF_USIZE;
use vstd::prelude::*;

verus! {

/// The writer's handle on a ring: it may read `head`, and it alone writes the
/// payload and moves `tail`.
#[derive(Debug)]
pub struct RingbufRw<'a> {
    /// Offset of the next byte that the reader will read.
    pub head: &'a usize,
    /// Offset of the next byte to write; the writer's to move.
    pub tail: &'a mut usize,
    /// The payload.
    pub buffer: &'a mut [u8],
}

impl<'a> View for RingbufRw<'a> {
    type V = Ring;

    open spec fn view(&self) -> Ring {
        Ring { head: *self.head as int, tail: *self.tail as int, payload: self.buffer@ }
    }
}

impl<'a> RingbufRw<'a> {
    /// Both indices lie inside the payload.
    pub open spec fn wf(&self) -> bool {
        self@.wf()
    }

    /// A handle on the ring made of the two index words and the payload. The
    /// ring is taken as it is: the handle is well formed where both indices
    /// lie below the length of `buffer`.
    pub fn make(tail: &'a mut usize, head: &'a usize, buffer: &'a mut [u8]) -> (w: Self)
        ensures
            w@ == (Ring { head: *head as int, tail: *old(tail) as int, payload: old(buffer)@ }),
            *final(w.tail) == *final(tail),
            final(w.buffer)@ == final(buffer)@,
    {
        Self { tail, head, buffer }
    }

    /// Whether no byte waits: `head` is on `tail`.
    pub fn is_empty(&self) -> (b: bool)
        ensures
            b == self@.is_empty(),
    {
        *self.head == *self.tail
    }

    /// Whether no byte can be written: `tail` is one place before `head`.
    pub fn is_full(&self) -> (b: bool)
        requires
            self.wf(),
        ensures
            b == self@.is_full(),
            b <==> self@.free() == 0,
    {
        proof {
            lemma_used_free(self@);
        }
        let size = self.buffer.len();
        (*self.tail + 1) % size == *self.head
    }

    /// The number of bytes that wait in the ring.
    pub fn get_curr_bytes(&self) -> (n: usize)
        requires
            self.wf(),
        ensures
            n == self@.used(),
            n < self@.size(),
    {
        proof {
            lemma_used_free(self@);
        }
        let head = *self.head;
        let tail = *self.tail;
        if tail > head {
            tail - head
        } else if tail < head {
            self.buffer.len() - head + tail
        } else {
            0
        }
    }

    /// The offset of the next byte that the reader will read.
    pub fn get_head(&self) -> (head: usize)
        ensures
            head == self@.head,
    {
        *self.head
    }

    /// The offset of the next byte to write.
    pub fn get_tail(&self) -> (tail: usize)
        ensures
            tail == self@.tail,
    {
        *self.tail
    }

    /// Moves `tail` to `num` and leaves the rest alone. The handle stays well
    /// formed where `num` lies inside the payload. This is for tests and for
    /// a party that moves the index from outside; a writer that pushes has no
    /// use for it.
    pub fn set_tail(&mut self, num: usize)
        ensures
            final(self)@ == (Ring { tail: num as int, ..old(self)@ }),
            *final(final(self).tail) == *final(old(self).tail),
            final(final(self).buffer)@ == final(old(self).buffer)@,
    {
        *self.tail = num;
    }

    /// The length of the payload.
    pub fn get_size(&self) -> (size: usize)
        ensures
            size == self@.size(),
    {
        self.buffer.len()
    }

    /// The number of bytes that can still be written.
    pub fn empty_slots_left(&self) -> (n: usize)
        requires
            self.wf(),
        ensures
            n == self@.free(),
            n + self@.used() + 1 == self@.size(),
    {
        self.buffer.len() - self.get_curr_bytes() - 1
    }

    /// Lays `msg` down behind the messages that wait, as one frame.
    ///
    /// Returns the number of bytes written, prefix included, and 0 where the
    /// frame does not fit in the free bytes; then nothing is written.
    pub fn push(&mut self, msg: &[u8]) -> (n: usize)
        requires
            old(self).wf(),
        ensures
            final(self).wf(),
            *final(final(self).tail) == *final(old(self).tail),
            final(final(self).buffer)@ == final(old(self).buffer)@,
            final(self)@ == old(self)@.pushed(msg@),
            n == if old(self)@.fits(msg@) {
                msg@.len() + SZ_OF_USIZE
            } else {
                0
            },
            old(self)@.fits(msg@) ==> final(self)@.contents() == old(self)@.contents() + frame(
                msg@,
            ),
            n == 0 ==> final(self)@ == old(self)@,
            final(self)@.used() == old(self)@.used() + n,
            old(self)@.framed() ==> final(self)@.framed(),
            old(self)@.framed() && old(self)@.fits(msg@) ==> final(self)@.messages() == old(
                self,
            )@.messages().push(msg@),
    {
        proof {
            if self@.framed() && self@.fits(msg@) {
                lemma_push_adds_last(self@, msg@);
            }
        }
        let msg_len = msg.len();
        let free = self.empty_slots_left();
        if self.is_full() || free < SZ_OF_USIZE || msg_len > free - SZ_OF_USIZE {
            return 0;
        }
        let tail = *self.tail;
        let msg_len_bytes = encode_len(msg_len);
        let prefix = msg_len_bytes.as_slice();
        let size = self.buffer.len();
        let bytes_until_end = size - tail;
        let ghost before = self@;
        proof {
            lemma_pushed(before, msg@);
        }
        if bytes_until_end < SZ_OF_USIZE {
            // The prefix goes round the end, and the message follows it near
            // the start.
            let start = SZ_OF_USIZE - bytes_until_end;
            let low = &prefix[0..bytes_until_end];
            let high = &prefix[bytes_until_end..SZ_OF_USIZE];
            proof {
                lemma_write_around_cut(before.payload, tail as int, prefix@, low@.len() as int, 0);
                lemma_write_around_concat(
                    before.payload,
                    tail as int,
                    prefix@,
                    start as int,
                    msg@,
                );
            }
            lay_down(self.buffer, tail, low);
            lay_down(self.buffer, 0, high);
            lay_down(self.buffer, start, msg);
            *self.tail = start + msg_len;
        } else if bytes_until_end <= SZ_OF_USIZE + msg_len {
            // The prefix lies in one piece and the message goes round the end.
            let room = bytes_until_end - SZ_OF_USIZE;
            let low = &msg[0..room];
            let high = &msg[room..msg_len];
            lay_down(self.buffer, tail, prefix);
            proof {
                lemma_write_around_cut(self.buffer@, tail + SZ_OF_USIZE, msg@, room as int, 0);
                lemma_write_around_concat(
                    before.payload,
                    tail as int,
                    prefix@,
                    tail + SZ_OF_USIZE,
                    msg@,
                );
            }
            lay_down(self.buffer, tail + SZ_OF_USIZE, low);
            lay_down(self.buffer, 0, high);
            *self.tail = msg_len - room;
        } else {
            // Nothing goes round the end.
            proof {
                lemma_write_around_concat(
                    before.payload,
                    tail as int,
                    prefix@,
                    tail + SZ_OF_USIZE,
                    msg@,
                );
            }
            lay_down(self.buffer, tail, prefix);
            lay_down(self.buffer, tail + SZ_OF_USIZE, msg);
            *self.tail = (tail + SZ_OF_USIZE + msg_len) % size;
        }
        msg_len + SZ_OF_USIZE
    }
}

} // verus!
