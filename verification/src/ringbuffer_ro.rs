//! The reading end of a ring.
use crate::copy::{copy_into, lemma_filled_from_start};
use crate::drain_and_fill::peek;
use crate::frame::{after_first, decode_len, has_frame, le_value};
use crate::laws::lemma_pop_takes_first;
use crate::ring::{lemma_front, lemma_prefix, lemma_used_free, lemma_wrap, read_around, Ring};
use crate::SZ_OF_USIZE;
use vstd::prelude::*;

verus! {

/// The reader's handle on a ring: it may read the payload and `tail`, and it
/// alone moves `head`.
#[derive(Debug)]
pub struct RingbufRo<'a> {
    /// Offset of the next byte to read; the reader's to move.
    pub head: &'a mut usize,
    /// Offset of the next byte that the writer will write.
    pub tail: &'a usize,
    /// The length of the payload.
    pub size: usize,
    /// The payload.
    pub buffer: &'a [u8],
}

impl<'a> View for RingbufRo<'a> {
    type V = Ring;

    open spec fn view(&self) -> Ring {
        Ring { head: *self.head as int, tail: *self.tail as int, payload: self.buffer@ }
    }
}

/// The byte of `buffer` that lies `i` places behind offset `at`, counting
/// round the end.
pub fn byte_around(buffer: &[u8], at: usize, i: usize) -> (b: u8)
    requires
        at < buffer@.len(),
        i < buffer@.len(),
    ensures
        b == buffer@[(at + i) % (buffer@.len() as int)],
{
    proof {
        lemma_wrap(at + i, buffer@.len() as int);
    }
    let until_end = buffer.len() - at;
    if i < until_end {
        buffer[at + i]
    } else {
        buffer[i - until_end]
    }
}

/// The length that the eight bytes from offset `at` on spell, counting round
/// the end.
pub fn read_len(buffer: &[u8], at: usize) -> (len: u64)
    requires
        at < buffer@.len(),
        buffer@.len() >= SZ_OF_USIZE,
    ensures
        len == le_value(read_around(buffer@, at as int, 8)),
{
    let prefix: [u8; 8] = [
        byte_around(buffer, at, 0),
        byte_around(buffer, at, 1),
        byte_around(buffer, at, 2),
        byte_around(buffer, at, 3),
        byte_around(buffer, at, 4),
        byte_around(buffer, at, 5),
        byte_around(buffer, at, 6),
        byte_around(buffer, at, 7),
    ];
    assert(prefix@ =~= read_around(buffer@, at as int, 8));
    decode_len(prefix)
}

/// What a reader found at `head`.
#[derive(Debug, Clone, Copy, PartialEq, Eq, Structural)]
pub enum Popped {
    /// Less than a prefix waits. Nothing was taken.
    Empty,
    /// A prefix waits, but not as many bytes behind it as it says: the writer
    /// has not come that far yet, or the ring does not hold frames. Nothing
    /// was taken.
    Incomplete,
    /// A whole frame waits, and its message, of the length given, is longer
    /// than the buffer. Nothing was taken.
    NoRoom(usize),
    /// A message of the length given was taken and put at the start of the
    /// buffer.
    Message(usize),
}

impl<'a> RingbufRo<'a> {
    /// The handle's `size` is the length of its payload, and both indices lie
    /// inside the payload.
    pub open spec fn wf(&self) -> bool {
        &&& self.size == self.buffer@.len()
        &&& self@.wf()
    }

    /// A handle on the ring made of the two index words and the payload. The
    /// ring is taken as it is: the handle is well formed where `size` is the
    /// length of `buffer` and both indices lie below it.
    pub fn make(tail: &'a usize, head: &'a mut usize, size: usize, buffer: &'a [u8]) -> (r: Self)
        ensures
            r@ == (Ring { head: *old(head) as int, tail: *tail as int, payload: buffer@ }),
            r.size == size,
            *final(r.head) == *final(head),
    {
        Self { tail: tail, head: head, size: size, buffer: buffer }
    }

    /// Whether no byte waits: `head` is on `tail`.
    pub fn is_empty(&self) -> (b: bool)
        ensures
            b == self@.is_empty(),
    {
        if *self.head == *self.tail {
            true
        } else {
            false
        }
    }

    /// Whether no byte can be written: `tail` is one place before `head`.
    pub fn is_full(&self) -> (b: bool)
        requires
            self.wf(),
        ensures
            b == self@.is_full(),
            b <==> self@.free() == 0,
    {
        proof {
            lemma_used_free(self@);
        }
        if (*self.tail + 1) % self.size == *self.head {
            true
        } else {
            false
        }
    }

    /// The number of bytes that wait in the ring.
    pub fn get_curr_bytes(&self) -> (n: usize)
        requires
            self.wf(),
        ensures
            n == self@.used(),
            n < self.size,
    {
        proof {
            lemma_used_free(self@);
        }
        let head = *self.head;
        let tail = *self.tail;
        if tail > head {
            tail - head
        } else if tail < head {
            self.size - head + tail
        } else {
            0
        }
    }

    /// The offset of the next byte to read.
    pub fn get_head(&self) -> (head: usize)
        ensures
            head == self@.head,
    {
        *self.head
    }

    /// Moves `head` to `num` and leaves the rest alone. The handle stays well
    /// formed where `num` lies inside the payload. This is for tests and for
    /// a party that moves the index from outside; a reader that pops has no
    /// use for it.
    pub fn set_head(&mut self, num: usize)
        ensures
            final(self)@ == (Ring { head: num as int, ..old(self)@ }),
            final(self).size == old(self).size,
            *final(final(self).head) == *final(old(self).head),
    {
        *self.head = num;
    }

    /// The offset of the next byte that the writer will write.
    pub fn get_tail(&self) -> (tail: usize)
        ensures
            tail == self@.tail,
    {
        *self.tail
    }

    /// The length of the payload.
    pub fn get_size(&self) -> (size: usize)
        ensures
            size == self.size,
            self.wf() ==> size == self@.size(),
    {
        self.size
    }

    /// The number of bytes that can still be written.
    pub fn empty_slots_left(&self) -> (n: usize)
        requires
            self.wf(),
        ensures
            n == self@.free(),
            n + self@.used() + 1 == self@.size(),
    {
        self.size - self.get_curr_bytes() - 1
    }

    /// Takes the oldest message off the ring and puts it at the start of `buffer`.
    ///
    /// Returns the message's length, and 0 where fewer bytes wait than a length
    /// prefix has; then nothing is changed. A message of no bytes comes out as
    /// 0 too, and is told from that by `head`, which has moved past its prefix.
    ///
    /// The caller sees to it that the frame at `head` is whole and that
    /// `buffer` has room for its message. In a ring that holds what pushes and
    /// transfers have put there the frame is whole, and a buffer as long as the
    /// payload has room for any message. `try_pop` asks for neither.
    pub fn pop(&mut self, buffer: &mut [u8]) -> (n: usize)
        requires
            old(self).wf(),
            old(self)@.used() >= SZ_OF_USIZE ==> has_frame(old(self)@.contents()) && le_value(
                old(self)@.contents(),
            ) <= old(buffer)@.len(),
        ensures
            final(self).wf(),
            final(self).size == old(self).size,
            *final(final(self).head) == *final(old(self).head),
            final(self)@ == old(self)@.popped(),
            old(self)@.used() < SZ_OF_USIZE ==> {
                &&& n == 0
                &&& final(self)@ == old(self)@
                &&& final(buffer)@ == old(buffer)@
            },
            old(self)@.used() >= SZ_OF_USIZE ==> {
                &&& n == old(self)@.front().len()
                &&& final(buffer)@ == old(self)@.front() + old(buffer)@.skip(n as int)
                &&& final(self)@.contents() == after_first(old(self)@.contents())
                &&& final(self)@.used() == old(self)@.used() - SZ_OF_USIZE - n
            },
            n == 0 ==> {
                &&& final(buffer)@ == old(buffer)@
                &&& final(self)@.tail == old(self)@.tail
                &&& final(self)@.payload == old(self)@.payload
            },
            old(self)@.framed() ==> final(self)@.framed(),
            old(self)@.framed() && !old(self)@.is_empty() ==> {
                &&& old(self)@.front() == old(self)@.messages()[0]
                &&& final(self)@.messages() == old(self)@.messages().drop_first()
            },
    {
        let curr_bytes = self.get_curr_bytes();
        proof {
            lemma_used_free(self@);
        }
        if self.is_empty() || curr_bytes < SZ_OF_USIZE {
            proof {
                if self@.framed() && !self@.is_empty() {
                    lemma_pop_takes_first(self@);
                }
            }
            return 0;
        }
        let head = *self.head;
        let ghost before = self@;
        let ghost out = buffer@;
        let raw = read_len(self.buffer, head);
        proof {
            lemma_prefix(before);
            lemma_front(before);
        }
        let msg_len = raw as usize;
        let bytes_until_end = self.size - head;
        if bytes_until_end < SZ_OF_USIZE {
            // The prefix went round the end, so the message lies in one piece
            // near the start.
            let start = SZ_OF_USIZE - bytes_until_end;
            let body = &self.buffer[start..start + msg_len];
            proof {
                lemma_filled_from_start(out, body@, Seq::empty());
            }
            copy_into(buffer, 0, body);
            *self.head = start + msg_len;
        } else if msg_len > bytes_until_end - SZ_OF_USIZE {
            // The prefix lies in one piece and the message goes round the end.
            let first_half = &self.buffer[head + SZ_OF_USIZE..self.size];
            let second_half = &self.buffer[0..msg_len - first_half.len()];
            proof {
                assert(first_half@ + second_half@ =~= before.front());
                lemma_filled_from_start(out, first_half@, second_half@);
            }
            copy_into(buffer, 0, first_half);
            copy_into(buffer, first_half.len(), second_half);
            *self.head = msg_len - first_half.len();
        } else {
            // Nothing goes round the end.
            let body = &self.buffer[head + SZ_OF_USIZE..head + SZ_OF_USIZE + msg_len];
            proof {
                assert(body@ =~= before.front());
                lemma_filled_from_start(out, body@, Seq::empty());
            }
            copy_into(buffer, 0, body);
            *self.head = (head + SZ_OF_USIZE + msg_len) % self.size;
        }
        proof {
            if msg_len == 0 {
                assert(before.front() + out.skip(0) =~= out);
            }
            assert(before.framed() ==> {
                &&& before.popped().framed()
                &&& before.front() == before.messages()[0]
                &&& before.popped().messages() == before.messages().drop_first()
            }) by {
                if before.framed() {
                    lemma_pop_takes_first(before);
                }
            }
        }
        msg_len
    }

    /// Takes the oldest message off the ring as `pop` does, where a whole frame
    /// waits and `buffer` has room for its message, and says what it found
    /// where not. It asks nothing of the frame and of the buffer, and tells a
    /// message of no bytes from an empty ring.
    pub fn try_pop(&mut self, buffer: &mut [u8]) -> (found: Popped)
        requires
            old(self).wf(),
        ensures
            final(self).wf(),
            final(self).size == old(self).size,
            *final(final(self).head) == *final(old(self).head),
            match found {
                Popped::Empty => old(self)@.used() < SZ_OF_USIZE,
                Popped::Incomplete => old(self)@.used() >= SZ_OF_USIZE && !has_frame(
                    old(self)@.contents(),
                ),
                Popped::NoRoom(len) => {
                    &&& has_frame(old(self)@.contents())
                    &&& len == old(self)@.front().len()
                    &&& len > old(buffer)@.len()
                },
                Popped::Message(len) => {
                    &&& has_frame(old(self)@.contents())
                    &&& len == old(self)@.front().len()
                    &&& len <= old(buffer)@.len()
                    &&& final(self)@ == old(self)@.popped()
                    &&& final(buffer)@ == old(self)@.front() + old(buffer)@.skip(len as int)
                    &&& final(self)@.contents() == after_first(old(self)@.contents())
                },
            },
            !(found is Message) ==> final(self)@ == old(self)@ && final(buffer)@ == old(buffer)@,
            old(self)@.framed() ==> final(self)@.framed(),
            old(self)@.framed() ==> !(found is Incomplete),
            old(self)@.framed() && found is Message ==> {
                &&& old(self)@.front() == old(self)@.messages()[0]
                &&& final(self)@.messages() == old(self)@.messages().drop_first()
            },
    {
        proof {
            lemma_used_free(self@);
            if self@.framed() && !self@.is_empty() {
                lemma_pop_takes_first(self@);
            }
        }
        match peek(*self.head, *self.tail, self.buffer) {
            None => {
                if self.get_curr_bytes() < SZ_OF_USIZE {
                    Popped::Empty
                } else {
                    Popped::Incomplete
                }
            },
            Some(len) => {
                if len > buffer.len() {
                    Popped::NoRoom(len)
                } else {
                    let n = self.pop(buffer);
                    Popped::Message(n)
                }
            },
        }
    }
}

} // verus!
