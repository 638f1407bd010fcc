//! Moving whole frames from one ring into another without taking them apart.
use crate::copy::lay_down;
use crate::frame::{has_frame, le_value, lemma_whole_frames_bounds, whole_frames};
use crate::laws::lemma_transfer_keeps_order;
use crate::ring::{
    distance, lemma_advanced, lemma_appended, lemma_prefix, lemma_read_around_parts,
    lemma_used_free, lemma_wrap, lemma_write_around_concat, lemma_write_around_cut, read_around,
    write_around, Ring,
};
use crate::ringbuffer_ro::{read_len, RingbufRo};
use crate::ringbuffer_rw::RingbufRw;
use crate::SZ_OF_USIZE;
use vstd::prelude::*;

verus! {

/// How many bytes a transfer from `source` into `target` moves: those of the
/// whole frames at the head of `source` that fit, one behind the other, in
/// the free bytes of `target`.
pub open spec fn transfer_len(source: Ring, target: Ring) -> int {
    whole_frames(source.contents(), target.free())
}

/// The source after a transfer into `target`: without the bytes moved.
pub open spec fn drained(source: Ring, target: Ring) -> Ring {
    source.advanced(transfer_len(source, target))
}

/// The target after a transfer from `source`: with the bytes moved laid down
/// behind those that waited.
pub open spec fn filled(source: Ring, target: Ring) -> Ring {
    target.appended(source.contents().take(transfer_len(source, target)))
}

/// Moves messages from the reader's ring into the writer's and returns the
/// number of bytes moved.
///
/// The bytes moved are the whole frames at the reader's `head` that fit, one
/// behind the other, in the writer's free bytes. They are laid down at the
/// writer's `tail` as they are, prefixes included, and both indices move by
/// their number.
pub fn drain_and_fill(reader: &mut RingbufRo, writer: &mut RingbufRw) -> (moved: usize)
    requires
        old(reader).wf(),
        old(writer).wf(),
    ensures
        moved == transfer_len(old(reader)@, old(writer)@),
        final(reader)@ == drained(old(reader)@, old(writer)@),
        final(writer)@ == filled(old(reader)@, old(writer)@),
        final(reader)@.contents() == old(reader)@.contents().skip(moved as int),
        final(writer)@.contents() == old(writer)@.contents() + old(reader)@.contents().take(
            moved as int,
        ),
        final(reader)@.used() == old(reader)@.used() - moved,
        final(writer)@.used() == old(writer)@.used() + moved,
        final(reader).wf(),
        final(writer).wf(),
        final(reader).size == old(reader).size,
        *final(final(reader).head) == *final(old(reader).head),
        *final(final(writer).tail) == *final(old(writer).tail),
        final(final(writer).buffer)@ == final(old(writer).buffer)@,
        old(reader)@.framed() && old(writer)@.framed() ==> {
            &&& final(reader)@.framed()
            &&& final(writer)@.framed()
            &&& final(writer)@.messages() + final(reader)@.messages() == old(writer)@.messages()
                + old(reader)@.messages()
        },
{
    let whead = *writer.head;
    let wtail = *writer.tail;
    proof {
        lemma_transfer(reader@, writer@);
        if reader@.framed() && writer@.framed() {
            lemma_transfer_keeps_order(reader@, writer@);
        }
    }

    let free_space = writer.buffer.len() - calc_curr_bytes(whead, wtail, writer.buffer.len()) - 1;
    if free_space == 0 {
        return 0;
    }
    let rhead = *reader.head;
    let rtail = *reader.tail;

    let accumulator = bytes_within_limit(free_space, rhead, rtail, reader.buffer);
    if accumulator == 0 {
        return 0;
    }
    let (first_part, second_part) = get_parts(accumulator, rhead, reader.buffer);

    copy_in_parts(first_part, second_part, wtail, writer.buffer);

    let wsize = writer.buffer.len();
    let rsize = reader.buffer.len();
    *writer.tail = step(wtail, accumulator, wsize);
    *reader.head = step(rhead, accumulator, rsize);
    accumulator
}

/// A transfer moves no more bytes than wait in the source and are free in the
/// target, and leaves both rings well formed: the bytes moved are the oldest
/// of the source, as they lay from its `head` on, they come to wait behind
/// those of the target, and the others stay in the source. Where nothing is
/// moved, both rings stay as they were.
pub proof fn lemma_transfer(source: Ring, target: Ring)
    requires
        source.wf(),
        target.wf(),
    ensures
        0 <= transfer_len(source, target) <= source.used(),
        transfer_len(source, target) <= target.free(),
        drained(source, target).wf(),
        filled(source, target).wf(),
        drained(source, target).contents() == source.contents().skip(
            transfer_len(source, target),
        ),
        filled(source, target).contents() == target.contents() + source.contents().take(
            transfer_len(source, target),
        ),
        filled(source, target).free() == target.free() - transfer_len(source, target),
        filled(source, target).used() == target.used() + transfer_len(source, target),
        drained(source, target).used() == source.used() - transfer_len(source, target),
        source.contents().take(transfer_len(source, target)) == read_around(
            source.payload,
            source.head,
            transfer_len(source, target),
        ),
        transfer_len(source, target) == 0 ==> drained(source, target) == source && filled(
            source,
            target,
        ) == target,
{
    let waiting = source.contents();
    let moved = transfer_len(source, target);
    lemma_used_free(source);
    lemma_used_free(target);
    lemma_whole_frames_bounds(waiting, target.free());
    lemma_advanced(source, moved);
    lemma_appended(target, waiting.take(moved));
    assert(waiting.take(moved) =~= read_around(source.payload, source.head, moved));
    if moved == 0 {
        lemma_wrap(source.head, source.size());
        lemma_wrap(target.tail, target.size());
        assert(write_around(target.payload, target.tail, waiting.take(0)) =~= target.payload);
    }
}

/// The offset `by` places behind `at` in a circle of `size` places.
fn step(at: usize, by: usize, size: usize) -> (next: usize)
    requires
        at < size,
        by < size,
    ensures
        next == (at + by) % (size as int),
        next < size,
{
    proof {
        lemma_wrap(at + by, size as int);
    }
    let until_end = size - at;
    if by >= until_end {
        by - until_end
    } else {
        at + by
    }
}

/// The number of bytes that wait between `head` and `tail` in a payload of
/// `size` bytes.
fn calc_curr_bytes(head: usize, tail: usize, size: usize) -> (n: usize)
    requires
        head < size,
        tail < size,
    ensures
        n == distance(head as int, tail as int, size as int),
        n < size,
{
    proof {
        lemma_wrap(tail - head, size as int);
    }
    if tail > head {
        tail - head
    } else if tail < head {
        size - head + tail
    } else {
        0
    }
}

/// The length of the message of the next frame, prefix not counted, or `None`
/// where the bytes between `head` and `tail` do not start with a whole frame:
/// where less than a prefix waits, or less behind it than it says. Nothing is
/// taken off the ring.
pub fn peek(head: usize, tail: usize, buffer: &[u8]) -> (next: Option<usize>)
    requires
        head < buffer@.len(),
        tail < buffer@.len(),
    ensures
        ({
            let ring = Ring { head: head as int, tail: tail as int, payload: buffer@ };
            let waiting = ring.contents();
            next == if has_frame(waiting) {
                Some(le_value(waiting) as usize)
            } else {
                None
            }
        }),
        next is Some ==> next.unwrap() + SZ_OF_USIZE <= distance(
            head as int,
            tail as int,
            buffer@.len() as int,
        ),
{
    let curr_bytes = calc_curr_bytes(head, tail, buffer.len());
    if curr_bytes < SZ_OF_USIZE {
        return None;
    }
    let ghost ring = Ring { head: head as int, tail: tail as int, payload: buffer@ };
    let raw = read_len(buffer, head);
    proof {
        lemma_prefix(ring);
    }
    if raw <= (curr_bytes - SZ_OF_USIZE) as u64 {
        Some(raw as usize)
    } else {
        None
    }
}

/// The largest number of bytes between the two indices that is made of whole
/// frames, counted from `phantom_head` on, and fits in `limit`.
fn bytes_within_limit(
    limit: usize,
    phantom_head: usize,
    phantom_tail: usize,
    buffer: &[u8],
) -> (accumulator: usize)
    requires
        phantom_head < buffer@.len(),
        phantom_tail < buffer@.len(),
    ensures
        accumulator == whole_frames(
            (Ring {
                head: phantom_head as int,
                tail: phantom_tail as int,
                payload: buffer@,
            }).contents(),
            limit as int,
        ),
{
    let ghost start = Ring {
        head: phantom_head as int,
        tail: phantom_tail as int,
        payload: buffer@,
    };
    let ghost waiting = start.contents();
    let size = buffer.len();
    let mut phantom_head = phantom_head;
    let mut accumulator: usize = 0;
    proof {
        lemma_used_free(start);
        lemma_wrap(start.head, start.size());
        assert(waiting.skip(0) =~= waiting);
    }
    loop
        invariant
            size == buffer@.len(),
            start == (Ring { head: start.head, tail: phantom_tail as int, payload: buffer@ }),
            start.wf(),
            waiting == start.contents(),
            accumulator <= limit,
            accumulator <= start.used(),
            phantom_head == (start.head + accumulator) % start.size(),
            phantom_head < size,
            accumulator + whole_frames(waiting.skip(accumulator as int), limit - accumulator)
                == whole_frames(waiting, limit as int),
        ensures
            accumulator == whole_frames(waiting, limit as int),
        decreases start.used() - accumulator,
    {
        proof {
            lemma_walk_step(start, accumulator as int, limit as int);
        }
        let next = peek(phantom_head, phantom_tail, buffer);
        if next.is_none() {
            break;
        }
        let next_msg_len = next.unwrap() + SZ_OF_USIZE;
        if next_msg_len > limit - accumulator {
            break;
        }
        proof {
            lemma_step_twice(start.head, accumulator as int, next_msg_len as int, start.size());
        }
        accumulator += next_msg_len;
        phantom_head = step(phantom_head, next_msg_len, size);
    }
    accumulator
}

/// Where the walk over the waiting frames stands after `walked` bytes: at a
/// well-formed ring in which the rest of the bytes wait, and before a whole
/// frame that fits in what is left of the limit, or at its end.
proof fn lemma_walk_step(start: Ring, walked: int, limit: int)
    requires
        start.wf(),
        0 <= walked <= start.used(),
    ensures
        ({
            let here = start.advanced(walked);
            let rest = start.contents().skip(walked);
            let next = SZ_OF_USIZE + le_value(rest);
            &&& here.wf()
            &&& here.contents() == rest
            &&& has_frame(rest) ==> walked + next <= start.used()
            &&& whole_frames(rest, limit - walked) == if has_frame(rest) && next <= limit
                - walked {
                next + whole_frames(start.contents().skip(walked + next), limit - walked - next)
            } else {
                0
            }
        }),
{
    let rest = start.contents().skip(walked);
    let next = SZ_OF_USIZE + le_value(rest);
    lemma_used_free(start);
    lemma_advanced(start, walked);
    if has_frame(rest) {
        assert(rest.skip(next) =~= start.contents().skip(walked + next));
    }
}

/// Two steps round a circle, one behind the other, end where one step of
/// their sum ends.
proof fn lemma_step_twice(at: int, a: int, b: int, size: int)
    requires
        0 <= at < size,
        0 <= a,
        0 <= b,
        a + b < size,
    ensures
        ((at + a) % size + b) % size == (at + a + b) % size,
        0 <= (at + a) % size < size,
{
    lemma_wrap(at + a, size);
    lemma_wrap((at + a) % size + b, size);
    lemma_wrap(at + a + b, size);
}

/// The `accumulator` bytes from `phantom_head` on as slices of the payload: one
/// where they do not reach its end, and else one up to its end and one from
/// its start.
fn get_parts(accumulator: usize, phantom_head: usize, buffer: &[u8]) -> (parts: (
    &[u8],
    Option<&[u8]>,
))
    requires
        phantom_head < buffer@.len(),
        accumulator <= buffer@.len(),
    ensures
        joined(parts.0@, parts.1) == read_around(
            buffer@,
            phantom_head as int,
            accumulator as int,
        ),
        parts.1 is Some <==> accumulator > buffer@.len() - phantom_head,
{
    proof {
        lemma_read_around_parts(buffer@, phantom_head as int, accumulator as int);
    }
    let bytes_until_end = buffer.len() - phantom_head;
    if accumulator > bytes_until_end {
        let first_part = &buffer[phantom_head..buffer.len()];
        let second_part = &buffer[0..accumulator - bytes_until_end];
        (first_part, Some(second_part))
    } else {
        let first_part = &buffer[phantom_head..phantom_head + accumulator];
        assert(first_part@ + Seq::<u8>::empty() =~= first_part@);
        (first_part, None)
    }
}

/// The bytes of one part, or of two parts one behind the other.
spec fn joined(first_part: Seq<u8>, second_part: Option<&[u8]>) -> Seq<u8> {
    match second_part {
        Some(part) => first_part + part@,
        None => first_part,
    }
}

/// Lays the parts down in `buffer` from `phantom_tail` on, one behind the
/// other, each in two pieces where it reaches the end of the payload.
fn copy_in_parts(
    first_part: &[u8],
    second_part: Option<&[u8]>,
    phantom_tail: usize,
    buffer: &mut [u8],
)
    requires
        phantom_tail < old(buffer)@.len(),
        joined(first_part@, second_part).len() <= old(buffer)@.len(),
    ensures
        final(buffer)@ == write_around(
            old(buffer)@,
            phantom_tail as int,
            joined(first_part@, second_part),
        ),
{
    let ghost before = buffer@;
    let size = buffer.len();
    let bytes_until_end = size - phantom_tail;
    let first_part_len = first_part.len();
    let new_phantom_tail = if first_part_len <= bytes_until_end {
        lay_down(buffer, phantom_tail, first_part);
        phantom_tail + first_part_len
    } else {
        let low = &first_part[0..bytes_until_end];
        let high = &first_part[bytes_until_end..first_part_len];
        proof {
            lemma_write_around_cut(
                before,
                phantom_tail as int,
                first_part@,
                bytes_until_end as int,
                0,
            );
        }
        lay_down(buffer, phantom_tail, low);
        lay_down(buffer, 0, high);
        first_part_len - bytes_until_end
    };
    if let Some(second_part) = second_part {
        let bytes_until_end = size - new_phantom_tail;
        let second_part_len = second_part.len();
        proof {
            lemma_write_around_concat(
                before,
                phantom_tail as int,
                first_part@,
                new_phantom_tail as int,
                second_part@,
            );
        }
        if second_part_len <= bytes_until_end {
            lay_down(buffer, new_phantom_tail, second_part);
        } else {
            let low = &second_part[0..bytes_until_end];
            let high = &second_part[bytes_until_end..second_part_len];
            proof {
                lemma_write_around_cut(
                    buffer@,
                    new_phantom_tail as int,
                    second_part@,
                    bytes_until_end as int,
                    0,
                );
            }
            lay_down(buffer, new_phantom_tail, low);
            lay_down(buffer, 0, high);
        }
    }
}

} // verus!
