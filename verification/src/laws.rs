//! What holds of pushes, pops and transfers taken together: messages come out
//! in the order in which they went in, whole and unchanged.
use crate::drain_and_fill::{drained, filled, lemma_transfer, transfer_len};
use crate::frame::{
    after_first, frame, framed, frames_len, has_frame, lemma_frame_first, lemma_messages_concat,
    lemma_messages_of_frame, lemma_whole_frames_split, messages, whole_count,
};
use crate::ring::{lemma_advanced, lemma_appended, lemma_used_free, Ring};
use crate::SZ_OF_USIZE;
use vstd::prelude::*;

verus! {

/// The ring after one push for each message of `msgs`, in order.
pub open spec fn pushed_all(r: Ring, msgs: Seq<Seq<u8>>) -> Ring
    decreases msgs.len(),
{
    if msgs.len() == 0 {
        r
    } else {
        pushed_all(r.pushed(msgs[0]), msgs.drop_first())
    }
}

/// The ring after `k` pops.
pub open spec fn popped_times(r: Ring, k: int) -> Ring
    decreases k,
{
    if k <= 0 {
        r
    } else {
        popped_times(r.popped(), k - 1)
    }
}

/// A ring of whole frames is empty exactly when no message waits in it, and
/// else it starts with a whole frame.
pub proof fn lemma_framed_ring(r: Ring)
    requires
        r.wf(),
        r.framed(),
    ensures
        r.is_empty() <==> r.messages().len() == 0,
        !r.is_empty() ==> r.used() >= SZ_OF_USIZE && has_frame(r.contents()),
        frames_len(r.messages()) == r.used(),
{
    reveal(messages);
    lemma_used_free(r);
    lemma_frames_len_of_framed(r.contents());
}

/// A stream of whole frames is as long as the frames of its messages together.
proof fn lemma_frames_len_of_framed(s: Seq<u8>)
    requires
        framed(s),
    ensures
        frames_len(messages(s)) == s.len(),
    decreases s.len(),
{
    reveal(messages);
    reveal(framed);
    if s.len() != 0 {
        lemma_frames_len_of_framed(after_first(s));
        assert(messages(s).drop_first() =~= messages(after_first(s)));
    }
}

/// A push that fits puts its message behind the messages that wait.
pub proof fn lemma_push_adds_last(r: Ring, msg: Seq<u8>)
    requires
        r.wf(),
        r.framed(),
        r.fits(msg),
    ensures
        r.pushed(msg).wf(),
        r.pushed(msg).framed(),
        r.pushed(msg).messages() == r.messages().push(msg),
        r.pushed(msg).free() == r.free() - SZ_OF_USIZE - msg.len(),
{
    lemma_used_free(r);
    lemma_frame_first(msg, Seq::empty());
    lemma_appended(r, frame(msg));
    lemma_messages_concat(r.contents(), frame(msg));
    lemma_messages_of_frame(msg);
    assert(r.messages() + seq![msg] =~= r.messages().push(msg));
}

/// A pop from a ring in which messages wait takes the oldest of them and
/// leaves the others waiting, in order.
pub proof fn lemma_pop_takes_first(r: Ring)
    requires
        r.wf(),
        r.framed(),
        !r.is_empty(),
    ensures
        r.used() >= SZ_OF_USIZE,
        has_frame(r.contents()),
        r.front() == r.messages()[0],
        r.popped().wf(),
        r.popped().framed(),
        r.popped().messages() == r.messages().drop_first(),
{
    reveal(messages);
    reveal(framed);
    lemma_framed_ring(r);
    lemma_advanced(r, SZ_OF_USIZE + r.front().len());
    assert(r.messages().drop_first() =~= messages(after_first(r.contents())));
}

/// A push into an empty ring and the pop that follows give the message back
/// and leave the ring empty, with `head` on `tail`.
pub proof fn lemma_push_pop_empties(r: Ring, msg: Seq<u8>)
    requires
        r.wf(),
        r.is_empty(),
        r.fits(msg),
    ensures
        r.pushed(msg).front() == msg,
        r.pushed(msg).popped().head == r.pushed(msg).popped().tail,
        r.pushed(msg).popped().is_empty(),
        r.pushed(msg).popped().used() == 0,
{
    reveal(messages);
    reveal(framed);
    lemma_used_free(r);
    assert(r.contents() =~= Seq::<u8>::empty());
    assert(r.framed());
    lemma_push_adds_last(r, msg);
    let full = r.pushed(msg);
    lemma_used_free(full);
    lemma_pop_takes_first(full);
    assert(full.messages().drop_first() =~= Seq::<Seq<u8>>::empty());
    lemma_framed_ring(full.popped());
    lemma_used_free(full.popped());
}

/// Messages whose frames fit together in the free bytes all go in, behind the
/// messages that wait and in the order of the pushes.
pub proof fn lemma_pushed_all(r: Ring, msgs: Seq<Seq<u8>>)
    requires
        r.wf(),
        r.framed(),
        frames_len(msgs) <= r.free(),
    ensures
        pushed_all(r, msgs).wf(),
        pushed_all(r, msgs).framed(),
        pushed_all(r, msgs).messages() == r.messages() + msgs,
        pushed_all(r, msgs).free() == r.free() - frames_len(msgs),
    decreases msgs.len(),
{
    if msgs.len() == 0 {
        assert(r.messages() + msgs =~= r.messages());
    } else {
        lemma_frames_len_nonnegative(msgs.drop_first());
        lemma_push_adds_last(r, msgs[0]);
        lemma_pushed_all(r.pushed(msgs[0]), msgs.drop_first());
        assert(r.messages().push(msgs[0]) + msgs.drop_first() =~= r.messages() + msgs);
    }
}

/// Frames take no negative number of bytes.
proof fn lemma_frames_len_nonnegative(msgs: Seq<Seq<u8>>)
    ensures
        frames_len(msgs) >= 0,
    decreases msgs.len(),
{
    if msgs.len() != 0 {
        lemma_frames_len_nonnegative(msgs.drop_first());
    }
}

/// As many pops as messages wait, or fewer, take that many of the oldest
/// messages, one after the other, and leave the others waiting.
pub proof fn lemma_popped_times(r: Ring, k: int)
    requires
        r.wf(),
        r.framed(),
        0 <= k <= r.messages().len(),
    ensures
        popped_times(r, k).wf(),
        popped_times(r, k).framed(),
        popped_times(r, k).messages() == r.messages().skip(k),
    decreases k,
{
    if k == 0 {
        assert(r.messages().skip(0) =~= r.messages());
    } else {
        lemma_framed_ring(r);
        lemma_pop_takes_first(r);
        lemma_popped_times(r.popped(), k - 1);
        assert(r.messages().drop_first().skip(k - 1) =~= r.messages().skip(k));
    }
}

/// First in, first out: after messages that fit together have been pushed
/// into an empty ring, the pop that follows `k` earlier pops finds a whole
/// frame and gives message `k` as it was pushed, and after as many pops as
/// there were pushes the ring is empty again.
pub proof fn lemma_first_in_first_out(r: Ring, msgs: Seq<Seq<u8>>, k: int)
    requires
        r.wf(),
        r.is_empty(),
        frames_len(msgs) <= r.free(),
        0 <= k < msgs.len(),
    ensures
        popped_times(pushed_all(r, msgs), k).used() >= SZ_OF_USIZE,
        has_frame(popped_times(pushed_all(r, msgs), k).contents()),
        popped_times(pushed_all(r, msgs), k).front() == msgs[k],
        popped_times(pushed_all(r, msgs), msgs.len() as int).is_empty(),
{
    reveal(messages);
    reveal(framed);
    lemma_used_free(r);
    assert(r.contents() =~= Seq::<u8>::empty());
    assert(r.framed());
    assert(r.messages() =~= Seq::<Seq<u8>>::empty());
    lemma_pushed_all(r, msgs);
    let full = pushed_all(r, msgs);
    assert(full.messages() =~= msgs);
    lemma_popped_times(full, k);
    let at_k = popped_times(full, k);
    lemma_framed_ring(at_k);
    lemma_pop_takes_first(at_k);
    lemma_popped_times(full, msgs.len() as int);
    lemma_framed_ring(popped_times(full, msgs.len() as int));
}

/// The frames of the first messages of a sequence take no more bytes than
/// the frames of all of them.
proof fn lemma_frames_len_of_first(msgs: Seq<Seq<u8>>, k: int)
    requires
        0 <= k <= msgs.len(),
    ensures
        0 <= frames_len(msgs.take(k)) <= frames_len(msgs),
        k < msgs.len() ==> frames_len(msgs.take(k + 1)) == frames_len(msgs.take(k))
            + SZ_OF_USIZE + msgs[k].len(),
    decreases k,
{
    lemma_frames_len_nonnegative(msgs);
    if k == 0 {
        assert(msgs.take(0).len() == 0);
        if msgs.len() > 0 {
            assert(msgs.take(1).drop_first() =~= msgs.take(0));
        }
    } else {
        let rest = msgs.drop_first();
        lemma_frames_len_of_first(rest, k - 1);
        assert(msgs.take(k).drop_first() =~= rest.take(k - 1));
        if k < msgs.len() {
            assert(msgs.take(k + 1).drop_first() =~= rest.take(k));
        }
    }
}

/// A transfer moves whole frames only: the bytes that it moves are the frames
/// of the oldest messages of the source, as many of them as `whole_count` says.
pub proof fn lemma_transfer_moves_whole_frames(source: Ring, target: Ring)
    requires
        source.wf(),
        target.wf(),
    ensures
        0 <= whole_count(source.contents(), target.free()) <= source.messages().len(),
        transfer_len(source, target) == frames_len(
            source.messages().take(whole_count(source.contents(), target.free())),
        ),
{
    lemma_whole_frames_split(source.contents(), target.free());
}

/// A transfer keeps the order: the messages that it moves are the oldest of
/// the source, they come to wait behind those of the target in the order that
/// they had, and the others stay in the source. So what the target and then
/// the source hold after it is what they held before it. It stops only before
/// a message that does not fit in what is then free in the target.
pub proof fn lemma_transfer_keeps_order(source: Ring, target: Ring)
    requires
        source.wf(),
        target.wf(),
        source.framed(),
        target.framed(),
    ensures
        ({
            let count = whole_count(source.contents(), target.free());
            let source_after = drained(source, target);
            let target_after = filled(source, target);
            &&& 0 <= count <= source.messages().len()
            &&& source_after.wf() && source_after.framed()
            &&& target_after.wf() && target_after.framed()
            &&& target_after.messages() == target.messages() + source.messages().take(count)
            &&& source_after.messages() == source.messages().skip(count)
            &&& target_after.messages() + source_after.messages() == target.messages()
                + source.messages()
            &&& count < source.messages().len() ==> SZ_OF_USIZE + source.messages()[count].len()
                > target_after.free()
        }),
{
    reveal(messages);
    let waiting = source.contents();
    let moved = transfer_len(source, target);
    let count = whole_count(waiting, target.free());
    lemma_transfer(source, target);
    lemma_whole_frames_split(waiting, target.free());
    lemma_messages_concat(target.contents(), waiting.take(moved));
    let all = source.messages();
    assert(all.take(count) + all.skip(count) =~= all);
    let moved_msgs = all.take(count);
    let kept_msgs = all.skip(count);
    assert((target.messages() + moved_msgs) + kept_msgs =~= target.messages() + (moved_msgs
        + kept_msgs));
}

/// Where the frames of all the messages of the source fit together in the
/// free bytes of the target, a transfer moves them all and leaves the source
/// empty.
pub proof fn lemma_transfer_moves_all(source: Ring, target: Ring)
    requires
        source.wf(),
        target.wf(),
        source.framed(),
        target.framed(),
        source.used() <= target.free(),
    ensures
        transfer_len(source, target) == source.used(),
        drained(source, target).is_empty(),
        filled(source, target).messages() == target.messages() + source.messages(),
{
    reveal(messages);
    let all = source.messages();
    let count = whole_count(source.contents(), target.free());
    lemma_transfer(source, target);
    lemma_transfer_keeps_order(source, target);
    lemma_transfer_moves_whole_frames(source, target);
    lemma_framed_ring(source);
    lemma_frames_len_of_first(all, count);
    if count < all.len() {
        lemma_frames_len_of_first(all, count + 1);
    }
    assert(all.take(all.len() as int) =~= all);
    lemma_used_free(drained(source, target));
}

/// After a transfer, a pop from the target gives the message that was the
/// oldest of both rings, the target's before the source's; and a transfer into
/// an empty target moves at least one message where the oldest of the source
/// fits in the target.
pub proof fn lemma_transfer_then_pop(source: Ring, target: Ring)
    requires
        source.wf(),
        target.wf(),
        source.framed(),
        target.framed(),
    ensures
        !filled(source, target).is_empty() ==> has_frame(filled(source, target).contents())
            && filled(source, target).front() == (target.messages() + source.messages())[0],
        !source.is_empty() && SZ_OF_USIZE + source.messages()[0].len() <= target.free()
            ==> !filled(source, target).is_empty(),
{
    let after = filled(source, target);
    lemma_transfer_keeps_order(source, target);
    lemma_framed_ring(source);
    lemma_framed_ring(target);
    lemma_framed_ring(after);
    if !after.is_empty() {
        lemma_pop_takes_first(after);
    }
}

/// One move of a forwarder that stands between two rings.
pub enum Step {
    /// A transfer from the source into the target.
    Transfer,
    /// A pop from the target.
    Pop,
}

/// Two rings with a forwarder between them, and the messages that have come
/// out of the target so far, oldest first.
pub struct Relay {
    pub source: Ring,
    pub target: Ring,
    pub out: Seq<Seq<u8>>,
}

impl Relay {
    /// Both rings are well formed and hold whole frames.
    pub open spec fn wf(self) -> bool {
        &&& self.source.wf()
        &&& self.source.framed()
        &&& self.target.wf()
        &&& self.target.framed()
    }

    /// All the messages in the order in which they leave, or will leave, the
    /// target: those that are out, those of the target, those of the source.
    pub open spec fn in_order(self) -> Seq<Seq<u8>> {
        self.out + self.target.messages() + self.source.messages()
    }

    /// The relay after one step. A pop from an empty target gives nothing.
    pub open spec fn after(self, step: Step) -> Relay {
        match step {
            Step::Transfer => Relay {
                source: drained(self.source, self.target),
                target: filled(self.source, self.target),
                out: self.out,
            },
            Step::Pop => if self.target.is_empty() {
                self
            } else {
                Relay {
                    source: self.source,
                    target: self.target.popped(),
                    out: self.out.push(self.target.front()),
                }
            },
        }
    }

    /// The relay after the steps of `steps`, one after the other.
    pub open spec fn after_all(self, steps: Seq<Step>) -> Relay
        decreases steps.len(),
    {
        if steps.len() == 0 {
            self
        } else {
            self.after(steps[0]).after_all(steps.drop_first())
        }
    }
}

/// Transfers and pops, in whatever order and number, change neither the
/// messages nor their order: what has come out of the target, then what waits
/// in the target, then what waits in the source, stays one and the same
/// sequence. So the messages pushed into a source come out of an empty target
/// in the order in which pops from the source itself would have given them,
/// and all of them have come out once both rings are empty.
pub proof fn lemma_relay_keeps_order(relay: Relay, steps: Seq<Step>)
    requires
        relay.wf(),
    ensures
        relay.after_all(steps).wf(),
        relay.after_all(steps).in_order() == relay.in_order(),
        relay.after_all(steps).source.is_empty() && relay.after_all(steps).target.is_empty()
            ==> relay.after_all(steps).out == relay.in_order(),
    decreases steps.len(),
{
    if steps.len() == 0 {
        lemma_framed_ring(relay.source);
        lemma_framed_ring(relay.target);
        if relay.source.is_empty() && relay.target.is_empty() {
            assert(relay.in_order() =~= relay.out);
        }
    } else {
        let next = relay.after(steps[0]);
        match steps[0] {
            Step::Transfer => {
                lemma_transfer_keeps_order(relay.source, relay.target);
                assert(next.in_order() =~= relay.in_order()) by {
                    assert(relay.out + (next.target.messages() + next.source.messages())
                        =~= next.in_order());
                    assert(relay.out + (relay.target.messages() + relay.source.messages())
                        =~= relay.in_order());
                }
            },
            Step::Pop => {
                if !relay.target.is_empty() {
                    lemma_framed_ring(relay.target);
                    lemma_pop_takes_first(relay.target);
                    let waiting = relay.target.messages();
                    assert(seq![waiting[0]] + waiting.drop_first() =~= waiting);
                    assert(next.in_order() =~= relay.in_order());
                }
            },
        }
        lemma_relay_keeps_order(next, steps.drop_first());
    }
}

} // verus!
