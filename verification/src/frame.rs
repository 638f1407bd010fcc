//! The wire format of a message: its length as eight little-endian bytes,
//! followed by that many bytes.
use crate::SZ_OF_USIZE;
use vstd::arithmetic::div_mod::lemma_div_denominator;
use vstd::prelude::*;

verus! {

/// The number that the first eight bytes of `b` spell, least significant byte first.
pub open spec fn le_value(b: Seq<u8>) -> nat {
    (b[0] as nat) + (b[1] as nat) * 0x100 + (b[2] as nat) * 0x1_0000
        + (b[3] as nat) * 0x100_0000 + (b[4] as nat) * 0x1_0000_0000
        + (b[5] as nat) * 0x100_0000_0000 + (b[6] as nat) * 0x1_0000_0000_0000
        + (b[7] as nat) * 0x100_0000_0000_0000
}

/// The eight bytes that spell `x`, least significant byte first.
pub open spec fn le_bytes(x: nat) -> Seq<u8> {
    seq![
        (x % 0x100) as u8,
        (x / 0x100 % 0x100) as u8,
        (x / 0x1_0000 % 0x100) as u8,
        (x / 0x100_0000 % 0x100) as u8,
        (x / 0x1_0000_0000 % 0x100) as u8,
        (x / 0x100_0000_0000 % 0x100) as u8,
        (x / 0x1_0000_0000_0000 % 0x100) as u8,
        (x / 0x100_0000_0000_0000 % 0x100) as u8,
    ]
}

/// The quotients of `x` by the powers of 256 are reached by dividing by 256 again and again.
proof fn lemma_shift_by_bytes(x: nat)
    ensures
        x / 0x1_0000 == x / 0x100 / 0x100,
        x / 0x100_0000 == x / 0x1_0000 / 0x100,
        x / 0x1_0000_0000 == x / 0x100_0000 / 0x100,
        x / 0x100_0000_0000 == x / 0x1_0000_0000 / 0x100,
        x / 0x1_0000_0000_0000 == x / 0x100_0000_0000 / 0x100,
        x / 0x100_0000_0000_0000 == x / 0x1_0000_0000_0000 / 0x100,
{
    lemma_div_denominator(x as int, 0x100, 0x100);
    lemma_div_denominator(x as int, 0x1_0000, 0x100);
    lemma_div_denominator(x as int, 0x100_0000, 0x100);
    lemma_div_denominator(x as int, 0x1_0000_0000, 0x100);
    lemma_div_denominator(x as int, 0x100_0000_0000, 0x100);
    lemma_div_denominator(x as int, 0x1_0000_0000_0000, 0x100);
}

/// Writing a length down and reading it back gives the length.
pub proof fn lemma_le_value_of_bytes(x: nat)
    requires
        x <= u64::MAX,
    ensures
        le_bytes(x).len() == 8,
        le_value(le_bytes(x)) == x,
{
    lemma_shift_by_bytes(x);
}

/// The length prefix of a message of `len` bytes.
pub fn encode_len(len: usize) -> (bytes: [u8; 8])
    ensures
        bytes@ == le_bytes(len as nat),
{
    let x: u64 = len as u64;
    let bytes: [u8; 8] = [
        (x % 0x100) as u8,
        (x / 0x100 % 0x100) as u8,
        (x / 0x1_0000 % 0x100) as u8,
        (x / 0x100_0000 % 0x100) as u8,
        (x / 0x1_0000_0000 % 0x100) as u8,
        (x / 0x100_0000_0000 % 0x100) as u8,
        (x / 0x1_0000_0000_0000 % 0x100) as u8,
        (x / 0x100_0000_0000_0000 % 0x100) as u8,
    ];
    assert(bytes@ =~= le_bytes(len as nat));
    bytes
}

/// The length that a prefix spells.
pub fn decode_len(bytes: [u8; 8]) -> (len: u64)
    ensures
        len == le_value(bytes@),
{
    (bytes[0] as u64) + (bytes[1] as u64) * 0x100 + (bytes[2] as u64) * 0x1_0000
        + (bytes[3] as u64) * 0x100_0000 + (bytes[4] as u64) * 0x1_0000_0000
        + (bytes[5] as u64) * 0x100_0000_0000 + (bytes[6] as u64) * 0x1_0000_0000_0000
        + (bytes[7] as u64) * 0x100_0000_0000_0000
}

/// A message as it lies in a ring: its length prefix, then its bytes.
pub open spec fn frame(msg: Seq<u8>) -> Seq<u8> {
    le_bytes(msg.len()) + msg
}

/// The stream `s` starts with a whole frame: a prefix, and as many bytes behind
/// it as the prefix says.
pub open spec fn has_frame(s: Seq<u8>) -> bool {
    s.len() >= SZ_OF_USIZE && SZ_OF_USIZE + le_value(s) <= s.len()
}

/// The message of the frame that `s` starts with.
pub open spec fn first(s: Seq<u8>) -> Seq<u8> {
    s.subrange(SZ_OF_USIZE as int, SZ_OF_USIZE + le_value(s))
}

/// What is left of `s` behind the frame that it starts with.
pub open spec fn after_first(s: Seq<u8>) -> Seq<u8> {
    s.skip(SZ_OF_USIZE + le_value(s))
}

/// The messages of the whole frames that `s` starts with, in order, up to the
/// first stretch that is no whole frame.
#[verifier::opaque]
pub open spec fn messages(s: Seq<u8>) -> Seq<Seq<u8>>
    decreases s.len(),
{
    if has_frame(s) {
        seq![first(s)] + messages(after_first(s))
    } else {
        Seq::empty()
    }
}

/// The stream `s` is made of whole frames and nothing else.
#[verifier::opaque]
pub open spec fn framed(s: Seq<u8>) -> bool
    decreases s.len(),
{
    s.len() == 0 || (has_frame(s) && framed(after_first(s)))
}

/// How many bytes the frames of `msgs` take together.
pub open spec fn frames_len(msgs: Seq<Seq<u8>>) -> int
    decreases msgs.len(),
{
    if msgs.len() == 0 {
        0
    } else {
        SZ_OF_USIZE + msgs[0].len() + frames_len(msgs.drop_first())
    }
}

/// How many bytes the whole frames at the start of `s` take that fit, one
/// behind the other, in `limit` bytes: the walk stops before the first frame
/// that is not whole or that would go over the limit.
pub open spec fn whole_frames(s: Seq<u8>, limit: int) -> int
    decreases s.len(),
{
    if has_frame(s) && SZ_OF_USIZE + le_value(s) <= limit {
        SZ_OF_USIZE + le_value(s) + whole_frames(
            after_first(s),
            limit - SZ_OF_USIZE - le_value(s),
        )
    } else {
        0
    }
}

/// How many frames `whole_frames` counts the bytes of.
pub open spec fn whole_count(s: Seq<u8>, limit: int) -> int
    decreases s.len(),
{
    if has_frame(s) && SZ_OF_USIZE + le_value(s) <= limit {
        1 + whole_count(after_first(s), limit - SZ_OF_USIZE - le_value(s))
    } else {
        0
    }
}

/// The whole frames that fit take no more bytes than the limit and no more than
/// the stream has.
pub proof fn lemma_whole_frames_bounds(s: Seq<u8>, limit: int)
    ensures
        0 <= whole_frames(s, limit),
        whole_frames(s, limit) <= s.len(),
        limit >= 0 ==> whole_frames(s, limit) <= limit,
    decreases s.len(),
{
    if has_frame(s) && SZ_OF_USIZE + le_value(s) <= limit {
        lemma_whole_frames_bounds(after_first(s), limit - SZ_OF_USIZE - le_value(s));
    }
}

/// A stream that starts with the frame of `msg` has that frame as its first:
/// the prefix spells the length of `msg`, the message is `msg`, and `rest` is
/// what lies behind it.
pub proof fn lemma_frame_first(msg: Seq<u8>, rest: Seq<u8>)
    requires
        msg.len() <= u64::MAX,
    ensures
        frame(msg).len() == SZ_OF_USIZE + msg.len(),
        has_frame(frame(msg) + rest),
        le_value(frame(msg) + rest) == msg.len(),
        first(frame(msg) + rest) == msg,
        after_first(frame(msg) + rest) == rest,
{
    let s = frame(msg) + rest;
    lemma_le_value_of_bytes(msg.len());
    assert(le_value(s) == le_value(le_bytes(msg.len())));
    assert(first(s) =~= msg);
    assert(after_first(s) =~= rest);
}

/// Where `a` is made of whole frames, the messages of `a + b` are those of `a`
/// and then those of `b`.
pub proof fn lemma_messages_concat(a: Seq<u8>, b: Seq<u8>)
    requires
        framed(a),
    ensures
        messages(a + b) == messages(a) + messages(b),
        framed(a + b) == framed(b),
    decreases a.len(),
{
    reveal(messages);
    reveal(framed);
    if a.len() == 0 {
        assert(a + b =~= b);
        assert(messages(a) + messages(b) =~= messages(b));
    } else {
        let s = a + b;
        assert(le_value(s) == le_value(a));
        assert(first(s) =~= first(a));
        assert(after_first(s) =~= after_first(a) + b);
        lemma_messages_concat(after_first(a), b);
        assert(messages(s) =~= messages(a) + messages(b));
    }
}

/// The frame of a message is a stream of whole frames with that one message.
pub proof fn lemma_messages_of_frame(msg: Seq<u8>)
    requires
        msg.len() <= u64::MAX,
    ensures
        framed(frame(msg)),
        messages(frame(msg)) == seq![msg],
{
    reveal(messages);
    reveal(framed);
    let nothing = Seq::<u8>::empty();
    lemma_frame_first(msg, nothing);
    assert(frame(msg) + nothing =~= frame(msg));
    assert(after_first(frame(msg)) == nothing);
    assert(framed(nothing));
    assert(messages(nothing) =~= Seq::<Seq<u8>>::empty());
    assert(messages(frame(msg)) =~= seq![msg]);
}

/// The bytes that `whole_frames` counts are whole frames: they hold the first
/// `whole_count` messages of the stream and the rest of the stream holds the
/// others, their number is the sum of those frames' lengths, and the next
/// message, where there is one, would go over the limit.
pub proof fn lemma_whole_frames_split(s: Seq<u8>, limit: int)
    ensures
        0 <= whole_count(s, limit) <= messages(s).len(),
        0 <= whole_frames(s, limit) <= s.len(),
        framed(s.take(whole_frames(s, limit))),
        messages(s.take(whole_frames(s, limit))) == messages(s).take(whole_count(s, limit)),
        messages(s.skip(whole_frames(s, limit))) == messages(s).skip(whole_count(s, limit)),
        framed(s) ==> framed(s.skip(whole_frames(s, limit))),
        whole_frames(s, limit) == frames_len(messages(s).take(whole_count(s, limit))),
        whole_count(s, limit) < messages(s).len() ==> SZ_OF_USIZE + messages(s)[whole_count(
            s,
            limit,
        )].len() > limit - whole_frames(s, limit),
    decreases s.len(),
{
    reveal(messages);
    reveal(framed);
    let w = whole_frames(s, limit);
    let k = whole_count(s, limit);
    if has_frame(s) && SZ_OF_USIZE + le_value(s) <= limit {
        let step = SZ_OF_USIZE + le_value(s);
        let rest = after_first(s);
        let left = limit - step;
        lemma_whole_frames_split(rest, left);
        let w1 = whole_frames(rest, left);
        let k1 = whole_count(rest, left);
        let taken = s.take(w);
        assert(le_value(taken) == le_value(s));
        assert(first(taken) =~= first(s));
        assert(after_first(taken) =~= rest.take(w1));
        assert(messages(taken) =~= messages(s).take(k));
        assert(s.skip(w) =~= rest.skip(w1));
        assert(messages(s).skip(k) =~= messages(rest).skip(k1));
        let moved = messages(s).take(k);
        assert(moved.drop_first() =~= messages(rest).take(k1));
        assert(moved[0] == first(s));
    } else {
        assert(s.take(0).len() == 0);
        assert(s.skip(0) =~= s);
        assert(messages(s).take(0) =~= messages(s.take(0)));
        assert(messages(s).skip(0) =~= messages(s));
    }
}

} // verus!
