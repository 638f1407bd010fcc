//! Bulk copies between byte slices.
use crate::ring::{lemma_write_around_parts, write_around};
use vstd::prelude::*;

verus! {

/// `copy_from_slice` of std's slices, taken on trust: given two slices of one
/// length it makes the first hold what the second holds. It panics where the
/// lengths differ, so the contract asks for equal lengths.
pub assume_specification<T>[ <[T]>::copy_from_slice ](dst: &mut [T], src: &[T]) where T: Copy
    requires
        old(dst)@.len() == src@.len(),
    ensures
        final(dst)@ == src@,
;

/// Copies `src` over the bytes of `dst` that start at offset `at`, and leaves
/// the bytes before and after them as they were.
pub fn copy_into(dst: &mut [u8], at: usize, src: &[u8])
    requires
        at + src@.len() <= old(dst)@.len(),
    ensures
        final(dst)@ == old(dst)@.subrange(0, at as int) + src@ + old(dst)@.subrange(
            at + src@.len(),
            old(dst)@.len() as int,
        ),
{
    let (_, rest) = dst.split_at_mut(at);
    let (middle, _) = rest.split_at_mut(src.len());
    middle.copy_from_slice(src);
}

/// A buffer whose start was filled by one copy of `a`, or by a copy of `a` and
/// then one of `b` behind it, holds these bytes and behind them what it held
/// before.
pub proof fn lemma_filled_from_start(before: Seq<u8>, a: Seq<u8>, b: Seq<u8>)
    requires
        a.len() + b.len() <= before.len(),
    ensures
        before.subrange(0, 0) + a + before.subrange(a.len() as int, before.len() as int) == a
            + before.skip(a.len() as int),
        ({
            let once = a + before.skip(a.len() as int);
            once.subrange(0, a.len() as int) + b + once.subrange(
                (a.len() + b.len()) as int,
                once.len() as int,
            ) == (a + b) + before.skip((a.len() + b.len()) as int)
        }),
{
    let once = a + before.skip(a.len() as int);
    let one = a.len() as int;
    let both = (a.len() + b.len()) as int;
    assert(before.subrange(0, 0) + a + before.subrange(one, before.len() as int) =~= once);
    assert(once.subrange(0, one) + b + once.subrange(both, once.len() as int) =~= (a + b)
        + before.skip(both));
}

/// Lays `src` into `payload` from offset `at` on, where it need not go round
/// the end.
pub fn lay_down(payload: &mut [u8], at: usize, src: &[u8])
    requires
        at + src@.len() <= old(payload)@.len(),
    ensures
        final(payload)@ == write_around(old(payload)@, at as int, src@),
{
    proof {
        lemma_write_around_parts(payload@, at as int, src@);
    }
    copy_into(payload, at, src);
}

} // verus!
