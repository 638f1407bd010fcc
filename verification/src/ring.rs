//! The mathematical model of a ring: two indices into a circular payload, the
//! bytes that wait between them, and what laying bytes down and taking bytes
//! off does to all three.
use crate::frame::{after_first, first, frame, framed, has_frame, le_value, messages};
use crate::SZ_OF_USIZE;
use vstd::arithmetic::div_mod::lemma_fundamental_div_mod_converse_mod;
use vstd::prelude::*;

verus! {

/// The `len` bytes that lie in `payload` from offset `at` on, going on at
/// offset 0 after the last byte.
pub open spec fn read_around(payload: Seq<u8>, at: int, len: int) -> Seq<u8> {
    Seq::new(len as nat, |i: int| payload[(at + i) % (payload.len() as int)])
}

/// `payload` after `data` has been laid into it from offset `at` on, going on
/// at offset 0 after the last byte.
pub open spec fn write_around(payload: Seq<u8>, at: int, data: Seq<u8>) -> Seq<u8> {
    Seq::new(
        payload.len(),
        |j: int|
            {
                let k = (j - at) % (payload.len() as int);
                if k < data.len() {
                    data[k]
                } else {
                    payload[j]
                }
            },
    )
}

/// How many places offset `to` lies behind offset `from` in a circle of `size`
/// places.
pub open spec fn distance(from: int, to: int, size: int) -> int {
    (to - from) % size
}

/// What a handle sees of a ring: the two indices and the payload bytes.
pub struct Ring {
    /// Offset of the next byte to read.
    pub head: int,
    /// Offset of the next byte to write.
    pub tail: int,
    /// The circular byte array.
    pub payload: Seq<u8>,
}

impl Ring {
    /// The length of the payload.
    pub open spec fn size(self) -> int {
        self.payload.len() as int
    }

    /// Both indices lie inside the payload, and the payload's length is one
    /// that a slice can have.
    pub open spec fn wf(self) -> bool {
        &&& 0 <= self.head < self.size()
        &&& 0 <= self.tail < self.size()
        &&& self.size() <= usize::MAX
    }

    /// No byte waits to be read.
    pub open spec fn is_empty(self) -> bool {
        self.head == self.tail
    }

    /// No byte can be written: the one slot behind `tail` is the one that stays free.
    pub open spec fn is_full(self) -> bool {
        (self.tail + 1) % self.size() == self.head
    }

    /// How many bytes wait to be read.
    pub open spec fn used(self) -> int {
        distance(self.head, self.tail, self.size())
    }

    /// How many bytes can still be written.
    pub open spec fn free(self) -> int {
        self.size() - self.used() - 1
    }

    /// The bytes that wait to be read, oldest first.
    pub open spec fn contents(self) -> Seq<u8> {
        read_around(self.payload, self.head, self.used())
    }

    /// The ring after the writer has laid `bytes` down at `tail`.
    pub open spec fn appended(self, bytes: Seq<u8>) -> Ring {
        Ring {
            head: self.head,
            tail: (self.tail + bytes.len()) % self.size(),
            payload: write_around(self.payload, self.tail, bytes),
        }
    }

    /// The ring after the reader has let go of its `n` oldest bytes.
    pub open spec fn advanced(self, n: int) -> Ring {
        Ring { head: (self.head + n) % self.size(), tail: self.tail, payload: self.payload }
    }

    /// The frame of `msg` fits in the free bytes.
    pub open spec fn fits(self, msg: Seq<u8>) -> bool {
        msg.len() + SZ_OF_USIZE <= self.free()
    }

    /// The ring after a push of `msg`: with the frame of `msg` laid down where
    /// it fits, and as it was where it does not.
    pub open spec fn pushed(self, msg: Seq<u8>) -> Ring {
        if self.fits(msg) {
            self.appended(frame(msg))
        } else {
            self
        }
    }

    /// The message of the frame at `head`.
    pub open spec fn front(self) -> Seq<u8> {
        first(self.contents())
    }

    /// The ring after a pop: without the frame at `head` where at least a
    /// prefix waits, and as it was where less does.
    pub open spec fn popped(self) -> Ring {
        if self.used() >= SZ_OF_USIZE {
            self.advanced(SZ_OF_USIZE + le_value(self.contents()))
        } else {
            self
        }
    }

    /// The messages that wait, oldest first.
    pub open spec fn messages(self) -> Seq<Seq<u8>> {
        messages(self.contents())
    }

    /// The waiting bytes are whole frames and nothing else.
    pub open spec fn framed(self) -> bool {
        framed(self.contents())
    }
}

/// What `x % n` is for an `x` at most one length `n` away from `[0, n)`.
pub proof fn lemma_wrap(x: int, n: int)
    requires
        n > 0,
    ensures
        0 <= x < n ==> x % n == x,
        n <= x < 2 * n ==> x % n == x - n,
        -n <= x < 0 ==> x % n == x + n,
{
    if 0 <= x < n {
        lemma_fundamental_div_mod_converse_mod(x, n, 0, x);
    }
    if n <= x < 2 * n {
        lemma_fundamental_div_mod_converse_mod(x, n, 1, x - n);
    }
    if -n <= x < 0 {
        lemma_fundamental_div_mod_converse_mod(x, n, -1, x + n);
    }
}

/// A read that does not reach the end of the payload is a plain slice of it; one
/// that does is the slice up to the end followed by a slice from the start.
pub proof fn lemma_read_around_parts(payload: Seq<u8>, at: int, len: int)
    requires
        0 <= at < payload.len(),
        0 <= len <= payload.len(),
    ensures
        at + len <= payload.len() ==> read_around(payload, at, len) == payload.subrange(
            at,
            at + len,
        ),
        at + len > payload.len() ==> read_around(payload, at, len) == payload.subrange(
            at,
            payload.len() as int,
        ) + payload.subrange(0, at + len - payload.len()),
{
    let n = payload.len() as int;
    let got = read_around(payload, at, len);
    if at + len <= n {
        let want = payload.subrange(at, at + len);
        assert forall|i: int| 0 <= i < len implies got[i] == want[i] by {
            lemma_wrap(at + i, n);
        }
        assert(got =~= want);
    } else {
        let want = payload.subrange(at, n) + payload.subrange(0, at + len - n);
        assert forall|i: int| 0 <= i < len implies got[i] == want[i] by {
            lemma_wrap(at + i, n);
        }
        assert(got =~= want);
    }
}

/// A write that does not reach the end of the payload replaces a plain slice of
/// it; one that does replaces the slice up to the end and a slice from the start.
pub proof fn lemma_write_around_parts(payload: Seq<u8>, at: int, data: Seq<u8>)
    requires
        0 <= at <= payload.len(),
        data.len() <= payload.len(),
    ensures
        at + data.len() <= payload.len() ==> write_around(payload, at, data) == payload.subrange(
            0,
            at,
        ) + data + payload.subrange(at + data.len(), payload.len() as int),
        at + data.len() > payload.len() ==> write_around(payload, at, data) == data.skip(
            payload.len() - at,
        ) + payload.subrange(at + data.len() - payload.len(), at) + data.take(payload.len() - at),
{
    let n = payload.len() as int;
    let got = write_around(payload, at, data);
    if at + data.len() <= n {
        let want = payload.subrange(0, at) + data + payload.subrange(at + data.len(), n);
        assert forall|j: int| 0 <= j < n implies got[j] == want[j] by {
            lemma_wrap(j - at, n);
        }
        assert(got =~= want);
    } else {
        let want = data.skip(n - at) + payload.subrange(at + data.len() - n, at) + data.take(
            n - at,
        );
        assert forall|j: int| 0 <= j < n implies got[j] == want[j] by {
            lemma_wrap(j - at, n);
        }
        assert(got =~= want);
    }
}

/// Laying `a` down and then `b` from where `a` ended is laying `a + b` down.
/// The place `next` where `a` ended is `at + a.len()`, less the length of the
/// payload where that is past the end.
pub proof fn lemma_write_around_concat(
    payload: Seq<u8>,
    at: int,
    a: Seq<u8>,
    next: int,
    b: Seq<u8>,
)
    requires
        0 <= at <= payload.len(),
        0 <= next <= payload.len(),
        next == at + a.len() || next == at + a.len() - payload.len(),
        a.len() + b.len() <= payload.len(),
    ensures
        write_around(write_around(payload, at, a), next, b) == write_around(payload, at, a + b),
{
    let n = payload.len() as int;
    let got = write_around(write_around(payload, at, a), next, b);
    let want = write_around(payload, at, a + b);
    assert forall|j: int| 0 <= j < n implies got[j] == want[j] by {
        lemma_wrap(j - at, n);
        lemma_wrap(j - next, n);
    }
    assert(got =~= want);
}

/// Laying the bytes of `data` before `cut` down and then the others from where
/// the first ended is laying `data` down.
pub proof fn lemma_write_around_cut(
    payload: Seq<u8>,
    at: int,
    data: Seq<u8>,
    cut: int,
    next: int,
)
    requires
        0 <= at <= payload.len(),
        0 <= next <= payload.len(),
        0 <= cut <= data.len(),
        next == at + cut || next == at + cut - payload.len(),
        data.len() <= payload.len(),
    ensures
        write_around(
            write_around(payload, at, data.subrange(0, cut)),
            next,
            data.subrange(cut, data.len() as int),
        ) == write_around(payload, at, data),
{
    let a = data.subrange(0, cut);
    let b = data.subrange(cut, data.len() as int);
    lemma_write_around_concat(payload, at, a, next, b);
    assert(a + b =~= data);
}

/// In a well-formed ring the waiting bytes, the free bytes and the one slot that
/// stays free make up the payload, and the two tests for empty and full are
/// tests on the number of waiting bytes.
pub proof fn lemma_used_free(r: Ring)
    requires
        r.wf(),
    ensures
        0 <= r.used() < r.size(),
        0 <= r.free() < r.size(),
        r.free() + r.used() + 1 == r.size(),
        r.used() == if r.tail >= r.head {
            r.tail - r.head
        } else {
            r.size() + r.tail - r.head
        },
        r.is_empty() <==> r.used() == 0,
        r.is_full() <==> r.free() == 0,
        r.contents().len() == r.used(),
{
    lemma_wrap(r.tail - r.head, r.size());
    lemma_wrap(r.tail + 1, r.size());
}

/// A stretch of the waiting bytes is a read that starts that far behind `head`.
pub proof fn lemma_contents_range(r: Ring, from: int, to: int)
    requires
        r.wf(),
        0 <= from <= to <= r.used(),
    ensures
        r.contents().subrange(from, to) == read_around(
            r.payload,
            (r.head + from) % r.size(),
            to - from,
        ),
        0 <= (r.head + from) % r.size() < r.size(),
{
    let n = r.size();
    lemma_used_free(r);
    lemma_wrap(r.head + from, n);
    let at = (r.head + from) % n;
    let got = r.contents().subrange(from, to);
    let want = read_around(r.payload, at, to - from);
    assert forall|i: int| 0 <= i < to - from implies got[i] == want[i] by {
        lemma_wrap(r.head + from + i, n);
        lemma_wrap(at + i, n);
    }
    assert(got =~= want);
}

/// Where at least a prefix waits, the eight bytes from `head` on are the first
/// eight of the waiting bytes, so they spell the same length.
pub proof fn lemma_prefix(r: Ring)
    requires
        r.wf(),
        r.used() >= SZ_OF_USIZE,
    ensures
        read_around(r.payload, r.head, 8) == r.contents().take(8),
        le_value(read_around(r.payload, r.head, 8)) == le_value(r.contents()),
{
    let prefix = read_around(r.payload, r.head, 8);
    let waiting = r.contents();
    assert(prefix =~= waiting.take(8));
    assert(forall|i: int| 0 <= i < 8 ==> prefix[i] == waiting[i]);
}

/// Where a whole frame waits at `head`, its message lies behind the prefix in one
/// piece or, where it reaches the end of the payload, in two; and a pop leaves
/// a well-formed ring in which the bytes behind that frame wait.
pub proof fn lemma_front(r: Ring)
    requires
        r.wf(),
        has_frame(r.contents()),
    ensures
        r.used() >= SZ_OF_USIZE,
        SZ_OF_USIZE + r.front().len() <= r.used(),
        r.front().len() == le_value(r.contents()),
        ({
            let at = (r.head + SZ_OF_USIZE) % r.size();
            let len = r.front().len() as int;
            &&& at == if r.head + SZ_OF_USIZE < r.size() {
                r.head + SZ_OF_USIZE
            } else {
                r.head + SZ_OF_USIZE - r.size()
            }
            &&& at + len <= r.size() ==> r.front() == r.payload.subrange(at, at + len)
            &&& at + len > r.size() ==> r.front() == r.payload.subrange(at, r.size())
                + r.payload.subrange(0, at + len - r.size())
            &&& r.popped().head == if at + len < r.size() {
                at + len
            } else {
                at + len - r.size()
            }
        }),
        r.popped().wf(),
        r.popped().contents() == after_first(r.contents()),
        r.popped().used() == r.used() - SZ_OF_USIZE - r.front().len(),
{
    let size = r.size();
    let len = le_value(r.contents()) as int;
    lemma_used_free(r);
    lemma_advanced(r, SZ_OF_USIZE + len);
    lemma_contents_range(r, SZ_OF_USIZE as int, SZ_OF_USIZE + len);
    lemma_wrap(r.head + SZ_OF_USIZE, size);
    lemma_wrap(r.head + SZ_OF_USIZE + len, size);
    let at = (r.head + SZ_OF_USIZE) % size;
    lemma_wrap(at + len, size);
    lemma_read_around_parts(r.payload, at, len);
}

/// Laying down no more bytes than are free keeps the ring well formed, puts
/// exactly these bytes behind the ones that waited, and touches nothing else.
pub proof fn lemma_appended(r: Ring, bytes: Seq<u8>)
    requires
        r.wf(),
        bytes.len() <= r.free(),
    ensures
        r.appended(bytes).wf(),
        r.appended(bytes).size() == r.size(),
        r.appended(bytes).used() == r.used() + bytes.len(),
        r.appended(bytes).contents() == r.contents() + bytes,
{
    let n = r.size();
    let after = r.appended(bytes);
    lemma_used_free(r);
    lemma_wrap(r.tail + bytes.len(), n);
    lemma_wrap(after.tail - r.head, n);
    assert(after.used() == r.used() + bytes.len());
    assert forall|i: int| 0 <= i < after.used() implies after.contents()[i] == (r.contents()
        + bytes)[i] by {
        lemma_wrap(r.head + i, n);
        let j = (r.head + i) % n;
        lemma_wrap(j - r.tail, n);
    }
    assert(after.contents() =~= r.contents() + bytes);
}

/// A push that fits lays the frame of the message down behind the waiting
/// bytes, moves `tail` behind the frame, round the end where it has to, and
/// keeps the ring well formed.
pub proof fn lemma_pushed(r: Ring, msg: Seq<u8>)
    requires
        r.wf(),
        r.fits(msg),
    ensures
        frame(msg).len() == SZ_OF_USIZE + msg.len(),
        r.pushed(msg).wf(),
        r.pushed(msg).head == r.head,
        r.pushed(msg).tail == if r.tail + SZ_OF_USIZE + msg.len() < r.size() {
            r.tail + SZ_OF_USIZE + msg.len()
        } else {
            r.tail + SZ_OF_USIZE + msg.len() - r.size()
        },
        r.pushed(msg).payload == write_around(r.payload, r.tail, frame(msg)),
        r.pushed(msg).contents() == r.contents() + frame(msg),
        r.pushed(msg).used() == r.used() + SZ_OF_USIZE + msg.len(),
{
    lemma_used_free(r);
    lemma_appended(r, frame(msg));
    lemma_wrap(r.tail + SZ_OF_USIZE + msg.len(), r.size());
}

/// Letting go of no more bytes than wait keeps the ring well formed and leaves
/// the rest of them waiting, in order.
pub proof fn lemma_advanced(r: Ring, n: int)
    requires
        r.wf(),
        0 <= n <= r.used(),
    ensures
        r.advanced(n).wf(),
        r.advanced(n).size() == r.size(),
        r.advanced(n).used() == r.used() - n,
        r.advanced(n).contents() == r.contents().skip(n),
{
    let size = r.size();
    let after = r.advanced(n);
    lemma_used_free(r);
    lemma_wrap(r.head + n, size);
    lemma_wrap(r.tail - after.head, size);
    assert(after.used() == r.used() - n);
    assert forall|i: int| 0 <= i < after.used() implies after.contents()[i] == r.contents().skip(
        n,
    )[i] by {
        lemma_wrap(after.head + i, size);
        lemma_wrap(r.head + n + i, size);
    }
    assert(after.contents() =~= r.contents().skip(n));
}

} // verus!
