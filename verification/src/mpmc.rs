//! A bounded multi-producer multi-consumer channel.
//!
//! The channel is a fixed-capacity ring buffer of optional slots together
//! with a wait-list of suspended parties. `head` is the next write position
//! and `tail` the next read position; both are free-running counters that
//! wrap modulo 2^32 and are reduced to a buffer index by masking, which is
//! why the capacity must be a power of two. At every step the number of
//! buffered items, `head - tail` taken modulo 2^32, stays between 0 and the
//! capacity.
//!
//! Suspension is cooperative: an operation that cannot make progress leaves
//! a resumption hook of type `W` behind (for a sender, together with the
//! value it tried to send) and reports that it must wait. An operation that
//! unblocks a waiting party hands the hook back to the caller, who is in
//! charge of invoking it; the channel itself never blocks.
//!
//! [`Sender`] and [`Receiver`] are cloneable handles that share one
//! [`Internal`] state behind a lock, so any number of producers and
//! consumers may operate on the same channel.

use vstd::prelude::*;
use vstd::pervasive::VecAdditionalExecFns;
use vstd::pervasive::unreached;
use vstd::rwlock::{RwLock, RwLockPredicate};
use vstd::arithmetic::div_mod::{
    lemma_fundamental_div_mod, lemma_mod_mod, lemma_mod_equivalence, lemma_small_mod,
    lemma_add_mod_noop_right, lemma_sub_mod_noop, lemma_sub_mod_noop_right,
    lemma_mod_bound,
};
use std::sync::Arc;

verus! {

/// The modulus at which the `head` and `tail` counters wrap.
pub open spec fn wrap_modulus() -> int {
    0x1_0000_0000
}

/// The suspended parties of a channel: receivers that found the buffer
/// empty, and senders that found it full, each with the value it still has
/// to deliver. The collections are unordered in spirit; entries are taken
/// from the back.
pub struct Waitlist<T, W> {
    pub receivers: Vec<W>,
    pub senders: Vec<(T, W)>,
}

/// The shared state of a channel: the ring buffer, the wrap-around read and
/// write counters, the mask that reduces a counter to a buffer index, the
/// wait-list, and the closed flag. The ghost tallies `sent` and `received`
/// count the values accepted from producers and handed to consumers.
pub struct Internal<T, W> {
    pub queue: Vec<Option<T>>,
    pub waitlist: Waitlist<T, W>,
    pub head: u32,
    pub tail: u32,
    pub mask: u32,
    pub closed: bool,
    pub sent: Ghost<nat>,
    pub received: Ghost<nat>,
}

impl<T, W> Internal<T, W> {
    /// Number of slots in the ring buffer.
    pub open spec fn capacity(self) -> int {
        self.queue@.len() as int
    }

    /// Number of items currently buffered: how far `head` has run ahead of
    /// `tail`, modulo the counter wrap.
    pub open spec fn used(self) -> int {
        (self.head - self.tail) % wrap_modulus()
    }

    /// Buffer index holding the `i`-th oldest buffered item.
    pub open spec fn slot(self, i: int) -> int {
        ((self.tail + i) % wrap_modulus()) % self.capacity()
    }

    /// The buffered items, oldest first.
    pub open spec fn contents(self) -> Seq<T> {
        Seq::new(self.used() as nat, |i: int| self.queue@[self.slot(i)]->0)
    }

    /// The values waiting in the sender wait-list, in arrival order.
    pub open spec fn pending_sends(self) -> Seq<T> {
        self.waitlist.senders@.map_values(|e: (T, W)| e.0)
    }

    /// Well-formedness: the capacity is a power of two (stated as: it
    /// divides the counter wrap, with the mask being capacity - 1), the
    /// buffer never holds more than `capacity` items, every occupied slot
    /// actually holds a value, a closed channel parks nobody, and every
    /// accepted value is accounted for either as received, as buffered, or
    /// as waiting with its sender.
    pub open spec fn wf(self) -> bool {
        &&& 1 <= self.capacity() <= 0x8000_0000
        &&& self.mask == self.capacity() - 1
        &&& wrap_modulus() % self.capacity() == 0
        &&& self.used() <= self.capacity()
        &&& forall|i: int| 0 <= i < self.used() ==> (#[trigger] self.queue@[self.slot(i)]) is Some
        &&& self.closed ==> self.waitlist.receivers@.len() == 0 && self.waitlist.senders@.len()
            == 0
        &&& self.sent@ == self.received@ + self.used() + self.pending_sends().len()
    }
}

/// A power of two divides the counter wrap, and fits under half the wrap.
proof fn lemma_pow2_divides(n: u32)
    requires
        n >= 1,
        n & ((n - 1) as u32) == 0,
    ensures
        wrap_modulus() % (n as int) == 0,
        n <= 0x8000_0000,
{
    assert(0x1_0000_0000u64 % (n as u64) == 0 && n <= 0x8000_0000u32) by (bit_vector)
        requires
            n >= 1,
            n & ((n - 1) as u32) == 0,
    ;
}

/// Reducing modulo the wrap and then modulo a capacity that divides the
/// wrap is the same as reducing modulo the capacity directly.
proof fn lemma_wrap_then_cap(x: int, n: int)
    requires
        1 <= n,
        wrap_modulus() % n == 0,
    ensures
        (x % wrap_modulus()) % n == x % n,
{
    let b = wrap_modulus() / n;
    lemma_fundamental_div_mod(wrap_modulus(), n);
    assert(n * b == wrap_modulus());
    lemma_mod_mod(x, n, b);
}

/// Two distinct offsets into a window no longer than the capacity land on
/// distinct buffer slots.
proof fn lemma_slot_distinct(t: int, i: int, j: int, n: int)
    requires
        1 <= n,
        wrap_modulus() % n == 0,
        0 <= i < n,
        0 <= j < n,
        i != j,
    ensures
        ((t + i) % wrap_modulus()) % n != ((t + j) % wrap_modulus()) % n,
{
    lemma_wrap_then_cap(t + i, n);
    lemma_wrap_then_cap(t + j, n);
    if (t + i) % n == (t + j) % n {
        lemma_mod_equivalence(t + i, t + j, n);
        if i > j {
            lemma_small_mod((i - j) as nat, n as nat);
        } else {
            lemma_mod_equivalence(t + j, t + i, n);
            lemma_small_mod((j - i) as nat, n as nat);
        }
        assert(false);
    }
}

/// After the write counter advances by one, the window is one item longer.
proof fn lemma_used_after_head_incr(h: u32, t: u32)
    requires
        (h - t) % wrap_modulus() < wrap_modulus() - 1,
    ensures
        (((h + 1) % wrap_modulus()) - t) % wrap_modulus() == (h - t) % wrap_modulus() + 1,
{
    let m = wrap_modulus();
    lemma_mod_bound(h + 1, m);
    lemma_sub_mod_noop(h + 1, t as int, m);
    lemma_small_mod(t as nat, m as nat);
    assert(((h + 1) % m - (t as int) % m) % m == (h + 1 - t) % m);
    lemma_add_mod_noop_right(h - t, 1, m);
    lemma_mod_bound(h - t, m);
    lemma_small_mod(((h - t) % m + 1) as nat, m as nat);
}

/// After the read counter advances by one, the window is one item shorter
/// and starts at the old second item.
proof fn lemma_used_after_tail_incr(h: u32, t: u32)
    requires
        (h - t) % wrap_modulus() >= 1,
    ensures
        (h - ((t + 1) % wrap_modulus())) % wrap_modulus() == (h - t) % wrap_modulus() - 1,
{
    let m = wrap_modulus();
    lemma_mod_bound(t + 1, m);
    lemma_sub_mod_noop_right(h as int, t + 1, m);
    assert((h - (t + 1) % m) % m == (h - t - 1) % m);
    lemma_sub_mod_noop_right(h - t, 1, m);
    lemma_mod_bound(h - t, m);
    assert((h - t - 1) % m == ((h - t) % m - 1) % m);
    lemma_small_mod(((h - t) % m - 1) as nat, m as nat);
}

/// The counter window starts at slot `tail % capacity`, and the slot one
/// past the window is `head % capacity`.
proof fn lemma_slot_ends<T, W>(s: Internal<T, W>)
    requires
        s.wf(),
    ensures
        s.slot(0) == (s.tail as int) % (s.capacity() as int),
        s.slot(s.used()) == (s.head as int) % (s.capacity() as int),
{
    let m = wrap_modulus();
    let n = s.capacity() as int;
    lemma_small_mod(s.tail as nat, m as nat);
    lemma_wrap_then_cap(s.tail as int, n);
    lemma_add_mod_noop_right(s.tail as int, s.head - s.tail, m);
    assert((s.tail + s.used()) % m == (s.head - 0) % m);
    lemma_small_mod(s.head as nat, m as nat);
    lemma_wrap_then_cap(s.head as int, n);
    assert(s.slot(s.used()) == (s.head as int) % n);
}

impl<T, W> Internal<T, W> {
    /// Appends `value` to the buffered items, writing it at the slot under
    /// the write counter and advancing that counter.
    fn enqueue(&mut self, value: T)
        requires
            old(self).wf(),
            old(self).used() < old(self).capacity(),
        ensures
            final(self).wf(),
            final(self).contents() == old(self).contents().push(value),
            final(self).waitlist == old(self).waitlist,
            final(self).capacity() == old(self).capacity(),
            final(self).closed == old(self).closed,
            final(self).head == (old(self).head + 1) % wrap_modulus(),
            final(self).tail == old(self).tail,
            final(self).received == old(self).received,
            final(self).sent@ == old(self).sent@ + 1,
    {
        let ghost old_self = *self;
        let n = self.queue.len() as u32;
        proof {
            assert(n == self.capacity());
            lemma_slot_ends(*self);
            lemma_mod_bound(self.head as int, self.capacity());
        }
        let idx = (self.head % n) as usize;
        self.queue.set(idx, Some(value));
        self.head = self.head.wrapping_add(1);
        self.sent = Ghost(self.sent@ + 1);
        proof {
            lemma_used_after_head_incr(old_self.head, old_self.tail);
            assert(self.used() == old_self.used() + 1);
            assert forall|i: int| 0 <= i < self.used() implies
                (#[trigger] self.queue@[self.slot(i)]) is Some
                    && self.queue@[self.slot(i)]->0 == old_self.contents().push(value)[i] by {
                assert(self.slot(i) == old_self.slot(i));
                if i < old_self.used() {
                    lemma_slot_distinct(
                        old_self.tail as int,
                        i,
                        old_self.used(),
                        old_self.capacity(),
                    );
                    assert(old_self.queue@[old_self.slot(i)] is Some);
                    assert(self.queue@[self.slot(i)] == old_self.queue@[old_self.slot(i)]);
                } else {
                    assert(self.queue@[self.slot(i)] == Some(value));
                }
            }
            assert(self.contents() =~= old_self.contents().push(value));
        }
    }

    /// Removes and returns the oldest buffered item, clearing its slot and
    /// advancing the read counter.
    fn dequeue(&mut self) -> (r: T)
        requires
            old(self).wf(),
            old(self).used() > 0,
        ensures
            final(self).wf(),
            r == old(self).contents()[0],
            final(self).contents() == old(self).contents().drop_first(),
            final(self).waitlist == old(self).waitlist,
            final(self).capacity() == old(self).capacity(),
            final(self).closed == old(self).closed,
            final(self).head == old(self).head,
            final(self).tail == (old(self).tail + 1) % wrap_modulus(),
            final(self).sent == old(self).sent,
            final(self).received@ == old(self).received@ + 1,
    {
        let ghost old_self = *self;
        let n = self.queue.len() as u32;
        proof {
            assert(n == self.capacity());
            lemma_slot_ends(*self);
            lemma_mod_bound(self.tail as int, self.capacity());
        }
        let idx = (self.tail % n) as usize;
        let taken = (&mut self.queue[idx]).take();
        self.tail = self.tail.wrapping_add(1);
        self.received = Ghost(self.received@ + 1);
        let value = match taken {
            Some(value) => value,
            None => unreached(),
        };
        proof {
            let m = wrap_modulus();
            lemma_used_after_tail_incr(old_self.head, old_self.tail);
            assert(self.used() == old_self.used() - 1);
            assert forall|i: int| 0 <= i < self.used() implies
                (#[trigger] self.queue@[self.slot(i)]) is Some
                    && self.queue@[self.slot(i)] == old_self.queue@[old_self.slot(i + 1)] by {
                lemma_mod_bound(old_self.tail + 1, m);
                lemma_add_mod_noop_right(old_self.tail + 1, i, m);
                assert(((old_self.tail + 1) % m + i) % m == (old_self.tail + 1 + i) % m);
                assert(self.slot(i) == old_self.slot(i + 1));
                lemma_slot_distinct(old_self.tail as int, i + 1, 0, old_self.capacity());
                assert(old_self.queue@[old_self.slot(i + 1)] is Some);
            }
            assert(self.contents() =~= old_self.contents().drop_first());
        }
        value
    }

    /// One attempt to hand `value` to the channel. On a closed channel the
    /// attempt fails fast, changing nothing. Otherwise, if the buffer has
    /// room the value is enqueued; when it is full and a resumption hook is
    /// supplied, the value is parked in the sender wait-list together with
    /// the hook. Without a hook a full buffer leaves the state untouched,
    /// so an attempt never overflows the buffer. In either progress case
    /// one waiting receiver (if any) is unparked and its hook handed back
    /// for the caller to invoke.
    pub fn send_or_add_to_waitlist(&mut self, waker: Option<W>, value: T) -> (r: (bool, Option<W>))
        requires
            old(self).wf(),
        ensures
            final(self).wf(),
            final(self).capacity() == old(self).capacity(),
            final(self).closed == old(self).closed,
            final(self).tail == old(self).tail,
            r.0 ==> final(self).head == (old(self).head + 1) % wrap_modulus(),
            !r.0 ==> final(self).head == old(self).head,
            old(self).closed ==> *final(self) == *old(self) && !r.0 && r.1 is None,
            r.0 == (!old(self).closed && old(self).used() < old(self).capacity()),
            r.0 ==> final(self).contents() == old(self).contents().push(value)
                && final(self).waitlist.senders@ == old(self).waitlist.senders@,
            !old(self).closed && !r.0 && waker is Some ==> {
                &&& final(self).contents() == old(self).contents()
                &&& final(self).waitlist.senders@ == old(self).waitlist.senders@.push(
                    (value, waker->0),
                )
            },
            !r.0 && waker is None ==> *final(self) == *old(self) && r.1 is None,
            !old(self).closed && (r.0 || waker is Some) ==> {
                &&& old(self).waitlist.receivers@.len() == 0 ==> r.1 is None
                    && final(self).waitlist.receivers@ == old(self).waitlist.receivers@
                &&& old(self).waitlist.receivers@.len() > 0 ==> r.1 == Some(
                    old(self).waitlist.receivers@.last(),
                ) && final(self).waitlist.receivers@ == old(self).waitlist.receivers@.drop_last()
            },
            final(self).received == old(self).received,
            !old(self).closed && (r.0 || waker is Some) ==> final(self).sent@ == old(self).sent@
                + 1,
            old(self).closed || (!r.0 && waker is None) ==> final(self).sent == old(self).sent,
    {
        if self.closed {
            return (false, None);
        }
        let n = self.queue.len();
        let is_full = self.size() >= n;
        if is_full {
            if let Some(w) = waker {
                self.waitlist.senders.push((value, w));
                self.sent = Ghost(self.sent@ + 1);
                let woken = self.waitlist.receivers.pop();
                proof {
                    assert(self.contents() =~= old(self).contents());
                    assert(self.pending_sends() =~= old(self).pending_sends().push(value));
                    assert forall|i: int| 0 <= i < self.used() implies
                        (#[trigger] self.queue@[self.slot(i)]) is Some by {
                        assert(old(self).queue@[old(self).slot(i)] is Some);
                    }
                }
                return (false, woken);
            }
            return (false, None);
        }
        self.enqueue(value);
        let ghost mid = *self;
        let woken = self.waitlist.receivers.pop();
        proof {
            assert(self.contents() =~= old(self).contents().push(value));
            assert(self.pending_sends() =~= old(self).pending_sends());
            assert forall|i: int| 0 <= i < self.used() implies
                (#[trigger] self.queue@[self.slot(i)]) is Some by {
                assert(mid.queue@[mid.slot(i)] is Some);
            }
        }
        (true, woken)
    }

    /// One attempt to take a value from the channel. A buffered value is
    /// taken first, oldest first. With an empty buffer a parked sender's
    /// value is taken directly instead, and that sender's hook handed back
    /// for the caller to invoke. Only when the buffer is empty and no sender
    /// waits does the attempt come back empty-handed, parking the supplied
    /// hook (if any) in the receiver wait-list.
    pub fn recv_or_add_to_waitlist(&mut self, waker: Option<W>) -> (r: (Option<T>, Option<W>))
        requires
            old(self).wf(),
        ensures
            final(self).wf(),
            final(self).capacity() == old(self).capacity(),
            final(self).closed == old(self).closed,
            final(self).head == old(self).head,
            old(self).used() > 0 ==> final(self).tail == (old(self).tail + 1) % wrap_modulus(),
            old(self).used() == 0 ==> final(self).tail == old(self).tail,
            r.0 is Some <==> old(self).used() > 0 || old(self).pending_sends().len() > 0,
            old(self).used() > 0 ==> {
                &&& r.0 == Some(old(self).contents()[0])
                &&& final(self).contents() == old(self).contents().drop_first()
                &&& r.1 is None
                &&& final(self).waitlist.receivers@ == old(self).waitlist.receivers@
                &&& final(self).waitlist.senders@ == old(self).waitlist.senders@
            },
            old(self).used() == 0 && old(self).pending_sends().len() > 0 ==> {
                &&& r.0 == Some(old(self).pending_sends().last())
                &&& r.1 == Some(old(self).waitlist.senders@.last().1)
                &&& final(self).waitlist.senders@ == old(self).waitlist.senders@.drop_last()
                &&& final(self).contents() == old(self).contents()
                &&& final(self).waitlist.receivers@ == old(self).waitlist.receivers@
            },
            old(self).used() == 0 && old(self).pending_sends().len() == 0 ==> {
                &&& r.0 is None
                &&& r.1 is None
                &&& final(self).contents() == old(self).contents()
                &&& final(self).waitlist.senders@ == old(self).waitlist.senders@
                &&& (!old(self).closed && waker is Some)
                    ==> final(self).waitlist.receivers@ == old(self).waitlist.receivers@.push(
                    waker->0,
                )
                &&& old(self).closed || waker is None
                    ==> final(self).waitlist.receivers@ == old(self).waitlist.receivers@
            },
            final(self).sent == old(self).sent,
            r.0 is Some ==> final(self).received@ == old(self).received@ + 1,
            r.0 is None ==> final(self).received == old(self).received,
    {
        let is_empty = self.head == self.tail;
        proof {
            let m = wrap_modulus();
            lemma_mod_equivalence(self.head as int, self.tail as int, m);
            lemma_small_mod(0nat, m as nat);
            if self.head != self.tail {
                assert(self.used() != 0) by {
                    if (self.head - self.tail) % m == 0 {
                        lemma_mod_equivalence(self.head as int, self.tail as int, m);
                        lemma_small_mod(self.head as nat, m as nat);
                        lemma_small_mod(self.tail as nat, m as nat);
                    }
                };
            }
        }
        if is_empty {
            if let Some((value, w)) = self.waitlist.senders.pop() {
                self.received = Ghost(self.received@ + 1);
                proof {
                    assert(old(self).pending_sends().drop_last() =~= self.pending_sends());
                    assert(self.contents() =~= old(self).contents());
                    assert(value == old(self).pending_sends().last());
                    assert forall|i: int| 0 <= i < self.used() implies
                        (#[trigger] self.queue@[self.slot(i)]) is Some by {
                        assert(old(self).queue@[old(self).slot(i)] is Some);
                    }
                }
                return (Some(value), Some(w));
            }
            if !self.closed {
                if let Some(w) = waker {
                    self.waitlist.receivers.push(w);
                    proof {
                        assert(self.contents() =~= old(self).contents());
                        assert(self.pending_sends() =~= old(self).pending_sends());
                        assert forall|i: int| 0 <= i < self.used() implies
                            (#[trigger] self.queue@[self.slot(i)]) is Some by {
                            assert(old(self).queue@[old(self).slot(i)] is Some);
                        }
                    }
                    return (None, None);
                }
            }
            return (None, None);
        }
        let value = self.dequeue();
        proof {
            assert(self.pending_sends() =~= old(self).pending_sends());
        }
        (Some(value), None)
    }

    /// Closes the channel: later sends fail fast, and later receives, once
    /// the buffer is drained, come back empty instead of waiting. Both
    /// wait-lists are drained; the parked receivers' hooks come back to be
    /// woken, and each parked sender comes back with the value its send
    /// could not deliver and its hook, for the caller to wake and inform.
    /// Values already buffered stay and can still be received.
    pub fn close(&mut self) -> (r: (Vec<W>, Vec<(T, W)>))
        requires
            old(self).wf(),
        ensures
            final(self).wf(),
            final(self).closed,
            final(self).capacity() == old(self).capacity(),
            final(self).head == old(self).head,
            final(self).tail == old(self).tail,
            final(self).contents() == old(self).contents(),
            final(self).waitlist.receivers@.len() == 0,
            final(self).waitlist.senders@.len() == 0,
            r.0@ == old(self).waitlist.receivers@,
            r.1@ == old(self).waitlist.senders@,
            final(self).received == old(self).received,
            final(self).sent@ == old(self).sent@ - old(self).pending_sends().len(),
    {
        self.closed = true;
        let mut receivers: Vec<W> = Vec::new();
        core::mem::swap(&mut self.waitlist.receivers, &mut receivers);
        let mut senders: Vec<(T, W)> = Vec::new();
        core::mem::swap(&mut self.waitlist.senders, &mut senders);
        proof {
            assert(self.sent@ >= self.received@ + self.used() + senders@.len());
        }
        self.sent = Ghost((self.sent@ - senders@.len()) as nat);
        proof {
            assert(self.contents() =~= old(self).contents());
            assert(self.pending_sends() =~= Seq::<T>::empty());
            assert forall|i: int| 0 <= i < self.used() implies
                (#[trigger] self.queue@[self.slot(i)]) is Some by {
                assert(old(self).queue@[old(self).slot(i)] is Some);
            }
        }
        (receivers, senders)
    }

    /// Whether the channel has been closed.
    pub fn is_closed(&self) -> (r: bool)
        ensures
            r == self.closed,
    {
        self.closed
    }

    /// Number of items currently buffered, as executable code computes it:
    /// how far the write counter has run ahead of the read counter.
    fn size(&self) -> (r: usize)
        requires
            self.wf(),
        ensures
            r == self.used(),
    {
        let r = self.head.wrapping_sub(self.tail);
        proof {
            let m = wrap_modulus();
            if self.head >= self.tail {
                lemma_small_mod((self.head - self.tail) as nat, m as nat);
            } else {
                lemma_mod_equivalence(
                    self.head - self.tail,
                    self.head - self.tail + m,
                    m,
                );
                lemma_small_mod((self.head - self.tail + m) as nat, m as nat);
            }
        }
        r as usize
    }
}

/// The number of buffered items never leaves the band between zero and the
/// capacity: the buffer neither overflows nor underflows.
pub proof fn lemma_buffer_bounds<T, W>(c: Internal<T, W>)
    requires
        c.wf(),
    ensures
        0 <= c.used() <= c.capacity(),
        c.contents().len() == c.used(),
{
}

/// Conservation: at any instant, every value the channel has accepted from
/// a producer is accounted for exactly once — already handed to a consumer,
/// still buffered, or parked in the sender wait-list. Nothing is lost and
/// nothing is duplicated.
pub proof fn lemma_conservation<T, W>(c: Internal<T, W>)
    requires
        c.wf(),
    ensures
        c.sent@ == c.received@ + c.contents().len() + c.pending_sends().len(),
{
}

/// The items that `k` successive buffered receives yield from a buffer
/// holding `s`: each receive returns the front and leaves the rest, as
/// [`Internal::recv_or_add_to_waitlist`] ensures.
pub open spec fn drained<T>(s: Seq<T>, k: int) -> Seq<T>
    recommends
        0 <= k <= s.len(),
    decreases k,
{
    if k <= 0 {
        Seq::empty()
    } else {
        seq![s[0]] + drained(s.drop_first(), k - 1)
    }
}

/// First-in first-out: receiving `k` times from a buffer holding `s` yields
/// exactly the first `k` items of `s`, in the order they were enqueued. In
/// particular, two values sent through the buffer by one producer come out
/// in the order they were sent.
pub proof fn lemma_fifo_order<T>(s: Seq<T>, k: int)
    requires
        0 <= k <= s.len(),
    ensures
        drained(s, k) == s.take(k),
    decreases k,
{
    if k <= 0 {
        assert(drained(s, k) =~= s.take(k));
    } else {
        lemma_fifo_order(s.drop_first(), k - 1);
        assert(s.drop_first().take(k - 1) =~= s.take(k).drop_first());
        assert(seq![s[0]] + s.take(k).drop_first() =~= s.take(k));
    }
}

/// Receipt order is send order: draining a buffer completely yields the
/// very sequence that was enqueued. For a single producer, whose sends
/// append one by one, the consumer therefore sees its values in the order
/// they were sent.
pub proof fn lemma_receipt_order<T>(s: Seq<T>)
    ensures
        drained(s, s.len() as int) == s,
{
    lemma_fifo_order(s, s.len() as int);
    assert(s.take(s.len() as int) =~= s);
}

/// The invariant a channel's lock maintains: the shared state is always
/// well-formed and keeps the capacity the channel was created with.
pub struct ChannelInv {
    pub cap: u32,
}

impl<T, W> RwLockPredicate<Internal<T, W>> for ChannelInv {
    open spec fn inv(self, v: Internal<T, W>) -> bool {
        v.wf() && v.capacity() == self.cap
    }
}

/// The producing side of a channel. Clones share the same buffer.
pub struct Sender<T, W> {
    internal: Arc<RwLock<Internal<T, W>, ChannelInv>>,
}

/// The consuming side of a channel. Clones share the same buffer.
pub struct Receiver<T, W> {
    pub internal: Arc<RwLock<Internal<T, W>, ChannelInv>>,
}

impl<T, W> Sender<T, W> {
    /// The lock this handle operates on: handles whose `chan` agree send
    /// into and receive from one shared state.
    pub closed spec fn chan(self) -> RwLock<Internal<T, W>, ChannelInv> {
        *self.internal
    }
}

impl<T, W> Receiver<T, W> {
    /// The lock this handle operates on: handles whose `chan` agree send
    /// into and receive from one shared state.
    pub closed spec fn chan(self) -> RwLock<Internal<T, W>, ChannelInv> {
        *self.internal
    }
}

impl<T, W> Clone for Sender<T, W> {
    /// Another handle on the same shared channel.
    fn clone(&self) -> (r: Sender<T, W>)
        ensures
            r.chan() == self.chan(),
    {
        Sender { internal: self.internal.clone() }
    }
}

impl<T, W> Clone for Receiver<T, W> {
    /// Another handle on the same shared channel.
    fn clone(&self) -> (r: Receiver<T, W>)
        ensures
            r.chan() == self.chan(),
    {
        Receiver { internal: self.internal.clone() }
    }
}

impl<T, W> Sender<T, W> {
    /// Locks the shared state and makes one send attempt on it, as
    /// [`Internal::send_or_add_to_waitlist`] describes. Returns whether the
    /// value was buffered (`false` means it was parked with `waker`, or
    /// that the channel was closed, or, when no `waker` was supplied, that
    /// the buffer was full and nothing happened), and a parked receiver's
    /// hook that the caller must now invoke.
    pub fn send_or_add_to_waitlist(&self, waker: Option<W>, value: T) -> (bool, Option<W>) {
        let (mut internal, handle) = self.internal.acquire_write();
        let r = internal.send_or_add_to_waitlist(waker, value);
        handle.release_write(internal);
        r
    }

    /// Non-suspending send: succeeds if and only if the channel is open and
    /// the buffer had room at the moment of the attempt; a full buffer is
    /// left untouched. Returns whether the value was enqueued, and a parked
    /// receiver's hook that the caller must now invoke.
    pub fn try_send(&mut self, value: T) -> (bool, Option<W>) {
        self.send_or_add_to_waitlist(None, value)
    }

    /// Closes the shared channel, as [`Internal::close`] describes: the
    /// returned hooks (and, for parked senders, undelivered values) are for
    /// the caller to wake and inform.
    pub fn close(&self) -> (Vec<W>, Vec<(T, W)>) {
        let (mut internal, handle) = self.internal.acquire_write();
        let r = internal.close();
        handle.release_write(internal);
        r
    }

    /// Whether the shared channel was closed at the moment of asking.
    pub fn is_closed(&self) -> bool {
        let (internal, handle) = self.internal.acquire_write();
        let r = internal.is_closed();
        handle.release_write(internal);
        r
    }
}

impl<T, W> Receiver<T, W> {
    /// Locks the shared state and makes one receive attempt on it, as
    /// [`Internal::recv_or_add_to_waitlist`] describes. Returns the value
    /// obtained (from the buffer, or directly from a parked sender), and a
    /// parked sender's hook that the caller must now invoke.
    pub fn recv_or_add_to_waitlist(&self, waker: Option<W>) -> (Option<T>, Option<W>) {
        let (mut internal, handle) = self.internal.acquire_write();
        let r = internal.recv_or_add_to_waitlist(waker);
        handle.release_write(internal);
        r
    }

    /// Closes the shared channel, as [`Internal::close`] describes: the
    /// returned hooks (and, for parked senders, undelivered values) are for
    /// the caller to wake and inform.
    pub fn close(&self) -> (Vec<W>, Vec<(T, W)>) {
        let (mut internal, handle) = self.internal.acquire_write();
        let r = internal.close();
        handle.release_write(internal);
        r
    }

    /// Whether the shared channel was closed at the moment of asking.
    pub fn is_closed(&self) -> bool {
        let (internal, handle) = self.internal.acquire_write();
        let r = internal.is_closed();
        handle.release_write(internal);
        r
    }
}

/// Creates a channel with `bounded` buffer slots and hands back its two
/// sides. The capacity must be a power of two, at least one, so that a
/// wrap-around counter reduces to a buffer index consistently. The two
/// handles (and every later clone of either) operate on one shared state,
/// whose lock pins the requested capacity for the channel's lifetime.
pub fn channel<T, W>(bounded: u32) -> (r: (Sender<T, W>, Receiver<T, W>))
    requires
        bounded >= 1,
        bounded & ((bounded - 1) as u32) == 0,
    ensures
        r.0.chan() == r.1.chan(),
        r.0.chan().pred() == (ChannelInv { cap: bounded }),
{
    proof {
        lemma_pow2_divides(bounded);
    }
    let mut queue: Vec<Option<T>> = Vec::new();
    let mut i: u32 = 0;
    while i < bounded
        invariant
            i <= bounded,
            queue@.len() == i as int,
        decreases bounded - i,
    {
        queue.push(None);
        i = i + 1;
    }
    let internal = Internal {
        queue,
        waitlist: Waitlist { receivers: Vec::new(), senders: Vec::new() },
        head: 0,
        tail: 0,
        mask: bounded - 1,
        closed: false,
        sent: Ghost(0),
        received: Ghost(0),
    };
    proof {
        lemma_small_mod(0nat, wrap_modulus() as nat);
        assert(internal.wf());
    }
    let lock = Arc::new(RwLock::new(internal, Ghost(ChannelInv { cap: bounded })));
    (Sender { internal: lock.clone() }, Receiver { internal: lock })
}

} // verus!
