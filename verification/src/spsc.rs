//! Single-producer single-consumer bounded queue, split into a `Producer` and a
//! `Consumer` half that may live on different threads.
//!
//! The queue holds at most `2^bits - 1` items (one slot of the power-of-two ring is
//! never used); pushes beyond that fail and are counted as overflow. The halves share a
//! bounded `std::sync::mpsc` channel, so what a pop returns depends on the other thread:
//! the contracts state what holds for every outcome.

use vstd::prelude::*;
use std::marker::PhantomData;
use vstd::arithmetic::power2::pow2;
use std::sync::atomic::AtomicU64;
use std::sync::mpsc::{Receiver, SyncSender};

verus! {

#[verifier::external_type_specification]
#[verifier::external_body]
#[verifier::reject_recursive_types(T)]
pub struct ExSyncSender<T>(SyncSender<T>);

#[verifier::external_type_specification]
#[verifier::external_body]
#[verifier::reject_recursive_types(T)]
pub struct ExReceiver<T>(Receiver<T>);

/// `std::sync::mpsc::sync_channel(bound)`: a channel holding at most `bound` items.
/// Nothing is stated of the two halves beyond their types.
#[verifier::external_body]
fn channel_bounded<T>(bound: usize) -> (SyncSender<T>, Receiver<T>) {
    std::sync::mpsc::sync_channel(bound)
}

pub const BATCH: usize = 64;

#[verifier::reject_recursive_types(T)]
pub struct Producer<T: Copy> {
    tx: SyncSender<T>,
    overflow: AtomicU64,
    bound: Ghost<nat>,
    sent: Ghost<Seq<T>>,
}

#[verifier::reject_recursive_types(T)]
pub struct Consumer<T: Copy> {
    rx: Receiver<T>,
    bound: Ghost<nat>,
    received: Ghost<Seq<T>>,
}

impl<T: Copy> Producer<T> {
    /// The most items the queue holds: the bound its channel was made with.
    pub closed spec fn capacity(&self) -> nat {
        self.bound@
    }

    /// Every item this producer handed to its queue so far, in order.
    pub closed spec fn sent(&self) -> Seq<T> {
        self.sent@
    }

    /// `SyncSender::try_send`: hand `v` to the queue. It is refused when the queue is
    /// full or its consumer is gone, which depends on the other thread, so whether it is
    /// taken is not stated; when it is taken it is `v` that is handed over, and the
    /// record of what was sent grows by exactly `v`.
    #[verifier::external_body]
    fn send_one(&mut self, v: T) -> (r: bool)
        ensures
            final(self).sent() == (if r {
                old(self).sent().push(v)
            } else {
                old(self).sent()
            }),
            final(self).capacity() == old(self).capacity(),
    {
        self.tx.try_send(v).is_ok()
    }
}

impl<T: Copy> Consumer<T> {
    /// The most items the queue holds: the bound its channel was made with.
    pub closed spec fn capacity(&self) -> nat {
        self.bound@
    }

    /// Every item this consumer took from its queue so far, in order.
    pub closed spec fn received(&self) -> Seq<T> {
        self.received@
    }

    /// `Receiver::try_recv`: take the oldest queued item, if any. Whether there is one
    /// depends on the other thread, so it is not stated; what is taken is added to the
    /// record of what was received.
    #[verifier::external_body]
    fn recv_one(&mut self) -> (r: Option<T>)
        ensures
            final(self).received() == (match r {
                Some(v) => old(self).received().push(v),
                None => old(self).received(),
            }),
            final(self).capacity() == old(self).capacity(),
    {
        self.rx.try_recv().ok()
    }
}

/// Constructor of a producer/consumer pair.
pub struct Ring<T: Copy> {
    _items: PhantomData<T>,
}

impl<T: Copy> Ring<T> {
    /// A queue over a ring of `2^bits` slots, i.e. holding at most `2^bits - 1` items.
    pub fn with_capacity_pow2(bits: u32) -> (r: (Producer<T>, Consumer<T>))
        requires
            bits < usize::BITS,
        ensures
            r.0.capacity() == pow2(bits as nat) - 1,
            r.1.capacity() == pow2(bits as nat) - 1,
            r.0.sent() == Seq::<T>::empty(),
            r.1.received() == Seq::<T>::empty(),
    {
        proof {
            vstd::bits::lemma_usize_pow2_no_overflow(bits as nat);
            vstd::bits::lemma_usize_shl_is_mul(1, bits as usize);
        }
        let cap = 1usize << bits;
        let bound = cap - 1;
        let (tx, rx) = channel_bounded(bound);
        (
            Producer {
                tx,
                overflow: AtomicU64::new(0),
                bound: Ghost(bound as nat),
                sent: Ghost(Seq::empty()),
            },
            Consumer { rx, bound: Ghost(bound as nat), received: Ghost(Seq::empty()) },
        )
    }
}

fn add_overflow(c: &AtomicU64, n: u64) {
    c.fetch_add(n, std::sync::atomic::Ordering::Relaxed);
}

impl<T: Copy> Producer<T> {
    /// Push a prefix of `items`, in order, stopping at the first item the queue refuses;
    /// the refused remainder is counted as overflow. Returns how many were pushed; they
    /// are added to what this producer has sent.
    pub fn try_push_batch(&mut self, items: &[T]) -> (n: usize)
        ensures
            n <= items@.len(),
            final(self).sent() == old(self).sent() + items@.take(n as int),
            final(self).capacity() == old(self).capacity(),
    {
        let mut n: usize = 0;
        while n < items.len()
            invariant
                n <= items@.len(),
                self.sent() == old(self).sent() + items@.take(n as int),
                self.capacity() == old(self).capacity(),
            decreases items@.len() - n,
        {
            if !self.send_one(items[n]) {
                break;
            }
            assert(items@.take(n + 1) =~= items@.take(n as int).push(items@[n as int]));
            n = n + 1;
        }
        if n < items.len() {
            add_overflow(&self.overflow, (items.len() - n) as u64);
        }
        n
    }
}

impl<T: Copy> Consumer<T> {
    /// Pop up to `out.len()` items into the front of `out`, oldest first. Returns how
    /// many were popped: they are exactly what this call added to the record of what was
    /// received, in order; the rest of `out` is untouched.
    pub fn try_pop_batch(&mut self, out: &mut [T]) -> (n: usize)
        ensures
            n <= old(out)@.len(),
            final(out)@.len() == old(out)@.len(),
            final(self).received().len() == old(self).received().len() + n,
            final(self).received().take(old(self).received().len() as int) == old(self).received(),
            final(out)@.take(n as int) == final(self).received().skip(old(self).received().len() as int),
            forall|j: int| n <= j < old(out)@.len() ==> #[trigger] final(out)@[j] == old(out)@[j],
            final(self).capacity() == old(self).capacity(),
    {
        let mut n: usize = 0;
        while n < out.len()
            invariant
                n <= out@.len(),
                out@.len() == old(out)@.len(),
                self.received().len() == old(self).received().len() + n,
                self.received().take(old(self).received().len() as int) == old(self).received(),
                out@.take(n as int) == self.received().skip(old(self).received().len() as int),
                forall|j: int| n <= j < old(out)@.len() ==> #[trigger] out@[j] == old(out)@[j],
                self.capacity() == old(self).capacity(),
            decreases out@.len() - n,
        {
            let ghost before = self.received();
            let ghost out_before = out@;
            match self.recv_one() {
                Some(v) => {
                    out[n] = v;
                    proof {
                        let k = old(self).received().len() as int;
                        assert(self.received() == before.push(v));
                        assert(self.received().take(k) =~= before.take(k));
                        assert(out@.take(n + 1) =~= out_before.take(n as int).push(v));
                        assert(self.received().skip(k) =~= before.skip(k).push(v));
                    }
                    n = n + 1;
                },
                None => {
                    break;
                },
            }
        }
        n
    }
}

} // verus!
