//! Worker: sole consumer of exactly one queue; Router: stamps the dense id and pushes
//! each trade to exactly one core's queue.

use vstd::prelude::*;
use std::sync::Arc;
use std::sync::atomic::AtomicBool;
use vstd::arithmetic::power2::pow2;
use crate::bar_core::Core;
use crate::directory::{core_of, Snapshot};
use crate::ingest::{empty_trade, Trade};
use crate::spsc::{Consumer, Producer, BATCH};

verus! {

pub struct Router {
    pub producers: Vec<Producer<Trade>>,
    pub snapshot: Arc<Snapshot>,
    pub core_mask: u32,
}

impl Router {
    /// One queue per core, `core_mask + 1` of them, and a well-formed snapshot.
    pub open spec fn wf(&self) -> bool {
        &&& self.producers@.len() == self.core_mask as int + 1
        &&& self.snapshot.wf()
    }

    pub fn new(producers: Vec<Producer<Trade>>, snapshot: Arc<Snapshot>) -> (r: Self)
        requires
            exists|bits: nat| producers@.len() == pow2(bits),
            producers@.len() <= u32::MAX,
        ensures
            r.producers == producers,
            r.snapshot == snapshot,
            r.core_mask == producers@.len() - 1,
            snapshot.wf() ==> r.wf(),
    {
        proof {
            let bits = choose|bits: nat| producers@.len() == pow2(bits);
            vstd::arithmetic::power2::lemma_pow2_pos(bits);
        }
        let mask = (producers.len() as u32).wrapping_sub(1);
        Self { producers, snapshot, core_mask: mask }
    }

    /// Stamp the dense id from the snapshot, then deliver to exactly one core queue
    /// (`dense & core_mask`). `None` when the symbol is unknown or that queue is full.
    /// The trade is handed to that core's producer and to no other.
    pub fn dispatch(&mut self, t: &mut Trade) -> (r: Option<usize>)
        requires
            old(self).wf(),
        ensures
            final(self).wf(),
            final(self).snapshot == old(self).snapshot,
            final(self).core_mask == old(self).core_mask,
            final(self).producers@.len() == old(self).producers@.len(),
            match old(self).snapshot.dense_from(old(t).symbol_hash, 0) {
                None => r is None && *final(t) == *old(t),
                Some(d) => {
                    &&& *final(t) == (Trade { dense_id: d, ..*old(t) })
                    &&& (r is None || r == Some((d & old(self).core_mask) as usize))
                },
            },
            forall|i: int|
                0 <= i < old(self).producers@.len() ==> {
                    &&& (#[trigger] final(self).producers@[i]).sent() == if r == Some(i as usize) {
                        old(self).producers@[i].sent().push(*final(t))
                    } else {
                        old(self).producers@[i].sent()
                    }
                    &&& final(self).producers@[i].capacity() == old(self).producers@[i].capacity()
                },
    {
        let d = match self.snapshot.dense_of(t.symbol_hash) {
            Some(d) => d,
            None => {
                return None;
            },
        };
        t.dense_id = d;
        let c = core_of(d, self.core_mask) as usize;
        let one = [*t];
        let ghost before = self.producers@;
        let n = self.producers[c].try_push_batch(&one);
        proof {
            assert(one@.take(0) =~= Seq::<Trade>::empty());
            assert(one@.take(1) =~= seq![*t]);
            assert forall|i: int| 0 <= i < before.len() && i != c implies #[trigger] self.producers@[i]
                == before[i] by {}
            assert(before[c as int].sent() + Seq::<Trade>::empty() =~= before[c as int].sent());
        }
        if n == 1 {
            Some(c)
        } else {
            None
        }
    }

    pub fn update_snapshot(&mut self, s: Arc<Snapshot>)
        ensures
            final(self).snapshot == s,
            final(self).producers == old(self).producers,
            final(self).core_mask == old(self).core_mask,
    {
        self.snapshot = s;
    }

    pub fn into_producers(self) -> (p: Vec<Producer<Trade>>)
        ensures
            p == self.producers,
    {
        self.producers
    }
}

pub struct Worker {
    pub core_id: u32,
    pub core: Core,
    pub consumer: Consumer<Trade>,
    pub stop: Arc<AtomicBool>,
}

/// What an idle worker does before polling again.
#[derive(Clone, Copy, Debug, PartialEq, Eq)]
pub enum Idle {
    Spin,
    Yield,
    Sleep,
}

/// The idle step and the new count after an empty poll with `spins` empty polls behind.
pub open spec fn idle_after(spins: u32) -> (Idle, u32) {
    if spins + 1 < 1000 {
        (Idle::Spin, (spins + 1) as u32)
    } else if spins + 1 < 2000 {
        (Idle::Yield, (spins + 1) as u32)
    } else {
        (Idle::Sleep, 0u32)
    }
}

/// What a worker does after one poll of its queue.
#[derive(Clone, Copy, Debug, PartialEq, Eq)]
pub enum Step {
    /// Poll again at once.
    Poll,
    /// Idle this way, then poll again.
    Wait(Idle),
    /// Leave the loop.
    Exit,
}

/// One trade's effect on a core: a valid trade that every active slot can take is
/// folded into the active slots (buy side = not buyer-maker); anything else leaves the core.
pub open spec fn fold_step(c: Core, t: Trade, c2: Core) -> bool {
    if t.valid && c.can_fold_active(t.price, t.qty, !t.is_buyer_maker) {
        Core::fold_active_post(c, c2, t.price, t.qty, t.ts_ns, !t.is_buyer_maker)
    } else {
        c2 == c
    }
}

/// `cs` traces the core through the trades `ts`: it starts at `c`, each step is one
/// `fold_step`, and it ends at `c2`.
pub open spec fn fold_trace(c: Core, ts: Seq<Trade>, c2: Core, cs: Seq<Core>) -> bool {
    &&& cs.len() == ts.len() + 1
    &&& cs[0] == c
    &&& cs.last() == c2
    &&& forall|i: int| 0 <= i < ts.len() ==> fold_step(#[trigger] cs[i], ts[i], cs[i + 1])
}

/// `c2` is `c` after the trades `ts`, in order.
pub open spec fn folds_all(c: Core, ts: Seq<Trade>, c2: Core) -> bool {
    exists|cs: Seq<Core>| fold_trace(c, ts, c2, cs)
}

impl Worker {
    /// Fold a batch of trades into the core, in order: each valid trade that every
    /// active slot can take is folded as a buy when its buyer is not the maker; a trade
    /// that would overflow a slot's arithmetic, or is invalid, is left unfolded.
    pub fn fold_batch(&mut self, batch: &[Trade])
        ensures
            folds_all(old(self).core, batch@, final(self).core),
            final(self).core_id == old(self).core_id,
            final(self).stop == old(self).stop,
            final(self).consumer == old(self).consumer,
    {
        let ghost start = self.core;
        let ghost mut trace: Seq<Core> = seq![self.core];
        let mut k: usize = 0;
        while k < batch.len()
            invariant
                k <= batch@.len(),
                fold_trace(start, batch@.take(k as int), self.core, trace),
                self.core_id == old(self).core_id,
                self.stop == old(self).stop,
                self.consumer == old(self).consumer,
            decreases batch@.len() - k,
        {
            let t = batch[k];
            let ghost before = self.core;
            if t.valid && self.core.accepts_trade(t.price, t.qty, !t.is_buyer_maker) {
                self.core.fold_active(t.price, t.qty, t.ts_ns, !t.is_buyer_maker);
            }
            proof {
                let ts1 = batch@.take(k as int + 1);
                let trace0 = trace;
                trace = trace.push(self.core);
                assert forall|i: int| 0 <= i < ts1.len() implies fold_step(
                    #[trigger] trace[i],
                    ts1[i],
                    trace[i + 1],
                ) by {
                    if i < k {
                        assert(trace[i] == trace0[i]);
                        assert(trace[i + 1] == trace0[i + 1]);
                        assert(ts1[i] == batch@.take(k as int)[i]);
                    } else {
                        assert(trace[i] == before);
                        assert(ts1[i] == t);
                    }
                }
            }
            k = k + 1;
        }
        assert(batch@.take(k as int) =~= batch@);
    }

    /// Drain at most one batch from the queue and fold exactly the trades popped, in
    /// order, with `fold_batch`. How many there are depends on the producer thread.
    pub fn drain_once(&mut self) -> (n: usize)
        ensures
            n <= BATCH,
            final(self).consumer.received().len() == old(self).consumer.received().len() + n,
            final(self).consumer.received().take(old(self).consumer.received().len() as int)
                == old(self).consumer.received(),
            folds_all(
                old(self).core,
                final(self).consumer.received().skip(old(self).consumer.received().len() as int),
                final(self).core,
            ),
            final(self).consumer.capacity() == old(self).consumer.capacity(),
            final(self).core_id == old(self).core_id,
            final(self).stop == old(self).stop,
    {
        let e = empty_trade();
        let mut buf = [e; 64];
        let n = self.consumer.try_pop_batch(&mut buf);
        let popped = vstd::slice::slice_subrange(buf.as_slice(), 0, n);
        assert(popped@ =~= buf@.take(n as int));
        self.fold_batch(popped);
        n
    }

    /// The idle policy after an empty poll: spin for the first 999 polls, then yield
    /// until the 1999th, then sleep and start counting again.
    pub fn backoff(spins: u32) -> (r: (Idle, u32))
        requires
            spins < u32::MAX,
        ensures
            r == idle_after(spins),
            spins + 1 < 1000 ==> r == (Idle::Spin, (spins + 1) as u32),
            1000 <= spins + 1 < 2000 ==> r == (Idle::Yield, (spins + 1) as u32),
            spins + 1 >= 2000 ==> r == (Idle::Sleep, 0u32),
    {
        let s = spins + 1;
        if s < 1000 {
            (Idle::Spin, s)
        } else if s < 2000 {
            (Idle::Yield, s)
        } else {
            (Idle::Sleep, 0)
        }
    }
}

impl Worker {
    /// The worker loop's decision after a poll that drained `n` trades, the stop flag
    /// having been read as `stop` just before it. Once stopping, the worker keeps
    /// draining until a poll comes back empty and then exits, so queued trades are never
    /// dropped; otherwise it polls again at once after a non-empty poll, and idles by
    /// `backoff` after an empty one.
    pub fn after_poll(stop: bool, n: usize, spins: u32) -> (r: (Step, u32))
        requires
            spins < u32::MAX,
        ensures
            stop && n == 0 ==> r == (Step::Exit, spins),
            n > 0 ==> r == (Step::Poll, 0u32),
            !stop && n == 0 ==> r == (Step::Wait(idle_after(spins).0), idle_after(spins).1),
    {
        if n > 0 {
            (Step::Poll, 0)
        } else if stop {
            (Step::Exit, spins)
        } else {
            let (idle, next) = Worker::backoff(spins);
            (Step::Wait(idle), next)
        }
    }
}

} // verus!
