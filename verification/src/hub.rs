//! Hub: owns the per-core queues, the cores, the closer and the directory.
//! Each symbol goes to exactly one core (`dense & (num_cores - 1)`); the hub holds the
//! producers, workers hold the consumers.

use vstd::prelude::*;
use std::sync::Arc;
use std::sync::atomic::AtomicBool;
use vstd::arithmetic::power2::pow2;
use vstd::string::StringSliceAdditionalSpecFns;
use crate::bar_core::{empty_slot, Core, HotSlot};
use crate::closer::{history_after, spec_from_slot, ClosedBar, Closer};
use crate::directory::{arc_clone, core_of, lemma_snapshot_lookup, Directory};
use crate::ingest::{hash_symbol, spec_hash_symbol, Trade};
use crate::spsc::{Consumer, Producer, Ring};
use crate::worker::{Router, Worker};

verus! {

pub struct Hub {
    pub num_cores: usize,
    pub cores: Vec<Core>,
    pub closer: Closer,
    producers: Vec<Producer<Trade>>,
    consumers: Vec<Option<Consumer<Trade>>>,
    stop: Arc<AtomicBool>,
    pub dir: Directory,
}

fn raise_flag(f: &AtomicBool) {
    f.store(true, std::sync::atomic::Ordering::Release);
}

fn new_flag() -> AtomicBool {
    AtomicBool::new(false)
}

pub open spec fn is_pow2(n: int) -> bool {
    exists|bits: nat| n == pow2(bits)
}

impl Hub {
    /// One queue per core, a power-of-two core count, and a directory of 4096 slots.
    pub closed spec fn wf(&self) -> bool {
        &&& self.producers@.len() == self.num_cores
        &&& self.consumers@.len() == self.num_cores
        &&& is_pow2(self.num_cores as int)
        &&& self.num_cores <= 0x8000_0000
        &&& self.dir.wf()
        &&& self.dir.current().cap() == 4096
        &&& forall|i: int| 0 <= i < self.num_cores ==> (#[trigger] self.producers@[i]).capacity() == 1023
        &&& forall|i: int|
            0 <= i < self.num_cores ==> (#[trigger] self.consumers@[i] matches Some(c) ==> c.received()
                == Seq::<Trade>::empty() && c.capacity() == 1023)
    }

    /// What a well-formed hub promises: its directory is well formed, with room for
    /// 4096 symbols, and the core count is a power of two.
    pub proof fn lemma_wf(&self)
        requires
            self.wf(),
        ensures
            self.spec_dir().wf(),
            self.spec_dir().current().cap() == 4096,
            is_pow2(self.spec_num_cores() as int),
            self.spec_num_cores() <= 0x8000_0000,
    {
    }

    /// One symbol, one core: two trades with the same symbol hash get the same dense id
    /// from the hub's snapshot, hence the same core; that id is the symbol's interned id
    /// and the core exists.
    pub proof fn lemma_one_symbol_one_core(&self, t1: Trade, t2: Trade)
        requires
            self.wf(),
            t1.symbol_hash == t2.symbol_hash,
        ensures
            self.spec_dir().current().dense_from(t1.symbol_hash, 0) == self.spec_dir().current().dense_from(
                t2.symbol_hash,
                0,
            ),
            self.spec_dir().current().dense_from(t1.symbol_hash, 0) matches Some(d) ==> {
                &&& self.spec_dir().interned().contains_key(t1.symbol_hash)
                &&& self.spec_dir().interned()[t1.symbol_hash] == d
                &&& (d & ((self.spec_num_cores() - 1) as u32)) < self.spec_num_cores()
            },
    {
        self.dir.lemma_wf();
        lemma_snapshot_lookup(self.dir.current(), self.dir.interned(), t1.symbol_hash);
        let bits = choose|bits: nat| self.num_cores == pow2(bits);
        vstd::arithmetic::power2::lemma_pow2_pos(bits);
        let m = (self.num_cores - 1) as u32;
        assert forall|d: u32| (d & m) <= m by {
            assert((d & m) <= m) by (bit_vector);
        }
    }

    pub closed spec fn spec_num_cores(&self) -> usize {
        self.num_cores
    }

    pub closed spec fn spec_cores(&self) -> Seq<Core> {
        self.cores@
    }

    pub closed spec fn spec_closer(&self) -> Closer {
        self.closer
    }

    pub closed spec fn spec_dir(&self) -> Directory {
        self.dir
    }

    /// Core `i`'s consumer has not been handed to a worker yet.
    pub closed spec fn worker_available(&self, i: int) -> bool {
        0 <= i < self.consumers@.len() && self.consumers@[i] is Some
    }

    /// What the hub has handed to core `i`'s queue so far, in order.
    pub closed spec fn sent_to(&self, i: int) -> Seq<Trade> {
        self.producers@[i].sent()
    }

    /// The stop flag shared with every worker.
    pub closed spec fn stop_flag(&self) -> Arc<AtomicBool> {
        self.stop
    }

    pub fn new(num_cores: usize, slots_per_core: usize, num_series: usize) -> (h: Self)
        requires
            is_pow2(num_cores as int),
            num_cores <= 0x8000_0000,
        ensures
            h.wf(),
            h.spec_num_cores() == num_cores,
            h.spec_cores().len() == num_cores,
            forall|i: int|
                0 <= i < num_cores ==> {
                    &&& (#[trigger] h.spec_cores()[i]).slots@.len() == slots_per_core
                    &&& h.spec_cores()[i].fps@.len() == slots_per_core
                    &&& h.spec_cores()[i].active_mask == 0
                    &&& forall|j: int|
                        0 <= j < slots_per_core ==> #[trigger] h.spec_cores()[i].slots@[j]
                            == empty_slot() && h.spec_cores()[i].fps@[j] is None
                },
            h.spec_closer().wf(),
            h.spec_closer().history@.len() == num_series,
            forall|i: int| 0 <= i < num_series ==> (#[trigger] h.spec_closer().history@[i])@.len() == 0,
            h.spec_closer().handoff_count == 0,
            h.spec_closer().drop_count == 0,
            h.spec_dir().interned() == Map::<u32, u32>::empty(),
            h.spec_dir().next_id() == 0,
            forall|i: int| 0 <= i < num_cores ==> h.worker_available(i),
            forall|i: int| 0 <= i < num_cores ==> #[trigger] h.sent_to(i) == Seq::<Trade>::empty(),
    {
        let mut producers: Vec<Producer<Trade>> = Vec::new();
        let mut consumers: Vec<Option<Consumer<Trade>>> = Vec::new();
        let mut cores: Vec<Core> = Vec::new();
        let mut k: usize = 0;
        while k < num_cores
            invariant
                k <= num_cores,
                producers@.len() == k,
                consumers@.len() == k,
                cores@.len() == k,
                forall|i: int| 0 <= i < k ==> (#[trigger] consumers@[i]) is Some,
                forall|i: int| 0 <= i < k ==> (#[trigger] producers@[i]).capacity() == 1023,
                forall|i: int|
                    0 <= i < k ==> (#[trigger] consumers@[i] matches Some(c) ==> c.received()
                        == Seq::<Trade>::empty() && c.capacity() == 1023),
                forall|i: int| 0 <= i < k ==> (#[trigger] producers@[i]).sent() == Seq::<Trade>::empty(),
                forall|i: int|
                    0 <= i < k ==> {
                        &&& (#[trigger] cores@[i]).slots@.len() == slots_per_core
                        &&& cores@[i].fps@.len() == slots_per_core
                        &&& cores@[i].active_mask == 0
                        &&& forall|j: int|
                            0 <= j < slots_per_core ==> #[trigger] cores@[i].slots@[j]
                                == empty_slot() && cores@[i].fps@[j] is None
                    },
            decreases num_cores - k,
        {
            let (p, c) = Ring::<Trade>::with_capacity_pow2(10);
            proof {
                vstd::arithmetic::power2::lemma2_to64();
            }
            producers.push(p);
            consumers.push(Some(c));
            cores.push(Core::new(slots_per_core));
            k = k + 1;
        }
        let dir = Directory::new_pow2(12);
        proof {
            vstd::arithmetic::power2::lemma2_to64();
        }
        Self {
            num_cores,
            cores,
            closer: Closer::new(num_series),
            producers,
            consumers,
            stop: Arc::new(new_flag()),
            dir,
        }
    }

    /// Cold: subscribe a symbol string; returns its dense id (stable forever).
    pub fn subscribe(&mut self, symbol: &str) -> (d: u32)
        requires
            old(self).wf(),
            !old(self).spec_dir().interned().contains_key(spec_hash_symbol(symbol.spec_bytes())) ==> old(self).spec_dir().interned().len() < 4096,
        ensures
            final(self).wf(),
            ({
                let h = spec_hash_symbol(symbol.spec_bytes());
                &&& final(self).spec_dir().interned().contains_key(h)
                &&& d == final(self).spec_dir().interned()[h]
                &&& old(self).spec_dir().interned().contains_key(h) ==> final(self).spec_dir().interned() == old(self).spec_dir().interned()
                &&& !old(self).spec_dir().interned().contains_key(h) ==> final(self).spec_dir().interned() == old(self).spec_dir().interned().insert(h, d)
                &&& !old(self).spec_dir().interned().contains_key(h) ==> d == old(self).spec_dir().next_id()
                    && final(self).spec_dir().next_id() == old(self).spec_dir().next_id() + 1
                &&& old(self).spec_dir().interned().contains_key(h) ==> final(self).spec_dir().next_id()
                    == old(self).spec_dir().next_id()
            }),
            final(self).spec_num_cores() == old(self).spec_num_cores(),
            final(self).spec_cores() == old(self).spec_cores(),
            final(self).spec_closer() == old(self).spec_closer(),
            forall|i: int| #[trigger] final(self).worker_available(i) == old(self).worker_available(i),
            final(self).stop_flag() == old(self).stop_flag(),
            forall|i: int| #[trigger] final(self).sent_to(i) == old(self).sent_to(i),
    {
        let h = hash_symbol(symbol.as_bytes());
        self.dir.intern(h)
    }

    /// Whether `subscribe(symbol)` has room in the directory.
    pub fn can_subscribe(&self, symbol: &str) -> (r: bool)
        requires
            self.wf(),
        ensures
            r == (self.spec_dir().interned().contains_key(spec_hash_symbol(symbol.spec_bytes()))
                || self.spec_dir().interned().len() < 4096),
    {
        let h = hash_symbol(symbol.as_bytes());
        self.dir.has_room_for(h)
    }

    /// The core a dense id routes to.
    pub fn core_of(&self, dense: u32) -> (c: usize)
        requires
            1 <= self.spec_num_cores() <= u32::MAX,
        ensures
            c == dense & ((self.spec_num_cores() - 1) as u32),
    {
        core_of(dense, (self.num_cores as u32) - 1) as usize
    }

    /// Ingest one parsed trade: stamp its dense id from the current snapshot, then push
    /// it to exactly one core's queue. `None`: unknown symbol, or that queue is full.
    pub fn ingest(&mut self, t: &mut Trade) -> (r: Option<usize>)
        requires
            old(self).wf(),
        ensures
            final(self).wf(),
            final(self).spec_num_cores() == old(self).spec_num_cores(),
            final(self).spec_cores() == old(self).spec_cores(),
            final(self).spec_closer() == old(self).spec_closer(),
            final(self).spec_dir() == old(self).spec_dir(),
            forall|i: int| #[trigger] final(self).worker_available(i) == old(self).worker_available(i),
            final(self).stop_flag() == old(self).stop_flag(),
            forall|i: int|
                0 <= i < old(self).spec_num_cores() ==> #[trigger] final(self).sent_to(i) == if r
                    == Some(i as usize) {
                    old(self).sent_to(i).push(*final(t))
                } else {
                    old(self).sent_to(i)
                },
            match old(self).spec_dir().current().dense_from(old(t).symbol_hash, 0) {
                None => r is None && *final(t) == *old(t),
                Some(d) => {
                    &&& *final(t) == (Trade { dense_id: d, ..*old(t) })
                    &&& (r is None || r == Some((d & ((old(self).spec_num_cores() - 1) as u32)) as usize))
                },
            },
            r is Some ==> {
                &&& old(self).spec_dir().interned().contains_key(old(t).symbol_hash)
                &&& final(t).dense_id == old(self).spec_dir().interned()[old(t).symbol_hash]
            },
    {
        proof {
            self.dir.lemma_wf();
            lemma_snapshot_lookup(self.dir.current(), self.dir.interned(), t.symbol_hash);
        }
        let snap = self.dir.snapshot();
        let mut ps: Vec<Producer<Trade>> = Vec::new();
        std::mem::swap(&mut ps, &mut self.producers);
        let mut router = Router::new(ps, snap);
        let r = router.dispatch(t);
        self.producers = router.into_producers();
        r
    }

    /// Hand the slot `series_idx % slots` of core `core_idx` to the closer as series
    /// `series_idx`'s newest closed bar.
    pub fn close_series_bar(&mut self, core_idx: usize, series_idx: usize, poc: i64)
        requires
            core_idx < old(self).spec_cores().len(),
            old(self).spec_cores()[core_idx as int].slots@.len() > 0,
            old(self).spec_closer().can_accept(
                spec_from_slot(
                    series_idx,
                    old(self).spec_cores()[core_idx as int].slots@[series_idx as int
                        % old(self).spec_cores()[core_idx as int].slots@.len() as int],
                    poc,
                ),
            ),
        ensures
            ({
                let c = old(self).spec_cores()[core_idx as int];
                let bar = spec_from_slot(
                    series_idx,
                    c.slots@[series_idx as int % c.slots@.len() as int],
                    poc,
                );
                &&& final(self).spec_closer().history@.len() == old(self).spec_closer().history@.len()
                &&& final(self).spec_closer().history@[series_idx as int]@ == history_after(
                    old(self).spec_closer().history@[series_idx as int]@,
                    bar,
                )
                &&& forall|i: int|
                    0 <= i < old(self).spec_closer().history@.len() && i != series_idx ==> #[trigger] final(self).spec_closer().history@[i] == old(self).spec_closer().history@[i]
                &&& final(self).spec_closer().handoff_count == old(self).spec_closer().handoff_count + 1
            }),
            old(self).spec_closer().wf() ==> final(self).spec_closer().wf(),
            forall|i: int| #[trigger] final(self).sent_to(i) == old(self).sent_to(i),
            final(self).spec_cores() == old(self).spec_cores(),
            final(self).spec_dir() == old(self).spec_dir(),
            final(self).spec_num_cores() == old(self).spec_num_cores(),
            old(self).wf() ==> final(self).wf(),
    {
        let n = self.cores[core_idx].slots.len();
        let bar = ClosedBar::from_slot(series_idx, &self.cores[core_idx].slots[series_idx % n], poc);
        self.closer.accept(bar);
    }

    /// Ask every worker to stop (they drain their queue first).
    pub fn stop_workers(&self) {
        raise_flag(&self.stop);
    }

    /// Whether core `core_idx`'s worker can still be spawned.
    pub fn can_spawn_worker(&self, core_idx: usize) -> (r: bool)
        ensures
            r == self.worker_available(core_idx as int),
    {
        core_idx < self.consumers.len() && self.consumers[core_idx].is_some()
    }

    /// Take core `core_idx`'s consumer and build its worker: a fresh core of the same
    /// size with the same active mask, and the shared stop flag.
    pub fn spawn_worker(&mut self, core_idx: usize) -> (w: Worker)
        requires
            old(self).worker_available(core_idx as int),
            core_idx < old(self).spec_cores().len(),
            core_idx <= u32::MAX,
        ensures
            w.core_id == core_idx,
            w.core.slots@.len() == old(self).spec_cores()[core_idx as int].slots@.len(),
            w.core.fps@.len() == old(self).spec_cores()[core_idx as int].slots@.len(),
            forall|i: int| 0 <= i < w.core.slots@.len() ==> #[trigger] w.core.slots@[i] == empty_slot(),
            forall|i: int| 0 <= i < w.core.fps@.len() ==> (#[trigger] w.core.fps@[i]) is None,
            w.core.active_mask == old(self).spec_cores()[core_idx as int].active_mask,
            w.stop == old(self).stop_flag(),
            old(self).wf() ==> w.consumer.received() == Seq::<Trade>::empty() && w.consumer.capacity()
                == 1023,
            !final(self).worker_available(core_idx as int),
            forall|i: int|
                i != core_idx ==> #[trigger] final(self).worker_available(i) == old(self).worker_available(i),
            old(self).wf() ==> final(self).wf(),
            final(self).spec_cores() == old(self).spec_cores(),
            final(self).spec_dir() == old(self).spec_dir(),
            final(self).spec_closer() == old(self).spec_closer(),
            final(self).spec_num_cores() == old(self).spec_num_cores(),
            final(self).stop_flag() == old(self).stop_flag(),
            forall|i: int| #[trigger] final(self).sent_to(i) == old(self).sent_to(i),
    {
        let mut slot: Option<Consumer<Trade>> = None;
        std::mem::swap(&mut slot, &mut self.consumers[core_idx]);
        let consumer = slot.unwrap();
        let mut core = Core::new(self.cores[core_idx].slots.len());
        core.active_mask = self.cores[core_idx].active_mask;
        Worker { core_id: core_idx as u32, core, consumer, stop: arc_clone(&self.stop) }
    }
}

} // verus!
