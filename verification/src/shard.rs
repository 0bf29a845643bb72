//! Per-core shard: a flat symbol table plus column-wise series state.
//! A shard is neither `Send` nor `Sync`: one symbol lives on exactly one thread.

use vstd::prelude::*;
use std::marker::PhantomData;
use std::rc::Rc;

verus! {

pub const SHARD_MASK_BITS: u32 = 12;

pub const TABLE_MASK: u32 = 4095;

pub const MAX_PROBE: usize = 8;

pub struct SymbolSlot {
    /// 0 empty, 1 active.
    pub state: u32,
    pub symbol_hash: u32,
    pub series_head: u32,
    pub series_count: u32,
}

impl SymbolSlot {
    pub fn empty() -> (s: Self)
        ensures
            s.state == 0,
            s.symbol_hash == 0,
            s.series_head == u32::MAX,
            s.series_count == 0,
    {
        Self { state: 0, symbol_hash: 0, series_head: u32::MAX, series_count: 0 }
    }
}

pub struct CoreShard {
    pub _no_sync: PhantomData<Rc<()>>,
    pub shard_id: u32,
    pub table: Vec<SymbolSlot>,
    pub s_open: Vec<i64>,
    pub s_high: Vec<i64>,
    pub s_low: Vec<i64>,
    pub s_close: Vec<i64>,
    pub s_vol: Vec<i64>,
    pub s_delta_c: Vec<i64>,
    pub s_threshold: Vec<i64>,
    pub s_kind: Vec<u8>,
}

pub open spec fn is_pow2_u32(n: u32) -> bool {
    n > 0 && n & ((n - 1) as u32) == 0
}

/// Probe for `h` from step `k` (slots `(h & TABLE_MASK) + k` modulo the table size):
/// stops at state 0, finds a slot holding `h`, gives up after `MAX_PROBE` steps.
pub open spec fn shard_lookup_from(t: Seq<SymbolSlot>, h: u32, k: int) -> Option<u32>
    decreases MAX_PROBE - k,
{
    if k < 0 || k >= MAX_PROBE {
        None
    } else {
        let i = ((h & 4095u32) as int + k) % 4096;
        if t[i].state == 0 {
            None
        } else if t[i].symbol_hash == h {
            Some(i as u32)
        } else {
            shard_lookup_from(t, h, k + 1)
        }
    }
}

impl CoreShard {
    pub fn new(shard_id: u32, n_shards: u32) -> (s: Self)
        requires
            is_pow2_u32(n_shards),
        ensures
            s.shard_id == shard_id,
            s.table@.len() == 4096,
            forall|i: int| 0 <= i < 4096 ==> (#[trigger] s.table@[i]).state == 0,
            forall|i: int| 0 <= i < 4096 ==> (#[trigger] s.table@[i]).series_head == u32::MAX,
            s.s_open@.len() == 0 && s.s_high@.len() == 0 && s.s_low@.len() == 0 && s.s_close@.len()
                == 0 && s.s_vol@.len() == 0 && s.s_delta_c@.len() == 0 && s.s_threshold@.len() == 0
                && s.s_kind@.len() == 0,
    {
        let cap: usize = 4096;
        let mut table: Vec<SymbolSlot> = Vec::with_capacity(cap);
        let mut k: usize = 0;
        while k < cap
            invariant
                k <= cap,
                cap == 4096,
                table@.len() == k,
                forall|i: int| 0 <= i < k ==> (#[trigger] table@[i]).state == 0,
                forall|i: int| 0 <= i < k ==> (#[trigger] table@[i]).series_head == u32::MAX,
            decreases cap - k,
        {
            table.push(SymbolSlot::empty());
            k = k + 1;
        }
        Self {
            _no_sync: PhantomData,
            shard_id,
            table,
            s_open: Vec::new(),
            s_high: Vec::new(),
            s_low: Vec::new(),
            s_close: Vec::new(),
            s_vol: Vec::new(),
            s_delta_c: Vec::new(),
            s_threshold: Vec::new(),
            s_kind: Vec::new(),
        }
    }

    /// Pure router: the same hash always goes to the same shard.
    pub fn route(symbol_hash: u32, n_shards: u32) -> (r: u32)
        requires
            n_shards >= 1,
        ensures
            r == symbol_hash & ((n_shards - 1) as u32),
            is_pow2_u32(n_shards) ==> r < n_shards,
    {
        let r = symbol_hash & (n_shards - 1);
        assert(n_shards > 0 && n_shards & ((n_shards - 1) as u32) == 0 ==> r < n_shards)
            by (bit_vector)
            requires
                r == symbol_hash & ((n_shards - 1) as u32),
        ;
        r
    }

    pub fn lookup(&self, symbol_hash: u32) -> (r: Option<u32>)
        requires
            self.table@.len() == 4096,
        ensures
            r == shard_lookup_from(self.table@, symbol_hash, 0),
    {
        let mut idx = (symbol_hash & TABLE_MASK) as usize;
        assert(symbol_hash & 4095u32 < 4096) by (bit_vector);
        let mut k: usize = 0;
        while k < MAX_PROBE
            invariant
                self.table@.len() == 4096,
                k <= MAX_PROBE,
                idx as int == ((symbol_hash & 4095u32) as int + k) % 4096,
                shard_lookup_from(self.table@, symbol_hash, 0) == shard_lookup_from(
                    self.table@,
                    symbol_hash,
                    k as int,
                ),
            decreases MAX_PROBE - k,
        {
            let s = &self.table[idx];
            if s.state == 0 {
                return None;
            }
            if s.symbol_hash == symbol_hash {
                return Some(idx as u32);
            }
            assert(((idx + 1) as usize) & 4095usize == ((idx + 1) as usize) % 4096) by (bit_vector)
                requires
                    idx < 4096,
            ;
            proof {
                vstd::arithmetic::div_mod::lemma_add_mod_noop(
                    (symbol_hash & 4095u32) as int + k,
                    1,
                    4096,
                );
            }
            idx = (idx + 1) & (TABLE_MASK as usize);
            k = k + 1;
        }
        None
    }

    /// The series the slot heads, when it has one, can take this trade.
    pub open spec fn can_fold(&self, slot_idx: u32, qty: i64, is_buy: bool) -> bool {
        &&& slot_idx < self.table@.len()
        &&& self.table@[slot_idx as int].series_head != u32::MAX ==> {
            let h = self.table@[slot_idx as int].series_head as int;
            &&& h < self.s_close@.len() && h < self.s_high@.len() && h < self.s_low@.len()
                && h < self.s_vol@.len() && h < self.s_delta_c@.len()
            &&& i64::MIN <= self.s_vol@[h] + qty <= i64::MAX
            &&& (if is_buy {
                i64::MIN <= self.s_delta_c@[h] + qty <= i64::MAX
            } else {
                i64::MIN <= self.s_delta_c@[h] - qty <= i64::MAX
            })
        }
    }

    /// Fold one trade into the series headed by slot `slot_idx`: raise high, lower low,
    /// set close, add volume, add the signed quantity to the delta. No series: no change.
    pub fn fold_trade(&mut self, slot_idx: u32, price: i64, qty: i64, is_buy: bool)
        requires
            old(self).can_fold(slot_idx, qty, is_buy),
        ensures
            final(self).table@ == old(self).table@,
            final(self).s_open@ == old(self).s_open@,
            final(self).s_threshold@ == old(self).s_threshold@,
            final(self).s_kind@ == old(self).s_kind@,
            ({
                let head = old(self).table@[slot_idx as int].series_head;
                if head == u32::MAX {
                    &&& final(self).s_high@ == old(self).s_high@
                    &&& final(self).s_low@ == old(self).s_low@
                    &&& final(self).s_close@ == old(self).s_close@
                    &&& final(self).s_vol@ == old(self).s_vol@
                    &&& final(self).s_delta_c@ == old(self).s_delta_c@
                } else {
                    let h = head as int;
                    &&& final(self).s_high@ == old(self).s_high@.update(
                        h,
                        if old(self).s_high@[h] < price {
                            price
                        } else {
                            old(self).s_high@[h]
                        },
                    )
                    &&& final(self).s_low@ == old(self).s_low@.update(
                        h,
                        if old(self).s_low@[h] > price {
                            price
                        } else {
                            old(self).s_low@[h]
                        },
                    )
                    &&& final(self).s_close@ == old(self).s_close@.update(h, price)
                    &&& final(self).s_vol@ == old(self).s_vol@.update(
                        h,
                        (old(self).s_vol@[h] + qty) as i64,
                    )
                    &&& final(self).s_delta_c@ == old(self).s_delta_c@.update(
                        h,
                        (if is_buy {
                            old(self).s_delta_c@[h] + qty
                        } else {
                            old(self).s_delta_c@[h] - qty
                        }) as i64,
                    )
                }
            }),
    {
        let head = self.table[slot_idx as usize].series_head;
        if head == u32::MAX {
            return;
        }
        let h = head as usize;
        if self.s_high[h] < price {
            self.s_high.set(h, price);
        }
        if self.s_low[h] > price {
            self.s_low.set(h, price);
        }
        self.s_close.set(h, price);
        let v = self.s_vol[h] + qty;
        self.s_vol.set(h, v);
        let d = if is_buy {
            self.s_delta_c[h] + qty
        } else {
            self.s_delta_c[h] - qty
        };
        self.s_delta_c.set(h, d);
        proof {
            assert(self.s_high@ =~= old(self).s_high@.update(
                h as int,
                if old(self).s_high@[h as int] < price {
                    price
                } else {
                    old(self).s_high@[h as int]
                },
            ));
            assert(self.s_low@ =~= old(self).s_low@.update(
                h as int,
                if old(self).s_low@[h as int] > price {
                    price
                } else {
                    old(self).s_low@[h as int]
                },
            ));
        }
    }
}

} // verus!
