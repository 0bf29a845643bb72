//! Core hot path: flat slots, bitmask dispatch, OHLC + delta fold.

use vstd::prelude::*;
use crate::footprint::Footprint;

verus! {

pub struct HotSlot {
    pub open: i64,
    pub high: i64,
    pub low: i64,
    pub close: i64,
    pub d_open: i64,
    pub d_high: i64,
    pub d_low: i64,
    pub d_close: i64,
    pub count: u64,
    pub vol: i64,
    pub open_ts: i64,
    pub close_ts: i64,
    pub has_bar: bool,
}

pub struct Core {
    pub slots: Vec<HotSlot>,
    pub active_mask: u32,
    pub fps: Vec<Option<Footprint>>,
}

/// The signed delta of one trade: `+qty` for a buy, `-qty` for a sell.
pub open spec fn signed_qty(qty: i64, is_buy: bool) -> int {
    if is_buy {
        qty as int
    } else {
        -qty
    }
}

pub open spec fn max_i64(a: i64, b: int) -> i64 {
    if a as int >= b {
        a
    } else {
        b as i64
    }
}

pub open spec fn min_i64(a: i64, b: int) -> i64 {
    if a as int <= b {
        a
    } else {
        b as i64
    }
}

/// A slot after one trade: the first trade opens the bar; later trades extend
/// high/low, move close, accumulate signed delta (tracking its high/low), count and volume.
pub open spec fn fold_slot(s: HotSlot, price: i64, qty: i64, ts: i64, is_buy: bool) -> HotSlot {
    let q = signed_qty(qty, is_buy);
    if !s.has_bar {
        HotSlot {
            open: price,
            high: price,
            low: price,
            close: price,
            d_open: q as i64,
            d_high: q as i64,
            d_low: q as i64,
            d_close: q as i64,
            count: 1,
            vol: qty,
            open_ts: ts,
            close_ts: ts,
            has_bar: true,
            ..s
        }
    } else {
        let dc = s.d_close + q;
        HotSlot {
            high: max_i64(s.high, price as int),
            low: min_i64(s.low, price as int),
            close: price,
            d_close: dc as i64,
            d_high: max_i64(s.d_high, dc),
            d_low: min_i64(s.d_low, dc),
            count: (s.count + 1) as u64,
            vol: (s.vol + qty) as i64,
            close_ts: ts,
            ..s
        }
    }
}

/// The slot's arithmetic stays in range for one more trade.
pub open spec fn slot_has_room(s: HotSlot, qty: i64, is_buy: bool) -> bool {
    &&& (!is_buy ==> qty != i64::MIN)
    &&& s.has_bar ==> {
        &&& i64::MIN <= s.d_close + signed_qty(qty, is_buy) <= i64::MAX
        &&& s.count < u64::MAX
        &&& i64::MIN <= s.vol + qty <= i64::MAX
    }
}

/// An open bar's extremes bracket its open and close, for price and delta alike.
pub open spec fn slot_wf(s: HotSlot) -> bool {
    s.has_bar ==> {
        &&& s.low <= s.open <= s.high
        &&& s.low <= s.close <= s.high
        &&& s.d_low <= s.d_open <= s.d_high
        &&& s.d_low <= s.d_close <= s.d_high
        &&& s.count >= 1
    }
}

/// The footprint of a slot, if any, can take the trade.
pub open spec fn fp_has_room(fp: Option<Footprint>, price: i64, qty: i64, is_buy: bool) -> bool {
    match fp {
        Some(f) => f.wf() && f.add_has_room(price, qty, is_buy),
        None => true,
    }
}

/// A slot's footprint after the trade: unchanged when absent, else `add` applied.
pub open spec fn fp_after(
    o: Option<Footprint>,
    f: Option<Footprint>,
    price: i64,
    qty: i64,
    is_buy: bool,
) -> bool {
    match o {
        None => f is None,
        Some(fo) => match f {
            Some(ff) => ff.wf() && Footprint::add_post(fo, ff, price, qty, is_buy),
            None => false,
        },
    }
}

/// Bit `i` of `m`.
pub open spec fn bit32(m: u32, i: int) -> bool {
    0 <= i < 32 && (m >> (i as u32)) & 1u32 == 1u32
}

proof fn lemma_lowest_bit32(bits: u32, s: u32, j: u32)
    by (bit_vector)
    requires
        bits != 0,
        s < 32,
        j < 32,
        (bits >> s) & 1u32 == 1u32,
        bits << ((32 - s) as u32) == 0,
    ensures
        ((bits & ((bits - 1) as u32)) >> j) & 1u32 == (if j == s {
            0u32
        } else {
            (bits >> j) & 1u32
        }),
        (bits & ((bits - 1) as u32)) < bits,
{
}

/// A slot with no bar yet: every field zero.
pub open spec fn empty_slot() -> HotSlot {
    HotSlot {
        open: 0,
        high: 0,
        low: 0,
        close: 0,
        d_open: 0,
        d_high: 0,
        d_low: 0,
        d_close: 0,
        count: 0,
        vol: 0,
        open_ts: 0,
        close_ts: 0,
        has_bar: false,
    }
}

impl Core {
    /// `n` empty slots without footprints; no slot active.
    pub fn new(n: usize) -> (c: Self)
        ensures
            c.slots@.len() == n,
            c.fps@.len() == n,
            c.active_mask == 0,
            forall|i: int| 0 <= i < n ==> #[trigger] c.slots@[i] == empty_slot(),
            forall|i: int| 0 <= i < n ==> (#[trigger] c.fps@[i]) is None,
    {
        let mut slots: Vec<HotSlot> = Vec::new();
        let mut fps: Vec<Option<Footprint>> = Vec::new();
        let mut k: usize = 0;
        while k < n
            invariant
                k <= n,
                slots@.len() == k,
                fps@.len() == k,
                forall|i: int| 0 <= i < k ==> #[trigger] slots@[i] == empty_slot(),
                forall|i: int| 0 <= i < k ==> (#[trigger] fps@[i]) is None,
            decreases n - k,
        {
            slots.push(
                HotSlot {
                    open: 0,
                    high: 0,
                    low: 0,
                    close: 0,
                    d_open: 0,
                    d_high: 0,
                    d_low: 0,
                    d_close: 0,
                    count: 0,
                    vol: 0,
                    open_ts: 0,
                    close_ts: 0,
                    has_bar: false,
                },
            );
            fps.push(None);
            k = k + 1;
        }
        Self { slots, active_mask: 0, fps }
    }

    /// Slot `i` can take this trade: it exists, and neither it nor its footprint overflows.
    pub open spec fn can_fold(&self, i: int, price: i64, qty: i64, is_buy: bool) -> bool {
        &&& 0 <= i < self.slots@.len()
        &&& i < self.fps@.len()
        &&& slot_has_room(self.slots@[i], qty, is_buy)
        &&& fp_has_room(self.fps@[i], price, qty, is_buy)
    }

    /// Fold one trade into slot `i` (and its footprint, if it has one).
    pub fn fold_trade(&mut self, i: usize, price: i64, qty: i64, ts: i64, is_buy: bool)
        requires
            old(self).can_fold(i as int, price, qty, is_buy),
        ensures
            final(self).slots@ == old(self).slots@.update(
                i as int,
                fold_slot(old(self).slots@[i as int], price, qty, ts, is_buy),
            ),
            final(self).fps@.len() == old(self).fps@.len(),
            forall|k: int|
                0 <= k < old(self).fps@.len() && k != i ==> #[trigger] final(self).fps@[k] == old(self).fps@[k],
            fp_after(old(self).fps@[i as int], final(self).fps@[i as int], price, qty, is_buy),
            final(self).active_mask == old(self).active_mask,
    {
        let q = if is_buy {
            qty
        } else {
            -qty
        };
        if !self.slots[i].has_bar {
            self.slots[i].open = price;
            self.slots[i].high = price;
            self.slots[i].low = price;
            self.slots[i].close = price;
            self.slots[i].d_open = q;
            self.slots[i].d_high = q;
            self.slots[i].d_low = q;
            self.slots[i].d_close = q;
            self.slots[i].count = 1;
            self.slots[i].vol = qty;
            self.slots[i].open_ts = ts;
            self.slots[i].close_ts = ts;
            self.slots[i].has_bar = true;
        } else {
            if price > self.slots[i].high {
                self.slots[i].high = price;
            }
            if price < self.slots[i].low {
                self.slots[i].low = price;
            }
            self.slots[i].close = price;
            self.slots[i].d_close = self.slots[i].d_close + q;
            if self.slots[i].d_close > self.slots[i].d_high {
                self.slots[i].d_high = self.slots[i].d_close;
            }
            if self.slots[i].d_close < self.slots[i].d_low {
                self.slots[i].d_low = self.slots[i].d_close;
            }
            self.slots[i].count = self.slots[i].count + 1;
            self.slots[i].vol = self.slots[i].vol + qty;
            self.slots[i].close_ts = ts;
        }
        assert(self.slots@ =~= old(self).slots@.update(
            i as int,
            fold_slot(old(self).slots@[i as int], price, qty, ts, is_buy),
        ));
        match &mut self.fps[i] {
            Some(fp) => {
                fp.add(price, qty, is_buy);
            },
            None => {},
        }
    }

    /// Every set bit of the active mask names a slot that can take this trade.
    pub open spec fn can_fold_active(&self, price: i64, qty: i64, is_buy: bool) -> bool {
        forall|i: int|
            0 <= i < 32 && #[trigger] bit32(self.active_mask, i) ==> self.can_fold(
                i,
                price,
                qty,
                is_buy,
            )
    }

    /// `f` is `o` after `fold_active(price, qty, ts, is_buy)`: every slot named by the
    /// active mask has folded the trade (footprint included), the others are unchanged.
    pub open spec fn fold_active_post(o: Core, f: Core, price: i64, qty: i64, ts: i64, is_buy: bool) -> bool {
        &&& f.active_mask == o.active_mask
        &&& f.slots@.len() == o.slots@.len()
        &&& f.fps@.len() == o.fps@.len()
        &&& forall|i: int|
            0 <= i < o.slots@.len() ==> #[trigger] f.slots@[i] == if bit32(o.active_mask, i) {
                fold_slot(o.slots@[i], price, qty, ts, is_buy)
            } else {
                o.slots@[i]
            }
        &&& forall|i: int|
            0 <= i < o.fps@.len() ==> if bit32(o.active_mask, i) {
                fp_after(o.fps@[i], #[trigger] f.fps@[i], price, qty, is_buy)
            } else {
                f.fps@[i] == o.fps@[i]
            }
    }

    /// Whether every slot named by the active mask can take this trade.
    pub fn accepts_trade(&self, price: i64, qty: i64, is_buy: bool) -> (r: bool)
        ensures
            r == self.can_fold_active(price, qty, is_buy),
    {
        let mut i: u32 = 0;
        while i < 32
            invariant
                i <= 32,
                forall|j: int|
                    0 <= j < i && #[trigger] bit32(self.active_mask, j) ==> self.can_fold(
                        j,
                        price,
                        qty,
                        is_buy,
                    ),
            decreases 32 - i,
        {
            if (self.active_mask >> i) & 1 == 1 {
                assert(bit32(self.active_mask, i as int));
                assert(!self.can_fold(i as int, price, qty, is_buy) ==> !self.can_fold_active(
                    price,
                    qty,
                    is_buy,
                ));
                let k = i as usize;
                if k >= self.slots.len() || k >= self.fps.len() {
                    return false;
                }
                let s = &self.slots[k];
                if !is_buy && qty == i64::MIN {
                    return false;
                }
                if s.has_bar {
                    let q: i64 = if is_buy {
                        qty
                    } else {
                        -qty
                    };
                    if s.d_close.checked_add(q).is_none() || s.count == u64::MAX
                        || s.vol.checked_add(qty).is_none() {
                        return false;
                    }
                }
                match &self.fps[k] {
                    Some(fp) => {
                        if !fp.can_add(price, qty, is_buy) {
                            return false;
                        }
                    },
                    None => {},
                }
                assert(self.can_fold(i as int, price, qty, is_buy));
            }
            i = i + 1;
        }
        true
    }

    /// Dispatch over the active bitmask, lowest slot first.
    pub fn fold_active(&mut self, price: i64, qty: i64, ts: i64, is_buy: bool)
        requires
            old(self).can_fold_active(price, qty, is_buy),
        ensures
            Core::fold_active_post(*old(self), *final(self), price, qty, ts, is_buy),
    {
        broadcast use vstd::std_specs::bits::axiom_u32_trailing_zeros;

        let ghost orig = *self;
        let mut mask = self.active_mask;
        while mask != 0
            invariant
                self.active_mask == orig.active_mask,
                orig.can_fold_active(price, qty, is_buy),
                self.slots@.len() == orig.slots@.len(),
                self.fps@.len() == orig.fps@.len(),
                forall|j: int| 0 <= j < 32 && #[trigger] bit32(mask, j) ==> bit32(orig.active_mask, j),
                forall|i: int|
                    0 <= i < orig.slots@.len() ==> #[trigger] self.slots@[i] == if bit32(
                        orig.active_mask,
                        i,
                    ) && !bit32(mask, i) {
                        fold_slot(orig.slots@[i], price, qty, ts, is_buy)
                    } else {
                        orig.slots@[i]
                    },
                forall|i: int|
                    0 <= i < orig.fps@.len() ==> if bit32(orig.active_mask, i) && !bit32(mask, i) {
                        fp_after(orig.fps@[i], #[trigger] self.fps@[i], price, qty, is_buy)
                    } else {
                        self.fps@[i] == orig.fps@[i]
                    },
            decreases mask,
        {
            let i = mask.trailing_zeros() as usize;
            let ghost old_mask = mask;
            proof {
                assert forall|j: int| 0 <= j < 32 implies bit32(old_mask & ((old_mask - 1) as u32), j)
                    == (j != i && bit32(old_mask, j)) by {
                    lemma_lowest_bit32(old_mask, i as u32, j as u32);
                }
                lemma_lowest_bit32(old_mask, i as u32, 0);
                assert(bit32(old_mask, i as int));
                assert(bit32(orig.active_mask, i as int));
                assert(self.slots@[i as int] == orig.slots@[i as int]);
                assert(self.fps@[i as int] == orig.fps@[i as int]);
            }
            mask = mask & (mask - 1);
            assert(mask == old_mask & ((old_mask - 1) as u32));
            assert forall|j: int| 0 <= j < 32 && #[trigger] bit32(mask, j) implies bit32(
                orig.active_mask,
                j,
            ) by {
                assert(bit32(old_mask & ((old_mask - 1) as u32), j) == (j != i && bit32(old_mask, j)));
            }
            self.fold_trade(i, price, qty, ts, is_buy);
        }
        proof {
            assert forall|k: int| 0 <= k < 32 implies !bit32(0u32, k) by {
                lemma_zero_no_bit32(k as u32);
            }
        }
    }
}

proof fn lemma_zero_no_bit32(j: u32)
    by (bit_vector)
    ensures
        (0u32 >> j) & 1u32 == 0u32,
{
}

/// Folding a trade keeps a bar's extremes bracketing its open and close.
pub proof fn lemma_fold_keeps_slot_wf(s: HotSlot, price: i64, qty: i64, ts: i64, is_buy: bool)
    requires
        slot_wf(s),
        slot_has_room(s, qty, is_buy),
    ensures
        slot_wf(fold_slot(s, price, qty, ts, is_buy)),
        fold_slot(s, price, qty, ts, is_buy).has_bar,
{
}

/// A trade folded into a slot: price, quantity, time, and whether the taker bought.
pub type SlotTrade = (i64, i64, i64, bool);

/// The quantity a trade adds to the delta: `+qty` for a buy, `-qty` for a sell.
pub open spec fn trade_delta(t: SlotTrade) -> int {
    if t.3 {
        t.1 as int
    } else {
        -(t.1 as int)
    }
}

/// The slot after folding `ts` in order.
pub open spec fn fold_slot_all(s: HotSlot, ts: Seq<SlotTrade>) -> HotSlot
    decreases ts.len(),
{
    if ts.len() == 0 {
        s
    } else {
        let t = ts.last();
        fold_slot(fold_slot_all(s, ts.drop_last()), t.0, t.1, t.2, t.3)
    }
}

/// Sum of the trades' deltas.
pub open spec fn delta_sum(ts: Seq<SlotTrade>) -> int
    decreases ts.len(),
{
    if ts.len() == 0 {
        0
    } else {
        delta_sum(ts.drop_last()) + trade_delta(ts.last())
    }
}

/// Sum of the trades' quantities.
pub open spec fn qty_sum(ts: Seq<SlotTrade>) -> int
    decreases ts.len(),
{
    if ts.len() == 0 {
        0
    } else {
        qty_sum(ts.drop_last()) + ts.last().1
    }
}

/// The largest running delta over the nonempty prefixes of `ts`.
pub open spec fn max_running_delta(ts: Seq<SlotTrade>) -> int
    decreases ts.len(),
{
    if ts.len() <= 1 {
        delta_sum(ts)
    } else {
        let m = max_running_delta(ts.drop_last());
        if m >= delta_sum(ts) {
            m
        } else {
            delta_sum(ts)
        }
    }
}

/// The smallest running delta over the nonempty prefixes of `ts`.
pub open spec fn min_running_delta(ts: Seq<SlotTrade>) -> int
    decreases ts.len(),
{
    if ts.len() <= 1 {
        delta_sum(ts)
    } else {
        let m = min_running_delta(ts.drop_last());
        if m <= delta_sum(ts) {
            m
        } else {
            delta_sum(ts)
        }
    }
}

/// The highest price among `ts`.
pub open spec fn max_price(ts: Seq<SlotTrade>) -> int
    decreases ts.len(),
{
    if ts.len() <= 1 {
        ts[0].0 as int
    } else {
        let m = max_price(ts.drop_last());
        if m >= ts.last().0 {
            m
        } else {
            ts.last().0 as int
        }
    }
}

/// The lowest price among `ts`.
pub open spec fn min_price(ts: Seq<SlotTrade>) -> int
    decreases ts.len(),
{
    if ts.len() <= 1 {
        ts[0].0 as int
    } else {
        let m = min_price(ts.drop_last());
        if m <= ts.last().0 {
            m
        } else {
            ts.last().0 as int
        }
    }
}

/// No running total of `ts` leaves `i64`.
pub open spec fn sums_fit(ts: Seq<SlotTrade>) -> bool {
    forall|k: int|
        0 <= k <= ts.len() ==> i64::MIN <= #[trigger] delta_sum(ts.take(k)) <= i64::MAX
            && i64::MIN <= qty_sum(ts.take(k)) <= i64::MAX
}

/// A bar is what its trades make it: folding a nonempty run of trades into a slot with no
/// bar opens the bar at the first trade (its price, its time, its signed quantity as the
/// opening delta) and leaves it at the last; high and low are the extreme prices, the
/// delta is the sum of the signed quantities with its high and low the extreme running
/// deltas, the count is the number of trades and the volume the sum of their quantities.
pub proof fn lemma_bar_of_trades(s: HotSlot, ts: Seq<SlotTrade>)
    requires
        !s.has_bar,
        1 <= ts.len() < u64::MAX,
        forall|k: int| 0 <= k < ts.len() ==> (#[trigger] ts[k]).1 != i64::MIN,
        sums_fit(ts),
    ensures
        ({
            let r = fold_slot_all(s, ts);
            &&& r.has_bar
            &&& r.open == ts[0].0 && r.open_ts == ts[0].2
            &&& r.close == ts.last().0 && r.close_ts == ts.last().2
            &&& r.high == max_price(ts) && r.low == min_price(ts)
            &&& r.d_open == trade_delta(ts[0])
            &&& r.d_close == delta_sum(ts)
            &&& r.d_high == max_running_delta(ts) && r.d_low == min_running_delta(ts)
            &&& r.count == ts.len()
            &&& r.vol == qty_sum(ts)
        }),
    decreases ts.len(),
{
    let t = ts.last();
    let p = ts.drop_last();
    assert(ts.take(ts.len() as int) =~= ts);
    assert(i64::MIN <= delta_sum(ts.take(ts.len() as int)) <= i64::MAX);
    if ts.len() == 1 {
        assert(p.len() == 0);
        assert(fold_slot_all(s, p) == s);
        assert(delta_sum(p) == 0 && qty_sum(p) == 0);
        assert(ts[0] == t);
    } else {
        assert forall|k: int| 0 <= k < p.len() implies (#[trigger] p[k]).1 != i64::MIN by {
            assert(p[k] == ts[k]);
        }
        assert forall|k: int| 0 <= k <= p.len() implies i64::MIN <= #[trigger] delta_sum(p.take(k))
            <= i64::MAX && i64::MIN <= qty_sum(p.take(k)) <= i64::MAX by {
            assert(p.take(k) =~= ts.take(k));
            assert(i64::MIN <= delta_sum(ts.take(k)) <= i64::MAX);
        }
        lemma_bar_of_trades(s, p);
        assert(p[0] == ts[0]);
        assert(p.last() == ts[ts.len() - 2]);
        assert(ts[ts.len() - 1].1 != i64::MIN);
    }
}

} // verus!
