//! Footprint radix: page-table lookup + page pool + per-block bitmap.
//!
//! Decode: `level = floor_div(price - center, tick)`; `page = (level >> 10) & 127`;
//! `block = (level >> 6) & 15`; `slot = level & 63`. Pages are allocated lazily and
//! recycled through a bounded pool on `reset`.

use vstd::prelude::*;

verus! {

pub const PAGES: usize = 128;

pub const BLOCKS: usize = 16;

pub const SLOTS: usize = 64;

#[derive(Clone, Copy, Default)]
pub struct Level {
    pub buy_vol: i64,
    pub sell_vol: i64,
    pub count: u32,
}

#[derive(Clone, Copy)]
pub struct Block {
    pub version: u32,
    /// Bit `i` set: slot `i` has data.
    pub non_empty: u64,
    pub levels: [Level; SLOTS],
}

pub struct PageData {
    pub blocks: [Block; BLOCKS],
}

pub struct PagePool {
    free: Vec<Box<PageData>>,
}

pub struct Footprint {
    pub center: i64,
    pub tick: i64,
    /// Index into `pages`.
    pub page_table: [Option<usize>; PAGES],
    pub pages: Vec<Box<PageData>>,
    pub pool: PagePool,
    pub poc_level: i64,
    pub poc_vol: i64,
    pub version: u32,
}

/// Floor division for a positive divisor.
fn floor_div(a: i64, b: i64) -> (r: i64)
    requires
        b > 0,
    ensures
        r as int == a as int / b as int,
{
    let d = a / b;
    let r = a % b;
    proof {
        if a < 0 {
            lemma_floor_of_negative(a as int, b as int);
        }
    }
    if r != 0 && ((r < 0) != (b < 0)) {
        d - 1
    } else {
        d
    }
}

/// Floor division of a negative number through the truncated quotient of its magnitude.
proof fn lemma_floor_of_negative(a: int, b: int)
    requires
        b > 0,
        a < 0,
        a >= i64::MIN,
    ensures
        (-a) % b != 0 ==> a / b == -((-a) / b) - 1 && -((-a) / b) - 1 >= i64::MIN,
        (-a) % b == 0 ==> a / b == -((-a) / b),
{
    let big = -a;
    let q = big / b;
    let m = big % b;
    vstd::arithmetic::div_mod::lemma_fundamental_div_mod(big, b);
    vstd::arithmetic::div_mod::lemma_mod_bound(big, b);
    if m != 0 {
        assert(a == b * (-q - 1) + (b - m)) by (nonlinear_arith)
            requires
                big == b * q + m,
                a == -big,
        ;
        vstd::arithmetic::div_mod::lemma_fundamental_div_mod_converse(a, b, -q - 1, b - m);
        assert(b >= 2);
        vstd::arithmetic::div_mod::lemma_div_is_ordered_by_denominator(big, 2, b);
        vstd::arithmetic::div_mod::lemma_div_pos_is_pos(big, 2);
    } else {
        assert(a == b * (-q) + 0) by (nonlinear_arith)
            requires
                big == b * q + m,
                m == 0,
                a == -big,
        ;
        vstd::arithmetic::div_mod::lemma_fundamental_div_mod_converse(a, b, -q, 0);
    }
}

pub open spec fn zero_level() -> Level {
    Level { buy_vol: 0, sell_vol: 0, count: 0 }
}

/// A block as the pool hands out fresh: version 0, empty bitmap, zero levels.
pub open spec fn is_fresh_block(b: Block) -> bool {
    &&& b.version == 0
    &&& b.non_empty == 0
    &&& forall|s: int| 0 <= s < SLOTS ==> #[trigger] b.levels@[s] == zero_level()
}

pub open spec fn is_fresh_page(p: PageData) -> bool {
    forall|b: int| 0 <= b < BLOCKS ==> is_fresh_block(#[trigger] p.blocks@[b])
}

/// `q` is `p` with every block's version and bitmap cleared (levels kept).
pub open spec fn is_reset_of(p: PageData, q: PageData) -> bool {
    forall|b: int|
        0 <= b < BLOCKS ==> {
            &&& (#[trigger] q.blocks@[b]).version == 0
            &&& q.blocks@[b].non_empty == 0
            &&& q.blocks@[b].levels@ == p.blocks@[b].levels@
        }
}

fn fresh_page() -> (p: PageData)
    ensures
        is_fresh_page(p),
{
    let lv = Level { buy_vol: 0, sell_vol: 0, count: 0 };
    let b = Block { version: 0, non_empty: 0, levels: [lv; 64] };
    PageData { blocks: [b; 16] }
}

impl PagePool {
    /// The recycled pages, oldest first.
    pub closed spec fn free_pages(&self) -> Seq<Box<PageData>> {
        self.free@
    }

    pub open spec fn wf(&self) -> bool {
        self.free_pages().len() <= 64
    }

    pub fn new() -> (p: Self)
        ensures
            p.free_pages() == Seq::<Box<PageData>>::empty(),
            p.wf(),
    {
        Self { free: Vec::with_capacity(64) }
    }

    /// The most recently recycled page, or a fresh one.
    fn get(&mut self) -> (p: Box<PageData>)
        ensures
            old(self).free_pages().len() > 0 ==> {
                &&& *p == *old(self).free_pages().last()
                &&& final(self).free_pages() == old(self).free_pages().drop_last()
            },
            old(self).free_pages().len() == 0 ==> {
                &&& is_fresh_page(*p)
                &&& final(self).free_pages() == old(self).free_pages()
            },
    {
        match self.free.pop() {
            Some(p) => p,
            None => Box::new(fresh_page()),
        }
    }

    /// Clear every block's version and bitmap, then keep the page if fewer than 64 wait.
    fn put(&mut self, p: Box<PageData>)
        ensures
            old(self).free_pages().len() < 64 ==> {
                &&& final(self).free_pages().len() == old(self).free_pages().len() + 1
                &&& final(self).free_pages().drop_last() == old(self).free_pages()
                &&& is_reset_of(*p, *final(self).free_pages().last())
            },
            old(self).free_pages().len() >= 64 ==> final(self).free_pages() == old(self).free_pages(),
    {
        let mut p = p;
        let ghost orig = *p;
        let mut i: usize = 0;
        while i < BLOCKS
            invariant
                i <= BLOCKS,
                forall|b: int|
                    0 <= b < i ==> {
                        &&& (#[trigger] p.blocks@[b]).version == 0
                        &&& p.blocks@[b].non_empty == 0
                        &&& p.blocks@[b].levels@ == orig.blocks@[b].levels@
                    },
                forall|b: int| i <= b < BLOCKS ==> #[trigger] p.blocks@[b] == orig.blocks@[b],
            decreases BLOCKS - i,
        {
            p.blocks[i].version = 0;
            p.blocks[i].non_empty = 0;
            i = i + 1;
        }
        if self.free.len() < 64 {
            self.free.push(p);
            assert(self.free@.drop_last() =~= old(self).free@);
        }
    }
}

/// `(level >> 10) & 127`.
pub open spec fn page_of(level: i64) -> int {
    ((level >> 10i64) & 127i64) as int
}

/// `(level >> 6) & 15`.
pub open spec fn block_of(level: i64) -> int {
    ((level >> 6i64) & 15i64) as int
}

/// `level & 63`.
pub open spec fn slot_of(level: i64) -> int {
    (level & 63i64) as int
}

pub open spec fn bit_set(m: u64, s: int) -> bool {
    (m >> (s as u64)) & 1u64 == 1u64
}

/// A level after one trade of `qty` on the given side.
pub open spec fn level_after(l: Level, qty: i64, is_buy: bool) -> Level {
    if is_buy {
        Level { buy_vol: (l.buy_vol + qty) as i64, count: (l.count + 1) as u32, ..l }
    } else {
        Level { sell_vol: (l.sell_vol + qty) as i64, count: (l.count + 1) as u32, ..l }
    }
}

/// The level's arithmetic stays in range after one more trade of `qty`.
pub open spec fn level_has_room(l: Level, qty: i64, is_buy: bool) -> bool {
    &&& l.count < u32::MAX
    &&& is_buy ==> (i64::MIN <= l.buy_vol + qty <= i64::MAX && i64::MIN <= l.buy_vol + qty
        + l.sell_vol <= i64::MAX)
    &&& !is_buy ==> (i64::MIN <= l.sell_vol + qty <= i64::MAX && i64::MIN <= l.buy_vol
        + l.sell_vol + qty <= i64::MAX)
}

/// `q` is `p` after one trade landed in slot `sl` of block `bl`, stamped `ver`.
pub open spec fn page_after_add(
    p: PageData,
    q: PageData,
    bl: int,
    sl: int,
    qty: i64,
    is_buy: bool,
    ver: u32,
) -> bool {
    &&& forall|b: int| 0 <= b < BLOCKS && b != bl ==> #[trigger] q.blocks@[b] == p.blocks@[b]
    &&& q.blocks@[bl].version == ver
    &&& q.blocks@[bl].non_empty == p.blocks@[bl].non_empty | (1u64 << (sl as u64))
    &&& forall|s: int|
        0 <= s < SLOTS && s != sl ==> #[trigger] q.blocks@[bl].levels@[s]
            == p.blocks@[bl].levels@[s]
    &&& q.blocks@[bl].levels@[sl] == level_after(p.blocks@[bl].levels@[sl], qty, is_buy)
}

pub open spec fn emit_slots(b: Block, m: u64, s: int) -> Seq<(i64, Level)>
    decreases SLOTS - s,
{
    if s < 0 || s >= SLOTS {
        Seq::empty()
    } else {
        (if bit_set(m, s) {
            seq![(s as i64, b.levels@[s])]
        } else {
            Seq::empty()
        }) + emit_slots(b, m, s + 1)
    }
}

/// A block's entries newer than `last`: `(slot, level)` for each set bit, low slot first.
pub open spec fn emit_block(b: Block, last: u32) -> Seq<(i64, Level)> {
    if b.version <= last {
        Seq::empty()
    } else {
        emit_slots(b, b.non_empty, 0)
    }
}

pub open spec fn emit_blocks(blocks: Seq<Block>, last: u32) -> Seq<(i64, Level)>
    decreases blocks.len(),
{
    if blocks.len() == 0 {
        Seq::empty()
    } else {
        emit_blocks(blocks.drop_last(), last) + emit_block(blocks.last(), last)
    }
}

/// Everything newer than `last`, page by page in allocation order, block by block.
pub open spec fn emit_pages(pages: Seq<Box<PageData>>, last: u32) -> Seq<(i64, Level)>
    decreases pages.len(),
{
    if pages.len() == 0 {
        Seq::empty()
    } else {
        emit_pages(pages.drop_last(), last) + emit_blocks(pages.last().blocks@, last)
    }
}

proof fn lemma_decode_ranges(level: i64)
    ensures
        0 <= page_of(level) < PAGES,
        0 <= block_of(level) < BLOCKS,
        0 <= slot_of(level) < SLOTS,
{
    assert(0 <= ((level >> 10i64) & 127i64) <= 127) by (bit_vector);
    assert(0 <= ((level >> 6i64) & 15i64) <= 15) by (bit_vector);
    assert(0 <= (level & 63i64) <= 63) by (bit_vector);
}

/// Bits in `[k, SLOTS)` decide `emit_slots` from `k` on.
proof fn lemma_emit_slots_same_bits(b: Block, m1: u64, m2: u64, k: int)
    requires
        0 <= k <= SLOTS,
        forall|j: int| k <= j < SLOTS ==> bit_set(m1, j) == bit_set(m2, j),
    ensures
        emit_slots(b, m1, k) == emit_slots(b, m2, k),
    decreases SLOTS - k,
{
    if k < SLOTS {
        lemma_emit_slots_same_bits(b, m1, m2, k + 1);
    }
}

/// Clear bits in `[k, s)` do not emit.
proof fn lemma_emit_slots_skip(b: Block, m: u64, k: int, s: int)
    requires
        0 <= k <= s <= SLOTS,
        forall|j: int| k <= j < s ==> !bit_set(m, j),
    ensures
        emit_slots(b, m, k) == emit_slots(b, m, s),
    decreases s - k,
{
    if k < s {
        lemma_emit_slots_skip(b, m, k + 1, s);
        assert(emit_slots(b, m, k) =~= emit_slots(b, m, k + 1));
    }
}

proof fn lemma_lowest_bit(bits: u64, s: u64, j: u64)
    by (bit_vector)
    requires
        bits != 0,
        s < 64,
        j < 64,
        (bits >> s) & 1u64 == 1u64,
        bits << ((64 - s) as u64) == 0,
    ensures
        ((bits & ((bits - 1) as u64)) >> j) & 1u64 == (if j == s {
            0u64
        } else {
            (bits >> j) & 1u64
        }),
        j < s ==> (bits >> j) & 1u64 == 0u64,
{
}

/// Walking the lowest set bit: emit it, then the rest.
proof fn lemma_emit_lowest(b: Block, bits: u64)
    requires
        bits != 0,
    ensures
        emit_slots(b, bits, 0) == seq![
            (bits.trailing_zeros() as i64, b.levels@[bits.trailing_zeros() as int]),
        ] + emit_slots(b, bits & ((bits - 1) as u64), 0),
        bits.trailing_zeros() < 64,
{
    broadcast use vstd::std_specs::bits::axiom_u64_trailing_zeros;

    let s = bits.trailing_zeros() as u64;
    let rest = bits & ((bits - 1) as u64);
    assert forall|j: int| 0 <= j < SLOTS implies bit_set(rest, j) == (j != s && bit_set(bits, j))
        && (j < s ==> !bit_set(bits, j)) by {
        lemma_lowest_bit(bits, s, j as u64);
    }
    lemma_emit_slots_skip(b, bits, 0, s as int);
    lemma_emit_slots_skip(b, rest, 0, s as int + 1);
    lemma_emit_slots_same_bits(b, bits, rest, s as int + 1);
    assert(emit_slots(b, bits, s as int) =~= seq![(s as i64, b.levels@[s as int])] + emit_slots(
        b,
        bits,
        s as int + 1,
    ));
}

impl Footprint {
    /// The tick is positive, the pool is bounded, every mapped page exists, and no block
    /// carries a version newer than the footprint's (pooled pages carry version 0).
    pub open spec fn wf(&self) -> bool {
        &&& self.tick >= 1
        &&& self.pool.wf()
        &&& versions_within(*self)
        &&& forall|p: int|
            0 <= p < PAGES ==> (#[trigger] self.page_table@[p] matches Some(i) ==> i
                < self.pages@.len())
    }

    /// The level a price falls in.
    pub open spec fn level_of(&self, price: i64) -> int {
        (price - self.center) / (self.tick as int)
    }

    /// The page a trade at `level` starts from: the mapped page, else the pool's next one.
    pub open spec fn start_page_mapped(&self, level: i64) -> Option<PageData> {
        match self.page_table@[page_of(level)] {
            Some(i) => Some(*self.pages@[i as int]),
            None => if self.pool.free_pages().len() > 0 {
                Some(*self.pool.free_pages().last())
            } else {
                None
            },
        }
    }

    /// The level record a trade at `price` would update before it lands.
    pub open spec fn target_level(&self, price: i64) -> Level {
        let lvl = self.level_of(price) as i64;
        match self.start_page_mapped(lvl) {
            Some(p) => p.blocks@[block_of(lvl)].levels@[slot_of(lvl)],
            None => zero_level(),
        }
    }

    /// `add` can take this trade without overflow.
    pub open spec fn add_has_room(&self, price: i64, qty: i64, is_buy: bool) -> bool {
        &&& i64::MIN <= price - self.center <= i64::MAX
        &&& self.version < u32::MAX
        &&& level_has_room(self.target_level(price), qty, is_buy)
    }

    /// `f` is `o` after `add(price, qty, is_buy)`.
    pub open spec fn add_post(o: Footprint, f: Footprint, price: i64, qty: i64, is_buy: bool) -> bool {
        let lvl = o.level_of(price) as i64;
        let pg = page_of(lvl);
        let pi = match o.page_table@[pg] {
            Some(i) => i as int,
            None => o.pages@.len() as int,
        };
        let lv = f.pages@[pi].blocks@[block_of(lvl)].levels@[slot_of(lvl)];
        &&& f.center == o.center && f.tick == o.tick
        &&& f.version == o.version + 1
        &&& o.page_table@[pg] is Some ==> {
            &&& f.page_table@ == o.page_table@
            &&& f.pages@.len() == o.pages@.len()
            &&& f.pool.free_pages() == o.pool.free_pages()
            &&& page_after_add(
                *o.pages@[pi],
                *f.pages@[pi],
                block_of(lvl),
                slot_of(lvl),
                qty,
                is_buy,
                f.version,
            )
        }
        &&& o.page_table@[pg] is None ==> {
            &&& f.page_table@ == o.page_table@.update(pg, Some(o.pages@.len() as usize))
            &&& f.pages@.len() == o.pages@.len() + 1
            &&& o.pool.free_pages().len() > 0 ==> {
                &&& f.pool.free_pages() == o.pool.free_pages().drop_last()
                &&& page_after_add(
                    *o.pool.free_pages().last(),
                    *f.pages@[pi],
                    block_of(lvl),
                    slot_of(lvl),
                    qty,
                    is_buy,
                    f.version,
                )
            }
            &&& o.pool.free_pages().len() == 0 ==> {
                &&& f.pool.free_pages() == o.pool.free_pages()
                &&& exists|start: PageData|
                    is_fresh_page(start) && page_after_add(
                        start,
                        *f.pages@[pi],
                        block_of(lvl),
                        slot_of(lvl),
                        qty,
                        is_buy,
                        f.version,
                    )
            }
        }
        &&& forall|k: int|
            0 <= k < o.pages@.len() && k != pi ==> #[trigger] f.pages@[k] == o.pages@[k]
        &&& lv == level_after(o.target_level(price), qty, is_buy)
        &&& if lv.buy_vol + lv.sell_vol > o.poc_vol {
            f.poc_vol == lv.buy_vol + lv.sell_vol && f.poc_level == lvl
        } else {
            f.poc_vol == o.poc_vol && f.poc_level == o.poc_level
        }
    
    }

    pub fn new(center: i64, tick: i64) -> (fp: Self)
        ensures
            fp.wf(),
            fp.center == center,
            fp.tick == (if tick > 1 {
                tick
            } else {
                1
            }),
            forall|p: int| 0 <= p < PAGES ==> #[trigger] fp.page_table@[p] is None,
            fp.pages@.len() == 0,
            fp.pool.free_pages().len() == 0,
            fp.poc_level == 0,
            fp.poc_vol == -1,
            fp.version == 0,
            poc_covers_levels(fp),
            poc_is_recorded(fp),
            versions_within(fp),
    {
        Self {
            center,
            tick: if tick > 1 {
                tick
            } else {
                1
            },
            page_table: [None; 128],
            pages: Vec::new(),
            pool: PagePool::new(),
            poc_level: 0,
            poc_vol: -1,
            version: 0,
        }
    }

    /// Record one trade: decode its level, map its page (from the pool when new),
    /// stamp the block with the next version, set the slot's bit, add the volume,
    /// and move the point of control if this level's total now exceeds it.
    pub fn add(&mut self, price: i64, qty: i64, is_buy: bool)
        requires
            old(self).wf(),
            old(self).add_has_room(price, qty, is_buy),
        ensures
            final(self).wf(),
            Footprint::add_post(*old(self), *final(self), price, qty, is_buy),
    {
        let level = floor_div(price - self.center, self.tick);
        proof {
            lemma_decode_ranges(level);
        }
        let page = ((level >> 10) & 127) as usize;
        let block = ((level >> 6) & 15) as usize;
        let slot = (level & 63) as usize;
        let ghost start: PageData;
        let pi = match self.page_table[page] {
            Some(i) => {
                proof {
                    start = *self.pages@[i as int];
                }
                i
            },
            None => {
                let p = self.pool.get();
                proof {
                    start = *p;
                }
                self.pages.push(p);
                let i = self.pages.len() - 1;
                self.page_table[page] = Some(i);
                i
            },
        };
        assert(self.pages@[pi as int].blocks@[block as int] == start.blocks@[block as int]);
        self.version = self.version + 1;
        self.pages[pi].blocks[block].version = self.version;
        self.pages[pi].blocks[block].non_empty = self.pages[pi].blocks[block].non_empty | (1u64
            << (slot as u64));
        if is_buy {
            self.pages[pi].blocks[block].levels[slot].buy_vol = self.pages[pi].blocks[block].levels[slot].buy_vol
                + qty;
        } else {
            self.pages[pi].blocks[block].levels[slot].sell_vol = self.pages[pi].blocks[block].levels[slot].sell_vol
                + qty;
        }
        self.pages[pi].blocks[block].levels[slot].count = self.pages[pi].blocks[block].levels[slot].count
            + 1;
        let tot = self.pages[pi].blocks[block].levels[slot].buy_vol
            + self.pages[pi].blocks[block].levels[slot].sell_vol;
        if tot > self.poc_vol {
            self.poc_vol = tot;
            self.poc_level = level;
        }
        proof {
            assert(page_after_add(
                start,
                *self.pages@[pi as int],
                block as int,
                slot as int,
                qty,
                is_buy,
                self.version,
            ));
            assert(Footprint::add_post(*old(self), *self, price, qty, is_buy));
            lemma_add_keeps_versions_within(*old(self), *self, price, qty, is_buy);
        }
    }

    /// Emit only non-empty slots of blocks newer than `last_version`, by bitmap walk.
    pub fn deltas_since(&self, out: &mut Vec<(i64, Level)>, last_version: u32)
        ensures
            final(out)@ == emit_pages(self.pages@, last_version),
            self.wf() && last_version >= self.version ==> final(out)@ == Seq::<(i64, Level)>::empty(),
    {
        out.clear();
        let mut pi: usize = 0;
        while pi < self.pages.len()
            invariant
                pi <= self.pages@.len(),
                out@ == emit_pages(self.pages@.take(pi as int), last_version),
            decreases self.pages@.len() - pi,
        {
            let ghost before = out@;
            let mut bi: usize = 0;
            while bi < BLOCKS
                invariant
                    pi < self.pages@.len(),
                    bi <= BLOCKS,
                    out@ == before + emit_blocks(
                        self.pages@[pi as int].blocks@.take(bi as int),
                        last_version,
                    ),
                decreases BLOCKS - bi,
            {
                let ghost before_block = out@;
                let b = &self.pages[pi].blocks[bi];
                if b.version > last_version {
                    let mut bits = b.non_empty;
                    while bits != 0
                        invariant
                            emit_slots(*b, b.non_empty, 0) == out@.skip(before_block.len() as int)
                                + emit_slots(*b, bits, 0),
                            before_block.len() <= out@.len(),
                            out@.take(before_block.len() as int) == before_block,
                        decreases bits,
                    {
                        proof {
                            lemma_emit_lowest(*b, bits);
                        }
                        let s = bits.trailing_zeros() as usize;
                        let ghost old_bits = bits;
                        bits = bits & (bits - 1);
                        assert(bits < old_bits) by (bit_vector)
                            requires
                                old_bits != 0,
                                bits == old_bits & ((old_bits - 1) as u64),
                        ;
                        let ghost prev = out@;
                        out.push((s as i64, b.levels[s]));
                        assert(out@.skip(before_block.len() as int) =~= prev.skip(
                            before_block.len() as int,
                        ) + seq![(s as i64, b.levels@[s as int])]);
                        assert(out@.take(before_block.len() as int) =~= prev.take(
                            before_block.len() as int,
                        ));
                    }
                    assert(emit_slots(*b, 0u64, 0) =~= Seq::<(i64, Level)>::empty()) by {
                        lemma_emit_slots_none(*b, 0);
                    }
                    assert(out@ =~= before_block + emit_block(*b, last_version));
                } else {
                    assert(out@ =~= before_block + emit_block(*b, last_version));
                }
                assert(self.pages@[pi as int].blocks@.take(bi + 1).drop_last() =~= self.pages@[pi as int].blocks@.take(
                    bi as int,
                ));
                bi = bi + 1;
            }
            assert(self.pages@[pi as int].blocks@.take(BLOCKS as int) =~= self.pages@[pi as int].blocks@);
            assert(self.pages@.take(pi + 1).drop_last() =~= self.pages@.take(pi as int));
            pi = pi + 1;
        }
        assert(self.pages@.take(self.pages@.len() as int) =~= self.pages@);
        proof {
            if self.wf() && last_version >= self.version {
                lemma_nothing_newer_than(*self, last_version);
            }
        }
    }

    /// Whether this footprint is well formed and can take the trade without overflow.
    pub fn can_add(&self, price: i64, qty: i64, is_buy: bool) -> (r: bool)
        ensures
            r == (self.wf() && self.add_has_room(price, qty, is_buy)),
    {
        if self.tick < 1 || self.pool.free.len() > 64 {
            return false;
        }
        let mut p: usize = 0;
        while p < PAGES
            invariant
                p <= PAGES,
                forall|q: int|
                    0 <= q < p ==> (#[trigger] self.page_table@[q] matches Some(i) ==> i
                        < self.pages@.len()),
            decreases PAGES - p,
        {
            match self.page_table[p] {
                Some(i) => {
                    if i >= self.pages.len() {
                        return false;
                    }
                },
                None => {},
            }
            p = p + 1;
        }
        let mut k: usize = 0;
        while k < self.pages.len()
            invariant
                k <= self.pages@.len(),
                forall|q: int, b: int|
                    0 <= q < k && 0 <= b < BLOCKS ==> (#[trigger] self.pages@[q].blocks@[b]).version
                        <= self.version,
            decreases self.pages@.len() - k,
        {
            let mut b: usize = 0;
            while b < BLOCKS
                invariant
                    k < self.pages@.len(),
                    b <= BLOCKS,
                    forall|q: int, c: int|
                        0 <= q < k && 0 <= c < BLOCKS ==> (#[trigger] self.pages@[q].blocks@[c]).version
                            <= self.version,
                    forall|c: int| 0 <= c < b ==> (#[trigger] self.pages@[k as int].blocks@[c]).version
                        <= self.version,
                decreases BLOCKS - b,
            {
                if self.pages[k].blocks[b].version > self.version {
                    return false;
                }
                b = b + 1;
            }
            k = k + 1;
        }
        let mut k: usize = 0;
        while k < self.pool.free.len()
            invariant
                k <= self.pool.free@.len(),
                forall|q: int, b: int|
                    0 <= q < k && 0 <= b < BLOCKS ==> (#[trigger] self.pool.free@[q].blocks@[b]).version
                        == 0,
            decreases self.pool.free@.len() - k,
        {
            let mut b: usize = 0;
            while b < BLOCKS
                invariant
                    k < self.pool.free@.len(),
                    b <= BLOCKS,
                    forall|q: int, c: int|
                        0 <= q < k && 0 <= c < BLOCKS ==> (#[trigger] self.pool.free@[q].blocks@[c]).version
                            == 0,
                    forall|c: int| 0 <= c < b ==> (#[trigger] self.pool.free@[k as int].blocks@[c]).version
                        == 0,
                decreases BLOCKS - b,
            {
                if self.pool.free[k].blocks[b].version != 0 {
                    return false;
                }
                b = b + 1;
            }
            k = k + 1;
        }
        assert(self.wf());
        let diff = match price.checked_sub(self.center) {
            Some(d) => d,
            None => {
                return false;
            },
        };
        if self.version == u32::MAX {
            return false;
        }
        let level = floor_div(diff, self.tick);
        proof {
            lemma_decode_ranges(level);
        }
        let page = ((level >> 10) & 127) as usize;
        let block = ((level >> 6) & 15) as usize;
        let slot = (level & 63) as usize;
        let lv = match self.page_table[page] {
            Some(i) => self.pages[i].blocks[block].levels[slot],
            None => {
                let nfree = self.pool.free.len();
                if nfree > 0 {
                    self.pool.free[nfree - 1].blocks[block].levels[slot]
                } else {
                    Level { buy_vol: 0, sell_vol: 0, count: 0 }
                }
            },
        };
        if lv.count == u32::MAX {
            return false;
        }
        let side = if is_buy {
            lv.buy_vol
        } else {
            lv.sell_vol
        };
        let other = if is_buy {
            lv.sell_vol
        } else {
            lv.buy_vol
        };
        match side.checked_add(qty) {
            Some(v) => v.checked_add(other).is_some(),
            None => false,
        }
    }

    /// Return every page to the pool (in allocation order), unmap all pages, and
    /// restart the point of control and the version counter.
    pub fn reset(&mut self)
        requires
            old(self).wf(),
        ensures
            final(self).wf(),
            final(self).pages@.len() == 0,
            forall|p: int| 0 <= p < PAGES ==> #[trigger] final(self).page_table@[p] is None,
            final(self).poc_vol == -1,
            final(self).version == 0,
            final(self).center == old(self).center,
            final(self).tick == old(self).tick,
            final(self).poc_level == old(self).poc_level,
            poc_covers_levels(*old(self)) ==> poc_covers_levels(*final(self)),
            versions_within(*old(self)) ==> versions_within(*final(self)),
            poc_is_recorded(*final(self)),
            ({
                let kept = vstd::math::min(
                    64 - old(self).pool.free_pages().len(),
                    old(self).pages@.len() as int,
                );
                &&& final(self).pool.free_pages().len() == old(self).pool.free_pages().len() + kept
                &&& final(self).pool.free_pages().take(
                    old(self).pool.free_pages().len() as int,
                ) == old(self).pool.free_pages()
                &&& forall|k: int|
                    0 <= k < kept ==> is_reset_of(
                        *old(self).pages@[k],
                            *#[trigger] final(self).pool.free_pages()[old(self).pool.free_pages().len() + k],
                    )
            }),
    {
        let mut taken: Vec<Box<PageData>> = Vec::new();
        std::mem::swap(&mut taken, &mut self.pages);
        let ghost orig = taken@;
        let total = taken.len();
        let ghost free0 = self.pool.free_pages();
        let mut reversed: Vec<Box<PageData>> = Vec::new();
        while taken.len() > 0
            invariant
                taken@ == orig.take(taken@.len() as int),
                orig.len() == total,
                self.pages@.len() == 0,
                self.center == old(self).center,
                self.tick == old(self).tick,
                self.tick >= 1,
                self.poc_level == old(self).poc_level,
                self.pool == old(self).pool,
                free0 == self.pool.free_pages(),
                reversed@.len() + taken@.len() == orig.len(),
                forall|k: int|
                    0 <= k < reversed@.len() ==> #[trigger] reversed@[k] == orig[orig.len() - 1
                        - k],
            decreases taken@.len(),
        {
            let p = taken.pop().unwrap();
            reversed.push(p);
            assert(taken@ =~= orig.take(taken@.len() as int));
        }
        let mut n: usize = 0;
        while reversed.len() > 0
            invariant
                n + reversed@.len() == orig.len(),
                orig.len() == total,
                self.pages@.len() == 0,
                self.center == old(self).center,
                self.tick == old(self).tick,
                self.tick >= 1,
                self.poc_level == old(self).poc_level,
                forall|k: int|
                    0 <= k < reversed@.len() ==> #[trigger] reversed@[k] == orig[orig.len() - 1
                        - k],
                self.pool.wf(),
                free0.len() <= 64,
                self.pool.free_pages().len() == free0.len() + vstd::math::min(
                    64 - free0.len(),
                    n as int,
                ),
                self.pool.free_pages().take(free0.len() as int) == free0,
                forall|k: int|
                    0 <= k < vstd::math::min(64 - free0.len(), n as int) ==> is_reset_of(
                        *orig[k],
                        *#[trigger] self.pool.free_pages()[free0.len() + k],
                    ),
            decreases reversed@.len(),
        {
            let p = reversed.pop().unwrap();
            let ghost before = self.pool.free_pages();
            self.pool.put(p);
            proof {
                if before.len() < 64 {
                    assert(self.pool.free_pages().take(free0.len() as int) =~= before.take(
                        free0.len() as int,
                    ));
                    assert forall|k: int|
                        0 <= k < vstd::math::min(
                            64 - free0.len(),
                            n + 1,
                        ) implies is_reset_of(
                        *orig[k],
                        *#[trigger] self.pool.free_pages()[free0.len() + k],
                    ) by {
                        if k < n {
                            assert(self.pool.free_pages()[free0.len() + k] == before[free0.len()
                                + k]);
                        }
                    }
                }
            }
            n = n + 1;
        }
        self.page_table = [None; 128];
        self.poc_vol = -1;
        self.version = 0;
        proof {
            if versions_within(*old(self)) {
                assert forall|k: int, b: int|
                    0 <= k < self.pool.free_pages().len() && 0 <= b < BLOCKS implies (
                    #[trigger] self.pool.free_pages()[k].blocks@[b]).version == 0 by {
                    if k < free0.len() {
                        assert(self.pool.free_pages()[k] == self.pool.free_pages().take(
                            free0.len() as int,
                        )[k]);
                    } else {
                        assert(is_reset_of(*orig[k - free0.len()], *self.pool.free_pages()[free0.len() + (k - free0.len())]));
                    }
                }
            }
            if poc_covers_levels(*old(self)) {
                let kept = vstd::math::min(64 - free0.len(), total as int);
                assert forall|k: int, b: int|
                    0 <= k < self.pool.free_pages().len() && 0 <= b < BLOCKS implies (
                    #[trigger] self.pool.free_pages()[k].blocks@[b]).non_empty == 0 by {
                    if k < free0.len() {
                        assert(self.pool.free_pages()[k] == self.pool.free_pages().take(
                            free0.len() as int,
                        )[k]);
                    } else {
                        assert(is_reset_of(*orig[k - free0.len()], *self.pool.free_pages()[free0.len() + (k - free0.len())]));
                    }
                }
            }
        }
    }
}

proof fn lemma_zero_no_bit(j: u64)
    by (bit_vector)
    ensures
        ((0u64 >> j) & 1u64) == 0u64,
{
}

proof fn lemma_emit_slots_none(b: Block, k: int)
    requires
        0 <= k <= SLOTS,
    ensures
        emit_slots(b, 0u64, k) =~= Seq::<(i64, Level)>::empty(),
    decreases SLOTS - k,
{
    if k < SLOTS {
        lemma_zero_no_bit(k as u64);
        lemma_emit_slots_none(b, k + 1);
    }
}


/// Total volume at a level.
pub open spec fn level_total(l: Level) -> int {
    l.buy_vol + l.sell_vol
}

/// The point of control covers the footprint: every level recorded since the last
/// reset (a set bit of a block of a page in use) holds at most `poc_vol` in total, and
/// every page waiting in the pool has empty bitmaps.
pub open spec fn poc_covers_levels(f: Footprint) -> bool {
    &&& forall|k: int, b: int, s: int|
        0 <= k < f.pages@.len() && 0 <= b < BLOCKS && 0 <= s < SLOTS && #[trigger] bit_set(
            f.pages@[k].blocks@[b].non_empty,
            s,
        ) ==> level_total(f.pages@[k].blocks@[b].levels@[s]) <= f.poc_vol
    &&& forall|k: int, b: int|
        0 <= k < f.pool.free_pages().len() && 0 <= b < BLOCKS ==> (
        #[trigger] f.pool.free_pages()[k].blocks@[b]).non_empty == 0
}

proof fn lemma_or_bit(m: u64, sl: u64, s: u64)
    by (bit_vector)
    requires
        sl < 64,
        s < 64,
    ensures
        ((m | (1u64 << sl)) >> s) & 1u64 == (if s == sl {
            1u64
        } else {
            (m >> s) & 1u64
        }),
{
}

/// The page a trade lands in, after `add`, differs from where it started only in the
/// touched slot; a bit that is set afterwards either is the touched slot or was set before.
proof fn lemma_set_bit_after_add(
    start: PageData,
    q: PageData,
    bl: int,
    sl: int,
    qty: i64,
    is_buy: bool,
    ver: u32,
    b: int,
    s: int,
)
    requires
        page_after_add(start, q, bl, sl, qty, is_buy, ver),
        0 <= bl < BLOCKS,
        0 <= sl < SLOTS,
        0 <= b < BLOCKS,
        0 <= s < SLOTS,
        bit_set(q.blocks@[b].non_empty, s),
        !(b == bl && s == sl),
    ensures
        bit_set(start.blocks@[b].non_empty, s),
        q.blocks@[b].levels@[s] == start.blocks@[b].levels@[s],
{
    if b == bl {
        lemma_or_bit(start.blocks@[bl].non_empty, sl as u64, s as u64);
    }
}

/// The point of control never understates: if every recorded level is covered by
/// `poc_vol` before an `add`, it still is afterwards.
pub proof fn lemma_add_keeps_poc_cover(
    o: Footprint,
    f: Footprint,
    price: i64,
    qty: i64,
    is_buy: bool,
)
    requires
        o.wf(),
        poc_covers_levels(o),
        Footprint::add_post(o, f, price, qty, is_buy),
    ensures
        poc_covers_levels(f),
{
    let lvl = o.level_of(price) as i64;
    let pg = page_of(lvl);
    let bl = block_of(lvl);
    let sl = slot_of(lvl);
    lemma_decode_ranges(lvl);
    let pi = match o.page_table@[pg] {
        Some(i) => i as int,
        None => o.pages@.len() as int,
    };
    assert(f.poc_vol >= o.poc_vol);
    assert forall|k: int, b: int, s: int|
        0 <= k < f.pages@.len() && 0 <= b < BLOCKS && 0 <= s < SLOTS && #[trigger] bit_set(
            f.pages@[k].blocks@[b].non_empty,
            s,
        ) implies level_total(f.pages@[k].blocks@[b].levels@[s]) <= f.poc_vol by {
        if k != pi {
            assert(f.pages@[k] == o.pages@[k]);
        } else if !(b == bl && s == sl) {
            if o.page_table@[pg] is Some {
                lemma_set_bit_after_add(
                    *o.pages@[pi],
                    *f.pages@[pi],
                    bl,
                    sl,
                    qty,
                    is_buy,
                    f.version,
                    b,
                    s,
                );
            } else if o.pool.free_pages().len() > 0 {
                let start = *o.pool.free_pages().last();
                lemma_set_bit_after_add(start, *f.pages@[pi], bl, sl, qty, is_buy, f.version, b, s);
                assert(start.blocks@[b].non_empty == 0);
                lemma_zero_no_bit(s as u64);
            } else {
                let start = choose|start: PageData|
                    is_fresh_page(start) && page_after_add(
                        start,
                        *f.pages@[pi],
                        bl,
                        sl,
                        qty,
                        is_buy,
                        f.version,
                    );
                lemma_set_bit_after_add(start, *f.pages@[pi], bl, sl, qty, is_buy, f.version, b, s);
                assert(is_fresh_block(start.blocks@[b]));
                lemma_zero_no_bit(s as u64);
            }
        }
    }
    assert forall|k: int, b: int|
        0 <= k < f.pool.free_pages().len() && 0 <= b < BLOCKS implies (
        #[trigger] f.pool.free_pages()[k].blocks@[b]).non_empty == 0 by {
        if o.page_table@[pg] is None && o.pool.free_pages().len() > 0 {
            assert(f.pool.free_pages()[k] == o.pool.free_pages()[k]);
        }
    }
}

proof fn lemma_concat_contains<A>(a: Seq<A>, b: Seq<A>, x: A)
    requires
        a.contains(x) || b.contains(x),
    ensures
        (a + b).contains(x),
{
    if a.contains(x) {
        let i = choose|i: int| 0 <= i < a.len() && a[i] == x;
        assert((a + b)[i] == x);
    } else {
        let i = choose|i: int| 0 <= i < b.len() && b[i] == x;
        assert((a + b)[a.len() + i] == x);
    }
}

proof fn lemma_emit_slots_has(b: Block, m: u64, k: int, s: int)
    requires
        0 <= k <= s < SLOTS,
        bit_set(m, s),
    ensures
        emit_slots(b, m, k).contains((s as i64, b.levels@[s])),
    decreases s - k,
{
    let x = (s as i64, b.levels@[s]);
    let head = if bit_set(m, k) {
        seq![(k as i64, b.levels@[k])]
    } else {
        Seq::empty()
    };
    assert(emit_slots(b, m, k) == head + emit_slots(b, m, k + 1));
    if k == s {
        assert(head.contains(x)) by {
            assert(head[0] == x);
        }
    } else {
        lemma_emit_slots_has(b, m, k + 1, s);
    }
    lemma_concat_contains(head, emit_slots(b, m, k + 1), x);
}

proof fn lemma_emit_blocks_has(blocks: Seq<Block>, last: u32, j: int, x: (i64, Level))
    requires
        0 <= j < blocks.len(),
        emit_block(blocks[j], last).contains(x),
    ensures
        emit_blocks(blocks, last).contains(x),
    decreases blocks.len(),
{
    if j < blocks.len() - 1 {
        assert(blocks.drop_last()[j] == blocks[j]);
        lemma_emit_blocks_has(blocks.drop_last(), last, j, x);
    }
    lemma_concat_contains(emit_blocks(blocks.drop_last(), last), emit_block(blocks.last(), last), x);
}

proof fn lemma_emit_pages_has(pages: Seq<Box<PageData>>, last: u32, j: int, x: (i64, Level))
    requires
        0 <= j < pages.len(),
        emit_blocks(pages[j].blocks@, last).contains(x),
    ensures
        emit_pages(pages, last).contains(x),
    decreases pages.len(),
{
    if j < pages.len() - 1 {
        assert(pages.drop_last()[j] == pages[j]);
        lemma_emit_pages_has(pages.drop_last(), last, j, x);
    }
    lemma_concat_contains(
        emit_pages(pages.drop_last(), last),
        emit_blocks(pages.last().blocks@, last),
        x,
    );
}

/// A write is read back: after `add`, the deltas since any earlier version include the
/// touched level, as its slot and its new totals.
pub proof fn lemma_add_then_deltas(
    o: Footprint,
    f: Footprint,
    price: i64,
    qty: i64,
    is_buy: bool,
    last: u32,
)
    requires
        o.wf(),
        Footprint::add_post(o, f, price, qty, is_buy),
        last < f.version,
    ensures
        ({
            let lvl = o.level_of(price) as i64;
            emit_pages(f.pages@, last).contains(
                (slot_of(lvl) as i64, level_after(o.target_level(price), qty, is_buy)),
            )
        }),
{
    let lvl = o.level_of(price) as i64;
    let pg = page_of(lvl);
    let bl = block_of(lvl);
    let sl = slot_of(lvl);
    lemma_decode_ranges(lvl);
    let pi = match o.page_table@[pg] {
        Some(i) => i as int,
        None => o.pages@.len() as int,
    };
    let blk = f.pages@[pi].blocks@[bl];
    let x = (sl as i64, blk.levels@[sl]);
    let start = if o.page_table@[pg] is Some {
        *o.pages@[pi]
    } else if o.pool.free_pages().len() > 0 {
        *o.pool.free_pages().last()
    } else {
        choose|start: PageData|
            is_fresh_page(start) && page_after_add(
                start,
                *f.pages@[pi],
                bl,
                sl,
                qty,
                is_buy,
                f.version,
            )
    };
    assert(page_after_add(start, *f.pages@[pi], bl, sl, qty, is_buy, f.version));
    lemma_or_bit(start.blocks@[bl].non_empty, sl as u64, sl as u64);
    assert(bit_set(blk.non_empty, sl));
    lemma_emit_slots_has(blk, blk.non_empty, 0, sl);
    assert(emit_block(blk, last) == emit_slots(blk, blk.non_empty, 0));
    lemma_emit_blocks_has(f.pages@[pi].blocks@, last, bl, x);
    lemma_emit_pages_has(f.pages@, last, pi, x);
}

/// Every block of a page in use carries a version no newer than the footprint's, and
/// every block of a pooled page carries version 0.
pub open spec fn versions_within(f: Footprint) -> bool {
    &&& forall|k: int, b: int|
        0 <= k < f.pages@.len() && 0 <= b < BLOCKS ==> (#[trigger] f.pages@[k].blocks@[b]).version
            <= f.version
    &&& forall|k: int, b: int|
        0 <= k < f.pool.free_pages().len() && 0 <= b < BLOCKS ==> (
        #[trigger] f.pool.free_pages()[k].blocks@[b]).version == 0
}

/// Block versions never run ahead: if they are within the footprint's version before an
/// `add`, they are afterwards.
pub proof fn lemma_add_keeps_versions_within(
    o: Footprint,
    f: Footprint,
    price: i64,
    qty: i64,
    is_buy: bool,
)
    requires
        o.wf(),
        versions_within(o),
        Footprint::add_post(o, f, price, qty, is_buy),
    ensures
        versions_within(f),
{
    let lvl = o.level_of(price) as i64;
    let pg = page_of(lvl);
    let bl = block_of(lvl);
    let sl = slot_of(lvl);
    lemma_decode_ranges(lvl);
    let pi = match o.page_table@[pg] {
        Some(i) => i as int,
        None => o.pages@.len() as int,
    };
    assert forall|k: int, b: int| 0 <= k < f.pages@.len() && 0 <= b < BLOCKS implies (
    #[trigger] f.pages@[k].blocks@[b]).version <= f.version by {
        if k != pi {
            assert(f.pages@[k] == o.pages@[k]);
        } else if b != bl {
            if o.page_table@[pg] is Some {
                assert(f.pages@[pi].blocks@[b] == o.pages@[pi].blocks@[b]);
            } else if o.pool.free_pages().len() > 0 {
                let start = *o.pool.free_pages().last();
                assert(f.pages@[pi].blocks@[b] == start.blocks@[b]);
                assert(start.blocks@[b].version == 0);
            } else {
                let start = choose|start: PageData|
                    is_fresh_page(start) && page_after_add(
                        start,
                        *f.pages@[pi],
                        bl,
                        sl,
                        qty,
                        is_buy,
                        f.version,
                    );
                assert(f.pages@[pi].blocks@[b] == start.blocks@[b]);
                assert(is_fresh_block(start.blocks@[b]));
            }
        }
    }
    assert forall|k: int, b: int|
        0 <= k < f.pool.free_pages().len() && 0 <= b < BLOCKS implies (
        #[trigger] f.pool.free_pages()[k].blocks@[b]).version == 0 by {
        if o.page_table@[pg] is None && o.pool.free_pages().len() > 0 {
            assert(f.pool.free_pages()[k] == o.pool.free_pages()[k]);
        }
    }
}

proof fn lemma_emit_blocks_none(blocks: Seq<Block>, last: u32)
    requires
        forall|b: int| 0 <= b < blocks.len() ==> (#[trigger] blocks[b]).version <= last,
    ensures
        emit_blocks(blocks, last) =~= Seq::<(i64, Level)>::empty(),
    decreases blocks.len(),
{
    if blocks.len() > 0 {
        assert(blocks[blocks.len() - 1].version <= last);
        assert forall|b: int| 0 <= b < blocks.drop_last().len() implies (
        #[trigger] blocks.drop_last()[b]).version <= last by {
            assert(blocks[b].version <= last);
        }
        lemma_emit_blocks_none(blocks.drop_last(), last);
    }
}

proof fn lemma_emit_pages_none(pages: Seq<Box<PageData>>, last: u32)
    requires
        forall|k: int, b: int|
            0 <= k < pages.len() && 0 <= b < BLOCKS ==> (#[trigger] pages[k].blocks@[b]).version
                <= last,
        forall|k: int| 0 <= k < pages.len() ==> (#[trigger] pages[k]).blocks@.len() == BLOCKS,
    ensures
        emit_pages(pages, last) =~= Seq::<(i64, Level)>::empty(),
    decreases pages.len(),
{
    if pages.len() > 0 {
        let lastp = pages[pages.len() - 1];
        assert(lastp.blocks@.len() == BLOCKS);
        assert forall|b: int| 0 <= b < lastp.blocks@.len() implies (
        #[trigger] lastp.blocks@[b]).version <= last by {
            assert(pages[pages.len() - 1].blocks@[b].version <= last);
        }
        lemma_emit_blocks_none(lastp.blocks@, last);
        assert forall|k: int, b: int|
            0 <= k < pages.drop_last().len() && 0 <= b < BLOCKS implies (
            #[trigger] pages.drop_last()[k].blocks@[b]).version <= last by {
            assert(pages[k].blocks@[b].version <= last);
        }
        assert forall|k: int| 0 <= k < pages.drop_last().len() implies (
        #[trigger] pages.drop_last()[k]).blocks@.len() == BLOCKS by {
            assert(pages[k].blocks@.len() == BLOCKS);
        }
        lemma_emit_pages_none(pages.drop_last(), last);
    }
}

/// Nothing is newer than the current version: `deltas_since(last)` emits nothing for
/// any `last` at or past it.
pub proof fn lemma_nothing_newer_than(f: Footprint, last: u32)
    requires
        versions_within(f),
        last >= f.version,
    ensures
        emit_pages(f.pages@, last) == Seq::<(i64, Level)>::empty(),
{
    assert forall|k: int| 0 <= k < f.pages@.len() implies (#[trigger] f.pages@[k]).blocks@.len()
        == BLOCKS by {
    }
    assert forall|k: int, b: int| 0 <= k < f.pages@.len() && 0 <= b < BLOCKS implies (
    #[trigger] f.pages@[k].blocks@[b]).version <= last by {
        assert(f.pages@[k].blocks@[b].version <= f.version);
    }
    lemma_emit_pages_none(f.pages@, last);
}

/// The point of control names a recorded level holding exactly `poc_vol`: once `poc_vol`
/// is set, the page mapped for `poc_level` has that level's bit set and its buy plus
/// sell volume equals `poc_vol`.
pub open spec fn poc_is_recorded(f: Footprint) -> bool {
    f.poc_vol >= 0 ==> match f.page_table@[page_of(f.poc_level)] {
        Some(i) => {
            &&& i < f.pages@.len()
            &&& bit_set(f.pages@[i as int].blocks@[block_of(f.poc_level)].non_empty, slot_of(f.poc_level))
            &&& level_total(f.pages@[i as int].blocks@[block_of(f.poc_level)].levels@[slot_of(f.poc_level)])
                == f.poc_vol
        },
        None => false,
    }
}

/// The point of control follows the heaviest level, whichever side traded: if the
/// point of control names a recorded level holding `poc_vol` before an `add` of a
/// non-negative quantity, it still does afterwards; and whenever the traded level's new
/// total exceeds the old `poc_vol`, the point of control moves to that level.
pub proof fn lemma_add_keeps_poc_recorded(
    o: Footprint,
    f: Footprint,
    price: i64,
    qty: i64,
    is_buy: bool,
)
    requires
        o.wf(),
        o.add_has_room(price, qty, is_buy),
        poc_is_recorded(o),
        qty >= 0,
        Footprint::add_post(o, f, price, qty, is_buy),
    ensures
        poc_is_recorded(f),
        ({
            let lvl = o.level_of(price) as i64;
            let t = level_total(level_after(o.target_level(price), qty, is_buy));
            &&& t > o.poc_vol ==> f.poc_level == lvl && f.poc_vol == t
            &&& t <= o.poc_vol ==> f.poc_level == o.poc_level && f.poc_vol == o.poc_vol
        }),
{
    let lvl = o.level_of(price) as i64;
    let pg = page_of(lvl);
    let bl = block_of(lvl);
    let sl = slot_of(lvl);
    lemma_decode_ranges(lvl);
    let pi = match o.page_table@[pg] {
        Some(i) => i as int,
        None => o.pages@.len() as int,
    };
    let lv = f.pages@[pi].blocks@[bl].levels@[sl];
    let start = if o.page_table@[pg] is Some {
        *o.pages@[pi]
    } else if o.pool.free_pages().len() > 0 {
        *o.pool.free_pages().last()
    } else {
        choose|start: PageData|
            is_fresh_page(start) && page_after_add(start, *f.pages@[pi], bl, sl, qty, is_buy, f.version)
    };
    assert(page_after_add(start, *f.pages@[pi], bl, sl, qty, is_buy, f.version));
    lemma_or_bit(start.blocks@[bl].non_empty, sl as u64, sl as u64);
    if level_total(lv) > o.poc_vol {
        assert(f.poc_level == lvl);
        assert(f.page_table@[pg] == Some(pi as usize));
        assert(pi < f.pages@.len());
        assert(f.pages@.len() == f.pages.len());
        assert((pi as usize) as int == pi);
        assert(page_of(f.poc_level) == pg && block_of(f.poc_level) == bl && slot_of(f.poc_level) == sl);
        assert(bit_set(f.pages@[pi].blocks@[bl].non_empty, sl));
        assert(level_total(f.pages@[pi].blocks@[bl].levels@[sl]) == f.poc_vol);
        assert(poc_is_recorded(f));
    } else if o.poc_vol >= 0 {
        let pl = o.poc_level;
        lemma_decode_ranges(pl);
        let i = o.page_table@[page_of(pl)]->0 as int;
        assert(f.page_table@[page_of(pl)] == o.page_table@[page_of(pl)]);
        if i == pi {
            assert(o.page_table@[pg] is Some);
            if block_of(pl) == bl && slot_of(pl) == sl {
                assert(o.target_level(price) == o.pages@[pi].blocks@[bl].levels@[sl]);
            } else {
                lemma_or_bit(start.blocks@[bl].non_empty, sl as u64, slot_of(pl) as u64);
            }
        } else {
            assert(f.pages@[i] == o.pages@[i]);
        }
        assert(i < f.pages@.len());
        assert(bit_set(f.pages@[i].blocks@[block_of(pl)].non_empty, slot_of(pl)));
        assert(level_total(f.pages@[i].blocks@[block_of(pl)].levels@[slot_of(pl)]) == f.poc_vol);
        assert(poc_is_recorded(f));
    } else {
        assert(poc_is_recorded(f));
    }
}

} // verus!
