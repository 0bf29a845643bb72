//! Open-addressing map: symbol_hash -> entry.
//!
//! One flat table of pow2 capacity, `mask = cap - 1`, linear probing of at most
//! `MAX_PROBE` slots, load kept at or below 0.7. The hash is the ingest symbol hash
//! (FNV-1a 32 with the low bit set).

use vstd::prelude::*;
use std::sync::atomic::AtomicU32;
use crate::ingest::{fnv1a, spec_hash_symbol};

verus! {

pub const CACHE_LINE: usize = 64;

pub const MAX_PROBE: usize = 8;

#[derive(Debug, Clone, Copy, PartialEq, Eq)]
pub enum MapError {
    Full,
    NotFound,
}

/// Entry states; the `state` word of an entry holds `EntryState::code`.
#[derive(Debug, Clone, Copy, PartialEq, Eq)]
pub enum EntryState {
    Empty,
    Active,
    Tombstone,
}

impl EntryState {
    pub open spec fn spec_code(self) -> u32 {
        match self {
            EntryState::Empty => 0,
            EntryState::Active => 1,
            EntryState::Tombstone => 2,
        }
    }

    /// The state word of this state: Empty 0, Active 1, Tombstone 2.
    pub fn code(self) -> (c: u32)
        ensures
            c == self.spec_code(),
    {
        match self {
            EntryState::Empty => 0,
            EntryState::Active => 1,
            EntryState::Tombstone => 2,
        }
    }
}

#[derive(Debug, Clone, Copy)]
pub struct MapEntry {
    pub last_ts_ns: i64,
    pub trade_count: u64,
    pub volume_acc: u64,
    pub hash: u32,
    pub symbol_id: u32,
    pub state: u32,
    pub active_list_head: u32,
    pub core_id: u16,
    pub series_count: u16,
    pub pad: [u8; 20],
}

/// The empty entry: no hash, no symbol, state Empty, zero counters and padding.
pub open spec fn is_empty_entry(e: MapEntry) -> bool {
    &&& e.hash == 0
    &&& e.symbol_id == u32::MAX
    &&& e.core_id == 0
    &&& e.series_count == 0
    &&& e.state == 0
    &&& e.active_list_head == u32::MAX
    &&& e.last_ts_ns == 0
    &&& e.trade_count == 0
    &&& e.volume_acc == 0
    &&& e.pad@ == Seq::new(20, |i: int| 0u8)
}

impl MapEntry {
    /// The empty entry: no hash, no symbol, state Empty.
    pub fn empty() -> (e: Self)
        ensures
            is_empty_entry(e),
    {
        let e = Self {
            hash: 0,
            symbol_id: u32::MAX,
            core_id: 0,
            series_count: 0,
            state: 0,
            active_list_head: u32::MAX,
            last_ts_ns: 0,
            trade_count: 0,
            volume_acc: 0,
            pad: [0; 20],
        };
        assert(e.pad@ =~= Seq::new(20, |i: int| 0u8));
        e
    }

    pub open spec fn spec_is_active(&self) -> bool {
        self.state == 1
    }

    pub fn is_active(&self) -> (r: bool)
        ensures
            r == self.spec_is_active(),
    {
        self.state == 1
    }
}

#[derive(Debug, Clone, Copy)]
pub struct MapConfig {
    /// log2(capacity).
    pub capacity_bits: u32,
}

impl Default for MapConfig {
    fn default() -> (c: Self)
        ensures
            c.capacity_bits == 12,
    {
        Self { capacity_bits: 12 }
    }
}

/// The entry written into a free slot by `insert`: payload set, counters cleared,
/// state Active; the slot's padding is left as it was.
pub open spec fn inserted_entry(old_entry: MapEntry, hash: u32, symbol_id: u32, core_id: u16) -> MapEntry {
    MapEntry {
        hash,
        symbol_id,
        core_id,
        series_count: 0,
        active_list_head: u32::MAX,
        last_ts_ns: 0,
        trade_count: 0,
        volume_acc: 0,
        state: 1,
        ..old_entry
    }
}

/// An entry after `fold_trade`: one more trade, volume added, last timestamp set
/// (counters wrap).
pub open spec fn folded_entry(e: MapEntry, ts_ns: i64, qty: u64) -> MapEntry {
    MapEntry {
        trade_count: e.trade_count.wrapping_add(1),
        volume_acc: e.volume_acc.wrapping_add(qty),
        last_ts_ns: ts_ns,
        ..e
    }
}

/// The `k`-th probe position for `hash` in a table of `cap` slots.
pub open spec fn probe_pos(hash: u32, cap: int, k: int) -> int {
    (hash as int % cap + k) % cap
}

/// Lookup probe from step `k`: the first position holding `hash` and Active, stopping
/// at an Empty state word or after `MAX_PROBE` steps.
pub open spec fn lookup_from(t: Seq<MapEntry>, hash: u32, k: int) -> Option<int>
    decreases MAX_PROBE - k,
{
    if k >= MAX_PROBE || k < 0 {
        None
    } else {
        let p = probe_pos(hash, t.len() as int, k);
        if t[p].hash == hash && t[p].spec_is_active() {
            Some(p)
        } else if t[p].state == 0 {
            None
        } else {
            lookup_from(t, hash, k + 1)
        }
    }
}

/// Insert probe from step `k`: the first position whose entry is not Active.
pub open spec fn free_slot_from(t: Seq<MapEntry>, hash: u32, k: int) -> Option<int>
    decreases MAX_PROBE - k,
{
    if k >= MAX_PROBE || k < 0 {
        None
    } else {
        let p = probe_pos(hash, t.len() as int, k);
        if !t[p].spec_is_active() {
            Some(p)
        } else {
            free_slot_from(t, hash, k + 1)
        }
    }
}

/// `h`'s probe path reaches slot `i` at step `k < MAX_PROBE`, past slots that are all
/// in use.
pub open spec fn reached_at(t: Seq<MapEntry>, h: u32, i: int, k: int) -> bool {
    &&& 0 <= k < MAX_PROBE
    &&& probe_pos(h, t.len() as int, k) == i
    &&& forall|j: int| 0 <= j < k ==> #[trigger] t[probe_pos(h, t.len() as int, j)].state != 0
}

/// Every slot is Empty or Active, and every Active entry lies on its own hash's probe
/// path within `MAX_PROBE` steps, with no Empty slot in front of it.
pub open spec fn probe_chains_ok(t: Seq<MapEntry>) -> bool {
    forall|i: int|
        0 <= i < t.len() ==> {
            &&& (#[trigger] t[i]).state == 0 || t[i].state == 1
            &&& t[i].state == 1 ==> exists|k: int| reached_at(t, t[i].hash, i, k)
        }
}

/// The number of Active entries.
pub open spec fn active_count(t: Seq<MapEntry>) -> nat
    decreases t.len(),
{
    if t.len() == 0 {
        0
    } else {
        active_count(t.drop_last()) + (if t.last().state == 1 {
            1nat
        } else {
            0nat
        })
    }
}

/// Flat open-addressing table with a single writer.
pub struct SymbolMap {
    table: Vec<MapEntry>,
    mask: usize,
    len: usize,
    /// Bumped on every insert.
    pub version: AtomicU32,
}

proof fn lemma_mask_is_mod(x: usize, bits: usize)
    requires
        bits < usize::BITS,
    ensures
        x & (((1usize << bits) - 1) as usize) == x % (1usize << bits),
        (1usize << bits) > 0,
{
    vstd::bits::lemma_usize_pow2_no_overflow(bits as nat);
    vstd::bits::lemma_usize_shl_is_mul(1, bits);
    vstd::bits::lemma_usize_low_bits_mask_is_mod(x, bits as nat);
}

fn bump_version(v: &AtomicU32) {
    v.fetch_add(1, std::sync::atomic::Ordering::Release);
}

fn new_version() -> AtomicU32 {
    AtomicU32::new(0)
}

impl SymbolMap {
    /// The table's entries.
    pub closed spec fn entries(&self) -> Seq<MapEntry> {
        self.table@
    }

    /// The number of inserted entries.
    pub closed spec fn spec_len(&self) -> nat {
        self.len as nat
    }

    pub closed spec fn wf(&self) -> bool {
        &&& exists|bits: usize|
            bits < usize::BITS && self.table@.len() == (1usize << bits) && self.mask == (((1usize
                << bits) - 1) as usize)
        &&& self.table@.len() * 64 <= isize::MAX
        &&& self.len <= self.table@.len()
        &&& self.len * 10 <= self.table@.len() * 7
        &&& self.len == active_count(self.table@)
        &&& probe_chains_ok(self.table@)
    }

    /// What a well-formed map promises: its length counts the Active entries, the load
    /// stays at or below 0.7, and every Active entry is reachable by its own probe.
    pub proof fn lemma_wf(&self)
        requires
            self.wf(),
        ensures
            self.spec_len() == active_count(self.entries()),
            self.spec_len() * 10 <= self.entries().len() * 7,
            probe_chains_ok(self.entries()),
            self.entries().len() > 0,
    {
        let bits = choose|bits: usize|
            bits < usize::BITS && self.table@.len() == (1usize << bits) && self.mask
                == (((1usize << bits) - 1) as usize);
        lemma_mask_is_mod(0, bits);
    }

    pub fn new(cfg: MapConfig) -> (m: Self)
        requires
            cfg.capacity_bits < usize::BITS,
            (1usize << cfg.capacity_bits) as int * 64 <= isize::MAX,
        ensures
            m.wf(),
            m.entries().len() == (1usize << cfg.capacity_bits),
            forall|i: int| 0 <= i < m.entries().len() ==> is_empty_entry(#[trigger] m.entries()[i]),
            m.spec_len() == 0,
            forall|h: u32| #[trigger] lookup_from(m.entries(), h, 0) is None,
    {
        let bits = cfg.capacity_bits as usize;
        let cap = 1usize << bits;
        let mut table: Vec<MapEntry> = Vec::new();
        let mut k: usize = 0;
        while k < cap
            invariant
                k <= cap,
                table@.len() == k,
                forall|i: int| 0 <= i < k ==> is_empty_entry(#[trigger] table@[i]),
            decreases cap - k,
        {
            table.push(MapEntry::empty());
            k = k + 1;
        }
        proof {
            lemma_mask_is_mod(0, bits);
            lemma_count_none_active(table@);
        }
        let m = Self { table, mask: cap - 1, len: 0, version: new_version() };
        assert(m.wf());
        assert forall|h: u32| #[trigger] lookup_from(m.entries(), h, 0) is None by {
            lemma_probe_pos_in_range(h, m.entries().len() as int, 0);
            assert(is_empty_entry(m.entries()[probe_pos(h, m.entries().len() as int, 0)]));
        }
        m
    }

    pub fn capacity(&self) -> (c: usize)
        ensures
            c == self.entries().len(),
    {
        self.table.len()
    }

    pub fn len(&self) -> (l: usize)
        ensures
            l == self.spec_len(),
    {
        self.len
    }

    /// The symbol hash, the same as the ingest side's: FNV-1a 32 with the low bit set.
    pub fn hash_bytes(bytes: &[u8]) -> (h: u32)
        ensures
            h == spec_hash_symbol(bytes@),
    {
        let mut h: u32 = 0x811c_9dc5;
        let mut i: usize = 0;
        while i < bytes.len()
            invariant
                i <= bytes.len(),
                h == fnv1a(bytes@.take(i as int)),
            decreases bytes.len() - i,
        {
            assert(bytes@.take(i + 1).drop_last() =~= bytes@.take(i as int));
            h = h ^ (bytes[i] as u32);
            h = h.wrapping_mul(0x0100_0193);
            i = i + 1;
        }
        assert(bytes@.take(bytes.len() as int) =~= bytes@);
        h | 1
    }

    /// Insert into the first non-Active slot of the probe sequence. `Full` when one more
    /// entry would take the load above 0.7, or no such slot lies within `MAX_PROBE`
    /// steps. A successful insert leaves every other hash's lookup as it was.
    pub fn insert(&mut self, hash: u32, symbol_id: u32, core_id: u16) -> (r: Result<(), MapError>)
        requires
            old(self).wf(),
        ensures
            final(self).wf(),
            ({
                let t = old(self).entries();
                if (old(self).spec_len() + 1) * 10 > t.len() * 7 {
                    r == Err::<(), MapError>(MapError::Full) && final(self).entries() == t
                        && final(self).spec_len() == old(self).spec_len()
                } else {
                    match free_slot_from(t, hash, 0) {
                        None => r == Err::<(), MapError>(MapError::Full) && final(self).entries()
                            == t && final(self).spec_len() == old(self).spec_len(),
                        Some(p) => {
                            &&& r == Ok::<(), MapError>(())
                            &&& final(self).entries() == t.update(
                                p,
                                inserted_entry(t[p], hash, symbol_id, core_id),
                            )
                            &&& final(self).spec_len() == old(self).spec_len() + 1
                            &&& forall|h2: u32|
                                h2 != hash ==> #[trigger] lookup_from(final(self).entries(), h2, 0)
                                    == lookup_from(t, h2, 0)
                        },
                    }
                }
            }),
    {
        let ghost bits = choose|bits: usize|
            bits < usize::BITS && self.table@.len() == (1usize << bits) && self.mask == (((1usize
                << bits) - 1) as usize);
        if (self.len + 1) * 10 > self.table.len() * 7 {
            return Err(MapError::Full);
        }
        proof {
            lemma_mask_is_mod(hash as usize, bits);
            vstd::arithmetic::div_mod::lemma_mod_twice(hash as int, self.table@.len() as int);
        }
        let mut idx = (hash as usize) & self.mask;
        let mut k: usize = 0;
        while k < MAX_PROBE
            invariant
                self.table@ == old(self).table@,
                self.mask == old(self).mask,
                self.len == old(self).len,
                self.table@.len() == (1usize << bits),
                bits < usize::BITS,
                self.mask == (((1usize << bits) - 1) as usize),
                (self.len + 1) * 10 <= self.table@.len() * 7,
                k <= MAX_PROBE,
                idx as int == probe_pos(hash, self.table@.len() as int, k as int),
                free_slot_from(self.table@, hash, 0) == free_slot_from(self.table@, hash, k as int),
                self.wf(),
            decreases MAX_PROBE - k,
        {
            proof {
                lemma_mask_is_mod((idx + 1) as usize, bits);
                lemma_mask_is_mod(idx, bits);
            }
            if !self.table[idx].is_active() {
                self.table[idx].hash = hash;
                self.table[idx].symbol_id = symbol_id;
                self.table[idx].core_id = core_id;
                self.table[idx].series_count = 0;
                self.table[idx].active_list_head = u32::MAX;
                self.table[idx].last_ts_ns = 0;
                self.table[idx].trade_count = 0;
                self.table[idx].volume_acc = 0;
                self.table[idx].state = 1;
                self.len = self.len + 1;
                bump_version(&self.version);
                assert(self.table@ =~= old(self).table@.update(
                    idx as int,
                    inserted_entry(old(self).table@[idx as int], hash, symbol_id, core_id),
                ));
                proof {
                    let t = old(self).table@;
                    let e = inserted_entry(t[idx as int], hash, symbol_id, core_id);
                    lemma_free_slot_shape(t, hash, 0);
                    lemma_insert_keeps_chains(t, hash, idx as int, e);
                    lemma_count_update(t, idx as int, e);
                    assert forall|h2: u32| h2 != hash implies #[trigger] lookup_from(
                        self.table@,
                        h2,
                        0,
                    ) == lookup_from(t, h2, 0) by {
                        lemma_insert_other_lookup(t, h2, 0, idx as int, e);
                    }
                }
                return Ok(());
            }
            proof {
                let cap = self.table@.len() as int;
                vstd::arithmetic::div_mod::lemma_add_mod_noop(hash as int % cap + k, 1, cap);
                if cap > 1 {
                    vstd::arithmetic::div_mod::lemma_small_mod(1, cap as nat);
                }
            }
            idx = (idx + 1) & self.mask;
            k = k + 1;
        }
        Err(MapError::Full)
    }

    /// Probe for `hash`: the first Active entry with that hash, stopping at an Empty slot.
    pub fn lookup(&self, hash: u32) -> (r: Result<&MapEntry, MapError>)
        requires
            self.wf(),
        ensures
            match lookup_from(self.entries(), hash, 0) {
                Some(p) => r == Ok::<&MapEntry, MapError>(&self.entries()[p]),
                None => r == Err::<&MapEntry, MapError>(MapError::NotFound),
            },
    {
        let ghost bits = choose|bits: usize|
            bits < usize::BITS && self.table@.len() == (1usize << bits) && self.mask == (((1usize
                << bits) - 1) as usize);
        proof {
            lemma_mask_is_mod(hash as usize, bits);
            vstd::arithmetic::div_mod::lemma_mod_twice(hash as int, self.table@.len() as int);
        }
        let mut idx = (hash as usize) & self.mask;
        let mut k: usize = 0;
        while k < MAX_PROBE
            invariant
                self.table@.len() == (1usize << bits),
                bits < usize::BITS,
                self.mask == (((1usize << bits) - 1) as usize),
                k <= MAX_PROBE,
                idx as int == probe_pos(hash, self.table@.len() as int, k as int),
                lookup_from(self.table@, hash, 0) == lookup_from(self.table@, hash, k as int),
            decreases MAX_PROBE - k,
        {
            proof {
                lemma_mask_is_mod((idx + 1) as usize, bits);
                lemma_mask_is_mod(idx, bits);
            }
            let e = &self.table[idx];
            if e.hash == hash && e.is_active() {
                return Ok(e);
            }
            if e.state == 0 {
                return Err(MapError::NotFound);
            }
            proof {
                let cap = self.table@.len() as int;
                vstd::arithmetic::div_mod::lemma_add_mod_noop(hash as int % cap + k, 1, cap);
                if cap > 1 {
                    vstd::arithmetic::div_mod::lemma_small_mod(1, cap as nat);
                }
            }
            idx = (idx + 1) & self.mask;
            k = k + 1;
        }
        Err(MapError::NotFound)
    }

    /// Fold one trade into the entry `lookup` would find: count it, add `qty`, stamp `ts_ns`.
    pub fn fold_trade(&mut self, hash: u32, ts_ns: i64, qty: u64) -> (found: bool)
        requires
            old(self).wf(),
        ensures
            final(self).wf(),
            final(self).spec_len() == old(self).spec_len(),
            match lookup_from(old(self).entries(), hash, 0) {
                Some(p) => found && final(self).entries() == old(self).entries().update(
                    p,
                    folded_entry(old(self).entries()[p], ts_ns, qty),
                ),
                None => !found && final(self).entries() == old(self).entries(),
            },
    {
        let ghost bits = choose|bits: usize|
            bits < usize::BITS && self.table@.len() == (1usize << bits) && self.mask == (((1usize
                << bits) - 1) as usize);
        proof {
            lemma_mask_is_mod(hash as usize, bits);
            vstd::arithmetic::div_mod::lemma_mod_twice(hash as int, self.table@.len() as int);
        }
        let mut idx = (hash as usize) & self.mask;
        let mut k: usize = 0;
        while k < MAX_PROBE
            invariant
                self.table@ == old(self).table@,
                self.mask == old(self).mask,
                self.len == old(self).len,
                self.table@.len() == (1usize << bits),
                bits < usize::BITS,
                self.mask == (((1usize << bits) - 1) as usize),
                k <= MAX_PROBE,
                idx as int == probe_pos(hash, self.table@.len() as int, k as int),
                lookup_from(self.table@, hash, 0) == lookup_from(self.table@, hash, k as int),
                self.wf(),
            decreases MAX_PROBE - k,
        {
            proof {
                lemma_mask_is_mod((idx + 1) as usize, bits);
                lemma_mask_is_mod(idx, bits);
            }
            if self.table[idx].hash == hash && self.table[idx].is_active() {
                self.table[idx].trade_count = self.table[idx].trade_count.wrapping_add(1);
                self.table[idx].volume_acc = self.table[idx].volume_acc.wrapping_add(qty);
                self.table[idx].last_ts_ns = ts_ns;
                assert(self.table@ =~= old(self).table@.update(
                    idx as int,
                    folded_entry(old(self).table@[idx as int], ts_ns, qty),
                ));
                proof {
                    let t = old(self).table@;
                    assert forall|i: int| 0 <= i < t.len() implies (
                    #[trigger] self.table@[i]).hash == t[i].hash && self.table@[i].state
                        == t[i].state by {
                        if i == idx {
                            assert(self.table@[i] == folded_entry(t[i], ts_ns, qty));
                        }
                    }
                    lemma_same_keys_chains(t, self.table@);
                    lemma_count_same_states(t, self.table@);
                }
                return true;
            }
            if self.table[idx].state == 0 {
                return false;
            }
            proof {
                let cap = self.table@.len() as int;
                vstd::arithmetic::div_mod::lemma_add_mod_noop(hash as int % cap + k, 1, cap);
                if cap > 1 {
                    vstd::arithmetic::div_mod::lemma_small_mod(1, cap as nat);
                }
            }
            idx = (idx + 1) & self.mask;
            k = k + 1;
        }
        false
    }
}


proof fn lemma_probe_pos_in_range(hash: u32, cap: int, k: int)
    requires
        cap > 0,
        k >= 0,
    ensures
        0 <= probe_pos(hash, cap, k) < cap,
{
    vstd::arithmetic::div_mod::lemma_mod_bound(hash as int % cap + k, cap);
}

proof fn lemma_free_slot_shape(t: Seq<MapEntry>, hash: u32, k: int)
    requires
        t.len() > 0,
        0 <= k,
        free_slot_from(t, hash, k) is Some,
    ensures
        ({
            let p = free_slot_from(t, hash, k)->0;
            &&& 0 <= p < t.len()
            &&& !t[p].spec_is_active()
        }),
    decreases MAX_PROBE - k,
{
    lemma_probe_pos_in_range(hash, t.len() as int, k);
    if t[probe_pos(hash, t.len() as int, k)].spec_is_active() {
        lemma_free_slot_shape(t, hash, k + 1);
    }
}

proof fn lemma_lookup_shape(t: Seq<MapEntry>, hash: u32, k: int)
    requires
        t.len() > 0,
        0 <= k,
        lookup_from(t, hash, k) is Some,
    ensures
        ({
            let p = lookup_from(t, hash, k)->0;
            &&& 0 <= p < t.len()
            &&& t[p].hash == hash
            &&& t[p].spec_is_active()
        }),
    decreases MAX_PROBE - k,
{
    lemma_probe_pos_in_range(hash, t.len() as int, k);
    let pos = probe_pos(hash, t.len() as int, k);
    if !(t[pos].hash == hash && t[pos].spec_is_active()) {
        lemma_lookup_shape(t, hash, k + 1);
    }
}

/// Writing an Active entry for `hash` into the free slot `p` makes a lookup of `hash`
/// from step `k` succeed on an Active entry with that hash (exactly `p` when the lookup
/// failed before).
proof fn lemma_insert_lookup_from(t: Seq<MapEntry>, hash: u32, k: int, p: int, e: MapEntry)
    requires
        t.len() > 0,
        0 <= k,
        free_slot_from(t, hash, k) == Some(p),
        e.hash == hash,
        e.spec_is_active(),
    ensures
        ({
            let t2 = t.update(p, e);
            &&& lookup_from(t2, hash, k) is Some
            &&& t2[lookup_from(t2, hash, k)->0].hash == hash
            &&& t2[lookup_from(t2, hash, k)->0].spec_is_active()
            &&& lookup_from(t, hash, k) is None ==> lookup_from(t2, hash, k) == Some(p)
        }),
    decreases MAX_PROBE - k,
{
    let t2 = t.update(p, e);
    let pos = probe_pos(hash, t.len() as int, k);
    lemma_probe_pos_in_range(hash, t.len() as int, k);
    lemma_free_slot_shape(t, hash, k);
    if t[pos].spec_is_active() {
        assert(pos != p);
        assert(t2[pos] == t[pos]);
        if !(t[pos].hash == hash) {
            lemma_insert_lookup_from(t, hash, k + 1, p, e);
        }
    } else {
        assert(pos == p);
    }
}

/// Changing entries without touching their hash or state changes no lookup.
proof fn lemma_same_keys_same_lookup(t: Seq<MapEntry>, t2: Seq<MapEntry>, g: u32, k: int)
    requires
        t.len() == t2.len(),
        t.len() > 0,
        forall|i: int|
            0 <= i < t.len() ==> (#[trigger] t2[i]).hash == t[i].hash && t2[i].state == t[i].state,
    ensures
        lookup_from(t2, g, k) == lookup_from(t, g, k),
    decreases MAX_PROBE - k,
{
    if 0 <= k < MAX_PROBE {
        lemma_probe_pos_in_range(g, t.len() as int, k);
        let pos = probe_pos(g, t.len() as int, k);
        assert(t2[pos].hash == t[pos].hash && t2[pos].state == t[pos].state);
        lemma_same_keys_same_lookup(t, t2, g, k + 1);
    }
}

impl SymbolMap {
    /// A successful insert makes the key findable: afterwards a lookup of `hash` finds an
    /// Active entry carrying `hash`, and when `hash` was not findable before, it finds
    /// exactly the entry the insert wrote.
    pub proof fn lemma_insert_then_lookup(&self, hash: u32, symbol_id: u32, core_id: u16)
        requires
            self.wf(),
            free_slot_from(self.entries(), hash, 0) is Some,
        ensures
            ({
                let t = self.entries();
                let p = free_slot_from(t, hash, 0)->0;
                let t2 = t.update(p, inserted_entry(t[p], hash, symbol_id, core_id));
                &&& lookup_from(t2, hash, 0) is Some
                &&& t2[lookup_from(t2, hash, 0)->0].hash == hash
                &&& t2[lookup_from(t2, hash, 0)->0].spec_is_active()
                &&& lookup_from(t, hash, 0) is None ==> lookup_from(t2, hash, 0) == Some(p)
            }),
    {
        let t = self.entries();
        let p = free_slot_from(t, hash, 0)->0;
        assert(t.len() > 0) by {
            let bits = choose|bits: usize|
                bits < usize::BITS && self.table@.len() == (1usize << bits) && self.mask
                    == (((1usize << bits) - 1) as usize);
            lemma_mask_is_mod(0, bits);
        }
        lemma_insert_lookup_from(t, hash, 0, p, inserted_entry(t[p], hash, symbol_id, core_id));
    }

    /// An insert changes no other key's lookup: every hash other than the inserted one
    /// is found where it was found before, and what was not found stays not found.
    pub proof fn lemma_insert_keeps_other_keys(
        &self,
        hash: u32,
        symbol_id: u32,
        core_id: u16,
        other: u32,
    )
        requires
            self.wf(),
            free_slot_from(self.entries(), hash, 0) is Some,
            other != hash,
        ensures
            ({
                let t = self.entries();
                let p = free_slot_from(t, hash, 0)->0;
                let t2 = t.update(p, inserted_entry(t[p], hash, symbol_id, core_id));
                lookup_from(t2, other, 0) == lookup_from(t, other, 0)
            }),
    {
        let t = self.entries();
        let p = free_slot_from(t, hash, 0)->0;
        self.lemma_wf();
        lemma_free_slot_shape(t, hash, 0);
        lemma_insert_other_lookup(t, other, 0, p, inserted_entry(t[p], hash, symbol_id, core_id));
    }

    /// Folding a trade changes what no lookup finds: after `fold_trade(hash, ..)` every
    /// key is found where it was found before.
    pub proof fn lemma_fold_keeps_lookups(&self, hash: u32, ts_ns: i64, qty: u64, other: u32)
        requires
            self.wf(),
            lookup_from(self.entries(), hash, 0) is Some,
        ensures
            ({
                let t = self.entries();
                let p = lookup_from(t, hash, 0)->0;
                let t3 = t.update(p, folded_entry(t[p], ts_ns, qty));
                lookup_from(t3, other, 0) == lookup_from(t, other, 0)
            }),
    {
        let t = self.entries();
        let p = lookup_from(t, hash, 0)->0;
        assert(t.len() > 0) by {
            let bits = choose|bits: usize|
                bits < usize::BITS && self.table@.len() == (1usize << bits) && self.mask
                    == (((1usize << bits) - 1) as usize);
            lemma_mask_is_mod(0, bits);
        }
        lemma_lookup_shape(t, hash, 0);
        let t3 = t.update(p, folded_entry(t[p], ts_ns, qty));
        assert forall|i: int| 0 <= i < t.len() implies (#[trigger] t3[i]).hash == t[i].hash
            && t3[i].state == t[i].state by {
            if i == p {
                assert(t3[i] == folded_entry(t[p], ts_ns, qty));
            }
        }
        lemma_same_keys_same_lookup(t, t3, other, 0);
    }
}

proof fn lemma_count_none_active(t: Seq<MapEntry>)
    requires
        forall|i: int| 0 <= i < t.len() ==> is_empty_entry(#[trigger] t[i]),
    ensures
        active_count(t) == 0,
        probe_chains_ok(t),
    decreases t.len(),
{
    if t.len() > 0 {
        assert(is_empty_entry(t[t.len() - 1]));
        lemma_count_none_active(t.drop_last());
    }
}

proof fn lemma_count_update(t: Seq<MapEntry>, p: int, e: MapEntry)
    requires
        0 <= p < t.len(),
    ensures
        active_count(t.update(p, e)) + (if t[p].state == 1 {
            1int
        } else {
            0int
        }) == active_count(t) + (if e.state == 1 {
            1int
        } else {
            0int
        }),
    decreases t.len(),
{
    let t2 = t.update(p, e);
    if p == t.len() - 1 {
        assert(t2.drop_last() =~= t.drop_last());
    } else {
        assert(t2.drop_last() =~= t.drop_last().update(p, e));
        lemma_count_update(t.drop_last(), p, e);
    }
}

proof fn lemma_count_same_states(t: Seq<MapEntry>, t2: Seq<MapEntry>)
    requires
        t.len() == t2.len(),
        forall|i: int| 0 <= i < t.len() ==> (#[trigger] t2[i]).state == t[i].state,
    ensures
        active_count(t2) == active_count(t),
    decreases t.len(),
{
    if t.len() > 0 {
        assert(t2[t.len() - 1].state == t[t.len() - 1].state);
        assert forall|i: int| 0 <= i < t.drop_last().len() implies (
        #[trigger] t2.drop_last()[i]).state == t.drop_last()[i].state by {
            assert(t2[i].state == t[i].state);
        }
        lemma_count_same_states(t.drop_last(), t2.drop_last());
    }
}

/// The step at which the insert probe for `h`, from step `k0`, finds its slot; every
/// slot before it from `k0` on is Active.
proof fn lemma_free_slot_reached(t: Seq<MapEntry>, h: u32, k0: int) -> (k: int)
    requires
        t.len() > 0,
        0 <= k0,
        free_slot_from(t, h, k0) is Some,
    ensures
        k0 <= k < MAX_PROBE,
        probe_pos(h, t.len() as int, k) == free_slot_from(t, h, k0)->0,
        forall|j: int| k0 <= j < k ==> #[trigger] t[probe_pos(h, t.len() as int, j)].state == 1,
    decreases MAX_PROBE - k0,
{
    if t[probe_pos(h, t.len() as int, k0)].spec_is_active() {
        lemma_free_slot_reached(t, h, k0 + 1)
    } else {
        k0
    }
}

/// Same hashes and states in the same slots: the probe chains are as good.
proof fn lemma_same_keys_chains(t: Seq<MapEntry>, t2: Seq<MapEntry>)
    requires
        t.len() == t2.len(),
        forall|i: int|
            0 <= i < t.len() ==> (#[trigger] t2[i]).hash == t[i].hash && t2[i].state == t[i].state,
        probe_chains_ok(t),
    ensures
        probe_chains_ok(t2),
{
    assert forall|i: int| 0 <= i < t2.len() implies {
        &&& (#[trigger] t2[i]).state == 0 || t2[i].state == 1
        &&& t2[i].state == 1 ==> exists|k: int| reached_at(t2, t2[i].hash, i, k)
    } by {
        assert(t2[i].hash == t[i].hash && t2[i].state == t[i].state);
        assert(t[i].state == 0 || t[i].state == 1);
        if t2[i].state == 1 {
            let k = choose|k: int| reached_at(t, t[i].hash, i, k);
            assert forall|j: int| 0 <= j < k implies #[trigger] t2[probe_pos(
                t2[i].hash,
                t2.len() as int,
                j,
            )].state != 0 by {
                let q = probe_pos(t[i].hash, t.len() as int, j);
                lemma_probe_pos_in_range(t[i].hash, t.len() as int, j);
                assert(t[q].state != 0);
                assert(t2[q].state == t[q].state);
            }
            assert(reached_at(t2, t2[i].hash, i, k));
        }
    }
}

/// Writing an Active entry into the slot the insert probe chose keeps every probe chain.
proof fn lemma_insert_keeps_chains(t: Seq<MapEntry>, h: u32, p: int, e: MapEntry)
    requires
        t.len() > 0,
        probe_chains_ok(t),
        free_slot_from(t, h, 0) == Some(p),
        e.hash == h,
        e.state == 1,
    ensures
        probe_chains_ok(t.update(p, e)),
{
    let t2 = t.update(p, e);
    let n = t.len() as int;
    lemma_free_slot_shape(t, h, 0);
    assert(t[p].state == 0 || t[p].state == 1);
    let kp = lemma_free_slot_reached(t, h, 0);
    assert forall|i: int| 0 <= i < t2.len() implies {
        &&& (#[trigger] t2[i]).state == 0 || t2[i].state == 1
        &&& t2[i].state == 1 ==> exists|k: int| reached_at(t2, t2[i].hash, i, k)
    } by {
        if i == p {
            assert forall|j: int| 0 <= j < kp implies #[trigger] t2[probe_pos(h, n, j)].state
                != 0 by {
                let q = probe_pos(h, n, j);
                lemma_probe_pos_in_range(h, n, j);
                assert(t[q].state == 1);
                assert(q != p);
            }
            assert(reached_at(t2, t2[i].hash, i, kp));
        } else {
            assert(t2[i] == t[i]);
            assert(t[i].state == 0 || t[i].state == 1);
            if t[i].state == 1 {
                let k = choose|k: int| reached_at(t, t[i].hash, i, k);
                assert forall|j: int| 0 <= j < k implies #[trigger] t2[probe_pos(
                    t2[i].hash,
                    n,
                    j,
                )].state != 0 by {
                    let q = probe_pos(t[i].hash, n, j);
                    lemma_probe_pos_in_range(t[i].hash, n, j);
                    assert(t[q].state != 0);
                }
                assert(reached_at(t2, t2[i].hash, i, k));
            }
        }
    }
}

/// Writing an Active entry with another hash into an Empty slot changes no lookup of
/// `g` from step `k`, once the steps before `k` have passed over slots in use that do
/// not hold `g`.
proof fn lemma_insert_other_lookup(t: Seq<MapEntry>, g: u32, k: int, p: int, e: MapEntry)
    requires
        t.len() > 0,
        probe_chains_ok(t),
        0 <= p < t.len(),
        !t[p].spec_is_active(),
        e.hash != g,
        e.state == 1,
        0 <= k,
        forall|j: int|
            0 <= j < k ==> !(#[trigger] t[probe_pos(g, t.len() as int, j)].hash == g && t[probe_pos(
                g,
                t.len() as int,
                j,
            )].spec_is_active()) && t[probe_pos(g, t.len() as int, j)].state != 0,
    ensures
        lookup_from(t.update(p, e), g, k) == lookup_from(t, g, k),
    decreases MAX_PROBE - k,
{
    let t2 = t.update(p, e);
    let n = t.len() as int;
    assert(t[p].state == 0 || t[p].state == 1);
    if k < MAX_PROBE {
        lemma_probe_pos_in_range(g, n, k);
        let pos = probe_pos(g, n, k);
        if pos != p {
            assert(t2[pos] == t[pos]);
            if !(t[pos].hash == g && t[pos].spec_is_active()) && t[pos].state != 0 {
                lemma_insert_other_lookup(t, g, k + 1, p, e);
            }
        } else {
            if lookup_from(t2, g, k + 1) is Some {
                lemma_lookup_shape(t2, g, k + 1);
                let q = lookup_from(t2, g, k + 1)->0;
                assert(q != p);
                assert(t2[q] == t[q]);
                assert(t[q].state == 1);
                let k0 = choose|k0: int| reached_at(t, g, q, k0);
                if k0 > k {
                    assert(t[probe_pos(g, n, k)].state != 0);
                } else if k0 < k {
                    assert(probe_pos(g, n, k0) == q);
                }
            }
        }
    }
}

} // verus!
