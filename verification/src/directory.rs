//! Directory: hash -> dense id interning (cold) + flat lookup snapshot (hot).
//!
//! Each symbol hash maps to exactly one dense id, forever.
//! `dense_id & mask` is stable, so each symbol lands on exactly one core.

use vstd::prelude::*;
use std::collections::HashMap;
use std::sync::Arc;
use std::sync::atomic::AtomicU64;
use vstd::arithmetic::power2::pow2;
use vstd::std_specs::iter::IteratorSpec;

verus! {

broadcast use vstd::std_specs::hash::group_hash_axioms;

#[derive(Clone, Default)]
pub struct Snapshot {
    /// Flat pow2 table: slot = hash & mask; 0 = empty, else dense_id + 1.
    pub table: Arc<Vec<u32>>,
    /// Parallel hashes, to tell colliding symbols apart during the probe.
    pub hashes: Arc<Vec<u32>>,
    pub mask: u32,
    pub num_symbols: u32,
}

pub struct Directory {
    map: HashMap<u32, u32>,
    next_dense: u32,
    snapshot: Arc<Snapshot>,
    version: AtomicU64,
}

/// `Arc::clone`: a new handle to the same value.
#[verifier::external_body]
pub(crate) fn arc_clone<T>(a: &Arc<T>) -> (r: Arc<T>)
    ensures
        r == *a,
{
    Arc::clone(a)
}

fn bump_version(v: &AtomicU64) {
    v.fetch_add(1, std::sync::atomic::Ordering::Release);
}

fn new_version() -> AtomicU64 {
    AtomicU64::new(0)
}

/// The `k`-th slot of the linear probe for `h` in a table of `cap` slots.
pub open spec fn probe_at(h: u32, cap: int, k: int) -> int {
    (h as int % cap + k) % cap
}

/// In the tables `t`/`hh`, `h` sits `k` probe steps from its home slot, with no empty
/// slot before it.
pub open spec fn placed_in(t: Seq<u32>, hh: Seq<u32>, h: u32, k: int) -> bool {
    &&& 0 <= k < t.len()
    &&& t[probe_at(h, t.len() as int, k)] != 0
    &&& hh[probe_at(h, t.len() as int, k)] == h
    &&& forall|j: int| 0 <= j < k ==> #[trigger] t[probe_at(h, t.len() as int, j)] != 0
}

impl Snapshot {
    pub open spec fn cap(&self) -> int {
        self.table@.len() as int
    }

    /// Both tables have the same power-of-two length and `mask` is that length minus one.
    pub open spec fn wf(&self) -> bool {
        exists|bits: nat|
            bits < 32 && self.table@.len() == pow2(bits) && self.hashes@.len() == pow2(bits)
                && self.mask == pow2(bits) - 1
    }

    /// The probe for `h` from step `k`: stops at an empty slot, or after 8 steps.
    pub open spec fn dense_from(&self, h: u32, k: int) -> Option<u32>
        decreases 8 - k,
    {
        if k < 0 || k >= 8 {
            None
        } else {
            let i = probe_at(h, self.cap(), k);
            if self.table@[i] == 0 {
                None
            } else if self.hashes@[i] == h {
                Some((self.table@[i] - 1) as u32)
            } else {
                self.dense_from(h, k + 1)
            }
        }
    }

    /// `h` sits `k` probe steps from its home slot, with no empty slot before it.
    pub open spec fn placed_at(&self, h: u32, k: int) -> bool {
        placed_in(self.table@, self.hashes@, h, k)
    }

    /// The table is a linear-probe table holding exactly the pairs of `m`.
    pub open spec fn represents(&self, m: Map<u32, u32>) -> bool {
        &&& forall|i: int|
            0 <= i < self.cap() && #[trigger] self.table@[i] != 0 ==> {
                &&& m.contains_key(self.hashes@[i])
                &&& m[self.hashes@[i]] + 1 == self.table@[i]
            }
        &&& forall|i: int, j: int|
            0 <= i < self.cap() && 0 <= j < self.cap() && i != j && #[trigger] self.table@[i] != 0
                && #[trigger] self.table@[j] != 0 ==> self.hashes@[i] != self.hashes@[j]
        &&& forall|h: u32| #[trigger] m.contains_key(h) ==> exists|k: int| self.placed_at(h, k)
        &&& self.num_symbols == m.len()
    }

    /// Hot: hash -> dense id in one flat probe of at most 8 slots.
    pub fn dense_of(&self, hash: u32) -> (r: Option<u32>)
        requires
            self.wf(),
        ensures
            r == self.dense_from(hash, 0),
    {
        let ghost bits = choose|bits: nat|
            bits < 32 && self.table@.len() == pow2(bits) && self.hashes@.len() == pow2(bits)
                && self.mask == pow2(bits) - 1;
        proof {
            lemma_mask_u32(hash, bits);
            vstd::arithmetic::div_mod::lemma_mod_twice(hash as int, self.cap());
            lemma_pow2_le_2_31(bits);
        }
        let mut i = (hash & self.mask) as usize;
        let mut k: usize = 0;
        while k < 8
            invariant
                self.wf(),
                bits < 32,
                self.table@.len() == pow2(bits),
                self.hashes@.len() == pow2(bits),
                self.mask == pow2(bits) - 1,
                k <= 8,
                i as int == probe_at(hash, self.cap(), k as int),
                self.dense_from(hash, 0) == self.dense_from(hash, k as int),
            decreases 8 - k,
        {
            proof {
                lemma_step_mod(hash, self.cap(), k as int, i, bits);
                lemma_pow2_le_2_31(bits);
            }
            let v = self.table[i];
            if v == 0 {
                return None;
            }
            if self.hashes[i] == hash {
                return Some(v - 1);
            }
            i = (i + 1) & (self.mask as usize);
            k = k + 1;
        }
        None
    }
}

proof fn lemma_mask_u32(h: u32, bits: nat)
    requires
        bits < 32,
    ensures
        h & ((pow2(bits) - 1) as u32) == h as int % pow2(bits) as int,
        pow2(bits) > 0,
{
    vstd::bits::lemma_u32_pow2_no_overflow(bits);
    vstd::bits::lemma_u32_low_bits_mask_is_mod(h, bits);
}

/// One probe step: `(i + 1) & mask` is the next probe slot.
proof fn lemma_step_mod(h: u32, cap: int, k: int, i: usize, bits: nat)
    requires
        bits < 32,
        cap == pow2(bits),
        i as int == probe_at(h, cap, k),
        k >= 0,
    ensures
        ((i + 1) as usize) & ((pow2(bits) - 1) as usize) == probe_at(h, cap, k + 1),
        (((pow2(bits) - 1) as u32) as usize) == ((pow2(bits) - 1) as usize),
        i < cap,
{
    vstd::bits::lemma_u32_pow2_no_overflow(bits);
    vstd::bits::lemma_usize_pow2_no_overflow(bits);
    vstd::arithmetic::power2::lemma_pow2_pos(bits);
    vstd::arithmetic::div_mod::lemma_mod_bound(h as int % cap + k, cap);
    vstd::bits::lemma_usize_low_bits_mask_is_mod((i + 1) as usize, bits);
    vstd::arithmetic::div_mod::lemma_add_mod_noop(h as int % cap + k, 1, cap);
    if cap > 1 {
        vstd::arithmetic::div_mod::lemma_small_mod(1, cap as nat);
    }
}

/// Number of zero entries.
pub open spec fn count_zero(t: Seq<u32>) -> nat
    decreases t.len(),
{
    if t.len() == 0 {
        0
    } else {
        count_zero(t.drop_last()) + (if t.last() == 0 {
            1nat
        } else {
            0nat
        })
    }
}

proof fn lemma_count_zero_update(t: Seq<u32>, i: int, v: u32)
    requires
        0 <= i < t.len(),
        t[i] == 0,
        v != 0,
    ensures
        count_zero(t.update(i, v)) + 1 == count_zero(t),
    decreases t.len(),
{
    let u = t.update(i, v);
    if i == t.len() - 1 {
        assert(u.drop_last() =~= t.drop_last());
    } else {
        assert(u.drop_last() =~= t.drop_last().update(i, v));
        lemma_count_zero_update(t.drop_last(), i, v);
    }
}

proof fn lemma_count_zero_full(t: Seq<u32>)
    requires
        forall|i: int| 0 <= i < t.len() ==> t[i] != 0,
    ensures
        count_zero(t) == 0,
    decreases t.len(),
{
    if t.len() > 0 {
        lemma_count_zero_full(t.drop_last());
    }
}

proof fn lemma_count_zero_all(n: nat)
    ensures
        count_zero(Seq::new(n, |i: int| 0u32)) == n,
    decreases n,
{
    if n > 0 {
        assert(Seq::new(n, |i: int| 0u32).drop_last() =~= Seq::new((n - 1) as nat, |i: int| 0u32));
        lemma_count_zero_all((n - 1) as nat);
    }
}

/// The first `cap` probe steps visit every slot.
proof fn lemma_probe_covers(h: u32, cap: int, i: int)
    requires
        cap > 0,
        0 <= i < cap,
    ensures
        ({
            let k = (i - h as int % cap + cap) % cap;
            &&& 0 <= k < cap
            &&& probe_at(h, cap, k) == i
        }),
{
    let s = h as int % cap;
    vstd::arithmetic::div_mod::lemma_mod_bound(h as int, cap);
    let k = (i - s + cap) % cap;
    vstd::arithmetic::div_mod::lemma_mod_bound(i - s + cap, cap);
    vstd::arithmetic::div_mod::lemma_add_mod_noop(s, i - s + cap, cap);
    vstd::arithmetic::div_mod::lemma_small_mod(s as nat, cap as nat);
    vstd::arithmetic::div_mod::lemma_mod_add_multiples_vanish(i, cap);
    vstd::arithmetic::div_mod::lemma_small_mod(i as nat, cap as nat);
}

proof fn lemma_probe_in_range(h: u32, cap: int, k: int)
    requires
        cap > 0,
    ensures
        0 <= probe_at(h, cap, k) < cap,
{
    vstd::arithmetic::div_mod::lemma_mod_bound(h as int % cap + k, cap);
}

impl Directory {
    /// The interning map: symbol hash -> dense id.
    pub closed spec fn interned(&self) -> Map<u32, u32> {
        self.map@
    }

    /// The current published snapshot.
    pub closed spec fn current(&self) -> Snapshot {
        *self.snapshot
    }

    /// The dense id the next new hash gets.
    pub closed spec fn next_id(&self) -> u32 {
        self.next_dense
    }

    pub closed spec fn wf(&self) -> bool {
        &&& self.snapshot.wf()
        &&& self.snapshot.cap() <= 0x8000_0000
        &&& self.snapshot.represents(self.map@)
        &&& self.map@.dom().finite()
        &&& self.map@.len() == self.next_dense
        &&& self.map@.len() <= self.snapshot.cap()
        &&& forall|h: u32| #[trigger] self.map@.contains_key(h) ==> self.map@[h] < self.next_dense
        &&& forall|h1: u32, h2: u32|
            #[trigger] self.map@.contains_key(h1) && #[trigger] self.map@.contains_key(h2) && h1
                != h2 ==> self.map@[h1] != self.map@[h2]
    }

    /// What a well-formed directory promises: the snapshot holds exactly the interned
    /// pairs, ids are `0..next_id()`, and distinct hashes have distinct ids.
    pub proof fn lemma_wf(&self)
        requires
            self.wf(),
        ensures
            self.current().wf(),
            self.current().represents(self.interned()),
            self.interned().dom().finite(),
            self.interned().len() == self.next_id(),
            self.interned().len() <= self.current().cap(),
            forall|h: u32| #[trigger] self.interned().contains_key(h) ==> self.interned()[h] < self.next_id(),
            forall|h1: u32, h2: u32|
                #[trigger] self.interned().contains_key(h1) && #[trigger] self.interned().contains_key(
                    h2,
                ) && h1 != h2 ==> self.interned()[h1] != self.interned()[h2],
    {
    }

    /// Room for `2^bits` symbols; nothing interned yet.
    pub fn new_pow2(bits: u32) -> (d: Self)
        requires
            bits < 32,
        ensures
            d.wf(),
            d.interned() == Map::<u32, u32>::empty(),
            d.next_id() == 0,
            d.current().cap() == pow2(bits as nat),
            d.current().num_symbols == 0,
            forall|i: int| 0 <= i < d.current().cap() ==> #[trigger] d.current().table@[i] == 0,
    {
        proof {
            vstd::bits::lemma_u32_pow2_no_overflow(bits as nat);
            vstd::bits::lemma_usize_pow2_no_overflow(bits as nat);
            vstd::bits::lemma_usize_shl_is_mul(1, bits as usize);
            lemma_pow2_le_2_31(bits as nat);
        }
        let cap = 1usize << bits;
        let mut t: Vec<u32> = Vec::new();
        let mut hh: Vec<u32> = Vec::new();
        let mut k: usize = 0;
        while k < cap
            invariant
                k <= cap,
                t@.len() == k,
                hh@.len() == k,
                forall|i: int| 0 <= i < k ==> #[trigger] t@[i] == 0,
                forall|i: int| 0 <= i < k ==> #[trigger] hh@[i] == 0,
            decreases cap - k,
        {
            t.push(0);
            hh.push(0);
            k = k + 1;
        }
        let snap = Snapshot {
            table: Arc::new(t),
            hashes: Arc::new(hh),
            mask: (cap as u32) - 1,
            num_symbols: 0,
        };
        let d = Self {
            map: HashMap::new(),
            next_dense: 0,
            snapshot: Arc::new(snap),
            version: new_version(),
        };
        assert(d.snapshot.wf());
        assert(d.map@ =~= Map::<u32, u32>::empty());
        d
    }

    /// Cold: intern `hash` (idempotent). A new hash gets the next dense id and the
    /// snapshot is rebuilt once.
    pub fn intern(&mut self, hash: u32) -> (d: u32)
        requires
            old(self).wf(),
            !old(self).interned().contains_key(hash) ==> old(self).interned().len() < old(self).current().cap(),
        ensures
            final(self).wf(),
            final(self).current().cap() == old(self).current().cap(),
            old(self).interned().contains_key(hash) ==> {
                &&& d == old(self).interned()[hash]
                &&& final(self).interned() == old(self).interned()
                &&& final(self).next_id() == old(self).next_id()
                &&& final(self).current() == old(self).current()
            },
            !old(self).interned().contains_key(hash) ==> {
                &&& d == old(self).next_id()
                &&& final(self).interned() == old(self).interned().insert(hash, d)
                &&& final(self).next_id() == old(self).next_id() + 1
            },
    {
        match self.map.get(&hash) {
            Some(d) => {
                return *d;
            },
            None => {},
        }
        let d = self.next_dense;
        self.next_dense = self.next_dense + 1;
        self.map.insert(hash, d);
        proof {
            assert(self.map@.dom() =~= old(self).map@.dom().insert(hash));
            assert forall|h1: u32, h2: u32|
                #[trigger] self.map@.contains_key(h1) && #[trigger] self.map@.contains_key(h2) && h1
                    != h2 implies self.map@[h1] != self.map@[h2] by {
                if h1 != hash && h2 != hash {
                    assert(old(self).map@.contains_key(h1) && old(self).map@.contains_key(h2));
                } else if h1 == hash {
                    assert(old(self).map@.contains_key(h2));
                } else {
                    assert(old(self).map@.contains_key(h1));
                }
            }
        }
        self.rebuild();
        d
    }

    /// Rebuild the flat snapshot from the interning map (linear probing; the slots
    /// the pairs land in depend on the order the map is walked).
    fn rebuild(&mut self)
        requires
            old(self).snapshot.wf(),
            old(self).snapshot.cap() <= 0x8000_0000,
            old(self).map@.dom().finite(),
            old(self).map@.len() <= old(self).snapshot.cap(),
            forall|h: u32| #[trigger] old(self).map@.contains_key(h) ==> old(self).map@[h] < u32::MAX,
        ensures
            final(self).snapshot.wf(),
            final(self).snapshot.cap() == old(self).snapshot.cap(),
            final(self).snapshot.represents(old(self).map@),
            final(self).map@ == old(self).map@,
            final(self).next_dense == old(self).next_dense,
    {
        let ghost bits = choose|bits: nat|
            bits < 32 && self.snapshot.table@.len() == pow2(bits) && self.snapshot.hashes@.len()
                == pow2(bits) && self.snapshot.mask == pow2(bits) - 1;
        let cap = self.snapshot.table.len();
        proof {
            vstd::bits::lemma_u32_pow2_no_overflow(bits);
            vstd::bits::lemma_usize_pow2_no_overflow(bits);
            vstd::arithmetic::power2::lemma_pow2_pos(bits);
        }
        let mut t: Vec<u32> = Vec::new();
        let mut hh: Vec<u32> = Vec::new();
        let mut z: usize = 0;
        while z < cap
            invariant
                z <= cap,
                t@.len() == z,
                hh@.len() == z,
                forall|i: int| 0 <= i < z ==> #[trigger] t@[i] == 0,
            decreases cap - z,
        {
            t.push(0);
            hh.push(0);
            z = z + 1;
        }
        proof {
            assert(t@ =~= Seq::new(cap as nat, |i: int| 0u32));
            lemma_count_zero_all(cap as nat);
        }
        let mask = (cap as u32) - 1;
        let ghost m = self.map@;
        let ghost seq0 = vstd::std_specs::hash::spec_hash_map_iter(&self.map).remaining();
        let ghost mut dist: Map<u32, int> = Map::empty();
        let mut idx: usize = 0;
        for (hr, dr) in it: self.map.iter()
            invariant
                m == self.map@,
                it.seq() == seq0,
                bits < 32,
                cap as int == pow2(bits),
                cap <= 0x8000_0000,
                mask == pow2(bits) - 1,
                t@.len() == cap,
                hh@.len() == cap,
                m.dom().finite(),
                m.len() <= cap,
                forall|h: u32| #[trigger] m.contains_key(h) ==> m[h] < u32::MAX,
                it.seq().len() == m.len(),
                it.seq().no_duplicates(),
                forall|j: int|
                    #![trigger it.seq()[j]]
                    0 <= j < it.seq().len() ==> m.contains_key(*it.seq()[j].0) && m[*it.seq()[j].0]
                        == *it.seq()[j].1,
                forall|h: u32| #[trigger] m.contains_key(h) ==> it.seq().contains((&h, &m[h])),
                idx == it.index(),
                count_zero(t@) + idx == cap,
                forall|i: int|
                    0 <= i < cap && #[trigger] t@[i] != 0 ==> {
                        &&& m.contains_key(hh@[i])
                        &&& m[hh@[i]] + 1 == t@[i]
                        &&& exists|j: int| 0 <= j < idx && *it.seq()[j].0 == hh@[i]
                    },
                forall|i: int, j: int|
                    0 <= i < cap && 0 <= j < cap && i != j && #[trigger] t@[i] != 0
                        && #[trigger] t@[j] != 0 ==> hh@[i] != hh@[j],
                forall|j: int|
                    #![trigger it.seq()[j]]
                    0 <= j < idx ==> dist.contains_key(*it.seq()[j].0) && placed_in(
                        t@,
                        hh@,
                        *it.seq()[j].0,
                        dist[*it.seq()[j].0],
                    ),
        {
            let h = *hr;
            let d = *dr;
            let ghost t_cur = t@;
            let ghost hh_cur = hh@;
            proof {
                lemma_mask_u32(h, bits);
                vstd::arithmetic::div_mod::lemma_mod_twice(h as int, cap as int);
                // `h` has not been placed yet: no earlier element of the walk carries it.
                assert forall|i: int| 0 <= i < cap && #[trigger] t@[i] != 0 implies hh@[i] != h by {
                    let j = choose|j: int| 0 <= j < idx && *it.seq()[j].0 == hh@[i];
                    if hh@[i] == h {
                        assert(it.seq()[j] == it.seq()[idx as int]);
                    }
                }
            }
            let mut i = (h & mask) as usize;
            let mut k: usize = 0;
            while t[i] != 0
                invariant
                    bits < 32,
                    cap as int == pow2(bits),
                    mask == pow2(bits) - 1,
                    t@.len() == cap,
                    0 <= k < cap,
                    i as int == probe_at(h, cap as int, k as int),
                    forall|j: int| 0 <= j < k ==> #[trigger] t@[probe_at(h, cap as int, j)] != 0,
                    count_zero(t@) >= 1,
                decreases cap - k,
            {
                proof {
                    lemma_step_mod(h, cap as int, k as int, i, bits);
                    if k + 1 == cap {
                        assert forall|p: int| 0 <= p < cap implies t@[p] != 0 by {
                            lemma_probe_covers(h, cap as int, p);
                            let kk = (p - h as int % (cap as int) + cap) % (cap as int);
                            if kk < k {
                            } else {
                                assert(kk == k);
                            }
                        }
                        lemma_count_zero_full(t@);
                    }
                }
                i = (i + 1) & (cap - 1);
                k = k + 1;
            }
            proof {
                lemma_probe_in_range(h, cap as int, k as int);
                lemma_count_zero_update(t@, i as int, (d + 1) as u32);
            }
            let ghost t0 = t@;
            let ghost hh0 = hh@;
            t.set(i, d + 1);
            hh.set(i, h);
            proof {
                let dist0 = dist;
                dist = dist.insert(h, k as int);
                assert(placed_in(t@, hh@, h, k as int));
                assert(*it.seq()[idx as int].0 == h);
                assert forall|j: int|
                    #![trigger it.seq()[j]]
                    0 <= j < idx + 1 implies dist.contains_key(*it.seq()[j].0) && placed_in(
                        t@,
                        hh@,
                        *it.seq()[j].0,
                        dist[*it.seq()[j].0],
                    ) by {
                    if j < idx {
                        let hj = *it.seq()[j].0;
                        assert(hj != h) by {
                            if hj == h {
                                assert(it.seq()[j] == it.seq()[idx as int]);
                            }
                        }
                        let kk = dist0[hj];
                        assert(dist[hj] == kk);
                        assert(placed_in(t_cur, hh_cur, hj, kk));
                        lemma_probe_in_range(hj, cap as int, kk);
                        let pk = probe_at(hj, cap as int, kk);
                        assert(pk != i);
                        assert(t@[pk] == t_cur[pk]);
                        assert(hh@[pk] == hh_cur[pk]);
                        assert forall|jj: int| 0 <= jj < kk implies #[trigger] t@[probe_at(
                            hj,
                            cap as int,
                            jj,
                        )] != 0 by {
                            lemma_probe_in_range(hj, cap as int, jj);
                            assert(t_cur[probe_at(hj, cap as int, jj)] != 0);
                        }
                        assert(placed_in(t@, hh@, hj, kk));
                    }
                }
                assert forall|p: int|
                    0 <= p < cap && #[trigger] t@[p] != 0 implies {
                    &&& m.contains_key(hh@[p])
                    &&& m[hh@[p]] + 1 == t@[p]
                    &&& exists|j: int| 0 <= j < idx + 1 && *it.seq()[j].0 == hh@[p]
                } by {
                    if p != i {
                        assert(t0[p] != 0);
                        let j = choose|j: int| 0 <= j < idx && *it.seq()[j].0 == hh0[p];
                    } else {
                        assert(*it.seq()[idx as int].0 == hh@[p]);
                    }
                }
            }
            idx = idx + 1;
        }
        proof {
            assert(idx == seq0.len());
            assert forall|h: u32| #[trigger] m.contains_key(h) implies placed_in(t@, hh@, h, dist[h]) by {
                let j = choose|j: int| 0 <= j < seq0.len() && seq0[j] == (&h, &m[h]);
                assert(*seq0[j].0 == h);
            }
        }
        let ghost tv = t@;
        let ghost hv = hh@;
        let n = self.map.len() as u32;
        self.snapshot = Arc::new(
            Snapshot { table: Arc::new(t), hashes: Arc::new(hh), mask, num_symbols: n },
        );
        bump_version(&self.version);
        assert forall|h: u32| #[trigger] m.contains_key(h) implies exists|k: int| self.snapshot.placed_at(h, k) by {
            assert(placed_in(tv, hv, h, dist[h]));
            assert(self.snapshot.placed_at(h, dist[h]));
        }
    }

    /// Whether `intern(hash)` has room: `hash` is known, or fewer than the snapshot's
    /// capacity of hashes are interned.
    pub fn has_room_for(&self, hash: u32) -> (r: bool)
        requires
            self.wf(),
        ensures
            r == (self.interned().contains_key(hash) || self.interned().len() < self.current().cap()),
    {
        proof {
            broadcast use vstd::std_specs::hash::group_hash_axioms;
        }
        self.map.contains_key(&hash) || self.map.len() < self.snapshot.table.len()
    }

    /// The current snapshot, shared.
    pub fn snapshot(&self) -> (s: Arc<Snapshot>)
        ensures
            *s == self.current(),
    {
        arc_clone(&self.snapshot)
    }
}

proof fn lemma_pow2_le_2_31(bits: nat)
    requires
        bits < 32,
    ensures
        pow2(bits) <= 0x8000_0000,
{
    vstd::arithmetic::power2::lemma2_to64();
    if bits < 31 {
        vstd::arithmetic::power2::lemma_pow2_strictly_increases(bits, 31);
    }
}

proof fn lemma_dense_from_sound(s: Snapshot, m: Map<u32, u32>, h: u32, k: int)
    requires
        s.wf(),
        s.represents(m),
        s.dense_from(h, k) is Some,
    ensures
        m.contains_key(h),
        m[h] == s.dense_from(h, k)->0,
    decreases 8 - k,
{
    let bits = choose|bits: nat|
        bits < 32 && s.table@.len() == pow2(bits) && s.hashes@.len() == pow2(bits) && s.mask
            == pow2(bits) - 1;
    vstd::arithmetic::power2::lemma_pow2_pos(bits);
    lemma_probe_in_range(h, s.cap(), k);
    let i = probe_at(h, s.cap(), k);
    if s.table@[i] != 0 && s.hashes@[i] != h {
        lemma_dense_from_sound(s, m, h, k + 1);
    }
}

proof fn lemma_probe_distinct(h: u32, cap: int, j: int, k: int)
    requires
        cap > 0,
        0 <= j < k < cap,
    ensures
        probe_at(h, cap, j) != probe_at(h, cap, k),
{
    let a = h as int % cap;
    vstd::arithmetic::div_mod::lemma_mod_equivalence(a + k, a + j, cap);
    vstd::arithmetic::div_mod::lemma_small_mod((k - j) as nat, cap as nat);
}

proof fn lemma_dense_from_complete(s: Snapshot, m: Map<u32, u32>, h: u32, k: int, j: int)
    requires
        s.wf(),
        s.represents(m),
        m.contains_key(h),
        s.placed_at(h, k),
        0 <= j <= k < 8,
    ensures
        s.dense_from(h, j) == Some(m[h]),
    decreases k - j,
{
    let bits = choose|bits: nat|
        bits < 32 && s.table@.len() == pow2(bits) && s.hashes@.len() == pow2(bits) && s.mask
            == pow2(bits) - 1;
    vstd::arithmetic::power2::lemma_pow2_pos(bits);
    lemma_probe_in_range(h, s.cap(), j);
    lemma_probe_in_range(h, s.cap(), k);
    if j < k {
        lemma_probe_distinct(h, s.cap(), j, k);
        assert(s.table@[probe_at(h, s.cap(), j)] != 0);
        lemma_dense_from_complete(s, m, h, k, j + 1);
    }
}

/// A snapshot lookup agrees with the interning map it represents: a found id is the
/// interned id of that hash, and an interned hash stored fewer than 8 probe steps from
/// its home slot is found.
pub proof fn lemma_snapshot_lookup(s: Snapshot, m: Map<u32, u32>, h: u32)
    requires
        s.wf(),
        s.represents(m),
    ensures
        s.dense_from(h, 0) matches Some(d) ==> m.contains_key(h) && m[h] == d,
        forall|k: int| 0 <= k < 8 && m.contains_key(h) && #[trigger] s.placed_at(h, k) ==> s.dense_from(h, 0) == Some(m[h]),
{
    if s.dense_from(h, 0) is Some {
        lemma_dense_from_sound(s, m, h, 0);
    }
    assert forall|k: int| 0 <= k < 8 && m.contains_key(h) && #[trigger] s.placed_at(h, k) implies s.dense_from(h, 0) == Some(m[h]) by {
        lemma_dense_from_complete(s, m, h, k, 0);
    }
}

proof fn lemma_dense_from_found_at(s: Snapshot, h: u32, k0: int)
    requires
        0 <= k0,
        s.dense_from(h, k0) is Some,
    ensures
        exists|k: int|
            k0 <= k < 8 && s.hashes@[probe_at(h, s.cap(), k)] == h && s.table@[probe_at(h, s.cap(), k)]
                == s.dense_from(h, k0)->0 + 1 && forall|j: int|
                k0 <= j < k ==> #[trigger] s.table@[probe_at(h, s.cap(), j)] != 0,
    decreases 8 - k0,
{
    let i = probe_at(h, s.cap(), k0);
    if !(s.table@[i] != 0 && s.hashes@[i] == h) {
        lemma_dense_from_found_at(s, h, k0 + 1);
        let k = choose|k: int|
            k0 + 1 <= k < 8 && s.hashes@[probe_at(h, s.cap(), k)] == h && s.table@[probe_at(
                h,
                s.cap(),
                k,
            )] == s.dense_from(h, k0 + 1)->0 + 1 && forall|j: int|
                k0 + 1 <= j < k ==> #[trigger] s.table@[probe_at(h, s.cap(), j)] != 0;
        assert(forall|j: int| k0 <= j < k ==> #[trigger] s.table@[probe_at(h, s.cap(), j)] != 0);
    } else {
        assert(forall|j: int| k0 <= j < k0 ==> #[trigger] s.table@[probe_at(h, s.cap(), j)] != 0);
    }
}

/// What a lookup found is really there: when `dense_of(h)` gives `v`, some probe step
/// `k < 8` from `h`'s home slot holds `h` with `v + 1`, and every earlier step is in use.
pub proof fn lemma_dense_of_found(s: Snapshot, h: u32)
    requires
        s.dense_from(h, 0) is Some,
    ensures
        exists|k: int|
            0 <= k < 8 && s.hashes@[probe_at(h, s.cap(), k)] == h && s.table@[probe_at(h, s.cap(), k)]
                == s.dense_from(h, 0)->0 + 1 && forall|j: int|
                0 <= j < k ==> #[trigger] s.table@[probe_at(h, s.cap(), j)] != 0,
{
    lemma_dense_from_found_at(s, h, 0);
}

/// A small directory loses no symbol: with at most 8 symbols interned, the snapshot
/// finds every one of them, since a symbol sits no more probe steps from its home slot
/// than there are other symbols.
pub proof fn lemma_small_snapshot_finds_all(s: Snapshot, m: Map<u32, u32>, h: u32)
    requires
        s.wf(),
        s.represents(m),
        m.dom().finite(),
        m.len() <= 8,
        m.contains_key(h),
    ensures
        s.dense_from(h, 0) == Some(m[h]),
{
    let bits = choose|bits: nat|
        bits < 32 && s.table@.len() == pow2(bits) && s.hashes@.len() == pow2(bits) && s.mask
            == pow2(bits) - 1;
    vstd::arithmetic::power2::lemma_pow2_pos(bits);
    let cap = s.cap();
    let k = choose|k: int| s.placed_at(h, k);
    assert(s.placed_at(h, k));
    let hs = Seq::new((k + 1) as nat, |j: int| s.hashes@[probe_at(h, cap, j)]);
    assert forall|j: int| 0 <= j <= k implies #[trigger] s.table@[probe_at(h, cap, j)] != 0 by {
        if j < k {
            assert(s.table@[probe_at(h, cap, j)] != 0);
        }
    }
    assert forall|i: int, j: int| 0 <= i < hs.len() && 0 <= j < hs.len() && i != j implies hs[i]
        != hs[j] by {
        let (a, b) = if i < j {
            (i, j)
        } else {
            (j, i)
        };
        lemma_probe_distinct(h, cap, a, b);
        lemma_probe_in_range(h, cap, a);
        lemma_probe_in_range(h, cap, b);
        assert(s.table@[probe_at(h, cap, a)] != 0);
        assert(s.table@[probe_at(h, cap, b)] != 0);
    }
    assert(hs.no_duplicates());
    assert(hs.to_set().subset_of(m.dom())) by {
        assert forall|x: u32| hs.to_set().contains(x) implies m.dom().contains(x) by {
            let j = choose|j: int| 0 <= j < hs.len() && hs[j] == x;
            lemma_probe_in_range(h, cap, j);
            assert(s.table@[probe_at(h, cap, j)] != 0);
        }
    }
    hs.unique_seq_to_set();
    vstd::set_lib::lemma_len_subset(hs.to_set(), m.dom());
    assert(k < 8);
    lemma_snapshot_lookup(s, m, h);
}

/// Route: each dense id belongs to exactly one core (`mask` = cores - 1, cores pow2).
pub fn core_of(dense_id: u32, num_cores_pow2_mask: u32) -> (c: u32)
    ensures
        c == dense_id & num_cores_pow2_mask,
        c <= num_cores_pow2_mask,
{
    let c = dense_id & num_cores_pow2_mask;
    assert(c <= num_cores_pow2_mask) by (bit_vector)
        requires
            c == dense_id & num_cores_pow2_mask,
    ;
    c
}

} // verus!
