//! Exchange: load the symbol universe (exchangeInfo) and subscribe every symbol to the hub.
//! Cold path only. The tick/scale table is kept here, never touched per trade.

use vstd::prelude::*;
use vstd::string::{StrSliceExecFns, StringExecFns, StringSliceAdditionalSpecFns};
use vstd::utf8::{encode_utf8, is_ascii_chars, is_ascii_chars_encode_utf8};
use crate::hub::Hub;
use crate::ingest::{all_digits, digits_value, is_digit_byte, parse_i64_str, spec_hash_symbol, spec_parse_i64, split_sign};
use crate::text::{find_char, find_from, find_pattern, first_char_from, lemma_find_from_match, str_chars};

verus! {

/// At most this many symbols are read from one exchangeInfo document.
pub const MAX_SYMBOLS: usize = 4096;

pub struct SymbolInfo {
    pub symbol: String,
    pub tick: i64,
    pub scale: i64,
}

/// A tick is at least one scaled unit.
pub open spec fn tick_floor(t: i64) -> i64 {
    if t >= 1 {
        t
    } else {
        1
    }
}

impl SymbolInfo {
    pub fn new(symbol: &str, tick: i64) -> (s: Self)
        ensures
            s.symbol@ == symbol@,
            s.tick == tick_floor(tick),
            s.scale == tick_floor(tick),
    {
        let t = if tick >= 1 {
            tick
        } else {
            1
        };
        Self { symbol: String::from_str(symbol), tick: t, scale: t }
    }
}

/// The key that opens a symbol entry: `"s"`.
pub open spec fn symbol_key() -> Seq<char> {
    seq!['"', 's', '"']
}

/// The key that opens a tick: `"tick"`.
pub open spec fn tick_key() -> Seq<char> {
    seq!['"', 't', 'i', 'c', 'k', '"']
}

pub open spec fn is_tick_separator(c: char) -> bool {
    c == ':' || c == ' ' || c == '"'
}

pub open spec fn is_ascii_digit_char(c: char) -> bool {
    '0' <= c && c <= '9'
}

/// The first index at or after `i` that is not a `:`, space or quote (or `h.len()`).
pub open spec fn skip_separators_from(h: Seq<char>, i: int) -> int
    decreases h.len() - i,
{
    if 0 <= i < h.len() && is_tick_separator(h[i]) {
        skip_separators_from(h, i + 1)
    } else {
        i
    }
}

/// The first index at or after `i` that is not an ASCII digit (or `h.len()`).
pub open spec fn digits_end_from(h: Seq<char>, i: int) -> int
    decreases h.len() - i,
{
    if 0 <= i < h.len() && is_ascii_digit_char(h[i]) {
        digits_end_from(h, i + 1)
    } else {
        i
    }
}

/// The tick read after index `from`: the first `"tick"` key at or after `from`, then the
/// run of digits after any `:`, spaces and quotes, parsed as an `i64`. Without a key, or
/// when the digits do not parse (none, or too large), the tick is 10.
pub open spec fn tick_after(h: Seq<char>, from: int) -> i64 {
    match find_from(h, tick_key(), from) {
        None => 10,
        Some(p) => {
            let s = skip_separators_from(h, p + 6);
            let e = digits_end_from(h, s);
            match spec_parse_i64(encode_utf8(h.subrange(s, e))) {
                Some(v) => v,
                None => 10,
            }
        },
    }
}

/// The index of the `}` that closes the object index `i` lies in, given that `depth`
/// inner objects have been opened and not closed since; braces are counted wherever
/// they stand, inside strings too. The end of the text when no brace closes it.
pub open spec fn closing_brace_from(h: Seq<char>, i: int, depth: nat) -> int
    decreases h.len() - i,
{
    if i < 0 || i >= h.len() {
        h.len() as int
    } else if h[i] == '}' {
        if depth == 0 {
            i
        } else {
            closing_brace_from(h, i + 1, (depth - 1) as nat)
        }
    } else if h[i] == '{' {
        closing_brace_from(h, i + 1, depth + 1)
    } else {
        closing_brace_from(h, i + 1, depth)
    }
}

fn closing_brace(h: &Vec<char>, from: usize) -> (r: usize)
    requires
        from <= h.len(),
    ensures
        r as int == closing_brace_from(h@, from as int, 0),
        from <= r <= h.len(),
{
    let mut i = from;
    let mut depth: usize = 0;
    while i < h.len()
        invariant
            from <= i <= h.len(),
            depth <= i - from,
            closing_brace_from(h@, from as int, 0) == closing_brace_from(h@, i as int, depth as nat),
        decreases h.len() - i,
    {
        if h[i] == '}' {
            if depth == 0 {
                return i;
            }
            depth = depth - 1;
        } else if h[i] == '{' {
            depth = depth + 1;
        }
        i = i + 1;
    }
    i
}

/// The (symbol, tick) entries read from `h` starting at `pos`, at most `room` of them.
/// An entry is the quoted string after the next `"s"` key; its tick is read from the
/// rest of its own object (up to the `}` that closes it, nested objects included); the
/// scan goes on from the name's closing quote.
pub open spec fn exchange_entries(h: Seq<char>, pos: int, room: nat) -> Seq<(Seq<char>, i64)>
    decreases room,
{
    if room == 0 {
        Seq::empty()
    } else {
        match find_from(h, symbol_key(), pos) {
            None => Seq::empty(),
            Some(i) => match first_char_from(h, i + 3, '"') {
                None => Seq::empty(),
                Some(q) => match first_char_from(h, q + 1, '"') {
                    None => Seq::empty(),
                    Some(e) => seq![
                        (h.subrange(q + 1, e), tick_after(h.subrange(e, closing_brace_from(h, e, 0)), 0)),
                    ] + exchange_entries(
                        h,
                        e,
                        (room - 1) as nat,
                    ),
                },
            },
        }
    }
}

/// `infos` holds exactly `entries`, each tick raised to at least 1.
pub open spec fn infos_match(infos: Seq<SymbolInfo>, entries: Seq<(Seq<char>, i64)>) -> bool {
    &&& infos.len() == entries.len()
    &&& forall|k: int|
        0 <= k < infos.len() ==> {
            &&& (#[trigger] infos[k]).symbol@ == entries[k].0
            &&& infos[k].tick == tick_floor(entries[k].1)
            &&& infos[k].scale == tick_floor(entries[k].1)
        }
}

/// The decimal value of a run of ASCII digit characters.
pub open spec fn char_digits_value(ds: Seq<char>) -> int
    decreases ds.len(),
{
    if ds.len() == 0 {
        0
    } else {
        char_digits_value(ds.drop_last()) * 10 + (ds.last() as int - '0' as int)
    }
}

proof fn lemma_char_digits_bytes(ds: Seq<char>, b: Seq<u8>)
    requires
        b.len() == ds.len(),
        forall|i: int| 0 <= i < ds.len() ==> '0' <= #[trigger] ds[i] <= '9',
        forall|i: int| 0 <= i < ds.len() ==> #[trigger] b[i] == ds[i] as u8,
    ensures
        all_digits(b),
        digits_value(b) == char_digits_value(ds),
        char_digits_value(ds) >= 0,
    decreases ds.len(),
{
    assert forall|i: int| 0 <= i < b.len() implies is_digit_byte(#[trigger] b[i]) by {
        assert('0' <= ds[i] <= '9');
        assert(b[i] == ds[i] as u8);
    }
    if ds.len() > 0 {
        let n = ds.len() - 1;
        assert('0' <= ds[n] <= '9');
        assert(b[n] == ds[n] as u8);
        assert(b[n] as int == ds[n] as int);
        lemma_char_digits_bytes(ds.drop_last(), b.drop_last());
    }
}

proof fn lemma_skip_run(h: Seq<char>, j: int, e: int)
    requires
        0 <= j <= e < h.len(),
        forall|k: int| j <= k < e ==> is_tick_separator(#[trigger] h[k]),
        !is_tick_separator(h[e]),
    ensures
        skip_separators_from(h, j) == e,
    decreases e - j,
{
    if j < e {
        lemma_skip_run(h, j + 1, e);
    }
}

proof fn lemma_digit_run(h: Seq<char>, j: int, d: int)
    requires
        0 <= j <= d <= h.len(),
        forall|k: int| j <= k < d ==> '0' <= #[trigger] h[k] <= '9',
        d == h.len() || !('0' <= h[d] <= '9'),
    ensures
        digits_end_from(h, j) == d,
    decreases d - j,
{
    if j < d {
        lemma_digit_run(h, j + 1, d);
    }
}

/// A tick is read past any run of `:`, spaces and quotes: when the first `"tick"` key
/// at or after `from` ends at `p + 6` and is followed by such a run, then by the decimal
/// digits of `n` (and no further digit) with `n` within `i64`, the tick is `n`.
pub proof fn lemma_tick_after_separators(h: Seq<char>, from: int, p: int, e: int, d: int)
    requires
        find_from(h, tick_key(), from) == Some(p),
        p + 6 <= e < d <= h.len(),
        forall|k: int|
            p + 6 <= k < e ==> #[trigger] h[k] == ':' || h[k] == ' ' || h[k] == '"',
        forall|k: int| e <= k < d ==> '0' <= #[trigger] h[k] <= '9',
        d == h.len() || !('0' <= h[d] <= '9'),
        char_digits_value(h.subrange(e, d)) <= i64::MAX,
    ensures
        tick_after(h, from) == char_digits_value(h.subrange(e, d)),
{
    lemma_find_from_match(h, tick_key(), from);
    assert('0' <= h[e] <= '9');
    assert forall|k: int| p + 6 <= k < e implies is_tick_separator(#[trigger] h[k]) by {
        assert(h[k] == ':' || h[k] == ' ' || h[k] == '"');
    }
    lemma_skip_run(h, p + 6, e);
    lemma_digit_run(h, e, d);
    let ds = h.subrange(e, d);
    assert forall|i: int| 0 <= i < ds.len() implies '0' <= #[trigger] ds[i] <= '9' by {
        assert(ds[i] == h[e + i]);
    }
    assert(is_ascii_chars(ds)) by {
        assert forall|i: int| 0 <= i < ds.len() implies '\0' <= #[trigger] ds[i] <= '\u{7f}' by {
            assert('0' <= ds[i] <= '9');
        }
    }
    is_ascii_chars_encode_utf8(ds);
    let b = encode_utf8(ds);
    assert forall|i: int| 0 <= i < ds.len() implies #[trigger] b[i] == ds[i] as u8 by {
        assert(ds[i] as u8 == encode_utf8(ds)[i]);
    }
    lemma_char_digits_bytes(ds, b);
    assert(b[0] == ds[0] as u8);
    assert(ds[0] == h[e]);
    assert(is_digit_byte(b[0]));
    assert(split_sign(b, true) == (false, b));
    assert(b.len() > 0);
    assert(spec_parse_i64(b) == Some(digits_value(b) as i64));
}

fn skip_separators(h: &Vec<char>, from: usize) -> (r: usize)
    requires
        from <= h.len(),
    ensures
        r as int == skip_separators_from(h@, from as int),
        from <= r <= h.len(),
{
    let mut i = from;
    while i < h.len() && (h[i] == ':' || h[i] == ' ' || h[i] == '"')
        invariant
            from <= i <= h.len(),
            skip_separators_from(h@, from as int) == skip_separators_from(h@, i as int),
        decreases h.len() - i,
    {
        i = i + 1;
    }
    i
}

fn digits_end(h: &Vec<char>, from: usize) -> (r: usize)
    requires
        from <= h.len(),
    ensures
        r as int == digits_end_from(h@, from as int),
        from <= r <= h.len(),
{
    let mut i = from;
    while i < h.len() && '0' <= h[i] && h[i] <= '9'
        invariant
            from <= i <= h.len(),
            digits_end_from(h@, from as int) == digits_end_from(h@, i as int),
        decreases h.len() - i,
    {
        i = i + 1;
    }
    i
}

fn read_tick(json: &str, h: &Vec<char>, from: usize) -> (t: i64)
    requires
        h@ == json@,
        from <= h.len(),
    ensures
        t == tick_after(h@, from as int),
{
    let key: Vec<char> = vec!['"', 't', 'i', 'c', 'k', '"'];
    assert(key@ =~= tick_key());
    match find_pattern(h, &key, from) {
        None => 10,
        Some(p) => {
            proof {
                lemma_find_from_match(h@, key@, from as int);
            }
            let s = skip_separators(h, p + 6);
            let e = digits_end(h, s);
            let digits = json.substring_char(s, e);
            match parse_i64_str(digits) {
                Some(v) => v,
                None => 10,
            }
        },
    }
}

/// Minimal exchangeInfo reader: extracts `{"s": name, "tick": n}` entries without a
/// JSON parser. Accepts the simplified form
/// `{"symbols":[{"s":"BTCUSDT","tick":100000}, ...]}`; the tick is in scaled units
/// (0.10 -> 100_000), the same unit as price and qty. A symbol's tick is looked for in
/// its own object only; without one it is 10. At most 4096 symbols are read.
pub fn load_exchange_info(json: &str) -> (out: Vec<SymbolInfo>)
    ensures
        infos_match(out@, exchange_entries(json@, 0, MAX_SYMBOLS as nat)),
{
    let h = str_chars(json);
    let skey: Vec<char> = vec!['"', 's', '"'];
    assert(skey@ =~= symbol_key());
    let mut out: Vec<SymbolInfo> = Vec::new();
    let ghost mut done: Seq<(Seq<char>, i64)> = Seq::empty();
    let mut pos: usize = 0;
    while out.len() < MAX_SYMBOLS
        invariant
            h@ == json@,
            skey@ == symbol_key(),
            pos <= h.len(),
            out.len() <= MAX_SYMBOLS,
            infos_match(out@, done),
            done + exchange_entries(h@, pos as int, (MAX_SYMBOLS - out.len()) as nat)
                == exchange_entries(h@, 0, MAX_SYMBOLS as nat),
        ensures
            infos_match(out@, exchange_entries(json@, 0, MAX_SYMBOLS as nat)),
        decreases MAX_SYMBOLS - out.len(),
    {
        let ghost room = (MAX_SYMBOLS - out.len()) as nat;
        let i = match find_pattern(&h, &skey, pos) {
            Some(i) => i,
            None => {
                assert(exchange_entries(h@, pos as int, room) =~= Seq::empty());
                assert(done + Seq::<(Seq<char>, i64)>::empty() =~= done);
                assert(done == exchange_entries(h@, 0, MAX_SYMBOLS as nat));
                break;
            },
        };
        proof {
            lemma_find_from_match(h@, skey@, pos as int);
        }
        let q = match find_char(&h, i + 3, '"') {
            Some(q) => q,
            None => {
                assert(exchange_entries(h@, pos as int, room) =~= Seq::empty());
                assert(done + Seq::<(Seq<char>, i64)>::empty() =~= done);
                assert(done == exchange_entries(h@, 0, MAX_SYMBOLS as nat));
                break;
            },
        };
        let e = match find_char(&h, q + 1, '"') {
            Some(e) => e,
            None => {
                assert(exchange_entries(h@, pos as int, room) =~= Seq::empty());
                assert(done + Seq::<(Seq<char>, i64)>::empty() =~= done);
                assert(done == exchange_entries(h@, 0, MAX_SYMBOLS as nat));
                break;
            },
        };
        let sym = json.substring_char(q + 1, e);
        let close = closing_brace(&h, e);
        let obj = json.substring_char(e, close);
        let obj_chars = str_chars(obj);
        let tick = read_tick(obj, &obj_chars, 0);
        let info = SymbolInfo::new(sym, tick);
        let ghost entry = (h@.subrange(q + 1, e as int), tick);
        let ghost prev = out@;
        out.push(info);
        proof {
            let rest = exchange_entries(h@, e as int, (room - 1) as nat);
            assert(exchange_entries(h@, pos as int, room) == seq![entry] + rest);
            assert(done.push(entry) + rest =~= done + (seq![entry] + rest));
            done = done.push(entry);
            assert forall|k: int| 0 <= k < out@.len() implies {
                &&& (#[trigger] out@[k]).symbol@ == done[k].0
                &&& out@[k].tick == tick_floor(done[k].1)
                &&& out@[k].scale == tick_floor(done[k].1)
            } by {
                if k < out@.len() - 1 {
                    assert(out@[k] == prev[k]);
                }
            }
        }
        pos = e;
        proof {
            if out.len() >= MAX_SYMBOLS {
                assert(exchange_entries(h@, pos as int, 0) =~= Seq::empty());
                assert(done + Seq::<(Seq<char>, i64)>::empty() =~= done);
            }
        }
    }
    out
}

/// The symbol hashes of `infos`, in order.
pub open spec fn info_hashes(infos: Seq<SymbolInfo>) -> Seq<u32> {
    infos.map_values(|s: SymbolInfo| spec_hash_symbol(encode_utf8(s.symbol@)))
}

/// How many hashes of `hs` are new to `known`, each counted at its first occurrence.
pub open spec fn fresh_count(known: Set<u32>, hs: Seq<u32>) -> nat
    decreases hs.len(),
{
    if hs.len() == 0 {
        0
    } else {
        fresh_count(known, hs.drop_last()) + (if !known.contains(hs.last())
            && !hs.drop_last().contains(hs.last()) {
            1nat
        } else {
            0nat
        })
    }
}

/// Subscribe every symbol in `infos`, in order; the k-th id is the k-th symbol's dense
/// id, and symbols new to the hub get the next ids in the order they first appear.
pub fn subscribe_all(hub: &mut Hub, infos: &[SymbolInfo]) -> (ids: Vec<u32>)
    requires
        old(hub).wf(),
        old(hub).spec_dir().interned().dom().union(info_hashes(infos@).to_set()).len()
            <= 4096,
    ensures
        final(hub).wf(),
        ids@.len() == infos@.len(),
        forall|k: int|
            0 <= k < ids@.len() ==> {
                &&& final(hub).spec_dir().interned().contains_key(#[trigger] info_hashes(infos@)[k])
                &&& ids@[k] == final(hub).spec_dir().interned()[info_hashes(infos@)[k]]
            },
        final(hub).spec_dir().interned().dom() == old(hub).spec_dir().interned().dom().union(
            info_hashes(infos@).to_set(),
        ),
        forall|h: u32| #[trigger]
            old(hub).spec_dir().interned().contains_key(h) ==> final(hub).spec_dir().interned().contains_key(h) && final(hub).spec_dir().interned()[h] == old(hub).spec_dir().interned()[h],
        forall|k: int|
            0 <= k < ids@.len() && !old(hub).spec_dir().interned().contains_key(
                #[trigger] info_hashes(infos@)[k],
            ) && !info_hashes(infos@).take(k).contains(info_hashes(infos@)[k]) ==> ids@[k]
                == old(hub).spec_dir().next_id() + fresh_count(
                old(hub).spec_dir().interned().dom(),
                info_hashes(infos@).take(k),
            ),
        final(hub).spec_dir().next_id() == old(hub).spec_dir().next_id() + fresh_count(
            old(hub).spec_dir().interned().dom(),
            info_hashes(infos@),
        ),
        final(hub).spec_num_cores() == old(hub).spec_num_cores(),
        final(hub).spec_cores() == old(hub).spec_cores(),
        final(hub).spec_closer() == old(hub).spec_closer(),
        forall|i: int| #[trigger] final(hub).worker_available(i) == old(hub).worker_available(i),
        final(hub).stop_flag() == old(hub).stop_flag(),
{
    let ghost hs = info_hashes(infos@);
    let ghost u = old(hub).spec_dir().interned().dom().union(hs.to_set());
    proof {
        old(hub).lemma_wf();
        old(hub).spec_dir().lemma_wf();
        vstd::seq_lib::seq_to_set_is_finite(hs);
    }
    let mut ids: Vec<u32> = Vec::new();
    let mut k: usize = 0;
    while k < infos.len()
        invariant
            hs == info_hashes(infos@),
            u == old(hub).spec_dir().interned().dom().union(hs.to_set()),
            u.finite(),
            u.len() <= 4096,
            k <= infos.len(),
            ids@.len() == k,
            hub.wf(),
            forall|j: int|
                0 <= j < k ==> {
                    &&& hub.spec_dir().interned().contains_key(#[trigger] hs[j])
                    &&& ids@[j] == hub.spec_dir().interned()[hs[j]]
                },
            hub.spec_dir().interned().dom() == old(hub).spec_dir().interned().dom().union(
                hs.take(k as int).to_set(),
            ),
            hub.spec_dir().next_id() == old(hub).spec_dir().next_id() + fresh_count(
                old(hub).spec_dir().interned().dom(),
                hs.take(k as int),
            ),
            forall|j: int|
                0 <= j < k && !old(hub).spec_dir().interned().contains_key(#[trigger] hs[j])
                    && !hs.take(j).contains(hs[j]) ==> ids@[j] == old(hub).spec_dir().next_id()
                    + fresh_count(old(hub).spec_dir().interned().dom(), hs.take(j)),
            forall|h: u32| #[trigger]
                old(hub).spec_dir().interned().contains_key(h) ==> hub.spec_dir().interned().contains_key(
                    h,
                ) && hub.spec_dir().interned()[h] == old(hub).spec_dir().interned()[h],
            hub.spec_num_cores() == old(hub).spec_num_cores(),
            hub.spec_cores() == old(hub).spec_cores(),
            hub.spec_closer() == old(hub).spec_closer(),
            forall|i: int| #[trigger] hub.worker_available(i) == old(hub).worker_available(i),
            hub.stop_flag() == old(hub).stop_flag(),
        decreases infos.len() - k,
    {
        let ghost before = hub.spec_dir().interned();
        let sym = infos[k].symbol.as_str();
        assert(sym.spec_bytes() == encode_utf8(infos@[k as int].symbol@));
        assert(hs[k as int] == spec_hash_symbol(sym.spec_bytes()));
        proof {
            hub.lemma_wf();
            hub.spec_dir().lemma_wf();
            if !before.contains_key(hs[k as int]) {
                assert(before.dom().insert(hs[k as int]).subset_of(u)) by {
                    assert(hs.to_set().contains(hs[k as int]));
                    assert forall|x: u32| #[trigger] before.dom().insert(hs[k as int]).contains(x) implies u.contains(x) by {
                        if x != hs[k as int] {
                            assert(hs.take(k as int).to_set().contains(x) ==> hs.to_set().contains(x)) by {
                                if hs.take(k as int).to_set().contains(x) {
                                    let j = choose|j: int| 0 <= j < hs.take(k as int).len() && hs.take(k as int)[j] == x;
                                    assert(hs[j] == x);
                                }
                            }
                        }
                    }
                }
                vstd::set_lib::lemma_len_subset(before.dom().insert(hs[k as int]), u);
            }
        }
        let d = hub.subscribe(sym);
        ids.push(d);
        proof {
            let after = hub.spec_dir().interned();
            let od = old(hub).spec_dir().interned().dom();
            assert(hs.take(k + 1).drop_last() =~= hs.take(k as int));
            assert(hs.take(k + 1).last() == hs[k as int]);
            assert(before.contains_key(hs[k as int]) <==> (od.contains(hs[k as int])
                || hs.take(k as int).contains(hs[k as int]))) by {
                assert(before.dom().contains(hs[k as int]) == od.union(hs.take(k as int).to_set()).contains(hs[k as int]));
            }
            assert forall|j: int|
                0 <= j < k + 1 && !old(hub).spec_dir().interned().contains_key(#[trigger] hs[j])
                    && !hs.take(j).contains(hs[j]) implies ids@[j] == old(hub).spec_dir().next_id()
                    + fresh_count(od, hs.take(j)) by {
                if j == k {
                    assert(hs.take(j) =~= hs.take(k as int));
                }
            }
            assert(hs.take(k + 1).to_set() =~= hs.take(k as int).to_set().insert(hs[k as int])) by {
                assert(hs.take(k + 1) =~= hs.take(k as int).push(hs[k as int]));
                hs.take(k as int).lemma_push_to_set_commute(hs[k as int]);
            }
            assert(after.dom() =~= old(hub).spec_dir().interned().dom().union(
                hs.take(k + 1).to_set(),
            ));
            assert forall|j: int| 0 <= j < k + 1 implies {
                &&& after.contains_key(#[trigger] hs[j])
                &&& ids@[j] == after[hs[j]]
            } by {
                if j < k {
                    assert(before.contains_key(hs[j]));
                }
            }
        }
        k = k + 1;
    }
    assert(hs.take(k as int) =~= hs);
    ids
}

} // verus!
