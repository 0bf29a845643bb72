//! Binance wire formats: the exchangeInfo document (symbols in trading, their price
//! tick) and the combined trade-stream URL.
//!
//! The document is parsed by serde_json into a `JsonValue` tree; walking the tree is
//! verified here. Fetching the document and running the socket live outside the library.

pub mod anyhow_lite;

use vstd::prelude::*;
use vstd::string::{StrSliceExecFns, StringExecFns, StringSliceAdditionalSpecFns};
use vstd::utf8::encode_utf8;
use crate::ingest::{spec_parse_decimal_scaled, tick_to_scaled};
use crate::text::{find_from, find_pattern, str_chars};

verus! {

/// A JSON document as serde_json reads it. A number is held as the text serde_json
/// prints for it (which need not be the text it was read from); an object keeps its
/// members in key order, each key once.
pub enum JsonValue {
    Null,
    Bool(bool),
    Number(String),
    Str(String),
    Array(Vec<JsonValue>),
    Object(Vec<(String, JsonValue)>),
}

#[verifier::external_type_specification]
#[verifier::external_body]
pub struct ExSerdeJsonValue(serde_json::Value);

/// What `serde_json::from_str::<serde_json::Value>` makes of `text`: `None` when it
/// rejects the text, else the document.
pub uninterp spec fn json_document(text: Seq<char>) -> Option<JsonValue>;

/// `serde_json::from_str::<serde_json::Value>`, with the value turned into a
/// `JsonValue` variant by variant. The result is named, not described: the same text
/// always gives the same document.
#[verifier::external_body]
fn parse_json(text: &str) -> (r: Option<JsonValue>)
    ensures
        r == json_document(text@),
{
    match serde_json::from_str::<serde_json::Value>(text) {
        Ok(v) => Some(json_value_from_serde(v)),
        Err(_) => None,
    }
}

/// Turns a `serde_json::Value` into a `JsonValue`, one variant into the same variant
/// (a number into the text serde_json prints for it, a map into its members in order).
/// Used by `parse_json` only.
#[verifier::external_body]
fn json_value_from_serde(v: serde_json::Value) -> JsonValue {
    match v {
        serde_json::Value::Null => JsonValue::Null,
        serde_json::Value::Bool(b) => JsonValue::Bool(b),
        serde_json::Value::Number(n) => JsonValue::Number(n.to_string()),
        serde_json::Value::String(s) => JsonValue::Str(s),
        serde_json::Value::Array(a) => JsonValue::Array(a.into_iter().map(json_value_from_serde).collect()),
        serde_json::Value::Object(o) => JsonValue::Object(
            o.into_iter().map(|(k, x)| (k, json_value_from_serde(x))).collect(),
        ),
    }
}

/// The first member of `pairs` named `key`.
pub open spec fn object_get(pairs: Seq<(String, JsonValue)>, key: Seq<char>) -> Option<JsonValue>
    decreases pairs.len(),
{
    if pairs.len() == 0 {
        None
    } else if pairs[0].0@ == key {
        Some(pairs[0].1)
    } else {
        object_get(pairs.drop_first(), key)
    }
}

/// `Value::get(key)`: the member `key` of an object; nothing for other values.
pub open spec fn member(v: JsonValue, key: Seq<char>) -> Option<JsonValue> {
    match v {
        JsonValue::Object(pairs) => object_get(pairs@, key),
        _ => None,
    }
}

/// `as_str` on an optional value.
pub open spec fn text_of(v: Option<JsonValue>) -> Option<Seq<char>> {
    match v {
        Some(JsonValue::Str(s)) => Some(s@),
        _ => None,
    }
}

/// `as_array` on an optional value.
pub open spec fn items_of(v: Option<JsonValue>) -> Option<Seq<JsonValue>> {
    match v {
        Some(JsonValue::Array(a)) => Some(a@),
        _ => None,
    }
}

/// The tick used when a symbol names none, or names one that does not parse.
pub const DEFAULT_TICK: i64 = 100_000;

/// The tick after the first `n` filters: each `PRICE_FILTER` with a string `tickSize`
/// sets it to that size in scaled units, or to the default when the size does not
/// parse. The last such filter wins.
pub open spec fn filters_tick(fs: Seq<JsonValue>, n: int) -> i64
    decreases n,
{
    if n <= 0 {
        DEFAULT_TICK
    } else {
        let prev = filters_tick(fs, n - 1);
        let f = fs[n - 1];
        if text_of(member(f, "filterType"@)) == Some("PRICE_FILTER"@) {
            match text_of(member(f, "tickSize"@)) {
                Some(ts) => match spec_parse_decimal_scaled(encode_utf8(ts), 1_000_000) {
                    Some(v) => v,
                    None => DEFAULT_TICK,
                },
                None => prev,
            }
        } else {
            prev
        }
    }
}

/// The tick of one symbol entry, from its `filters` array.
pub open spec fn symbol_tick(s: JsonValue) -> i64 {
    match items_of(member(s, "filters"@)) {
        Some(fs) => filters_tick(fs, fs.len() as int),
        None => DEFAULT_TICK,
    }
}

/// A symbol entry is kept when its `status` is `TRADING` and its name is not empty.
pub open spec fn is_trading_entry(s: JsonValue) -> bool {
    let name = text_of(member(s, "symbol"@));
    let status = text_of(member(s, "status"@));
    &&& status == Some("TRADING"@)
    &&& name is Some
    &&& name->0.len() > 0
}

/// The (name, tick) pairs kept from `syms[i..]`, at most `room` of them.
pub open spec fn trading_from(syms: Seq<JsonValue>, i: int, room: nat) -> Seq<(Seq<char>, i64)>
    decreases syms.len() - i,
{
    if i < 0 || i >= syms.len() || room == 0 {
        Seq::empty()
    } else if is_trading_entry(syms[i]) {
        seq![(text_of(member(syms[i], "symbol"@))->0, symbol_tick(syms[i]))] + trading_from(
            syms,
            i + 1,
            (room - 1) as nat,
        )
    } else {
        trading_from(syms, i + 1, room)
    }
}

/// At most this many symbols are taken from one document.
pub const MAX_TRADING_SYMBOLS: usize = 4096;

/// The (name, tick) pairs a document lists under `symbols`.
pub open spec fn document_symbols(doc: JsonValue) -> Seq<(Seq<char>, i64)> {
    match items_of(member(doc, "symbols"@)) {
        Some(syms) => trading_from(syms, 0, MAX_TRADING_SYMBOLS as nat),
        None => Seq::empty(),
    }
}

/// `out` holds exactly the pairs `expected`.
pub open spec fn pairs_match(out: Seq<(String, i64)>, expected: Seq<(Seq<char>, i64)>) -> bool {
    &&& out.len() == expected.len()
    &&& forall|k: int|
        0 <= k < out.len() ==> (#[trigger] out[k]).0@ == expected[k].0 && out[k].1
            == expected[k].1
}

/// Whether two strings hold the same characters.
fn same_text(a: &str, b: &str) -> (r: bool)
    ensures
        r == (a@ == b@),
{
    let x = str_chars(a);
    let y = str_chars(b);
    if x.len() != y.len() {
        return false;
    }
    let mut i: usize = 0;
    while i < x.len()
        invariant
            x@ == a@,
            y@ == b@,
            x.len() == y.len(),
            i <= x.len(),
            forall|j: int| 0 <= j < i ==> x@[j] == y@[j],
        decreases x.len() - i,
    {
        if x[i] != y[i] {
            return false;
        }
        i = i + 1;
    }
    assert(x@ =~= y@);
    true
}

/// The index of the member `key` in an object's members, as `object_get` finds it.
fn member_index(pairs: &Vec<(String, JsonValue)>, key: &str) -> (r: Option<usize>)
    ensures
        match r {
            Some(i) => i < pairs@.len() && object_get(pairs@, key@) == Some(pairs@[i as int].1),
            None => object_get(pairs@, key@) is None,
        },
{
    assert(pairs@.skip(0) =~= pairs@);
    let mut i: usize = 0;
    while i < pairs.len()
        invariant
            i <= pairs.len(),
            object_get(pairs@, key@) == object_get(pairs@.skip(i as int), key@),
        decreases pairs.len() - i,
    {
        assert(pairs@.skip(i as int)[0] == pairs@[i as int]);
        if same_text(pairs[i].0.as_str(), key) {
            assert(pairs@.skip(i as int).len() > 0);
            return Some(i);
        }
        assert(pairs@.skip(i as int).drop_first() =~= pairs@.skip(i + 1));
        i = i + 1;
    }
    assert(pairs@.skip(i as int) =~= Seq::<(String, JsonValue)>::empty());
    None
}

/// `Value::get(key)`.
fn member_of<'a>(v: &'a JsonValue, key: &str) -> (r: Option<&'a JsonValue>)
    ensures
        match r {
            Some(x) => member(*v, key@) == Some(*x),
            None => member(*v, key@) is None,
        },
{
    match v {
        JsonValue::Object(pairs) => match member_index(pairs, key) {
            Some(i) => Some(&pairs[i].1),
            None => None,
        },
        _ => None,
    }
}

/// `as_str`.
fn text_in<'a>(v: Option<&'a JsonValue>) -> (r: Option<&'a str>)
    ensures
        match r {
            Some(s) => text_of(match v {
                Some(x) => Some(*x),
                None => None,
            }) == Some(s@),
            None => text_of(match v {
                Some(x) => Some(*x),
                None => None,
            }) is None,
        },
{
    match v {
        Some(JsonValue::Str(s)) => Some(s.as_str()),
        _ => None,
    }
}

/// `as_array`.
fn items_in<'a>(v: Option<&'a JsonValue>) -> (r: Option<&'a Vec<JsonValue>>)
    ensures
        match r {
            Some(a) => items_of(match v {
                Some(x) => Some(*x),
                None => None,
            }) == Some(a@),
            None => items_of(match v {
                Some(x) => Some(*x),
                None => None,
            }) is None,
        },
{
    match v {
        Some(JsonValue::Array(a)) => Some(a),
        _ => None,
    }
}

/// tickSize "0.10" -> 100_000 scaled units, the same unit as price and qty.
fn tick_size_to_scale(tick: &str) -> (r: Option<i64>)
    ensures
        r == spec_parse_decimal_scaled(encode_utf8(tick@), 1_000_000),
{
    tick_to_scaled(tick)
}

fn tick_of_entry(s: &JsonValue) -> (t: i64)
    ensures
        t == symbol_tick(*s),
{
    let mut tick: i64 = DEFAULT_TICK;
    match items_in(member_of(s, "filters")) {
        None => {},
        Some(filters) => {
            let mut i: usize = 0;
            while i < filters.len()
                invariant
                    i <= filters.len(),
                    tick == filters_tick(filters@, i as int),
                decreases filters.len() - i,
            {
                let f = &filters[i];
                let is_price = match text_in(member_of(f, "filterType")) {
                    Some(kind) => same_text(kind, "PRICE_FILTER"),
                    None => false,
                };
                if is_price {
                    match text_in(member_of(f, "tickSize")) {
                        Some(ts) => {
                            tick = match tick_size_to_scale(ts) {
                                Some(v) => v,
                                None => DEFAULT_TICK,
                            };
                        },
                        None => {},
                    }
                }
                i = i + 1;
            }
        },
    }
    tick
}

/// The (name, tick) pairs of a parsed exchangeInfo document: every entry of its
/// `symbols` array whose `status` is `TRADING` and whose `symbol` is not empty, with
/// the tick of its last `PRICE_FILTER` in scaled units (0.10 -> 100_000; 100_000 when
/// there is none or it does not parse). At most 4096 pairs.
pub fn symbols_from_document(doc: &JsonValue) -> (out: Vec<(String, i64)>)
    ensures
        pairs_match(out@, document_symbols(*doc)),
{
    let mut out: Vec<(String, i64)> = Vec::new();
    let syms = match items_in(member_of(doc, "symbols")) {
        Some(a) => a,
        None => {
            return out;
        },
    };
    let ghost full = trading_from(syms@, 0, MAX_TRADING_SYMBOLS as nat);
    let ghost mut done: Seq<(Seq<char>, i64)> = Seq::empty();
    let mut i: usize = 0;
    while i < syms.len() && out.len() < MAX_TRADING_SYMBOLS
        invariant
            i <= syms.len(),
            out.len() <= MAX_TRADING_SYMBOLS,
            full == trading_from(syms@, 0, MAX_TRADING_SYMBOLS as nat),
            pairs_match(out@, done),
            done + trading_from(syms@, i as int, (MAX_TRADING_SYMBOLS - out.len()) as nat) == full,
        decreases syms.len() - i,
    {
        let ghost room = (MAX_TRADING_SYMBOLS - out.len()) as nat;
        let s = &syms[i];
        let name_opt = text_in(member_of(s, "symbol"));
        let status_opt = text_in(member_of(s, "status"));
        let name = match (name_opt, status_opt) {
            (Some(n), Some(st)) => {
                if same_text(st, "TRADING") && !n.is_empty() {
                    n
                } else {
                    assert(!is_trading_entry(*s));
                    assert(trading_from(syms@, i as int, room) == trading_from(syms@, i + 1, room));
                    i = i + 1;
                    continue;
                }
            },
            _ => {
                assert(!is_trading_entry(*s));
                assert(trading_from(syms@, i as int, room) == trading_from(syms@, i + 1, room));
                i = i + 1;
                continue;
            },
        };
        let tick = tick_of_entry(s);
        let ghost entry = (name@, tick);
        let ghost prev = out@;
        out.push((String::from_str(name), tick));
        proof {
            let rest = trading_from(syms@, i + 1, (room - 1) as nat);
            assert(is_trading_entry(syms@[i as int]));
            assert(trading_from(syms@, i as int, room) == seq![entry] + rest);
            assert(done.push(entry) + rest =~= done + (seq![entry] + rest));
            done = done.push(entry);
            assert forall|k: int| 0 <= k < out@.len() implies (#[trigger] out@[k]).0@ == done[k].0
                && out@[k].1 == done[k].1 by {
                if k < out@.len() - 1 {
                    assert(out@[k] == prev[k]);
                }
            }
        }
        i = i + 1;
    }
    proof {
        assert(trading_from(syms@, i as int, (MAX_TRADING_SYMBOLS - out.len()) as nat)
            =~= Seq::empty());
        assert(done + Seq::<(Seq<char>, i64)>::empty() =~= done);
    }
    out
}

/// The (name, tick) pairs an exchangeInfo body lists; nothing when the body is not
/// JSON.
pub open spec fn exchange_info_symbols(body: Seq<char>) -> Seq<(Seq<char>, i64)> {
    match json_document(body) {
        Some(doc) => document_symbols(doc),
        None => Seq::empty(),
    }
}

/// Tolerant exchangeInfo parse: the real /fapi/v1/exchangeInfo lists
/// `symbols[].filters[]` with a `PRICE_FILTER` `tickSize`. See `symbols_from_document`.
pub fn parse_exchange_info(body: &str) -> (out: Vec<(String, i64)>)
    ensures
        pairs_match(out@, exchange_info_symbols(body@)),
{
    match parse_json(body) {
        Some(doc) => symbols_from_document(&doc),
        None => Vec::new(),
    }
}

/// `s` without its trailing `c` characters.
pub open spec fn trim_trailing(s: Seq<char>, c: char) -> Seq<char>
    decreases s.len(),
{
    if s.len() > 0 && s.last() == c {
        trim_trailing(s.drop_last(), c)
    } else {
        s
    }
}

/// `str::trim_end_matches('/')`.
fn trim_end_slashes(s: &str) -> (r: &str)
    ensures
        r@ == trim_trailing(s@, '/'),
{
    let h = str_chars(s);
    let mut e = h.len();
    assert(s@.take(e as int) =~= s@);
    while e > 0 && h[e - 1] == '/'
        invariant
            h@ == s@,
            e <= h.len(),
            trim_trailing(s@, '/') == trim_trailing(s@.take(e as int), '/'),
        decreases e,
    {
        assert(s@.take(e as int).drop_last() =~= s@.take(e - 1));
        e = e - 1;
    }
    assert(s@.take(e as int) =~= s@.subrange(0, e as int));
    s.substring_char(0, e)
}

/// The stream names `n@trade` joined with `/`.
pub open spec fn joined_streams(names: Seq<Seq<char>>) -> Seq<char>
    decreases names.len(),
{
    if names.len() == 0 {
        Seq::empty()
    } else if names.len() == 1 {
        names[0] + "@trade"@
    } else {
        joined_streams(names.drop_last()) + "/"@ + names.last() + "@trade"@
    }
}

/// `base` without trailing slashes, then `/stream?streams=` and the joined stream names.
pub open spec fn streams_url_text(base: Seq<char>, names: Seq<Seq<char>>) -> Seq<char> {
    trim_trailing(base, '/') + "/stream?streams="@ + joined_streams(names)
}

pub open spec fn string_views(v: Seq<String>) -> Seq<Seq<char>> {
    v.map_values(|s: String| s@)
}

/// The combined-stream URL for stream names that are already lower case:
/// `wss://.../stream?streams=btcusdt@trade/ethusdt@trade`.
pub fn streams_url(base: &str, names: &[String]) -> (url: String)
    ensures
        url@ == streams_url_text(base@, string_views(names@)),
{
    let ghost views = string_views(names@);
    let mut joined = String::new();
    let mut i: usize = 0;
    while i < names.len()
        invariant
            i <= names.len(),
            views == string_views(names@),
            joined@ == joined_streams(views.take(i as int)),
        decreases names.len() - i,
    {
        if i > 0 {
            joined.append("/");
        }
        joined.append(names[i].as_str());
        joined.append("@trade");
        proof {
            assert(views.take(i + 1).drop_last() =~= views.take(i as int));
            assert(views.take(i + 1).last() == names@[i as int]@);
            if i == 0 {
                assert(joined@ =~= Seq::<char>::empty() + names@[0]@ + "@trade"@);
                assert(views.take(1)[0] == names@[0]@);
            }
        }
        i = i + 1;
    }
    assert(views.take(i as int) =~= views);
    let mut url = String::from_str(trim_end_slashes(base));
    url.append("/stream?streams=");
    url.append(joined.as_str());
    url
}

/// What `str::to_lowercase` makes of `s`.
pub uninterp spec fn lowercase(s: Seq<char>) -> Seq<char>;

/// `str::to_lowercase` (Unicode lower case). The result is named, not described.
#[verifier::external_body]
fn to_lower(s: &str) -> (r: String)
    ensures
        r@ == lowercase(s@),
{
    s.to_lowercase()
}

/// Build the combined trade stream URL:
/// `wss://.../stream?streams=btcusdt@trade/ethusdt@trade`.
pub fn combined_aggtrade_url(base: &str, symbols: &[String]) -> (url: String)
    ensures
        url@ == streams_url_text(base@, symbols@.map_values(|s: String| lowercase(s@))),
{
    let ghost want = symbols@.map_values(|s: String| lowercase(s@));
    let mut lowered: Vec<String> = Vec::new();
    let mut i: usize = 0;
    while i < symbols.len()
        invariant
            i <= symbols.len(),
            lowered@.len() == i,
            want == symbols@.map_values(|s: String| lowercase(s@)),
            forall|j: int| 0 <= j < i ==> (#[trigger] lowered@[j])@ == want[j],
        decreases symbols.len() - i,
    {
        lowered.push(to_lower(symbols[i].as_str()));
        i = i + 1;
    }
    assert(string_views(lowered@) =~= want);
    streams_url(base, lowered.as_slice())
}

/// The payload a combined-stream message carries: the document's `data` member when
/// the text mentions `"data"`, parses, and has that member; `None` when the text itself
/// is the payload.
pub open spec fn stream_payload_of(text: Seq<char>) -> Option<JsonValue> {
    if find_from(text, "\"data\""@, 0) is Some {
        match json_document(text) {
            Some(doc) => member(doc, "data"@),
            None => None,
        }
    } else {
        None
    }
}

/// Unwrap a combined-stream message `{"stream":"...","data":{...}}`: the `data` member,
/// or `None` when the message is to be used as it is.
pub fn stream_payload(text: &str) -> (r: Option<JsonValue>)
    ensures
        r == stream_payload_of(text@),
{
    let h = str_chars(text);
    let key = str_chars("\"data\"");
    if find_pattern(&h, &key, 0).is_none() {
        return None;
    }
    match parse_json(text) {
        Some(JsonValue::Object(mut pairs)) => match member_index(&pairs, "data") {
            Some(i) => {
                let (_, v) = pairs.swap_remove(i);
                Some(v)
            },
            None => None,
        },
        _ => None,
    }
}

/// The first wait before reconnecting, in milliseconds.
pub const RECONNECT_START_MS: u64 = 1000;

/// The longest wait before reconnecting, in milliseconds.
pub const RECONNECT_MAX_MS: u64 = 30_000;

/// The wait after `cur_ms`: doubled, capped at 30 s.
pub fn next_backoff_ms(cur_ms: u64) -> (r: u64)
    ensures
        r == (if 2 * cur_ms <= RECONNECT_MAX_MS {
            2 * cur_ms
        } else {
            RECONNECT_MAX_MS as int
        }),
{
    if cur_ms <= RECONNECT_MAX_MS / 2 {
        cur_ms * 2
    } else {
        RECONNECT_MAX_MS
    }
}

} // verus!
