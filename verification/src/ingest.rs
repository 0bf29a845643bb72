//! Producer side: parse a raw Binance trade payload into a normalized `Trade`.
//!
//! Fields read from the payload: `s` symbol, `p` price, `q` quantity, `T` event time
//! in milliseconds, `m` buyer-is-maker flag and `t` trade id. The symbol is hashed to a
//! `u32` at ingest; the dense id is stamped later from a directory snapshot.

use vstd::prelude::*;
use vstd::utf8::encode_utf8;
use vstd::string::StringSliceAdditionalSpecFns;
use crate::text::{
    find_char, find_either, find_from, find_pattern, first_char_from, first_of_two_from,
    lemma_find_from_match, skip_whitespace, skip_ws_from, str_chars, trim_back, trim_end_index,
};

verus! {

#[derive(Clone, Copy, Default, Debug, PartialEq, Eq)]
pub struct Trade {
    pub symbol_hash: u32,
    pub dense_id: u32,
    /// Scaled fixed-point price.
    pub price: i64,
    pub qty: i64,
    pub ts_ns: i64,
    /// Binance `t`; 0 when missing.
    pub trade_id: u64,
    pub is_buyer_maker: bool,
    pub valid: bool,
}

/// The trade every rejected payload turns into.
pub open spec fn spec_empty_trade() -> Trade {
    Trade {
        symbol_hash: 0,
        dense_id: 0,
        price: 0,
        qty: 0,
        ts_ns: 0,
        trade_id: 0,
        is_buyer_maker: false,
        valid: false,
    }
}

/// The all-zero, invalid trade (the value of an unfilled batch slot and of a dropped payload).
pub fn empty_trade() -> (t: Trade)
    ensures
        t == spec_empty_trade(),
{
    Trade {
        symbol_hash: 0,
        dense_id: 0,
        price: 0,
        qty: 0,
        ts_ns: 0,
        trade_id: 0,
        is_buyer_maker: false,
        valid: false,
    }
}

/// A byte allowed in a symbol key: `A-Z`, `0-9`, `_`, `.`, `-`.
pub open spec fn is_symbol_byte(b: u8) -> bool {
    ||| (65 <= b && b <= 90)
    ||| (48 <= b && b <= 57)
    ||| b == 95
    ||| b == 46
    ||| b == 45
}

pub open spec fn spec_symbol_key_valid(bytes: Seq<u8>) -> bool {
    &&& 1 <= bytes.len() <= 32
    &&& forall|i: int| 0 <= i < bytes.len() ==> is_symbol_byte(#[trigger] bytes[i])
}

/// Only `A-Z 0-9 _ . -` are allowed, length 1..=32: blocks quote/backslash injection.
pub fn symbol_key_valid(bytes: &[u8]) -> (r: bool)
    ensures
        r == spec_symbol_key_valid(bytes@),
{
    if bytes.len() == 0 || bytes.len() > 32 {
        return false;
    }
    let mut i: usize = 0;
    while i < bytes.len()
        invariant
            i <= bytes.len(),
            forall|j: int| 0 <= j < i ==> is_symbol_byte(#[trigger] bytes@[j]),
        decreases bytes.len() - i,
    {
        let b = bytes[i];
        let ok = (65u8 <= b && b <= 90u8) || (48u8 <= b && b <= 57u8) || b == 95u8 || b == 46u8
            || b == 45u8;
        if !ok {
            return false;
        }
        i = i + 1;
    }
    true
}

/// Why a payload was dropped.
#[derive(Clone, Copy, Debug, PartialEq, Eq)]
pub enum DropReason {
    BadSymbol,
    BadPrice,
    BadQty,
    BadTs,
}

/// Drop counters, one per reason (plus routing failures counted by the caller).
#[derive(Default, Debug)]
pub struct InvalidCounters {
    pub bad_symbol: u64,
    pub bad_price: u64,
    pub bad_qty: u64,
    pub bad_ts: u64,
    pub unknown_symbol: u64,
}

/// FNV-1a 32 over `bytes`.
pub open spec fn fnv1a(bytes: Seq<u8>) -> u32
    decreases bytes.len(),
{
    if bytes.len() == 0 {
        0x811c_9dc5u32
    } else {
        (fnv1a(bytes.drop_last()) ^ (bytes.last() as u32)).wrapping_mul(0x0100_0193u32)
    }
}

/// The symbol hash: FNV-1a 32 with the low bit forced, so it is never 0.
pub open spec fn spec_hash_symbol(bytes: Seq<u8>) -> u32 {
    fnv1a(bytes) | 1u32
}

pub fn hash_symbol(bytes: &[u8]) -> (h: u32)
    ensures
        h == spec_hash_symbol(bytes@),
        h != 0,
{
    let mut h: u32 = 0x811c_9dc5;
    let mut i: usize = 0;
    while i < bytes.len()
        invariant
            i <= bytes.len(),
            h == fnv1a(bytes@.take(i as int)),
        decreases bytes.len() - i,
    {
        assert(bytes@.take(i + 1).drop_last() =~= bytes@.take(i as int));
        h = h ^ (bytes[i] as u32);
        h = h.wrapping_mul(0x0100_0193);
        i = i + 1;
    }
    assert(bytes@.take(bytes.len() as int) =~= bytes@);
    let r = h | 1;
    assert(r != 0) by (bit_vector)
        requires
            r == h | 1u32,
    ;
    r
}

/// Scanner state of a decimal literal after a prefix of its bytes.
pub struct DecimalScan {
    pub neg: bool,
    pub int_part: i64,
    pub frac: i64,
    pub frac_digits: i32,
    pub seen_dot: bool,
    pub any: bool,
}

pub open spec fn decimal_scan_start() -> DecimalScan {
    DecimalScan { neg: false, int_part: 0, frac: 0, frac_digits: 0, seen_dot: false, any: false }
}

/// One byte of the decimal scanner: a leading `-` (before any digit), digits, one `.`;
/// integer digits must fit in `i64`; at most 9 fraction digits are kept.
pub open spec fn decimal_step(st: DecimalScan, b: u8) -> Option<DecimalScan> {
    if b == 45 && !st.any && !st.neg {
        Some(DecimalScan { neg: true, ..st })
    } else if 48 <= b && b <= 57 {
        let d = b - 48;
        if !st.seen_dot {
            let v = st.int_part * 10 + d;
            if v > i64::MAX {
                None
            } else {
                Some(DecimalScan { any: true, int_part: v as i64, ..st })
            }
        } else if st.frac_digits < 9 {
            Some(
                DecimalScan {
                    any: true,
                    frac: (st.frac * 10 + d) as i64,
                    frac_digits: (st.frac_digits + 1) as i32,
                    ..st
                },
            )
        } else {
            Some(DecimalScan { any: true, ..st })
        }
    } else if b == 46 && !st.seen_dot {
        Some(DecimalScan { seen_dot: true, ..st })
    } else {
        None
    }
}

pub open spec fn decimal_scan(bytes: Seq<u8>) -> Option<DecimalScan>
    decreases bytes.len(),
{
    if bytes.len() == 0 {
        Some(decimal_scan_start())
    } else {
        match decimal_scan(bytes.drop_last()) {
            None => None,
            Some(st) => decimal_step(st, bytes.last()),
        }
    }
}

pub open spec fn pow10(n: nat) -> int
    decreases n,
{
    if n == 0 {
        1
    } else {
        10 * pow10((n - 1) as nat)
    }
}

/// Division that rounds toward zero, as Rust's integer `/` does.
pub open spec fn trunc_div(a: int, b: int) -> int {
    if a >= 0 {
        a / b
    } else {
        -((-a) / b)
    }
}

pub open spec fn fits_i64(v: int) -> bool {
    i64::MIN <= v <= i64::MAX
}

/// Sign and scaled magnitude `int*scale + trunc(frac*scale / 10^digits)`, each step
/// checked against `i64`; `None` when the scan fails, no digit was seen, or a step overflows.
pub open spec fn decimal_magnitude(bytes: Seq<u8>, scale: i64) -> Option<(bool, int)> {
    match decimal_scan(bytes) {
        None => None,
        Some(st) => {
            if !st.any {
                None
            } else {
                let a = st.int_part * scale;
                let f = st.frac * scale;
                if !fits_i64(a) || !fits_i64(f) {
                    None
                } else {
                    let sc = a + trunc_div(f, pow10(st.frac_digits as nat));
                    if !fits_i64(sc) {
                        None
                    } else {
                        Some((st.neg, sc))
                    }
                }
            }
        }
    }
}

/// The negation of the scaled magnitude would leave `i64` (the one input the
/// arithmetic cannot take: a negative literal whose scaled magnitude is `i64::MIN`).
pub open spec fn decimal_negation_overflows(bytes: Seq<u8>, scale: i64) -> bool {
    match decimal_magnitude(bytes, scale) {
        Some((neg, sc)) => neg && sc == i64::MIN,
        None => false,
    }
}

/// The scaled value of a decimal literal; only strictly positive values are kept.
pub open spec fn spec_parse_decimal_scaled(bytes: Seq<u8>, scale: i64) -> Option<i64> {
    match decimal_magnitude(bytes, scale) {
        None => None,
        Some((neg, sc)) => {
            let v = if neg {
                -sc
            } else {
                sc
            };
            if v <= 0 {
                None
            } else {
                Some(v as i64)
            }
        },
    }
}

proof fn lemma_pow10_mono(a: nat, b: nat)
    requires
        a <= b,
    ensures
        1 <= pow10(a) <= pow10(b),
    decreases b,
{
    if b > a {
        lemma_pow10_mono(a, (b - 1) as nat);
    } else if a > 0 {
        lemma_pow10_mono((a - 1) as nat, (a - 1) as nat);
    }
}

proof fn lemma_pow10_bounds(n: nat)
    requires
        n <= 9,
    ensures
        1 <= pow10(n) <= 1_000_000_000,
{
    lemma_pow10_mono(n, 9);
    assert(pow10(9) == 1_000_000_000) by {
        reveal_with_fuel(pow10, 10);
    }
}

/// With a positive scale the scaled magnitude is never negative, so no negation can overflow.
pub proof fn lemma_positive_scale_never_overflows(bytes: Seq<u8>, scale: i64)
    requires
        scale > 0,
    ensures
        !decimal_negation_overflows(bytes, scale),
{
    match decimal_scan(bytes) {
        None => {},
        Some(st) => {
            lemma_decimal_scan_bounds(bytes);
            if st.any {
                lemma_pow10_bounds(st.frac_digits as nat);
                assert(st.int_part * scale >= 0) by (nonlinear_arith)
                    requires
                        st.int_part >= 0,
                        scale > 0,
                ;
                assert(st.frac * scale >= 0) by (nonlinear_arith)
                    requires
                        st.frac >= 0,
                        scale > 0,
                ;
            }
        },
    }
}

pub open spec fn decimal_scan_wf(st: DecimalScan) -> bool {
    &&& st.int_part >= 0
    &&& 0 <= st.frac_digits <= 9
    &&& 0 <= st.frac < pow10(st.frac_digits as nat)
}

proof fn lemma_decimal_scan_bounds(bytes: Seq<u8>)
    ensures
        decimal_scan(bytes) matches Some(st) ==> decimal_scan_wf(st),
    decreases bytes.len(),
{
    if bytes.len() > 0 {
        lemma_decimal_scan_bounds(bytes.drop_last());
        if let Some(st) = decimal_scan(bytes.drop_last()) {
            lemma_pow10_bounds(st.frac_digits as nat);
        }
    }
}

/// Sign and checked scaled magnitude of a decimal literal.
fn decimal_magnitude_of(s: &str, scale: i64) -> (r: Option<(bool, i64)>)
    ensures
        match r {
            Some((neg, sc)) => decimal_magnitude(s.spec_bytes(), scale) == Some((neg, sc as int)),
            None => decimal_magnitude(s.spec_bytes(), scale) is None,
        },
{
    if s.is_empty() {
        proof {
            assert(s.spec_bytes() =~= encode_utf8(s@));
            assert(s@ =~= Seq::<char>::empty());
            assert(encode_utf8(Seq::<char>::empty()) =~= Seq::<u8>::empty()) by {
                reveal_with_fuel(encode_utf8, 2);
            }
        }
        return None;
    }
    let bytes = s.as_bytes();
    let ghost bs = bytes@;
    let mut neg = false;
    let mut int_part: i64 = 0;
    let mut frac: i64 = 0;
    let mut frac_digits: i32 = 0;
    let mut seen_dot = false;
    let mut any = false;
    let mut i: usize = 0;
    while i < bytes.len()
        invariant
            bs == bytes@,
            bs == s.spec_bytes(),
            i <= bytes.len(),
            decimal_scan(bs.take(i as int)) == Some(
                DecimalScan { neg, int_part, frac, frac_digits, seen_dot, any },
            ),
            decimal_scan_wf(DecimalScan { neg, int_part, frac, frac_digits, seen_dot, any }),
        decreases bytes.len() - i,
    {
        proof {
            assert(bs.take(i + 1).drop_last() =~= bs.take(i as int));
            lemma_pow10_bounds(frac_digits as nat);
        }
        let b = bytes[i];
        if b == 45u8 && !any && !neg {
            neg = true;
        } else if 48u8 <= b && b <= 57u8 {
            any = true;
            let d = (b - 48u8) as i64;
            if !seen_dot {
                match int_part.checked_mul(10) {
                    Some(m) => match m.checked_add(d) {
                        Some(v) => {
                            int_part = v;
                        },
                        None => {
                            proof {
                                assert(decimal_scan(bs.take(i + 1)) is None);
                                lemma_scan_none_absorbs(bs, i as int + 1);
                                assert(bs.take(bs.len() as int) =~= bs);
                            }
                            return None;
                        },
                    },
                    None => {
                        proof {
                            assert(decimal_scan(bs.take(i + 1)) is None);
                            lemma_scan_none_absorbs(bs, i as int + 1);
                            assert(bs.take(bs.len() as int) =~= bs);
                        }
                        return None;
                    },
                }
            } else if frac_digits < 9 {
                frac = frac * 10 + d;
                frac_digits = frac_digits + 1;
                proof {
                    assert(pow10(frac_digits as nat) == 10 * pow10((frac_digits - 1) as nat));
                }
            }
        } else if b == 46u8 && !seen_dot {
            seen_dot = true;
        } else {
            proof {
                assert(decimal_scan(bs.take(i + 1)) is None);
                lemma_scan_none_absorbs(bs, i as int + 1);
                assert(bs.take(bs.len() as int) =~= bs);
            }
            return None;
        }
        i = i + 1;
    }
    proof {
        assert(bs.take(bs.len() as int) =~= bs);
    }
    if !any {
        return None;
    }
    let mut pow10v: i64 = 1;
    let mut k: i32 = 0;
    while k < frac_digits
        invariant
            0 <= k <= frac_digits <= 9,
            pow10v == pow10(k as nat),
        decreases frac_digits - k,
    {
        proof {
            lemma_pow10_bounds(k as nat);
        }
        pow10v = pow10v * 10;
        k = k + 1;
    }
    proof {
        lemma_pow10_bounds(frac_digits as nat);
    }
    let a = match int_part.checked_mul(scale) {
        Some(a) => a,
        None => {
            return None;
        },
    };
    let f = match frac.checked_mul(scale) {
        Some(f) => f,
        None => {
            return None;
        },
    };
    let q = f / pow10v;
    let scaled = match a.checked_add(q) {
        Some(v) => v,
        None => {
            return None;
        },
    };
    Some((neg, scaled))
}

/// Parse scaled decimal "123.45" with the given scale (scale 10 stores 1234.5 as 1234).
/// Returns `None` on malformed input, overflow, or a non-positive result.
pub fn parse_decimal_scaled(s: &str, scale: i64) -> (r: Option<i64>)
    requires
        !decimal_negation_overflows(s.spec_bytes(), scale),
    ensures
        r == spec_parse_decimal_scaled(s.spec_bytes(), scale),
        r matches Some(v) ==> v > 0,
{
    match decimal_magnitude_of(s, scale) {
        None => None,
        Some((neg, scaled)) => {
            let v = if neg {
                -scaled
            } else {
                scaled
            };
            if v <= 0 {
                None
            } else {
                Some(v)
            }
        },
    }
}

/// Whether negating the scaled magnitude of `s` would leave `i64`.
fn decimal_negation_overflows_of(s: &str, scale: i64) -> (r: bool)
    ensures
        r == decimal_negation_overflows(s.spec_bytes(), scale),
{
    match decimal_magnitude_of(s, scale) {
        None => false,
        Some((neg, scaled)) => neg && scaled == i64::MIN,
    }
}


proof fn lemma_scan_none_absorbs(bs: Seq<u8>, k: int)
    requires
        0 <= k <= bs.len(),
        decimal_scan(bs.take(k)) is None,
    ensures
        decimal_scan(bs.take(bs.len() as int)) is None,
    decreases bs.len() - k,
{
    if k < bs.len() {
        assert(bs.take(k + 1).drop_last() =~= bs.take(k));
        lemma_scan_none_absorbs(bs, k + 1);
    }
}

/// Global fixed-point scale: 1.0 == 1_000_000 units (price, qty and tick alike).
pub const SCALE: i64 = 1_000_000;

/// Convert a tickSize string ("0.10") to scaled units (100_000); same path as prices.
pub fn tick_to_scaled(tick_size: &str) -> (r: Option<i64>)
    ensures
        r == spec_parse_decimal_scaled(tick_size.spec_bytes(), 1_000_000),
{
    proof {
        lemma_positive_scale_never_overflows(tick_size.spec_bytes(), SCALE);
    }
    parse_decimal_scaled(tick_size, SCALE)
}

pub open spec fn is_digit_byte(b: u8) -> bool {
    48 <= b && b <= 57
}

pub open spec fn all_digits(ds: Seq<u8>) -> bool {
    forall|i: int| 0 <= i < ds.len() ==> is_digit_byte(#[trigger] ds[i])
}

/// The decimal value of a run of ASCII digits.
pub open spec fn digits_value(ds: Seq<u8>) -> int
    decreases ds.len(),
{
    if ds.len() == 0 {
        0
    } else {
        digits_value(ds.drop_last()) * 10 + (ds.last() - 48)
    }
}

/// The digits after an optional sign, and whether the sign was `-`
/// (`-` counts as a sign only for signed targets).
pub open spec fn split_sign(b: Seq<u8>, signed: bool) -> (bool, Seq<u8>) {
    if b[0] == 43 {
        (false, b.drop_first())
    } else if b[0] == 45 && signed {
        (true, b.drop_first())
    } else {
        (false, b)
    }
}

/// `str::parse::<i64>` on the bytes `b`.
pub open spec fn spec_parse_i64(b: Seq<u8>) -> Option<i64> {
    if b.len() == 0 || ((b[0] == 43 || b[0] == 45) && b.len() == 1) {
        None
    } else {
        let (neg, ds) = split_sign(b, true);
        let v = if neg {
            -digits_value(ds)
        } else {
            digits_value(ds)
        };
        if all_digits(ds) && fits_i64(v) {
            Some(v as i64)
        } else {
            None
        }
    }
}

/// `str::parse::<u64>` on the bytes `b`.
pub open spec fn spec_parse_u64(b: Seq<u8>) -> Option<u64> {
    if b.len() == 0 || ((b[0] == 43 || b[0] == 45) && b.len() == 1) {
        None
    } else {
        let (neg, ds) = split_sign(b, false);
        if all_digits(ds) && digits_value(ds) <= u64::MAX {
            Some(digits_value(ds) as u64)
        } else {
            None
        }
    }
}

proof fn lemma_digits_value_nonneg(ds: Seq<u8>)
    requires
        all_digits(ds),
    ensures
        digits_value(ds) >= 0,
    decreases ds.len(),
{
    if ds.len() > 0 {
        lemma_digits_value_nonneg(ds.drop_last());
    }
}

/// A longer run of digits is worth at least as much as its prefix.
proof fn lemma_digits_value_grows(ds: Seq<u8>, k: int)
    requires
        all_digits(ds),
        0 <= k <= ds.len(),
    ensures
        digits_value(ds) >= digits_value(ds.take(k)),
    decreases ds.len() - k,
{
    if k < ds.len() {
        assert(ds.take(k + 1).drop_last() =~= ds.take(k));
        assert(all_digits(ds.take(k))) by {
            assert forall|i: int| 0 <= i < ds.take(k).len() implies is_digit_byte(
                #[trigger] ds.take(k)[i],
            ) by {
                assert(ds.take(k)[i] == ds[i]);
            }
        }
        assert(is_digit_byte(ds[k]));
        assert(ds.take(k + 1).last() == ds[k]);
        lemma_digits_value_nonneg(ds.take(k));
        lemma_digits_value_grows(ds, k + 1);
    } else {
        assert(ds.take(k) =~= ds);
    }
}

proof fn lemma_all_digits_drop_last(ds: Seq<u8>)
    requires
        all_digits(ds),
        ds.len() > 0,
    ensures
        all_digits(ds.drop_last()),
        is_digit_byte(ds.last()),
{
    assert forall|i: int| 0 <= i < ds.drop_last().len() implies is_digit_byte(
        #[trigger] ds.drop_last()[i],
    ) by {
        assert(ds.drop_last()[i] == ds[i]);
    }
    assert(is_digit_byte(ds[ds.len() - 1]));
}

proof fn lemma_all_digits_take(ds: Seq<u8>, k: int)
    requires
        all_digits(ds),
        0 <= k <= ds.len(),
    ensures
        all_digits(ds.take(k)),
{
    assert forall|i: int| 0 <= i < ds.take(k).len() implies is_digit_byte(#[trigger] ds.take(k)[i]) by {
        assert(ds.take(k)[i] == ds[i]);
    }
}

/// A run of `n` digits is worth less than `10^n`.
proof fn lemma_digits_value_below_pow10(ds: Seq<u8>)
    requires
        all_digits(ds),
    ensures
        0 <= digits_value(ds) < pow10(ds.len()),
    decreases ds.len(),
{
    if ds.len() > 0 {
        lemma_all_digits_drop_last(ds);
        lemma_digits_value_below_pow10(ds.drop_last());
        assert(pow10(ds.len()) == 10 * pow10(ds.drop_last().len()));
    }
}

/// Scanning the integer digits `ds`: no sign, no dot, the integer part is their value.
proof fn lemma_scan_integer_digits(ds: Seq<u8>)
    requires
        all_digits(ds),
        digits_value(ds) <= i64::MAX,
    ensures
        decimal_scan(ds) == Some(
            DecimalScan {
                neg: false,
                int_part: digits_value(ds) as i64,
                frac: 0,
                frac_digits: 0,
                seen_dot: false,
                any: ds.len() > 0,
            },
        ),
    decreases ds.len(),
{
    if ds.len() > 0 {
        lemma_all_digits_drop_last(ds);
        lemma_digits_value_nonneg(ds.drop_last());
        lemma_digits_value_nonneg(ds);
        assert(digits_value(ds.drop_last()) <= digits_value(ds));
        lemma_scan_integer_digits(ds.drop_last());
    }
}

/// Scanning fraction digits `fs` after a dot: the first nine count, the rest are read and
/// dropped.
proof fn lemma_scan_fraction_digits(p: Seq<u8>, fs: Seq<u8>, st0: DecimalScan)
    requires
        decimal_scan(p) == Some(st0),
        st0.seen_dot,
        st0.frac == 0,
        st0.frac_digits == 0,
        all_digits(fs),
    ensures
        ({
            let k = if fs.len() <= 9 {
                fs.len() as int
            } else {
                9
            };
            decimal_scan(p + fs) == Some(
                DecimalScan {
                    frac: digits_value(fs.take(k)) as i64,
                    frac_digits: k as i32,
                    any: st0.any || fs.len() > 0,
                    ..st0
                },
            )
        }),
    decreases fs.len(),
{
    if fs.len() == 0 {
        assert(p + fs =~= p);
        assert(fs.take(0) =~= Seq::<u8>::empty());
    } else {
        let fd = fs.drop_last();
        lemma_all_digits_drop_last(fs);
        lemma_scan_fraction_digits(p, fd, st0);
        assert((p + fs).drop_last() =~= p + fd);
        assert((p + fs).last() == fs.last());
        if fd.len() < 9 {
            assert(fd.take(fd.len() as int) =~= fd);
            assert(fs.take(fs.len() as int) =~= fs);
            lemma_digits_value_below_pow10(fs);
            lemma_pow10_bounds(fs.len());
        } else {
            assert(fs.take(9) =~= fd.take(9));
        }
    }
}

/// Every fraction digit up to the ninth counts: for a literal `I.F` (no sign; `I` or
/// `F` may be empty, not both) and a positive scale, the scaled value is
/// `I * scale + trunc(F' * scale / 10^k)`, where `F'` is the first `k = min(|F|, 9)`
/// fraction digits, kept when positive; whenever that value fits `i64`.
pub proof fn lemma_decimal_closed_form(int_digits: Seq<u8>, frac_digits: Seq<u8>, scale: i64)
    requires
        all_digits(int_digits),
        all_digits(frac_digits),
        int_digits.len() + frac_digits.len() > 0,
        scale > 0,
        ({
            let k = if frac_digits.len() <= 9 {
                frac_digits.len() as int
            } else {
                9
            };
            digits_value(int_digits) * scale + digits_value(frac_digits.take(k)) * scale
                <= i64::MAX
        }),
    ensures
        ({
            let k = if frac_digits.len() <= 9 {
                frac_digits.len() as int
            } else {
                9
            };
            let v = digits_value(int_digits) * scale + (digits_value(frac_digits.take(k)) * scale)
                / pow10(k as nat);
            spec_parse_decimal_scaled(int_digits + seq![46u8] + frac_digits, scale) == (if v > 0 {
                Some(v as i64)
            } else {
                None::<i64>
            })
        }),
{
    let k = if frac_digits.len() <= 9 {
        frac_digits.len() as int
    } else {
        9
    };
    let iv = digits_value(int_digits);
    let fv = digits_value(frac_digits.take(k));
    lemma_digits_value_nonneg(int_digits);
    lemma_all_digits_take(frac_digits, k);
    lemma_digits_value_nonneg(frac_digits.take(k));
    assert(iv * scale >= 0 && fv * scale >= 0 && iv <= iv * scale) by (nonlinear_arith)
        requires
            iv >= 0,
            fv >= 0,
            scale >= 1,
    ;
    lemma_scan_integer_digits(int_digits);
    let st_i = decimal_scan(int_digits)->0;
    let with_dot = int_digits.push(46u8);
    assert(with_dot.drop_last() =~= int_digits);
    let st0 = DecimalScan { seen_dot: true, ..st_i };
    assert(decimal_scan(with_dot) == Some(st0));
    lemma_scan_fraction_digits(with_dot, frac_digits, st0);
    assert(int_digits + seq![46u8] + frac_digits =~= with_dot + frac_digits);
    lemma_pow10_bounds(k as nat);
    let f = fv * scale;
    assert(f / pow10(k as nat) <= f) by (nonlinear_arith)
        requires
            f >= 0,
            pow10(k as nat) >= 1,
    ;
    assert(f / pow10(k as nat) >= 0) by (nonlinear_arith)
        requires
            f >= 0,
            pow10(k as nat) >= 1,
    ;
    lemma_digits_value_below_pow10(frac_digits.take(k));
    assert(frac_digits.take(k).len() == k);
    let bytes = int_digits + seq![46u8] + frac_digits;
    let st = decimal_scan(bytes)->0;
    assert(st.any);
    assert(!st.neg);
    assert(st.int_part == iv);
    assert(st.frac == fv);
    assert(st.frac_digits as nat == k as nat);
    assert(trunc_div(st.frac * scale, pow10(st.frac_digits as nat)) == f / pow10(k as nat));
    assert(decimal_magnitude(bytes, scale) == Some((false, iv * scale + f / pow10(k as nat))));
}

/// A literal of digits only is its value times the scale, kept when positive, whenever
/// that fits `i64`.
pub proof fn lemma_integer_closed_form(int_digits: Seq<u8>, scale: i64)
    requires
        all_digits(int_digits),
        int_digits.len() > 0,
        scale > 0,
        digits_value(int_digits) * scale <= i64::MAX,
    ensures
        spec_parse_decimal_scaled(int_digits, scale) == (if digits_value(int_digits) * scale > 0 {
            Some((digits_value(int_digits) * scale) as i64)
        } else {
            None::<i64>
        }),
{
    let iv = digits_value(int_digits);
    lemma_digits_value_nonneg(int_digits);
    assert(iv * scale >= 0 && iv <= iv * scale) by (nonlinear_arith)
        requires
            iv >= 0,
            scale >= 1,
    ;
    lemma_scan_integer_digits(int_digits);
}

/// Checks that every byte of `ds[from..]` is an ASCII digit.
fn digits_only(ds: &[u8], from: usize) -> (r: bool)
    requires
        from <= ds.len(),
    ensures
        r == all_digits(ds@.skip(from as int)),
{
    let mut i = from;
    while i < ds.len()
        invariant
            from <= i <= ds.len(),
            forall|j: int| from <= j < i ==> is_digit_byte(#[trigger] ds@[j]),
        decreases ds.len() - i,
    {
        if !(48u8 <= ds[i] && ds[i] <= 57u8) {
            assert(!is_digit_byte(ds@.skip(from as int)[i - from]));
            return false;
        }
        i = i + 1;
    }
    assert forall|j: int| 0 <= j < ds@.skip(from as int).len() implies is_digit_byte(
        #[trigger] ds@.skip(from as int)[j],
    ) by {
        assert(ds@.skip(from as int)[j] == ds@[from + j]);
    }
    true
}

/// `str::parse::<i64>`.
pub fn parse_i64_str(s: &str) -> (r: Option<i64>)
    ensures
        r == spec_parse_i64(s.spec_bytes()),
{
    let b = s.as_bytes();
    let ghost bs = b@;
    if b.len() == 0 || ((b[0] == 43u8 || b[0] == 45u8) && b.len() == 1) {
        return None;
    }
    let neg = b[0] == 45u8;
    let start: usize = if b[0] == 43u8 || b[0] == 45u8 {
        1
    } else {
        0
    };
    let ghost ds = split_sign(bs, true).1;
    assert(ds =~= bs.skip(start as int));
    if !digits_only(b, start) {
        return None;
    }
    let mut acc: i64 = 0;
    let mut i = start;
    while i < b.len()
        invariant
            bs == b@,
            bs == s.spec_bytes(),
            start <= i <= b.len(),
            ds == bs.skip(start as int),
            all_digits(ds),
            bs.len() > 0,
            !((bs[0] == 43 || bs[0] == 45) && bs.len() == 1),
            neg == split_sign(bs, true).0,
            ds == split_sign(bs, true).1,
            neg ==> acc == -digits_value(ds.take(i - start)),
            !neg ==> acc == digits_value(ds.take(i - start)),
        decreases b.len() - i,
    {
        assert(ds.take(i - start + 1).drop_last() =~= ds.take(i - start));
        assert(ds[i - start] == b@[i as int]);
        let d = (b[i] - 48u8) as i64;
        let next = if neg {
            match acc.checked_mul(10) {
                Some(m) => m.checked_sub(d),
                None => None,
            }
        } else {
            match acc.checked_mul(10) {
                Some(m) => m.checked_add(d),
                None => None,
            }
        };
        match next {
            Some(v) => {
                acc = v;
            },
            None => {
                proof {
                    let p = ds.take(i - start);
                    let p1 = ds.take(i - start + 1);
                    assert(p1.drop_last() =~= p);
                    assert(p1.last() == b@[i as int]);
                    assert(digits_value(p1) == digits_value(p) * 10 + (b@[i as int] - 48));
                    lemma_digits_value_grows(ds, i - start + 1);
                    lemma_digits_value_nonneg(p);
                }
                return None;
            },
        }
        i = i + 1;
    }
    assert(ds.take(ds.len() as int) =~= ds);
    Some(acc)
}

/// `str::parse::<u64>`.
pub fn parse_u64_str(s: &str) -> (r: Option<u64>)
    ensures
        r == spec_parse_u64(s.spec_bytes()),
{
    let b = s.as_bytes();
    let ghost bs = b@;
    if b.len() == 0 || ((b[0] == 43u8 || b[0] == 45u8) && b.len() == 1) {
        return None;
    }
    let start: usize = if b[0] == 43u8 {
        1
    } else {
        0
    };
    let ghost ds = split_sign(bs, false).1;
    assert(ds =~= bs.skip(start as int));
    if !digits_only(b, start) {
        return None;
    }
    let mut acc: u64 = 0;
    let mut i = start;
    while i < b.len()
        invariant
            bs == b@,
            bs == s.spec_bytes(),
            start <= i <= b.len(),
            ds == bs.skip(start as int),
            all_digits(ds),
            bs.len() > 0,
            !((bs[0] == 43 || bs[0] == 45) && bs.len() == 1),
            ds == split_sign(bs, false).1,
            acc == digits_value(ds.take(i - start)),
        decreases b.len() - i,
    {
        assert(ds.take(i - start + 1).drop_last() =~= ds.take(i - start));
        assert(ds[i - start] == b@[i as int]);
        let d = (b[i] - 48u8) as u64;
        let next = match acc.checked_mul(10) {
            Some(m) => m.checked_add(d),
            None => None,
        };
        match next {
            Some(v) => {
                acc = v;
            },
            None => {
                proof {
                    let p = ds.take(i - start);
                    let p1 = ds.take(i - start + 1);
                    assert(p1.drop_last() =~= p);
                    assert(p1.last() == b@[i as int]);
                    assert(digits_value(p1) == digits_value(p) * 10 + (b@[i as int] - 48));
                    lemma_digits_value_grows(ds, i - start + 1);
                }
                return None;
            },
        }
        i = i + 1;
    }
    assert(ds.take(ds.len() as int) =~= ds);
    Some(acc)
}

/// `"key":`, the text that introduces a field.
pub open spec fn field_pattern(key: Seq<char>) -> Seq<char> {
    seq!['"'] + key + seq!['"', ':']
}

/// Where the value of `key` lies in `json`: after the first `"key":` and any
/// whitespace, either a quoted string (up to the next quote, no escapes) or a bare
/// value up to the next `,` or `}`, trailing whitespace cut off.
pub open spec fn spec_field_range(json: Seq<char>, key: Seq<char>) -> Option<(int, int)> {
    let pat = field_pattern(key);
    match find_from(json, pat, 0) {
        None => None,
        Some(i) => {
            let a = skip_ws_from(json, i + pat.len());
            if a < json.len() && json[a] == '"' {
                match first_char_from(json, a + 1, '"') {
                    None => None,
                    Some(e) => Some((a + 1, e)),
                }
            } else {
                let e = first_of_two_from(json, a, ',', '}');
                Some((a, trim_back(json, a, e)))
            }
        },
    }
}

/// The text of the value of `key` in `json`.
pub open spec fn spec_field(json: Seq<char>, key: Seq<char>) -> Option<Seq<char>> {
    match spec_field_range(json, key) {
        None => None,
        Some((a, b)) => Some(json.subrange(a, b)),
    }
}

/// Minimal JSON field extractor: finds `"key":` then reads a string or bare value.
fn field<'a>(json: &'a str, key: &str) -> (r: Option<&'a str>)
    ensures
        match r {
            Some(v) => spec_field(json@, key@) == Some(v@),
            None => spec_field(json@, key@) is None,
        },
{
    let h = str_chars(json);
    let k = str_chars(key);
    let mut pat: Vec<char> = Vec::new();
    pat.push('"');
    let mut j: usize = 0;
    while j < k.len()
        invariant
            j <= k.len(),
            pat@ == seq!['"'] + k@.take(j as int),
        decreases k.len() - j,
    {
        pat.push(k[j]);
        j = j + 1;
        assert(pat@ =~= seq!['"'] + k@.take(j as int));
    }
    pat.push('"');
    pat.push(':');
    assert(k@.take(k.len() as int) =~= k@);
    assert(pat@ =~= field_pattern(key@));
    let i = match find_pattern(&h, &pat, 0) {
        Some(i) => i,
        None => {
            return None;
        },
    };
    proof {
        lemma_find_from_match(h@, pat@, 0);
    }
    let a = skip_whitespace(&h, i + pat.len());
    if a < h.len() && h[a] == '"' {
        match find_char(&h, a + 1, '"') {
            Some(e) => Some(json.substring_char(a + 1, e)),
            None => None,
        }
    } else {
        let e = find_either(&h, a, ',', '}');
        let b = trim_end_index(&h, a, e);
        Some(json.substring_char(a, b))
    }
}

/// The scaled decimal in field `key`, if present and well formed.
pub open spec fn spec_field_decimal(json: Seq<char>, key: Seq<char>, scale: i64) -> Option<i64> {
    match spec_field(json, key) {
        None => None,
        Some(v) => spec_parse_decimal_scaled(encode_utf8(v), scale),
    }
}

/// Field `key` holds a decimal whose negation the scaling arithmetic cannot take.
pub open spec fn field_decimal_overflows(json: Seq<char>, key: Seq<char>, scale: i64) -> bool {
    match spec_field(json, key) {
        None => false,
        Some(v) => decimal_negation_overflows(encode_utf8(v), scale),
    }
}

/// The event time `T` in milliseconds, or -1 when missing or not an `i64`.
pub open spec fn spec_payload_ts_ms(json: Seq<char>) -> i64 {
    match spec_field(json, seq!['T']) {
        None => -1i64,
        Some(v) => match spec_parse_i64(encode_utf8(v)) {
            Some(t) => t,
            None => -1i64,
        },
    }
}

/// The trade id `t`, or 0 when missing or not a `u64`.
pub open spec fn spec_payload_trade_id(json: Seq<char>) -> u64 {
    match spec_field(json, seq!['t']) {
        None => 0,
        Some(v) => match spec_parse_u64(encode_utf8(v)) {
            Some(t) => t,
            None => 0,
        },
    }
}

/// `m` is exactly `true`.
pub open spec fn spec_payload_buyer_maker(json: Seq<char>) -> bool {
    match spec_field(json, seq!['m']) {
        None => false,
        Some(v) => v == seq!['t', 'r', 'u', 'e'],
    }
}

/// The symbol field is present and passes `symbol_key_valid`.
pub open spec fn spec_payload_symbol_ok(json: Seq<char>) -> bool {
    match spec_field(json, seq!['s']) {
        None => false,
        Some(v) => spec_symbol_key_valid(encode_utf8(v)),
    }
}

/// Validation in the order symbol -> price -> qty -> timestamp; the first failure
/// names the drop reason, otherwise the normalized trade (dense id left unstamped).
pub open spec fn spec_classify_payload(json: Seq<char>, scale: i64) -> Result<Trade, DropReason> {
    if !spec_payload_symbol_ok(json) {
        Err(DropReason::BadSymbol)
    } else {
        match spec_field_decimal(json, seq!['p'], scale) {
            None => Err(DropReason::BadPrice),
            Some(p) => match spec_field_decimal(json, seq!['q'], scale) {
                None => Err(DropReason::BadQty),
                Some(q) => {
                    let t = spec_payload_ts_ms(json);
                    if t <= 0 {
                        Err(DropReason::BadTs)
                    } else {
                        Ok(
                            Trade {
                                symbol_hash: spec_hash_symbol(
                                    encode_utf8(spec_field(json, seq!['s'])->0),
                                ),
                                dense_id: u32::MAX,
                                price: p,
                                qty: q,
                                ts_ns: (t * 1_000_000) as i64,
                                trade_id: spec_payload_trade_id(json),
                                is_buyer_maker: spec_payload_buyer_maker(json),
                                valid: true,
                            },
                        )
                    }
                },
            },
        }
    }
}

/// The inputs on which the payload arithmetic overflows: a price or quantity whose
/// negation leaves `i64`, or an event time whose nanosecond value leaves `i64`.
pub open spec fn spec_payload_overflows(json: Seq<char>, scale: i64) -> bool {
    &&& spec_payload_symbol_ok(json)
    &&& {
        ||| field_decimal_overflows(json, seq!['p'], scale)
        ||| {
            &&& spec_field_decimal(json, seq!['p'], scale) is Some
            &&& {
                ||| field_decimal_overflows(json, seq!['q'], scale)
                ||| {
                    &&& spec_field_decimal(json, seq!['q'], scale) is Some
                    &&& spec_payload_ts_ms(json) > 0
                    &&& spec_payload_ts_ms(json) * 1_000_000 > i64::MAX
                }
            }
        }
    }
}

/// The trade a payload yields: the normalized trade, or the empty trade when dropped.
pub open spec fn spec_parse_trade_payload(json: Seq<char>, scale: i64) -> Trade {
    match spec_classify_payload(json, scale) {
        Ok(t) => t,
        Err(_) => spec_empty_trade(),
    }
}

/// The counters after one payload: the drop reason's counter is bumped.
pub open spec fn counters_after(c: InvalidCounters, outcome: Result<Trade, DropReason>) -> InvalidCounters {
    match outcome {
        Ok(_) => c,
        Err(DropReason::BadSymbol) => InvalidCounters { bad_symbol: (c.bad_symbol + 1) as u64, ..c },
        Err(DropReason::BadPrice) => InvalidCounters { bad_price: (c.bad_price + 1) as u64, ..c },
        Err(DropReason::BadQty) => InvalidCounters { bad_qty: (c.bad_qty + 1) as u64, ..c },
        Err(DropReason::BadTs) => InvalidCounters { bad_ts: (c.bad_ts + 1) as u64, ..c },
    }
}

/// The counter that `outcome` bumps is below `u64::MAX`.
pub open spec fn counter_has_room(c: InvalidCounters, outcome: Result<Trade, DropReason>) -> bool {
    match outcome {
        Ok(_) => true,
        Err(DropReason::BadSymbol) => c.bad_symbol < u64::MAX,
        Err(DropReason::BadPrice) => c.bad_price < u64::MAX,
        Err(DropReason::BadQty) => c.bad_qty < u64::MAX,
        Err(DropReason::BadTs) => c.bad_ts < u64::MAX,
    }
}

/// The decimal in `v`, once it is known not to overflow on negation.
fn field_decimal(v: Option<&str>, scale: i64) -> (r: Option<i64>)
    requires
        v matches Some(s) ==> !decimal_negation_overflows(s.spec_bytes(), scale),
    ensures
        r == (match v {
            Some(s) => spec_parse_decimal_scaled(s.spec_bytes(), scale),
            None => None,
        }),
{
    match v {
        Some(s) => parse_decimal_scaled(s, scale),
        None => None,
    }
}

/// Validate one payload: symbol -> price -> qty -> timestamp.
fn classify_payload(json: &str, scale: i64) -> (r: Result<Trade, DropReason>)
    requires
        !spec_payload_overflows(json@, scale),
    ensures
        r == spec_classify_payload(json@, scale),
{
    proof {
        reveal_strlit("s");
        assert("s"@ =~= seq!['s']);
        reveal_strlit("p");
        assert("p"@ =~= seq!['p']);
        reveal_strlit("q");
        assert("q"@ =~= seq!['q']);
        reveal_strlit("T");
        assert("T"@ =~= seq!['T']);
        reveal_strlit("m");
        assert("m"@ =~= seq!['m']);
        reveal_strlit("t");
        assert("t"@ =~= seq!['t']);
    }
    let sym = match field(json, "s") {
        Some(v) => {
            if symbol_key_valid(v.as_bytes()) {
                v
            } else {
                return Err(DropReason::BadSymbol);
            }
        },
        None => {
            return Err(DropReason::BadSymbol);
        },
    };
    let pf = field(json, "p");
    let p = match field_decimal(pf, scale) {
        Some(v) => v,
        None => {
            return Err(DropReason::BadPrice);
        },
    };
    let qf = field(json, "q");
    let q = match field_decimal(qf, scale) {
        Some(v) => v,
        None => {
            return Err(DropReason::BadQty);
        },
    };
    let t_ms: i64 = match field(json, "T") {
        Some(v) => match parse_i64_str(v) {
            Some(t) => t,
            None => -1,
        },
        None => -1,
    };
    if t_ms <= 0 {
        return Err(DropReason::BadTs);
    }
    let m = match field(json, "m") {
        Some(v) => {
            let c = str_chars(v);
            c.len() == 4 && c[0] == 't' && c[1] == 'r' && c[2] == 'u' && c[3] == 'e'
        },
        None => false,
    };
    proof {
        if let Some(v) = spec_field(json@, seq!['m']) {
            if v.len() == 4 && v[0] == 't' && v[1] == 'r' && v[2] == 'u' && v[3] == 'e' {
                assert(v =~= seq!['t', 'r', 'u', 'e']);
            }
        }
    }
    let tid: u64 = match field(json, "t") {
        Some(v) => match parse_u64_str(v) {
            Some(t) => t,
            None => 0,
        },
        None => 0,
    };
    Ok(
        Trade {
            symbol_hash: hash_symbol(sym.as_bytes()),
            dense_id: u32::MAX,
            price: p,
            qty: q,
            ts_ns: t_ms * 1_000_000,
            trade_id: tid,
            is_buyer_maker: m,
            valid: true,
        },
    )
}

/// Whether `parse_trade_payload` would meet arithmetic it cannot take on this payload
/// (see `spec_payload_overflows`); callers outside the verified code test this first.
pub fn payload_overflows(json: &str, scale: i64) -> (r: bool)
    ensures
        r == spec_payload_overflows(json@, scale),
{
    proof {
        reveal_strlit("s");
        assert("s"@ =~= seq!['s']);
        reveal_strlit("p");
        assert("p"@ =~= seq!['p']);
        reveal_strlit("q");
        assert("q"@ =~= seq!['q']);
        reveal_strlit("T");
        assert("T"@ =~= seq!['T']);
    }
    let sym_ok = match field(json, "s") {
        Some(v) => symbol_key_valid(v.as_bytes()),
        None => false,
    };
    if !sym_ok {
        return false;
    }
    let pf = field(json, "p");
    let p_over = match pf {
        Some(v) => decimal_negation_overflows_of(v, scale),
        None => false,
    };
    if p_over {
        return true;
    }
    if field_decimal(pf, scale).is_none() {
        return false;
    }
    let qf = field(json, "q");
    let q_over = match qf {
        Some(v) => decimal_negation_overflows_of(v, scale),
        None => false,
    };
    if q_over {
        return true;
    }
    if field_decimal(qf, scale).is_none() {
        return false;
    }
    let t_ms: i64 = match field(json, "T") {
        Some(v) => match parse_i64_str(v) {
            Some(t) => t,
            None => -1,
        },
        None => -1,
    };
    t_ms > 0 && t_ms > i64::MAX / 1_000_000
}

/// Parse one raw Binance trade JSON message; `scale` converts price/qty strings.
pub fn parse_trade_payload(json: &str, scale: i64) -> (t: Trade)
    requires
        !spec_payload_overflows(json@, scale),
    ensures
        t == spec_parse_trade_payload(json@, scale),
        t.valid ==> t.price > 0 && t.qty > 0 && t.ts_ns > 0 && t.dense_id == u32::MAX,
{
    parse_trade_payload_counted(json, scale, None)
}

/// Same as `parse_trade_payload`, and bumps the counter of the drop reason.
pub fn parse_trade_payload_counted(
    json: &str,
    scale: i64,
    ctr: Option<&mut InvalidCounters>,
) -> (t: Trade)
    requires
        !spec_payload_overflows(json@, scale),
        ctr matches Some(c) ==> counter_has_room(*c, spec_classify_payload(json@, scale)),
    ensures
        t == spec_parse_trade_payload(json@, scale),
        t.valid ==> t.price > 0 && t.qty > 0 && t.ts_ns > 0 && t.dense_id == u32::MAX,
        ctr matches Some(c) ==> *final(c) == counters_after(*c, spec_classify_payload(json@, scale)),
{
    match classify_payload(json, scale) {
        Ok(t) => t,
        Err(reason) => {
            match ctr {
                Some(c) => match reason {
                    DropReason::BadSymbol => {
                        c.bad_symbol = c.bad_symbol + 1;
                    },
                    DropReason::BadPrice => {
                        c.bad_price = c.bad_price + 1;
                    },
                    DropReason::BadQty => {
                        c.bad_qty = c.bad_qty + 1;
                    },
                    DropReason::BadTs => {
                        c.bad_ts = c.bad_ts + 1;
                    },
                },
                None => {},
            }
            empty_trade()
        },
    }
}

} // verus!
