//! Bar policies: when does the open bar close, per kind.

use vstd::prelude::*;

verus! {

#[derive(Clone, Copy, PartialEq, Eq)]
pub enum BarKind {
    Time,
    Range,
    Volume,
    Delta,
}

#[derive(Default, Clone, Copy)]
pub struct PolicyState {
    pub open_price: i64,
    pub open_ts: i64,
    pub close_ts: i64,
    pub open_vol: i64,
    pub open_delta: i64,
    pub acc_vol: i64,
    pub acc_delta: i64,
    pub hi: i64,
    pub lo: i64,
    pub has_bar: bool,
}

pub open spec fn imax(a: int, b: int) -> int {
    if a >= b {
        a
    } else {
        b
    }
}

pub open spec fn imin(a: int, b: int) -> int {
    if a <= b {
        a
    } else {
        b
    }
}

pub open spec fn iabs(a: int) -> int {
    if a < 0 {
        -a
    } else {
        a
    }
}

/// The clamped delta the Delta kind tests: `min(max(acc_delta + qty, hi), lo)`.
pub open spec fn delta_probe(s: PolicyState, qty: i64) -> int {
    imin(imax(s.acc_delta + qty, s.hi as int), s.lo as int)
}

/// Close rule per kind: Time when `ts - open_ts >= threshold`; Range when the
/// range including `price` reaches `threshold * tick`; Volume when accumulated volume
/// plus `qty` reaches `threshold`; Delta when `|delta_probe| >= threshold`.
pub open spec fn spec_should_close(
    kind: BarKind,
    threshold: i32,
    tick: i64,
    s: PolicyState,
    ts: i64,
    price: i64,
    qty: i64,
) -> bool {
    match kind {
        BarKind::Time => ts - s.open_ts >= threshold as int,
        BarKind::Range => imax(s.hi as int, price as int) - imin(s.lo as int, price as int)
            >= threshold as int * tick,
        BarKind::Volume => s.acc_vol + qty >= threshold as int,
        BarKind::Delta => iabs(delta_probe(s, qty)) >= threshold as int,
    }
}

/// The arithmetic of the kind's test stays in `i64`.
pub open spec fn should_close_in_range(
    kind: BarKind,
    threshold: i32,
    tick: i64,
    s: PolicyState,
    ts: i64,
    price: i64,
    qty: i64,
) -> bool {
    match kind {
        BarKind::Time => i64::MIN <= ts - s.open_ts <= i64::MAX,
        BarKind::Range => {
            &&& i64::MIN <= imax(s.hi as int, price as int) - imin(s.lo as int, price as int)
                <= i64::MAX
            &&& i64::MIN <= threshold as int * tick <= i64::MAX
        },
        BarKind::Volume => i64::MIN <= s.acc_vol + qty <= i64::MAX,
        BarKind::Delta => {
            &&& i64::MIN <= s.acc_delta + qty <= i64::MAX
            &&& delta_probe(s, qty) != i64::MIN
        },
    }
}

pub fn should_close(
    kind: BarKind,
    threshold: i32,
    tick: i64,
    s: &PolicyState,
    ts: i64,
    price: i64,
    qty: i64,
) -> (r: bool)
    requires
        should_close_in_range(kind, threshold, tick, *s, ts, price, qty),
    ensures
        r == spec_should_close(kind, threshold, tick, *s, ts, price, qty),
{
    match kind {
        BarKind::Time => ts - s.open_ts >= threshold as i64,
        BarKind::Range => {
            let hi = if s.hi >= price {
                s.hi
            } else {
                price
            };
            let lo = if s.lo <= price {
                s.lo
            } else {
                price
            };
            hi - lo >= threshold as i64 * tick
        },
        BarKind::Volume => s.acc_vol + qty >= threshold as i64,
        BarKind::Delta => {
            let d = s.acc_delta + qty;
            let up = if d >= s.hi {
                d
            } else {
                s.hi
            };
            let c = if up <= s.lo {
                up
            } else {
                s.lo
            };
            let a = if c < 0 {
                -c
            } else {
                c
            };
            a >= threshold as i64
        },
    }
}

/// What each kind closes on, in terms of the bar's state and the trade:
/// - Time closes once `ts` is at least `threshold` past the bar's open time;
/// - Range closes once the bar's price range, widened to take in `price` on either
///   side, reaches `threshold * tick`: a price inside `[lo, hi]` closes on `hi - lo`,
///   one below `lo` on `hi - price`, one above `hi` on `price - lo`;
/// - Volume closes once the accumulated volume plus `qty` reaches `threshold`;
/// - Delta, with `lo <= hi` (the clamp pins the probe to `lo`), closes once `|lo|`
///   reaches `threshold`.
pub proof fn lemma_close_rules(
    kind: BarKind,
    threshold: i32,
    tick: i64,
    s: PolicyState,
    ts: i64,
    price: i64,
    qty: i64,
)
    ensures
        kind == BarKind::Time ==> (spec_should_close(kind, threshold, tick, s, ts, price, qty) <==> ts
            >= s.open_ts + threshold),
        kind == BarKind::Range && s.lo <= price <= s.hi ==> (spec_should_close(
            kind,
            threshold,
            tick,
            s,
            ts,
            price,
            qty,
        ) <==> s.hi - s.lo >= threshold * tick),
        kind == BarKind::Range && price < s.lo && s.lo <= s.hi ==> (spec_should_close(
            kind,
            threshold,
            tick,
            s,
            ts,
            price,
            qty,
        ) <==> s.hi - price >= threshold * tick),
        kind == BarKind::Range && price > s.hi && s.lo <= s.hi ==> (spec_should_close(
            kind,
            threshold,
            tick,
            s,
            ts,
            price,
            qty,
        ) <==> price - s.lo >= threshold * tick),
        kind == BarKind::Volume ==> (spec_should_close(kind, threshold, tick, s, ts, price, qty)
            <==> s.acc_vol + qty >= threshold),
        kind == BarKind::Delta && s.lo <= s.hi ==> (spec_should_close(
            kind,
            threshold,
            tick,
            s,
            ts,
            price,
            qty,
        ) <==> (s.lo >= threshold || -s.lo >= threshold)),
{
}

/// A Range bar closes the same whether the price leaves its range by `d` above the
/// high or by `d` below the low.
pub proof fn lemma_range_is_symmetric(threshold: i32, tick: i64, s: PolicyState, ts: i64, qty: i64, d: i64)
    requires
        s.lo <= s.hi,
        d >= 0,
        s.hi + d <= i64::MAX,
        s.lo - d >= i64::MIN,
    ensures
        spec_should_close(BarKind::Range, threshold, tick, s, ts, (s.hi + d) as i64, qty)
            == spec_should_close(BarKind::Range, threshold, tick, s, ts, (s.lo - d) as i64, qty),
{
}

} // verus!
