//! Closer: bounded per-series history of closed bars.
//!
//! The worker hands a finished slot snapshot over; the closer keeps the newest
//! `MAX_CLOSED` bars of each series, evicting the oldest.

use vstd::prelude::*;
use std::collections::VecDeque;
use crate::bar_core::HotSlot;

verus! {

pub const MAX_CLOSED: usize = 200;

#[derive(Clone)]
pub struct ClosedBar {
    pub series_idx: usize,
    pub open: i64,
    pub high: i64,
    pub low: i64,
    pub close: i64,
    pub d_open: i64,
    pub d_high: i64,
    pub d_low: i64,
    pub d_close: i64,
    pub count: u64,
    pub vol: i64,
    pub open_ts: i64,
    pub close_ts: i64,
    pub poc_level: i64,
}

/// The closed bar a slot snapshot turns into.
pub open spec fn spec_from_slot(series_idx: usize, s: HotSlot, poc_level: i64) -> ClosedBar {
    ClosedBar {
        series_idx,
        open: s.open,
        high: s.high,
        low: s.low,
        close: s.close,
        d_open: s.d_open,
        d_high: s.d_high,
        d_low: s.d_low,
        d_close: s.d_close,
        count: s.count,
        vol: s.vol,
        open_ts: s.open_ts,
        close_ts: s.close_ts,
        poc_level,
    }
}

impl ClosedBar {
    pub fn from_slot(series_idx: usize, s: &HotSlot, poc_level: i64) -> (b: Self)
        ensures
            b == spec_from_slot(series_idx, *s, poc_level),
    {
        Self {
            series_idx,
            open: s.open,
            high: s.high,
            low: s.low,
            close: s.close,
            d_open: s.d_open,
            d_high: s.d_high,
            d_low: s.d_low,
            d_close: s.d_close,
            count: s.count,
            vol: s.vol,
            open_ts: s.open_ts,
            close_ts: s.close_ts,
            poc_level,
        }
    }
}

/// One series' history after accepting `bar`: evict the oldest when full, append.
pub open spec fn history_after(q: Seq<ClosedBar>, bar: ClosedBar) -> Seq<ClosedBar> {
    if q.len() >= MAX_CLOSED {
        q.drop_first().push(bar)
    } else {
        q.push(bar)
    }
}

/// A series' history after accepting `bars` in order.
pub open spec fn history_after_all(q: Seq<ClosedBar>, bars: Seq<ClosedBar>) -> Seq<ClosedBar>
    decreases bars.len(),
{
    if bars.len() == 0 {
        q
    } else {
        history_after(history_after_all(q, bars.drop_last()), bars.last())
    }
}

pub struct Closer {
    pub history: Vec<VecDeque<ClosedBar>>,
    pub handoff_count: u64,
    pub drop_count: u64,
}

impl Closer {
    /// Every series holds at most `MAX_CLOSED` bars.
    pub open spec fn wf(&self) -> bool {
        forall|i: int| 0 <= i < self.history@.len() ==> (#[trigger] self.history@[i])@.len() <= MAX_CLOSED
    }

    pub fn new(num_series: usize) -> (c: Self)
        ensures
            c.wf(),
            c.history@.len() == num_series,
            forall|i: int| 0 <= i < num_series ==> (#[trigger] c.history@[i])@.len() == 0,
            c.handoff_count == 0,
            c.drop_count == 0,
    {
        let mut history: Vec<VecDeque<ClosedBar>> = Vec::new();
        let mut k: usize = 0;
        while k < num_series
            invariant
                k <= num_series,
                history@.len() == k,
                forall|i: int| 0 <= i < k ==> (#[trigger] history@[i])@.len() == 0,
            decreases num_series - k,
        {
            history.push(VecDeque::with_capacity(MAX_CLOSED));
            k = k + 1;
        }
        Self { history, handoff_count: 0, drop_count: 0 }
    }

    /// The counters can record this bar.
    pub open spec fn can_accept(&self, bar: ClosedBar) -> bool {
        &&& bar.series_idx < self.history@.len()
        &&& self.handoff_count < u64::MAX
        &&& self.history@[bar.series_idx as int]@.len() >= MAX_CLOSED ==> self.drop_count
            < u64::MAX
    }

    /// Accept one closed bar; when the series is full, evict its oldest bar first.
    pub fn accept(&mut self, bar: ClosedBar)
        requires
            old(self).can_accept(bar),
        ensures
            final(self).history@.len() == old(self).history@.len(),
            final(self).history@[bar.series_idx as int]@ == history_after(
                old(self).history@[bar.series_idx as int]@,
                bar,
            ),
            forall|i: int|
                0 <= i < old(self).history@.len() && i != bar.series_idx ==> #[trigger] final(self).history@[i] == old(self).history@[i],
            final(self).handoff_count == old(self).handoff_count + 1,
            final(self).drop_count == old(self).drop_count + (if old(self).history@[bar.series_idx as int]@.len() >= MAX_CLOSED {
                1int
            } else {
                0int
            }),
            old(self).wf() ==> final(self).wf(),
    {
        let idx = bar.series_idx;
        let ghost before = self.history@[idx as int]@;
        let mut q = VecDeque::new();
        std::mem::swap(&mut q, &mut self.history[idx]);
        if q.len() >= MAX_CLOSED {
            q.pop_front();
            self.drop_count = self.drop_count + 1;
        }
        q.push_back(bar);
        std::mem::swap(&mut q, &mut self.history[idx]);
        self.handoff_count = self.handoff_count + 1;
        assert(self.history@[idx as int]@ =~= history_after(before, bar));
    }

    /// The most recently accepted bar of a series.
    pub fn last(&self, series_idx: usize) -> (r: Option<&ClosedBar>)
        requires
            series_idx < self.history@.len(),
        ensures
            self.history@[series_idx as int]@.len() == 0 ==> r is None,
            self.history@[series_idx as int]@.len() > 0 ==> r == Some(
                &self.history@[series_idx as int]@.last(),
            ),
    {
        let q = &self.history[series_idx];
        let n = q.len();
        if n == 0 {
            None
        } else {
            Some(&q[n - 1])
        }
    }
}

/// The history keeps exactly the newest `MAX_CLOSED` bars, in arrival order: from an
/// empty series, after accepting `bars` it is the last `min(len, MAX_CLOSED)` of them.
pub proof fn lemma_history_keeps_newest(bars: Seq<ClosedBar>)
    ensures
        history_after_all(Seq::empty(), bars) == bars.skip(
            if bars.len() > MAX_CLOSED {
                bars.len() - MAX_CLOSED
            } else {
                0
            },
        ),
    decreases bars.len(),
{
    if bars.len() > 0 {
        let prev = bars.drop_last();
        lemma_history_keeps_newest(prev);
        let k = if prev.len() > MAX_CLOSED {
            prev.len() - MAX_CLOSED
        } else {
            0
        };
        let k2 = if bars.len() > MAX_CLOSED {
            bars.len() - MAX_CLOSED
        } else {
            0
        };
        if prev.skip(k).len() >= MAX_CLOSED {
            assert(prev.skip(k).drop_first().push(bars.last()) =~= bars.skip(k2));
        } else {
            assert(prev.skip(k).push(bars.last()) =~= bars.skip(k2));
        }
    } else {
        assert(bars.skip(0) =~= bars);
    }
}

/// A closed bar is read back: after accepting `bar`, the series' newest bar is `bar`,
/// and the history never holds more than `MAX_CLOSED` bars.
pub proof fn lemma_accept_then_last(q: Seq<ClosedBar>, bar: ClosedBar)
    requires
        q.len() <= MAX_CLOSED,
    ensures
        history_after(q, bar).len() > 0,
        history_after(q, bar).last() == bar,
        history_after(q, bar).len() <= MAX_CLOSED,
{
}

/// Over any run of accepted bars of one series, `last` gives the most recently accepted
/// one.
pub proof fn lemma_last_is_most_recent(bars: Seq<ClosedBar>)
    requires
        bars.len() > 0,
    ensures
        history_after_all(Seq::empty(), bars).len() > 0,
        history_after_all(Seq::empty(), bars).last() == bars.last(),
{
    lemma_history_keeps_newest(bars);
}

} // verus!
