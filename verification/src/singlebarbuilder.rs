//! The builder of the bars of one bar size of one instrument.
use vstd::prelude::*;
use crate::bartime::{BarTime, bar_bounds, bar_times_ok};
use crate::clock::{
    valid_day, MS_PER_DAY, SECS_PER_DAY, day_of, ms_of_day, shifted_of, spec_day_of,
    spec_ms_of_day, spec_shifted_of, valid_datetime,
};
use crate::data_impl::{BarData, TickData};
use crate::util::bisect::{rank, simple_bisect};
use core::cmp::Ordering;

verus! {

/// What the builder keeps of the latest bar, also once that bar is handed out.
#[derive(Clone, Copy, Debug, PartialEq, Eq)]
pub struct LastBarCache {
    /// End of the latest bar (its `internal_end`); where breaks cut a bar
    /// short, the real end.  Set when a bar is created.
    pub last_bar_end: i64,
    /// Index of the latest bar in the bar times, -1 before the first.
    pub last_bar_index: i32,
    /// Close of the latest bar, the price of any zero-volume bar after it.
    pub last_bar_close: i64,
    /// Trading day of the latest bar.
    pub last_tradeday: i32,
}

/// The state of a single-size builder, as contracts speak of it.
pub struct SingleState {
    pub inst: Seq<char>,
    pub barsz_sec: u32,
    pub bar_times: Seq<BarTime>,
    /// Index of the bar the latest tick falls in, -1 outside all bars.
    pub tick_idx: i32,
    /// The bar being built, until it is closed.
    pub last_bar: Option<BarData>,
    /// The bar closed by the latest event, until it is taken.
    pub closed_this_tick: Option<BarData>,
    /// Zero-volume bars made by the latest event, until they are taken.
    pub zerovol_bars: Seq<BarData>,
    pub zero_vol_bar: bool,
    pub cache: LastBarCache,
    /// A tick was given, in a session or not.
    pub ticked: bool,
}

/// A tick the builder can take: its time, and the millisecond before it,
/// are datetimes this library carries.
pub open spec fn valid_tick(tick: TickData) -> bool {
    valid_datetime(tick.datetime - 1) && valid_datetime(tick.datetime as int)
}

/// Position of the first bar that does not end before `t`.
pub open spec fn end_lower_bound(v: Seq<BarTime>, t: int) -> int
    decreases v.len(),
{
    if v.len() == 0 {
        0
    } else if v[0].virtual_end < t {
        1 + end_lower_bound(v.drop_first(), t)
    } else {
        0
    }
}

/// Position of the first bar that does not begin before `t`.
pub open spec fn begin_lower_bound(v: Seq<BarTime>, t: int) -> int
    decreases v.len(),
{
    if v.len() == 0 {
        0
    } else if v[0].virtual_begin < t {
        1 + begin_lower_bound(v.drop_first(), t)
    } else {
        0
    }
}

/// The bar that a shifted time `t` falls in: the first bar not ending
/// before `t`, where `t` is its end or comes after its begin; -1 where there
/// is none (a break between sessions, or outside the trading day).
pub open spec fn spec_search_end(v: Seq<BarTime>, t: int) -> int {
    let p = end_lower_bound(v, t);
    if p < v.len() && (v[p].virtual_end == t || t > v[p].virtual_begin) {
        p
    } else {
        -1
    }
}

/// The bar that begins exactly at shifted time `t` (the first of them), -1
/// where there is none.
pub open spec fn spec_search_begin(v: Seq<BarTime>, t: int) -> int {
    let p = begin_lower_bound(v, t);
    if p < v.len() && v[p].virtual_begin == t {
        p
    } else {
        -1
    }
}

/// The shifted time of a tick.
pub open spec fn tick_shifted(tick: TickData) -> int {
    spec_shifted_of(spec_ms_of_day(tick.datetime as int))
}

/// The day a bar of a tick is dated to: that of the millisecond before the
/// tick, so that a tick at midnight closing the bar before it stays on the
/// day before.
pub open spec fn bar_day(ms: int) -> int {
    spec_day_of(ms - 1)
}

/// The end, as the builder keeps it, of the bar with times `bt` starting at
/// `begin`: one second later where the bar ends a slice.
pub open spec fn bar_internal_end(begin: int, bt: BarTime) -> int {
    begin + bt.duration * 1000 + (if bt.with_slice_end { 1000int } else { 0 })
}

/// A bar handed out as closed.
pub open spec fn finish(b: BarData) -> BarData {
    BarData { finished: true, ..b }
}

/// The bar made for the first tick `tick` in bar `idx`.
pub open spec fn new_bar(s: SingleState, tick: TickData, idx: int) -> BarData {
    let bt = s.bar_times[idx];
    let begin = bar_day(tick.datetime as int) * MS_PER_DAY + bt.nominal_begin * 1000;
    BarData {
        tradeday: tick.tradeday,
        begin: begin as i64,
        internal_end: bar_internal_end(begin, bt) as i64,
        open: tick.last,
        high: tick.last,
        low: tick.last,
        close: tick.last,
        volume: tick.vol_delta,
        turnover: tick.tnov_delta,
        openint: tick.openint,
        finished: false,
        barsz_sec: s.barsz_sec,
        created_this_tick: true,
    }
}

/// A bar with no trade, in bar `idx` on day `realday`, at the close of the
/// latest bar.
pub open spec fn zero_bar(s: SingleState, idx: int, realday: int, tradeday: i32) -> BarData {
    let bt = s.bar_times[idx];
    let begin = realday * MS_PER_DAY + bt.nominal_begin * 1000;
    BarData {
        tradeday,
        begin: begin as i64,
        internal_end: bar_internal_end(begin, bt) as i64,
        open: s.cache.last_bar_close,
        high: s.cache.last_bar_close,
        low: s.cache.last_bar_close,
        close: s.cache.last_bar_close,
        volume: 0,
        turnover: 0,
        openint: 0,
        finished: true,
        barsz_sec: s.barsz_sec,
        created_this_tick: true,
    }
}

/// The bar being built after `tick`, which falls in it.
pub open spec fn updated_bar(b: BarData, tick: TickData) -> BarData {
    BarData {
        high: if b.high < tick.last { tick.last } else { b.high },
        low: if tick.last < b.low { tick.last } else { b.low },
        close: tick.last,
        volume: b.volume.wrapping_add(tick.vol_delta),
        turnover: b.turnover.wrapping_add(tick.tnov_delta),
        openint: tick.openint,
        finished: tick.datetime >= b.internal_end,
        ..b
    }
}

impl SingleState {
    pub open spec fn wf(self) -> bool {
        &&& 0 < self.barsz_sec < SECS_PER_DAY
        &&& bar_times_ok(self.bar_times)
        &&& -1 <= self.tick_idx < self.bar_times.len()
        &&& -1 <= self.cache.last_bar_index < self.bar_times.len()
    }

    /// The bar being built is closed: handed out as the closed bar, its
    /// close kept for zero-volume bars.
    pub open spec fn close_last(self) -> SingleState {
        let b = self.last_bar.unwrap();
        SingleState {
            last_bar: None,
            closed_this_tick: Some(finish(b)),
            cache: LastBarCache { last_bar_close: b.close, ..self.cache },
            ..self
        }
    }

    /// The bar being built, if any, is closed.
    pub open spec fn close_any(self) -> SingleState {
        if self.last_bar is Some {
            self.close_last()
        } else {
            self
        }
    }

    /// Zero-volume bars for the bars `start..end` (those that exist), dated
    /// to `realday` and `tradeday`; the latest of them becomes the latest bar.
    pub open spec fn add_zero_bars(self, start: int, end: int, realday: int, tradeday: i32) -> SingleState {
        let hi = if end < self.bar_times.len() { end } else { self.bar_times.len() as int };
        if hi <= start {
            self
        } else {
            SingleState {
                zerovol_bars: self.zerovol_bars + Seq::new(
                    (hi - start) as nat,
                    |k: int| zero_bar(self, start + k, realday, tradeday),
                ),
                cache: LastBarCache {
                    last_bar_end: zero_bar(self, hi - 1, realday, tradeday).internal_end,
                    last_bar_index: (hi - 1) as i32,
                    last_tradeday: tradeday,
                    ..self.cache
                },
                ..self
            }
        }
    }

    /// The tick is past the bar of the latest bar: that bar is closed, and
    /// (where zero-volume bars are made) one is made for each bar between.
    pub open spec fn tick_advanced(self, tick: TickData) -> SingleState {
        let s1 = self.close_any();
        if self.zero_vol_bar {
            s1.add_zero_bars(
                s1.cache.last_bar_index + 1,
                s1.tick_idx as int,
                bar_day(tick.datetime as int),
                tick.tradeday,
            )
        } else {
            s1
        }
    }

    /// The tick falls in the bar being built.
    pub open spec fn same_slot(self, tick: TickData) -> (SingleState, bool) {
        let b = self.last_bar.unwrap();
        if b.finished {
            (self, self.tick_idx < self.bar_times.len() - 1 && tick.vol_delta > 0)
        } else {
            let nb = updated_bar(b, tick);
            if nb.finished {
                (SingleState { last_bar: Some(nb), ..self }.close_last(), false)
            } else {
                (SingleState { last_bar: Some(nb), ..self }, false)
            }
        }
    }

    /// What `check_exists_bar` does: the new state, and whether a bar is to
    /// be created for the tick.
    #[verifier::opaque]
    pub open spec fn check_step(self, tick: TickData) -> (SingleState, bool) {
        let s0 = SingleState {
            tick_idx: spec_search_end(self.bar_times, tick_shifted(tick)) as i32,
            ticked: true,
            ..self
        };
        if s0.tick_idx < 0 {
            (s0.close_any(), false)
        } else if s0.last_bar is Some {
            if s0.tick_idx == s0.cache.last_bar_index {
                s0.same_slot(tick)
            } else if s0.tick_idx > s0.cache.last_bar_index {
                (s0.tick_advanced(tick), true)
            } else {
                (s0, false)
            }
        } else if s0.tick_idx > s0.cache.last_bar_index {
            (s0.tick_advanced(tick), true)
        } else {
            (s0, true)
        }
    }

    /// What `create_new_bar` does.
    #[verifier::opaque]
    pub open spec fn create_step(self, tick: TickData) -> SingleState {
        let bumped = self.last_bar is Some && self.last_bar.unwrap().finished && self.tick_idx
            == self.cache.last_bar_index;
        let idx = if bumped { self.tick_idx + 1 } else { self.tick_idx as int };
        if idx >= self.bar_times.len() {
            SingleState { tick_idx: -1i32, ..self }
        } else {
            let nb = new_bar(self, tick, idx);
            SingleState {
                tick_idx: idx as i32,
                last_bar: Some(nb),
                cache: LastBarCache {
                    last_bar_end: nb.internal_end,
                    last_bar_index: idx as i32,
                    last_tradeday: nb.tradeday,
                    ..self.cache
                },
                ..self
            }
        }
    }
}

/// Where the timer's search for the bar of `vend` lands, and whether it had
/// to step back: from `vend`, one bar size back at a time (never below 0),
/// while still after `limit`, the first time that falls in a bar.
pub open spec fn timer_scan(v: Seq<BarTime>, vend: int, limit: int, z: int, more: int) -> (int, int)
    decreases vend,
    when z > 0 && vend >= 0
{
    if vend > limit && limit >= 0 {
        let idx = spec_search_end(v, vend);
        if idx >= 0 {
            (idx, more)
        } else {
            timer_scan(v, if vend - z < 0 { 0 } else { vend - z }, limit, z, 1)
        }
    } else {
        (-1, more)
    }
}

impl SingleState {
    /// What `on_timer` does at `now` with `threshold`, both in milliseconds.
    #[verifier::opaque]
    pub open spec fn timer_step(self, now: int, threshold: int) -> SingleState {
        let compare = now - threshold;
        let s1 = if self.last_bar is Some && compare >= self.last_bar.unwrap().internal_end {
            self.close_last()
        } else {
            self
        };
        let li = s1.cache.last_bar_index as int;
        if s1.zero_vol_bar && li >= 0 && s1.last_bar is None && li + 1 != s1.bar_times.len() {
            let vend = spec_shifted_of(spec_ms_of_day(compare));
            let scan = timer_scan(
                s1.bar_times,
                vend,
                s1.bar_times[li].virtual_end as int,
                s1.barsz_sec as int,
                0,
            );
            if scan.0 + scan.1 > li + 1 {
                s1.add_zero_bars(li + 1, scan.0 + scan.1, spec_day_of(compare - 1), s1.cache.last_tradeday)
            } else {
                s1
            }
        } else {
            s1
        }
    }
}

/// The key that bars are searched by: their end, or their begin.
pub open spec fn bar_key(bt: BarTime, by_end: bool) -> int {
    if by_end {
        bt.virtual_end as int
    } else {
        bt.virtual_begin as int
    }
}

/// Position of the first bar whose key is not below `t`.
pub open spec fn key_lower_bound(v: Seq<BarTime>, t: int, by_end: bool) -> int {
    if by_end {
        end_lower_bound(v, t)
    } else {
        begin_lower_bound(v, t)
    }
}

proof fn lemma_lower_bound(v: Seq<BarTime>, t: int, by_end: bool, p: int)
    requires
        0 <= p <= v.len(),
        forall|i: int| 0 <= i < p ==> bar_key(#[trigger] v[i], by_end) < t,
        p < v.len() ==> bar_key(v[p], by_end) >= t,
    ensures
        key_lower_bound(v, t, by_end) == p,
    decreases v.len(),
{
    if v.len() > 0 && p > 0 {
        assert forall|i: int| 0 <= i < p - 1 implies bar_key(#[trigger] v.drop_first()[i], by_end) < t by {
            assert(v.drop_first()[i] == v[i + 1]);
        }
        if p - 1 < v.drop_first().len() {
            assert(v.drop_first()[p - 1] == v[p]);
        }
        lemma_lower_bound(v.drop_first(), t, by_end, p - 1);
        assert(bar_key(v[0], by_end) < t);
    }
}

proof fn lemma_lower_bound_range(v: Seq<BarTime>, t: int, by_end: bool)
    ensures
        0 <= key_lower_bound(v, t, by_end) <= v.len(),
        0 <= end_lower_bound(v, t) <= v.len(),
        0 <= begin_lower_bound(v, t) <= v.len(),
    decreases v.len(),
{
    if v.len() > 0 {
        lemma_lower_bound_range(v.drop_first(), t, by_end);
    }
}

/// What the first bar not ending before `t` is: every bar before it ends
/// before `t`, and it does not.
proof fn lemma_end_lower_bound(v: Seq<BarTime>, t: int)
    ensures
        0 <= end_lower_bound(v, t) <= v.len(),
        forall|i: int| 0 <= i < end_lower_bound(v, t) ==> (#[trigger] v[i]).virtual_end < t,
        end_lower_bound(v, t) < v.len() ==> v[end_lower_bound(v, t)].virtual_end >= t,
    decreases v.len(),
{
    if v.len() > 0 && v[0].virtual_end < t {
        lemma_end_lower_bound(v.drop_first(), t);
        assert forall|i: int| 0 <= i < end_lower_bound(v, t) implies (#[trigger] v[i]).virtual_end < t by {
            if i > 0 {
                assert(v[i] == v.drop_first()[i - 1]);
            }
        }
        if end_lower_bound(v, t) < v.len() {
            assert(v[end_lower_bound(v, t)] == v.drop_first()[end_lower_bound(v.drop_first(), t)]);
        }
    }
}

/// Bar `bt` holds the shifted time `t`: `t` lies in `(virtual_begin, virtual_end]`.
pub open spec fn bar_holds(bt: BarTime, t: int) -> bool {
    bt.virtual_begin < t <= bt.virtual_end
}

/// A time falls in the first bar whose span `(virtual_begin, virtual_end]`
/// holds it: a time on the boundary of two bars belongs to the earlier one.
/// Where no bar holds it (a break between sessions), the search gives -1.
/// Stated of bars that each span some time.
pub proof fn lemma_search_end_holds(v: Seq<BarTime>, t: int)
    requires
        ends_in_order(v),
        begins_in_order(v),
        forall|i: int| 0 <= i < v.len() ==> (#[trigger] v[i]).virtual_begin < v[i].virtual_end,
    ensures
        ({
            let r = spec_search_end(v, t);
            &&& -1 <= r < v.len()
            &&& r >= 0 ==> bar_holds(v[r], t)
            &&& r >= 0 ==> forall|i: int| 0 <= i < r ==> !bar_holds(#[trigger] v[i], t)
            &&& r == -1 ==> forall|i: int| 0 <= i < v.len() ==> !bar_holds(#[trigger] v[i], t)
        }),
{
    lemma_end_lower_bound(v, t);
    let p = end_lower_bound(v, t);
    if spec_search_end(v, t) == -1 && p < v.len() {
        assert forall|i: int| 0 <= i < v.len() implies !bar_holds(#[trigger] v[i], t) by {
            if i >= p {
                assert(v[p].virtual_begin <= v[i].virtual_begin);
            }
        }
    }
}

fn key_of(bt: &BarTime, by_end: bool) -> (k: u32)
    ensures
        k == bar_key(*bt, by_end),
{
    if by_end {
        bt.virtual_end
    } else {
        bt.virtual_begin
    }
}

/// The bars of `v` are in order of their ends.
pub open spec fn ends_in_order(v: Seq<BarTime>) -> bool {
    forall|i: int, j: int| 0 <= i <= j < v.len() ==> (#[trigger] v[i]).virtual_end <= (#[trigger] v[j]).virtual_end
}

/// The bars of `v` are in order of their starts.
pub open spec fn begins_in_order(v: Seq<BarTime>) -> bool {
    forall|i: int, j: int|
        0 <= i <= j < v.len() ==> (#[trigger] v[i]).virtual_begin <= (#[trigger] v[j]).virtual_begin
}

/// The bars of `v` are in order of the key they are searched by.
pub open spec fn in_key_order(v: Seq<BarTime>, by_end: bool) -> bool {
    if by_end {
        ends_in_order(v)
    } else {
        begins_in_order(v)
    }
}

/// How two keys compare.
pub open spec fn order_of(x: int, y: int) -> Ordering {
    if x < y {
        Ordering::Less
    } else if x == y {
        Ordering::Equal
    } else {
        Ordering::Greater
    }
}

/// Binary search of the bars by end or by begin with `simple_bisect`:
/// `(p, p or -1)` with `p` the first bar whose key is not below that of
/// `probe`, the second `p` where that key equals it.
fn bisect_bar_times(time_vec: &Vec<BarTime>, probe: &BarTime, by_end: bool) -> (res: (isize, isize))
    requires
        time_vec@.len() < i32::MAX,
        in_key_order(time_vec@, by_end),
    ensures
        0 <= res.0 <= time_vec@.len(),
        res.0 == key_lower_bound(time_vec@, bar_key(*probe, by_end), by_end),
        res.1 == (if res.0 < time_vec@.len() && bar_key(time_vec@[res.0 + 0], by_end) == bar_key(*probe, by_end) {
            res.0 + 0
        } else {
            -1
        }),
{
    let by_key = |a: &BarTime, b: &BarTime| -> (o: Ordering)
        ensures
            o == order_of(bar_key(*a, by_end), bar_key(*b, by_end)),
        {
            let x = key_of(a, by_end);
            let y = key_of(b, by_end);
            if x < y {
                Ordering::Less
            } else if x == y {
                Ordering::Equal
            } else {
                Ordering::Greater
            }
        };
    let list = time_vec.as_slice();
    let ghost v = time_vec@;
    let ghost t = bar_key(*probe, by_end);
    proof {
        assert(list@ == v);
        assert forall|i: int, j: int| 0 <= i <= j < v.len() implies bar_key(#[trigger] v[i], by_end) <= bar_key(
            #[trigger] v[j],
            by_end,
        ) by {
            if by_end {
                assert(v[i].virtual_end <= v[j].virtual_end);
            } else {
                assert(v[i].virtual_begin <= v[j].virtual_begin);
            }
        }
        assert forall|i: int, j: int, oi: Ordering, oj: Ordering|
            #![trigger call_ensures(by_key, (&list@[i], probe), oi), call_ensures(by_key, (&list@[j], probe), oj)]
            0 <= i <= j < list@.len() && call_ensures(by_key, (&list@[i], probe), oi) && call_ensures(
                by_key,
                (&list@[j], probe),
                oj,
            ) implies rank(oi) <= rank(oj) by {
            assert(bar_key(v[i], by_end) <= bar_key(v[j], by_end));
        }
    }
    let (l, m, _r) = simple_bisect(list, probe, &by_key);
    let ghost p = l + 1;
    proof {
        assert forall|i: int| 0 <= i < p implies bar_key(#[trigger] v[i], by_end) < t by {
            assert(call_ensures(by_key, (&list@[p - 1], probe), Ordering::Less));
            assert(bar_key(v[i], by_end) <= bar_key(v[p - 1], by_end));
        }
        if p < v.len() {
            let o = choose|o: Ordering| #[trigger] call_ensures(by_key, (&list@[p], probe), o);
            assert(o == order_of(bar_key(v[p], by_end), t));
        }
        lemma_lower_bound(v, t, by_end, p);
    }
    (l + 1, m)
}

/// The error of a builder.
#[derive(Clone, Copy, Debug, PartialEq, Eq)]
pub enum BarBuilderError {
    /// A bar to continue from came after the first tick.
    PreBarAfterTick,
}

/// The builder of the bars of one bar size of one instrument.  It keeps, in
/// advance, what a tick needs to find its bar.
pub struct SingleBarBuilder {
    inst: String,
    /// Bar size in seconds.
    barsz_sec: u32,
    /// The bars of the trading day, see `BarTime`.
    bar_time_vec: Vec<BarTime>,
    /// Index of the bar that the latest tick falls in (-1 outside all bars),
    /// set for every tick.
    tick_idx: i32,
    /// The bar being built; taken when closed.
    last_bar: Option<BarData>,
    /// The bar closed by the latest event.
    opt_closed_this_tick: Option<BarData>,
    /// Zero-volume bars made by the latest event.
    zerovol_bar_vec: Vec<BarData>,
    /// Whether bars with no trade are made.
    zero_vol_bar: bool,
    last_cache: LastBarCache,
    /// Whether a tick was given, in a session or not.
    tick_seen: bool,
}

impl View for SingleBarBuilder {
    type V = SingleState;

    closed spec fn view(&self) -> SingleState {
        SingleState {
            inst: self.inst@,
            barsz_sec: self.barsz_sec,
            bar_times: self.bar_time_vec@,
            tick_idx: self.tick_idx,
            last_bar: self.last_bar,
            closed_this_tick: self.opt_closed_this_tick,
            zerovol_bars: self.zerovol_bar_vec@,
            zero_vol_bar: self.zero_vol_bar,
            cache: self.last_cache,
            ticked: self.tick_seen,
        }
    }
}

/// The state of a new builder.
pub open spec fn fresh_state(inst: Seq<char>, barsz_sec: u32, bar_times: Seq<BarTime>, zero_vol_bar: bool) -> SingleState {
    SingleState {
        inst,
        barsz_sec,
        bar_times,
        tick_idx: -1i32,
        last_bar: None,
        closed_this_tick: None,
        zerovol_bars: Seq::empty(),
        zero_vol_bar,
        cache: LastBarCache {
            last_bar_end: 0i64,
            last_bar_index: -1i32,
            last_bar_close: 0i64,
            last_tradeday: 0i32,
        },
        ticked: false,
    }
}

impl SingleState {
    /// Where a bar to continue from, beginning at `begin`, lies: the bar its
    /// nominal end (begin plus bar size) falls in, else the bar that begins
    /// at its begin; -1 where neither is found.
    pub open spec fn pre_bar_index(self, begin: int) -> int {
        let tod = spec_ms_of_day(begin);
        let by_end = spec_search_end(
            self.bar_times,
            spec_shifted_of((tod + self.barsz_sec * 1000) % (MS_PER_DAY as int)),
        );
        if by_end == -1 {
            spec_search_begin(self.bar_times, spec_shifted_of(tod))
        } else {
            by_end
        }
    }

    /// What `set_pre_bar` does with `bar`, where no tick came yet.
    #[verifier::opaque]
    pub open spec fn pre_bar_step(self, bar: BarData) -> SingleState {
        let idx = self.pre_bar_index(bar.begin as int);
        if idx >= 0 {
            let bt = self.bar_times[idx];
            let end = bar_internal_end(bar.begin as int, bt) as i64;
            SingleState {
                last_bar: Some(BarData { internal_end: end, created_this_tick: false, ..bar }),
                cache: LastBarCache {
                    last_bar_end: end,
                    last_bar_close: bar.close,
                    last_tradeday: bar.tradeday,
                    last_bar_index: idx as i32,
                },
                ..self
            }
        } else {
            self
        }
    }

    /// A tick was given (in a session or not), or a bar was placed.
    pub open spec fn started(self) -> bool {
        self.ticked || self.cache.last_bar_index >= 0
    }
}

impl SingleBarBuilder {
    pub fn new(inst: &str, barsz_sec: u32, bar_time_vec: Vec<BarTime>, zero_vol_bar: bool) -> (r: Self)
        ensures
            r@ == fresh_state(inst@, barsz_sec, bar_time_vec@, zero_vol_bar),
    {
        let last_cache = LastBarCache { last_bar_end: 0, last_bar_index: -1, last_bar_close: 0, last_tradeday: 0 };
        SingleBarBuilder {
            inst: inst.to_owned(),
            barsz_sec,
            bar_time_vec,
            tick_idx: -1,
            last_bar: None,
            opt_closed_this_tick: None,
            zerovol_bar_vec: Vec::new(),
            zero_vol_bar,
            last_cache,
            tick_seen: false,
        }
    }

    pub fn barsz_sec(&self) -> (r: u32)
        ensures
            r == self@.barsz_sec,
    {
        self.barsz_sec
    }

    pub fn inst(&self) -> (r: &str)
        ensures
            r@ == self@.inst,
    {
        self.inst.as_str()
    }

    pub fn last_bar_end(&self) -> (r: i64)
        ensures
            r == self@.cache.last_bar_end,
    {
        self.last_cache.last_bar_end
    }

    pub fn bar_time_vec(&self) -> (r: &Vec<BarTime>)
        ensures
            r@ == self@.bar_times,
    {
        &self.bar_time_vec
    }

    /// The bar that the shifted time `input.virtual_end` (the time of a tick,
    /// in fact) falls in, -1 where there is none (a break, say).  A time on a
    /// bar's end belongs to that bar.
    pub fn search_end_time_index(input: &BarTime, time_vec: &Vec<BarTime>) -> (r: i32)
        requires
            time_vec@.len() < i32::MAX,
            ends_in_order(time_vec@),
        ensures
            r == spec_search_end(time_vec@, input.virtual_end as int),
            -1 <= r < time_vec@.len(),
    {
        let t = input.virtual_end;
        let (p, mid) = bisect_bar_times(time_vec, input, true);
    proof {
        lemma_lower_bound_range(time_vec@, t as int, true);
    }
        if mid >= 0 {
            return mid as i32;
        }
        if p < time_vec.len() as isize {
            let bt = &time_vec[p as usize];
            if t > bt.virtual_begin {
                return p as i32;
            }
        }
        -1
    }

    /// The bar that begins at the shifted time `input.virtual_begin` (a bar's
    /// begin), -1 where there is none.
    pub fn search_begin_time_index(input: &BarTime, time_vec: &Vec<BarTime>) -> (r: i32)
        requires
            time_vec@.len() < i32::MAX,
            begins_in_order(time_vec@),
        ensures
            r == spec_search_begin(time_vec@, input.virtual_begin as int),
            -1 <= r < time_vec@.len(),
    {
        let (_p, mid) = bisect_bar_times(time_vec, input, false);
        proof {
            lemma_lower_bound_range(time_vec@, input.virtual_begin as int, false);
        }
        if mid >= 0 {
            return mid as i32;
        }
        -1
    }
}

impl SingleBarBuilder {
    /// Hands `bar` out as closed; its close is kept for zero-volume bars.
    fn emit_bar_close(&mut self, bar: BarData)
        ensures
            final(self)@ == (SingleState {
                closed_this_tick: Some(finish(bar)),
                cache: LastBarCache { last_bar_close: bar.close, ..old(self)@.cache },
                ..old(self)@
            }),
    {
        let mut bar = bar;
        bar.finished = true;
        self.last_cache.last_bar_close = bar.close;
        self.opt_closed_this_tick = Some(bar);
    }

    /// Closes the bar being built, if any.
    fn close_if_open(&mut self)
        ensures
            final(self)@ == old(self)@.close_any(),
    {
        if let Some(bar) = self.last_bar.take() {
            self.emit_bar_close(bar);
        }
    }

    /// A zero-volume bar in bar `bar_idx`, on day `realday`; it becomes the
    /// latest bar.
    fn create_zero_vol_bar(&mut self, bar_idx: i32, realday: i32, tradeday: i32) -> (r: BarData)
        requires
            old(self)@.wf(),
            0 <= bar_idx < old(self)@.bar_times.len(),
            valid_day(realday as int),
        ensures
            r == zero_bar(old(self)@, bar_idx as int, realday as int, tradeday),
            final(self)@ == (SingleState {
                cache: LastBarCache {
                    last_bar_end: r.internal_end,
                    last_bar_index: bar_idx,
                    last_tradeday: tradeday,
                    ..old(self)@.cache
                },
                ..old(self)@
            }),
    {
        let bt = self.bar_time_vec[bar_idx as usize];
        proof {
            assert(bar_bounds(self@.bar_times[bar_idx as int]));
        }
        let mut bar = BarData::new_empty();
        let bar_end_time = realday as i64 * MS_PER_DAY + bt.nominal_begin as i64 * 1000 + bt.duration * 1000;
        bar.tradeday = tradeday;
        bar.begin = bar_end_time - bt.duration * 1000;
        bar.internal_end = bar_end_time;
        if bt.with_slice_end {
            bar.internal_end = bar.internal_end + 1000;
        }
        bar.finished = true;
        bar.close = self.last_cache.last_bar_close;
        bar.open = bar.close;
        bar.high = bar.close;
        bar.low = bar.close;
        bar.volume = 0;
        bar.turnover = 0;
        bar.barsz_sec = self.barsz_sec;
        self.last_cache.last_bar_end = bar.internal_end;
        self.last_cache.last_bar_index = bar_idx;
        self.last_cache.last_tradeday = bar.tradeday;
        bar
    }

    /// Zero-volume bars for the bars `start_idx..end_idx_exclude` that exist.
    fn create_zero_vol_bar_batch(&mut self, start_idx: i32, end_idx_exclude: i32, realday: i32, tradeday: i32)
        requires
            old(self)@.wf(),
            0 <= start_idx,
            valid_day(realday as int),
        ensures
            final(self)@ == old(self)@.add_zero_bars(
                start_idx as int,
                end_idx_exclude as int,
                realday as int,
                tradeday,
            ),
            final(self)@.wf(),
    {
        let ghost s0 = self@;
        let mut idx = start_idx;
        while idx < end_idx_exclude
            invariant
                s0 == old(self)@,
                s0.wf(),
                0 <= start_idx <= idx,
                idx <= end_idx_exclude || idx == start_idx,
                valid_day(realday as int),
                self@ == s0.add_zero_bars(start_idx as int, idx as int, realday as int, tradeday),
            decreases end_idx_exclude - idx,
        {
            if (idx as usize) < self.bar_time_vec.len() {
                let ghost before = self@;
                let zerovol = self.create_zero_vol_bar(idx, realday, tradeday);
                self.zerovol_bar_vec.push(zerovol);
                proof {
                    assert(zerovol == zero_bar(s0, idx as int, realday as int, tradeday));
                    let a = s0.add_zero_bars(start_idx as int, idx as int, realday as int, tradeday);
                    let b = s0.add_zero_bars(start_idx as int, idx + 1, realday as int, tradeday);
                    assert(b.zerovol_bars =~= a.zerovol_bars.push(zerovol));
                }
            } else {
                proof {
                    assert(s0.add_zero_bars(start_idx as int, idx + 1, realday as int, tradeday)
                        == s0.add_zero_bars(start_idx as int, idx as int, realday as int, tradeday));
                }
            }
            idx += 1;
        }
    }

    /// The tick is past the latest bar: closes it, and makes the zero-volume
    /// bars between (where they are made).  The tick is still to be used.
    fn tick_advanced(&mut self, tick: &TickData) -> (r: bool)
        requires
            old(self)@.wf(),
            old(self)@.tick_idx > old(self)@.cache.last_bar_index,
            valid_tick(*tick),
        ensures
            r,
            final(self)@ == old(self)@.tick_advanced(*tick),
            final(self)@.wf(),
    {
        self.close_if_open();
        if self.zero_vol_bar {
            let start = self.last_cache.last_bar_index + 1;
            let end_exclude = self.tick_idx;
            let realday = day_of(tick.datetime - 1);
            self.create_zero_vol_bar_batch(start, end_exclude, realday, tick.tradeday);
        }
        true
    }

    /// The tick falls in the bar being built: that bar takes it, and closes
    /// where the tick reaches its end.  A bar already finished (closed early
    /// by the timer, or so set from the start) takes nothing; a tick with
    /// volume then goes to a new bar, if a bar follows.
    fn same_slot(&mut self, tick: &TickData) -> (r: bool)
        requires
            old(self)@.wf(),
            old(self)@.last_bar is Some,
            old(self)@.tick_idx >= 0,
        ensures
            (final(self)@, r) == old(self)@.same_slot(*tick),
    {
        let bar = self.last_bar.unwrap();
        if bar.finished {
            if self.tick_idx as usize >= self.bar_time_vec.len() - 1 {
                return false;
            }
            return tick.vol_delta > 0;
        }
        let mut b = bar;
        if b.high < tick.last {
            b.high = tick.last;
        }
        if tick.last < b.low {
            b.low = tick.last;
        }
        b.close = tick.last;
        b.volume = b.volume.wrapping_add(tick.vol_delta);
        b.turnover = b.turnover.wrapping_add(tick.tnov_delta);
        b.openint = tick.openint;
        b.finished = tick.datetime >= b.internal_end;
        proof {
            assert(b == updated_bar(bar, *tick));
        }
        if b.finished {
            self.last_bar = None;
            self.emit_bar_close(b);
        } else {
            self.last_bar = Some(b);
        }
        false
    }

    /// Whether a new bar is to be created, where both the tick's bar and the
    /// bar being built exist.
    fn check_bar_detail(&mut self, tick: &TickData) -> (r: bool)
        requires
            old(self)@.wf(),
            old(self)@.last_bar is Some,
            old(self)@.tick_idx >= 0,
            valid_tick(*tick),
        ensures
            (final(self)@, r) == (if old(self)@.tick_idx == old(self)@.cache.last_bar_index {
                old(self)@.same_slot(*tick)
            } else if old(self)@.tick_idx > old(self)@.cache.last_bar_index {
                (old(self)@.tick_advanced(*tick), true)
            } else {
                (old(self)@, false)
            }),
    {
        if self.tick_idx == self.last_cache.last_bar_index {
            self.same_slot(tick)
        } else if self.tick_idx > self.last_cache.last_bar_index {
            self.tick_advanced(tick)
        } else {
            false
        }
    }

    /// Places a tick: finds its bar, closes the bar being built where the
    /// tick is past it (or outside all bars), updates it where the tick falls
    /// in it.  Returns whether a new bar is to be created for the tick.
    pub fn check_exists_bar(&mut self, tick: &TickData) -> (r: bool)
        requires
            old(self)@.wf(),
            valid_tick(*tick),
        ensures
            (final(self)@, r) == old(self)@.check_step(*tick),
            final(self)@.wf(),
    {
        reveal(SingleState::check_step);
        let tod = ms_of_day(tick.datetime);
        let t = shifted_of(tod);
        let probe = BarTime { virtual_end: t, ..BarTime::default() };
        self.tick_idx = Self::search_end_time_index(&probe, &self.bar_time_vec);
        self.tick_seen = true;
        if self.tick_idx < 0 {
            self.close_if_open();
            return false;
        } else {
            if self.last_bar.is_some() {
                return self.check_bar_detail(tick);
            } else {
                if self.tick_idx > self.last_cache.last_bar_index {
                    self.tick_advanced(tick);
                }
                return true;
            }
        }
    }

    /// Creates the bar of the tick, after `check_exists_bar` said so.  Where
    /// the bar of the tick was closed early (by the timer), the tick goes to
    /// the next bar, if there is one.
    pub fn create_new_bar(&mut self, tick: &TickData)
        requires
            old(self)@.wf(),
            old(self)@.tick_idx >= 0,
            valid_tick(*tick),
        ensures
            final(self)@ == old(self)@.create_step(*tick),
            final(self)@.wf(),
    {
        reveal(SingleState::create_step);
        if let Some(bar) = self.last_bar {
            if bar.finished && self.tick_idx == self.last_cache.last_bar_index {
                self.tick_idx += 1;
                if self.tick_idx as usize >= self.bar_time_vec.len() {
                    self.tick_idx = -1;
                    return;
                }
            }
        }
        let idx = self.tick_idx as usize;
        let bt = self.bar_time_vec[idx];
        proof {
            assert(bar_bounds(self@.bar_times[idx as int]));
        }
        let day = day_of(tick.datetime - 1);
        let mut newbar = BarData::new_empty();
        newbar.begin = day as i64 * MS_PER_DAY + bt.nominal_begin as i64 * 1000;
        newbar.internal_end = newbar.begin + bt.duration * 1000;
        if bt.with_slice_end {
            newbar.internal_end = newbar.internal_end + 1000;
        }
        newbar.open = tick.last;
        newbar.high = newbar.open;
        newbar.low = newbar.open;
        newbar.close = newbar.open;
        newbar.openint = tick.openint;
        newbar.tradeday = tick.tradeday;
        newbar.volume = tick.vol_delta;
        newbar.turnover = tick.tnov_delta;
        newbar.finished = false;
        newbar.barsz_sec = self.barsz_sec;
        self.last_cache.last_bar_end = newbar.internal_end;
        self.last_cache.last_bar_index = self.tick_idx;
        self.last_cache.last_tradeday = newbar.tradeday;
        self.last_bar = Some(newbar);
    }

    /// Sets a bar to continue from (a bar of a long size, saved before a
    /// restart, that is not yet over).  Only before any tick, in a session or
    /// not, and before any bar is placed: after that the builder is left as it
    /// was and the error comes back.  Its end is worked
    /// out anew; a bar that lies in no bar of the day is dropped.
    pub fn set_pre_bar(&mut self, bar: BarData) -> (r: Result<(), BarBuilderError>)
        requires
            old(self)@.wf(),
            valid_datetime(bar.begin as int),
        ensures
            old(self)@.started() ==> r == Err::<(), BarBuilderError>(BarBuilderError::PreBarAfterTick)
                && final(self)@ == old(self)@,
            !old(self)@.started() ==> r is Ok && final(self)@ == old(self)@.pre_bar_step(bar),
            final(self)@.wf(),
    {
        reveal(SingleState::pre_bar_step);
        if self.tick_seen || self.last_cache.last_bar_index >= 0 {
            return Err(BarBuilderError::PreBarAfterTick);
        }
        let tod = ms_of_day(bar.begin);
        let end_tod = (tod as u64 + self.barsz_sec as u64 * 1000) % (MS_PER_DAY as u64);
        let probe = BarTime { virtual_end: shifted_of(end_tod as u32), ..BarTime::default() };
        let mut bar_index = Self::search_end_time_index(&probe, &self.bar_time_vec);
        if bar_index == -1 {
            let probe = BarTime { virtual_begin: shifted_of(tod), ..BarTime::default() };
            bar_index = Self::search_begin_time_index(&probe, &self.bar_time_vec);
        }
        if bar_index >= 0 {
            let bt = self.bar_time_vec[bar_index as usize];
            proof {
                assert(bar_bounds(self@.bar_times[bar_index as int]));
            }
            let mut bar_end = bar.begin + bt.duration * 1000;
            if bt.with_slice_end {
                bar_end = bar_end + 1000;
            }
            let mut bar = bar;
            bar.internal_end = bar_end;
            bar.created_this_tick = false;
            self.last_cache.last_bar_end = bar_end;
            self.last_cache.last_bar_close = bar.close;
            self.last_cache.last_tradeday = bar.tradeday;
            self.last_cache.last_bar_index = bar_index;
            self.last_bar = Some(bar);
        }
        Ok(())
    }
}

impl SingleBarBuilder {
    /// Closes the bar being built where its end is at least `threshold`
    /// milliseconds before `now`; where zero-volume bars are made, makes those
    /// of the bars that have passed since the latest bar with no tick (the
    /// last bars of a session, after which no tick comes).  The closed bar
    /// and zero-volume bars are left for the caller to take.  Not to be
    /// called on a day without trading.
    pub fn on_timer(&mut self, now: i64, threshold: i64)
        requires
            old(self)@.wf(),
            valid_datetime(now - threshold),
            valid_datetime(now - threshold - 1),
        ensures
            final(self)@ == old(self)@.timer_step(now as int, threshold as int),
            final(self)@.wf(),
    {
        reveal(SingleState::timer_step);
        let compare_time = now - threshold;
        if let Some(bar) = self.last_bar {
            if compare_time >= bar.internal_end {
                self.last_bar = None;
                self.emit_bar_close(bar);
            }
        }
        if self.zero_vol_bar && self.last_cache.last_bar_index >= 0 {
            if self.last_bar.is_some() {
                return;
            }
            if (self.last_cache.last_bar_index + 1) as usize == self.bar_time_vec.len() {
                return;
            }
            let ghost s1 = self@;
            let li = self.last_cache.last_bar_index;
            let bt_end = self.bar_time_vec[li as usize].virtual_end;
            let start = li + 1;
            let mut vend_time = shifted_of(ms_of_day(compare_time));
            let ghost scan = timer_scan(s1.bar_times, vend_time as int, bt_end as int, s1.barsz_sec as int, 0);
            let mut result: i32 = -1;
            let mut more_than_last: i32 = 0;
            while vend_time > bt_end
                invariant_except_break
                    result == -1,
                    timer_scan(s1.bar_times, vend_time as int, bt_end as int, s1.barsz_sec as int, more_than_last as int) == scan,
                invariant
                    self@ == s1,
                    s1.wf(),
                    0 <= more_than_last <= 1,
                    -1 <= result < s1.bar_times.len(),
                ensures
                    (result as int, more_than_last as int) == scan,
                decreases vend_time,
            {
                let probe = BarTime { virtual_end: vend_time, ..BarTime::default() };
                let index = Self::search_end_time_index(&probe, &self.bar_time_vec);
                if index >= 0 {
                    result = index;
                    break;
                } else {
                    vend_time = vend_time.saturating_sub(self.barsz_sec);
                    more_than_last = 1;
                }
            }
            if result + more_than_last > start {
                let realday = day_of(compare_time - 1);
                let tradeday = self.last_cache.last_tradeday;
                self.create_zero_vol_bar_batch(start, result + more_than_last, realday, tradeday);
            }
        }
    }

    /// Closes the bar being built where it ends by `force_bar_end`, as
    /// `on_timer` with no threshold.
    pub fn force_finish(&mut self, force_bar_end: i64)
        requires
            old(self)@.wf(),
            valid_datetime(force_bar_end as int),
            valid_datetime(force_bar_end - 1),
        ensures
            final(self)@ == old(self)@.timer_step(force_bar_end as int, 0),
            final(self)@.wf(),
    {
        self.on_timer(force_bar_end, 0);
    }

    /// Index of the bar that the latest tick falls in.
    pub(crate) fn tick_idx(&self) -> (r: i32)
        ensures
            r == self@.tick_idx,
    {
        self.tick_idx
    }

    /// Takes the bar closed by the latest event.
    pub(crate) fn take_closed_this_tick(&mut self) -> (r: Option<BarData>)
        ensures
            r == old(self)@.closed_this_tick,
            final(self)@ == (SingleState { closed_this_tick: None, ..old(self)@ }),
    {
        self.opt_closed_this_tick.take()
    }

    /// Takes the zero-volume bars made by the latest event.
    pub(crate) fn take_zerovol_bars(&mut self) -> (r: Vec<BarData>)
        ensures
            r@ == old(self)@.zerovol_bars,
            final(self)@ == (SingleState { zerovol_bars: Seq::empty(), ..old(self)@ }),
    {
        let mut taken: Vec<BarData> = Vec::new();
        std::mem::swap(&mut taken, &mut self.zerovol_bar_vec);
        taken
    }

    /// The bar being built, if any.
    pub(crate) fn last_bar(&self) -> (r: Option<BarData>)
        ensures
            r == self@.last_bar,
    {
        self.last_bar
    }

    /// The bar being built, if any, is no longer new.
    pub(crate) fn clear_created_flag(&mut self)
        ensures
            final(self)@ == (SingleState {
                last_bar: match old(self)@.last_bar {
                    Some(b) => Some(BarData { created_this_tick: false, ..b }),
                    None => None,
                },
                ..old(self)@
            }),
    {
        if let Some(bar) = self.last_bar {
            self.last_bar = Some(BarData { created_this_tick: false, ..bar });
        }
    }
}

/// Placing a tick keeps the bar size, bar times and setting of a builder
/// and its closed bar is the only one; a bar is to be created only for a
/// tick in some bar; and without the setting no zero-volume bar comes.
pub proof fn lemma_check_step_keeps(b: SingleState, tick: TickData)
    ensures
        ({
            let (b1, create) = b.check_step(tick);
            &&& b1.barsz_sec == b.barsz_sec
            &&& b1.bar_times == b.bar_times
            &&& b1.zero_vol_bar == b.zero_vol_bar
            &&& b1.inst == b.inst
            &&& create ==> b1.tick_idx >= 0
            &&& !b.zero_vol_bar ==> b1.zerovol_bars == b.zerovol_bars
            &&& b1.ticked
        }),
{
    reveal(SingleState::check_step);
}

/// Creating a bar keeps all but the tick index, the bar being built and
/// what is kept of the latest bar.
pub proof fn lemma_create_step_keeps(b: SingleState, tick: TickData)
    ensures
        ({
            let b2 = b.create_step(tick);
            &&& b2.barsz_sec == b.barsz_sec
            &&& b2.bar_times == b.bar_times
            &&& b2.zero_vol_bar == b.zero_vol_bar
            &&& b2.inst == b.inst
            &&& b2.closed_this_tick == b.closed_this_tick
            &&& b2.zerovol_bars == b.zerovol_bars
            &&& b2.ticked == b.ticked
        }),
{
    reveal(SingleState::create_step);
}

/// The timer keeps the bar size, bar times and setting of a builder, and
/// without the setting no zero-volume bar comes.
pub proof fn lemma_timer_step_keeps(b: SingleState, now: int, threshold: int)
    ensures
        ({
            let b1 = b.timer_step(now, threshold);
            &&& b1.barsz_sec == b.barsz_sec
            &&& b1.bar_times == b.bar_times
            &&& b1.zero_vol_bar == b.zero_vol_bar
            &&& b1.inst == b.inst
            &&& !b.zero_vol_bar ==> b1.zerovol_bars == b.zerovol_bars
        }),
{
    reveal(SingleState::timer_step);
}

/// Setting a bar to continue from keeps all but the bar being built and
/// what is kept of the latest bar.
pub proof fn lemma_pre_bar_step_keeps(b: SingleState, bar: BarData)
    ensures
        ({
            let b1 = b.pre_bar_step(bar);
            &&& b1.barsz_sec == b.barsz_sec
            &&& b1.bar_times == b.bar_times
            &&& b1.zero_vol_bar == b.zero_vol_bar
            &&& b1.inst == b.inst
            &&& b1.closed_this_tick == b.closed_this_tick
            &&& b1.zerovol_bars == b.zerovol_bars
            &&& b.wf() ==> b1.wf()
        }),
{
    reveal(SingleState::pre_bar_step);
    let tod = spec_ms_of_day(bar.begin as int);
    lemma_lower_bound_range(
        b.bar_times,
        spec_shifted_of((tod + b.barsz_sec * 1000) % (MS_PER_DAY as int)),
        true,
    );
    lemma_lower_bound_range(b.bar_times, spec_shifted_of(tod), false);
}

/// After the timer at `now` with `threshold`, a bar still being built ends
/// after `now - threshold`: a bar that ended by then is closed and is the
/// closed bar, one that did not is left as it was.
pub proof fn lemma_timer_closes_overdue(b: SingleState, now: int, threshold: int)
    ensures
        ({
            let b1 = b.timer_step(now, threshold);
            &&& b1.last_bar is Some ==> b1.last_bar.unwrap().internal_end > now - threshold
            &&& b.last_bar is Some && b.last_bar.unwrap().internal_end <= now - threshold ==> b1.last_bar is None
                && b1.closed_this_tick == Some(finish(b.last_bar.unwrap()))
            &&& b.last_bar is Some && b.last_bar.unwrap().internal_end > now - threshold ==> b1.last_bar
                == b.last_bar
        }),
{
    reveal(SingleState::timer_step);
}

/// The prices of a bar are in order: its low is at most its open and its
/// close, which are at most its high.
pub open spec fn prices_in_order(b: BarData) -> bool {
    b.low <= b.open <= b.high && b.low <= b.close <= b.high
}

/// A bar as handed out closed: finished, with its prices in order.
pub open spec fn sound_closed_bar(b: BarData) -> bool {
    b.finished && prices_in_order(b)
}

impl SingleState {
    /// The bars the builder holds are sound: the bar being built has its
    /// prices in order, the closed bar and the zero-volume bars are finished
    /// with their prices in order, and the zero-volume bars have no volume.
    pub open spec fn bars_sound(self) -> bool {
        &&& self.last_bar is Some ==> prices_in_order(self.last_bar.unwrap())
        &&& self.closed_this_tick is Some ==> sound_closed_bar(self.closed_this_tick.unwrap())
        &&& forall|k: int|
            0 <= k < self.zerovol_bars.len() ==> sound_closed_bar(#[trigger] self.zerovol_bars[k])
                && self.zerovol_bars[k].volume == 0
    }
}

proof fn lemma_add_zero_bars_sound(b: SingleState, start: int, end: int, realday: int, tradeday: i32)
    requires
        b.bars_sound(),
    ensures
        b.add_zero_bars(start, end, realday, tradeday).bars_sound(),
        b.add_zero_bars(start, end, realday, tradeday).last_bar == b.last_bar,
        b.add_zero_bars(start, end, realday, tradeday).closed_this_tick == b.closed_this_tick,
{
    let b1 = b.add_zero_bars(start, end, realday, tradeday);
    assert forall|k: int| 0 <= k < b1.zerovol_bars.len() implies sound_closed_bar(#[trigger] b1.zerovol_bars[k])
        && b1.zerovol_bars[k].volume == 0 by {
        if k >= b.zerovol_bars.len() {
            assert(b1.zerovol_bars[k] == zero_bar(b, start + (k - b.zerovol_bars.len()), realday, tradeday));
        }
    }
}

/// Placing a tick keeps the builder's bars sound: a bar the tick takes keeps
/// its prices in order, and any bar it closes, or makes with no trade, is
/// finished with its prices in order.
pub proof fn lemma_check_step_sound(b: SingleState, tick: TickData)
    requires
        b.bars_sound(),
    ensures
        b.check_step(tick).0.bars_sound(),
{
    reveal(SingleState::check_step);
    let s0 = SingleState { tick_idx: spec_search_end(b.bar_times, tick_shifted(tick)) as i32, ..b };
    let s1 = s0.close_any();
    if s0.zero_vol_bar {
        lemma_add_zero_bars_sound(
            s1,
            s1.cache.last_bar_index + 1,
            s1.tick_idx as int,
            bar_day(tick.datetime as int),
            tick.tradeday,
        );
    }
    if s0.last_bar is Some && !s0.last_bar.unwrap().finished {
        let nb = updated_bar(s0.last_bar.unwrap(), tick);
        assert(prices_in_order(nb));
    }
}

/// Creating a bar keeps the builder's bars sound: the new bar opens, closes
/// and peaks at the tick's price.
pub proof fn lemma_create_step_sound(b: SingleState, tick: TickData)
    requires
        b.bars_sound(),
    ensures
        b.create_step(tick).bars_sound(),
{
    reveal(SingleState::create_step);
}

/// The timer keeps the builder's bars sound.
pub proof fn lemma_timer_step_sound(b: SingleState, now: int, threshold: int)
    requires
        b.bars_sound(),
    ensures
        b.timer_step(now, threshold).bars_sound(),
{
    reveal(SingleState::timer_step);
    let compare = now - threshold;
    let s1 = if b.last_bar is Some && compare >= b.last_bar.unwrap().internal_end {
        b.close_last()
    } else {
        b
    };
    let li = s1.cache.last_bar_index as int;
    if s1.zero_vol_bar && li >= 0 && s1.last_bar is None && li + 1 != s1.bar_times.len() {
        let vend = spec_shifted_of(spec_ms_of_day(compare));
        let scan = timer_scan(s1.bar_times, vend, s1.bar_times[li].virtual_end as int, s1.barsz_sec as int, 0);
        lemma_add_zero_bars_sound(s1, li + 1, scan.0 + scan.1, spec_day_of(compare - 1), s1.cache.last_tradeday);
    }
}

/// Setting a bar to continue from keeps the builder's bars sound where that
/// bar's prices are in order.
pub proof fn lemma_pre_bar_step_sound(b: SingleState, bar: BarData)
    requires
        b.bars_sound(),
        prices_in_order(bar),
    ensures
        b.pre_bar_step(bar).bars_sound(),
{
    reveal(SingleState::pre_bar_step);
}

/// What the timer's search lands on, for a shifted time `c`: starting in
/// the bar that holds `c` (or nowhere), it gives that bar, every bar before
/// it ending before `c`; having stepped back from a time in no bar, it
/// gives a bar that ended before `c`.
proof fn lemma_timer_scan_ends(v: Seq<BarTime>, vend: int, limit: int, z: int, more: int, c: int)
    requires
        ends_in_order(v),
        begins_in_order(v),
        z > 0,
        vend >= 0,
        0 <= more <= 1,
        more == 0 ==> vend == c,
        more == 1 ==> vend < c && spec_search_end(v, c) == -1,
    ensures
        ({
            let (r, mo) = timer_scan(v, vend, limit, z, more);
            &&& -1 <= r < v.len()
            &&& 0 <= mo <= 1
            &&& r >= 0 && mo == 0 ==> r == spec_search_end(v, c) && forall|i: int|
                0 <= i < r ==> (#[trigger] v[i]).virtual_end < c
            &&& r >= 0 && mo == 1 ==> v[r].virtual_end < c
        }),
    decreases vend,
{
    if vend > limit && limit >= 0 {
        lemma_end_lower_bound(v, vend);
        let idx = spec_search_end(v, vend);
        if idx >= 0 {
            if more == 1 && v[idx].virtual_end >= c {
                assert forall|i: int| 0 <= i < idx implies bar_key(#[trigger] v[i], true) < c by {}
                lemma_lower_bound(v, c, true, idx);
                assert(false);
            }
        } else {
            let next = if vend - z < 0 { 0 } else { vend - z };
            lemma_timer_scan_ends(v, next, limit, z, 1, c);
        }
    }
}

/// The zero-volume bars the timer makes are of bars that ended before the
/// time it goes by (`now - threshold` on the shifted clock): the last of
/// them, and so every one, ends before it.
pub proof fn lemma_timer_backfills_ended(b: SingleState, now: int, threshold: int)
    requires
        b.wf(),
    ensures
        ({
            let b1 = b.timer_step(now, threshold);
            b1.zerovol_bars.len() > b.zerovol_bars.len() ==> {
                &&& 0 <= b1.cache.last_bar_index < b.bar_times.len()
                &&& b.bar_times[b1.cache.last_bar_index as int].virtual_end < spec_shifted_of(
                    spec_ms_of_day(now - threshold),
                )
            }
        }),
{
    reveal(SingleState::timer_step);
    let compare = now - threshold;
    let s1 = if b.last_bar is Some && compare >= b.last_bar.unwrap().internal_end {
        b.close_last()
    } else {
        b
    };
    let li = s1.cache.last_bar_index as int;
    if s1.zero_vol_bar && li >= 0 && s1.last_bar is None && li + 1 != s1.bar_times.len() {
        let vend = spec_shifted_of(spec_ms_of_day(compare));
        assert(vend >= 0);
        lemma_timer_scan_ends(s1.bar_times, vend, s1.bar_times[li].virtual_end as int, s1.barsz_sec as int, 0, vend);
        let scan = timer_scan(s1.bar_times, vend, s1.bar_times[li].virtual_end as int, s1.barsz_sec as int, 0);
        if scan.0 + scan.1 > li + 1 {
            let hi = if scan.0 + scan.1 < s1.bar_times.len() { scan.0 + scan.1 } else { s1.bar_times.len() as int };
            if scan.1 == 1 {
                assert(s1.bar_times[hi - 1].virtual_end <= s1.bar_times[scan.0].virtual_end);
            }
        }
    }
}

/// A bar created for a tick carries that tick: the tick's trading day, its
/// price as open, high, low and close, its volume, turnover and open
/// interest, the builder's bar size; it is not finished and counts as new.
pub proof fn lemma_created_bar_carries_tick(b: SingleState, tick: TickData)
    requires
        b.wf(),
        b.tick_idx >= 0,
    ensures
        ({
            let b2 = b.create_step(tick);
            b2.tick_idx >= 0 ==> {
                &&& b2.last_bar is Some
                &&& b2.last_bar.unwrap().tradeday == tick.tradeday
                &&& b2.last_bar.unwrap().open == tick.last
                &&& b2.last_bar.unwrap().high == tick.last
                &&& b2.last_bar.unwrap().low == tick.last
                &&& b2.last_bar.unwrap().close == tick.last
                &&& b2.last_bar.unwrap().volume == tick.vol_delta
                &&& b2.last_bar.unwrap().turnover == tick.tnov_delta
                &&& b2.last_bar.unwrap().openint == tick.openint
                &&& b2.last_bar.unwrap().barsz_sec == b.barsz_sec
                &&& !b2.last_bar.unwrap().finished
                &&& b2.last_bar.unwrap().created_this_tick
                &&& b2.cache.last_bar_index == b2.tick_idx
                &&& b2.cache.last_tradeday == tick.tradeday
            }
        }),
{
    reveal(SingleState::create_step);
}

/// Creating a bar leaves a bar that counts as new only where it built one
/// for the tick, with the tick's trading day.
pub proof fn lemma_create_step_new_only(b: SingleState, tick: TickData)
    requires
        b.last_bar is Some ==> !b.last_bar.unwrap().created_this_tick,
    ensures
        ({
            let b2 = b.create_step(tick);
            b2.last_bar is Some && b2.last_bar.unwrap().created_this_tick ==> b2.last_bar.unwrap().tradeday
                == tick.tradeday
        }),
{
    reveal(SingleState::create_step);
}

/// Placing a tick makes no new bar of its own: a bar being built afterwards
/// that did not count as new still does not; every zero-volume bar it makes
/// has the tick's trading day, no volume or turnover, is finished, and opens,
/// peaks and closes at one price.
pub proof fn lemma_check_step_bars(b: SingleState, tick: TickData)
    requires
        b.wf(),
    ensures
        ({
            let b1 = b.check_step(tick).0;
            &&& b1.last_bar is Some ==> b.last_bar is Some
            &&& b.last_bar is Some && !b.last_bar.unwrap().created_this_tick && b1.last_bar is Some
                ==> !b1.last_bar.unwrap().created_this_tick
            &&& b1.zerovol_bars.len() >= b.zerovol_bars.len()
            &&& forall|k: int|
                b.zerovol_bars.len() <= k < b1.zerovol_bars.len() ==> {
                    let z = #[trigger] b1.zerovol_bars[k];
                    &&& z.tradeday == tick.tradeday
                    &&& z.volume == 0
                    &&& z.turnover == 0
                    &&& z.finished
                    &&& z.open == z.close && z.high == z.close && z.low == z.close
                }
        }),
{
    reveal(SingleState::check_step);
}

/// The timer makes every bar it owes: with zero-volume bars asked for, a
/// latest bar known and none left being built, where the timer's time
/// (`now - threshold` on the shifted clock) falls in a bar of the day, every
/// bar after the latest one that ended before that time has been made.
pub proof fn lemma_timer_backfills_all(b: SingleState, now: int, threshold: int)
    requires
        b.wf(),
        b.zero_vol_bar,
        b.cache.last_bar_index >= 0,
        b.timer_step(now, threshold).last_bar is None,
        spec_search_end(b.bar_times, spec_shifted_of(spec_ms_of_day(now - threshold))) >= 0,
    ensures
        forall|i: int|
            b.cache.last_bar_index < i < b.bar_times.len() && (#[trigger] b.bar_times[i]).virtual_end
                < spec_shifted_of(spec_ms_of_day(now - threshold)) ==> i <= b.timer_step(
                now,
                threshold,
            ).cache.last_bar_index,
{
    reveal(SingleState::timer_step);
    let compare = now - threshold;
    let c = spec_shifted_of(spec_ms_of_day(compare));
    let v = b.bar_times;
    let li = b.cache.last_bar_index as int;
    lemma_end_lower_bound(v, c);
    let idx = spec_search_end(v, c);
    assert forall|i: int| li < i < v.len() && (#[trigger] v[i]).virtual_end < c implies i <= b.timer_step(
        now,
        threshold,
    ).cache.last_bar_index by {
        assert(i < idx) by {
            if i >= idx {
                assert(v[idx].virtual_end <= v[i].virtual_end);
            }
        }
        assert(v[li].virtual_end <= v[i].virtual_end);
        assert(c > v[li].virtual_end);
        assert(timer_scan(v, c, v[li].virtual_end as int, b.barsz_sec as int, 0) == (idx, 0int));
    }
}

/// A bar to continue from, given before any tick, is taken as the bar
/// being built where its nominal end (its begin plus the bar size) falls in
/// a bar of the day: at the first bar holding that time, with its prices,
/// volume and begin kept, not counting as new.
pub proof fn lemma_pre_bar_placed_by_end(b: SingleState, bar: BarData, i: int)
    requires
        b.wf(),
        !b.started(),
        0 <= i < b.bar_times.len(),
        forall|j: int| 0 <= j < b.bar_times.len() ==> (#[trigger] b.bar_times[j]).virtual_begin < b.bar_times[j].virtual_end,
        bar_holds(
            b.bar_times[i],
            spec_shifted_of((spec_ms_of_day(bar.begin as int) + b.barsz_sec * 1000) % (MS_PER_DAY as int)),
        ),
        forall|j: int|
            0 <= j < i ==> !bar_holds(
                #[trigger] b.bar_times[j],
                spec_shifted_of((spec_ms_of_day(bar.begin as int) + b.barsz_sec * 1000) % (MS_PER_DAY as int)),
            ),
    ensures
        ({
            let b1 = b.pre_bar_step(bar);
            &&& b1.cache.last_bar_index == i
            &&& b1.last_bar is Some
            &&& b1.last_bar.unwrap().begin == bar.begin
            &&& b1.last_bar.unwrap().open == bar.open
            &&& b1.last_bar.unwrap().high == bar.high
            &&& b1.last_bar.unwrap().low == bar.low
            &&& b1.last_bar.unwrap().close == bar.close
            &&& b1.last_bar.unwrap().volume == bar.volume
            &&& !b1.last_bar.unwrap().created_this_tick
            &&& b1.cache.last_bar_close == bar.close
        }),
{
    reveal(SingleState::pre_bar_step);
    let e = spec_shifted_of((spec_ms_of_day(bar.begin as int) + b.barsz_sec * 1000) % (MS_PER_DAY as int));
    lemma_search_end_holds(b.bar_times, e);
}

} // verus!
