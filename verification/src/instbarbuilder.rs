//! The builder of the bars of all bar sizes of one instrument.
use vstd::prelude::*;
use crate::bartime::BarTime;
use crate::clock::{SECS_PER_DAY, valid_datetime};
use crate::data_impl::{BarData, TickData};
use crate::bartime::bar_times_ok;
use crate::singlebarbuilder::{BarBuilderError, fresh_state, lemma_timer_step_keeps};
use std::collections::HashMap;
use vstd::std_specs::iter::IteratorSpec;
use crate::singlebarbuilder::{
    SingleBarBuilder, SingleState, lemma_check_step_keeps, lemma_create_step_keeps, lemma_pre_bar_step_keeps, valid_tick,
};
use crate::singlebarbuilder::{
    lemma_check_step_sound, lemma_create_step_sound, lemma_pre_bar_step_sound, lemma_check_step_bars,
    lemma_create_step_new_only,
    lemma_timer_closes_overdue, lemma_timer_step_sound, prices_in_order, sound_closed_bar,
};

verus! {

/// The state of an instrument's builder, as contracts speak of it.
pub struct InstState {
    pub inst: Seq<char>,
    /// One builder per bar size, smallest size first.
    pub builders: Seq<SingleState>,
    /// End of the latest bars closed by a tick.
    pub bar_end_time: i64,
    pub zero_vol_bar: bool,
}

impl InstState {
    pub open spec fn wf(self) -> bool {
        &&& forall|i: int| 0 <= i < self.builders.len() ==> {
            let b = #[trigger] self.builders[i];
            &&& b.wf()
            &&& b.zero_vol_bar == self.zero_vol_bar
            &&& b.closed_this_tick is None
            &&& b.zerovol_bars.len() == 0
        }
        &&& forall|i: int, j: int|
            0 <= i < j < self.builders.len() ==> (#[trigger] self.builders[i]).barsz_sec
                < (#[trigger] self.builders[j]).barsz_sec
    }
}

/// A bar, or none, as a sequence.
pub open spec fn opt_seq(o: Option<BarData>) -> Seq<BarData> {
    match o {
        Some(b) => seq![b],
        None => Seq::empty(),
    }
}

/// The bar being built, no longer new.
pub open spec fn clear_created(b: SingleState) -> SingleState {
    SingleState {
        last_bar: match b.last_bar {
            Some(x) => Some(BarData { created_this_tick: false, ..x }),
            None => None,
        },
        ..b
    }
}

/// What one builder does with a tick, as the instrument's builder drives it.
pub struct TickOutcome {
    /// After placing the tick, the closed bar and the zero-volume bars taken.
    pub after_check: SingleState,
    /// Whether a bar is to be created for the tick.
    pub create: bool,
    /// The bar that placing the tick closed.
    pub closed_bar: Option<BarData>,
    /// End of the latest bar when the bar was closed.
    pub closed_end: i64,
    /// The zero-volume bars that placing the tick made.
    pub zero_bars: Seq<BarData>,
    /// After creating the bar, where one is to be created.
    pub after_create: SingleState,
    /// The final state of the builder.
    pub state: SingleState,
}

/// What a builder `b` does with `tick`.
pub open spec fn builder_tick(b: SingleState, tick: TickData, zero_vol_bar: bool) -> TickOutcome {
    let (b1, create) = b.check_step(tick);
    let b1c = SingleState {
        closed_this_tick: None,
        zerovol_bars: if zero_vol_bar { Seq::empty() } else { b1.zerovol_bars },
        ..b1
    };
    let b2 = if create {
        b1c.create_step(tick)
    } else {
        b1c
    };
    TickOutcome {
        after_check: b1c,
        create,
        closed_bar: b1.closed_this_tick,
        closed_end: b1.cache.last_bar_end,
        zero_bars: b1.zerovol_bars,
        after_create: b2,
        state: clear_created(b2),
    }
}

/// The closed bar a builder hands out for a tick: only one with volume,
/// unless zero-volume bars are made.
pub open spec fn handed_out(o: TickOutcome, zero_vol_bar: bool) -> Seq<BarData> {
    match o.closed_bar {
        Some(c) => if c.volume > 0 || zero_vol_bar {
            seq![c]
        } else {
            Seq::empty()
        },
        None => Seq::empty(),
    }
}

/// The zero-volume bars a builder hands out for a tick.
pub open spec fn zeros_handed_out(o: TickOutcome, zero_vol_bar: bool) -> Seq<BarData> {
    if zero_vol_bar {
        o.zero_bars
    } else {
        Seq::empty()
    }
}

/// The end of the bars closed by a tick: the smallest end, when a bar
/// closed, of the builders that closed one.
pub open spec fn closed_ends(outs: Seq<TickOutcome>) -> Option<i64>
    decreases outs.len(),
{
    if outs.len() == 0 {
        None
    } else {
        let before = closed_ends(outs.drop_last());
        let o = outs.last();
        if o.closed_bar is Some {
            match before {
                Some(e) => Some(if o.closed_end < e { o.closed_end } else { e }),
                None => Some(o.closed_end),
            }
        } else {
            before
        }
    }
}

impl InstState {
    /// What each builder does with `tick`.
    pub open spec fn tick_outcomes(self, tick: TickData) -> Seq<TickOutcome> {
        Seq::new(self.builders.len(), |i: int| builder_tick(self.builders[i], tick, self.zero_vol_bar))
    }

    /// The bars a tick closes: of each builder, smallest size first, the bar
    /// it closed and then the zero-volume bars it made.
    pub open spec fn tick_closed(self, tick: TickData) -> Seq<BarData> {
        let outs = self.tick_outcomes(tick);
        Seq::new(
            outs.len(),
            |i: int| handed_out(outs[i], self.zero_vol_bar) + zeros_handed_out(outs[i], self.zero_vol_bar),
        ).flatten_alt()
    }

    /// The bars being built after a tick, smallest size first.
    pub open spec fn tick_updated(self, tick: TickData) -> Seq<BarData> {
        let outs = self.tick_outcomes(tick);
        Seq::new(outs.len(), |i: int| opt_seq(outs[i].after_create.last_bar)).flatten_alt()
    }

    /// Whether the tick falls in the trading session: in some bar of every
    /// bar size.
    pub open spec fn tick_in_session(self, tick: TickData) -> bool {
        forall|i: int| 0 <= i < self.builders.len() ==> #[trigger] self.tick_outcomes(tick)[i].after_check.tick_idx >= 0
    }

    /// The bars the timer closes: of each builder, smallest size first, the
    /// bar closed and then the zero-volume bars made.
    pub open spec fn timer_closed(self, now: int, threshold: int) -> Seq<BarData> {
        Seq::new(
            self.builders.len(),
            |i: int|
                {
                    let t = self.builders[i].timer_step(now, threshold);
                    opt_seq(t.closed_this_tick) + t.zerovol_bars
                },
        ).flatten_alt()
    }

    /// The state after the timer.
    pub open spec fn timer_state(self, now: int, threshold: int) -> InstState {
        InstState {
            builders: Seq::new(
                self.builders.len(),
                |i: int|
                    SingleState {
                        closed_this_tick: None,
                        zerovol_bars: Seq::empty(),
                        ..self.builders[i].timer_step(now, threshold)
                    },
            ),
            ..self
        }
    }

    /// A bar to continue from is given for builder `i`, but a tick came to it
    /// already (or a bar was set already).
    pub open spec fn pre_bar_refused(self, pre_bars: Map<u32, BarData>, i: int) -> bool {
        pre_bars.contains_key(self.builders[i].barsz_sec) && self.builders[i].started()
    }

    /// No builder up to `j` refuses its bar.
    pub open spec fn no_refusal_upto(self, pre_bars: Map<u32, BarData>, j: int) -> bool {
        forall|i: int| 0 <= i <= j ==> !#[trigger] self.pre_bar_refused(pre_bars, i)
    }

    /// The builders after `set_pre_bars`: in order of size, each given a bar
    /// takes it, until one refuses; that one and those after are unchanged.
    pub open spec fn pre_bars_state(self, pre_bars: Map<u32, BarData>) -> InstState {
        InstState {
            builders: Seq::new(self.builders.len(), |j: int| self.pre_bar_target(pre_bars, j)),
            ..self
        }
    }

    /// Builder `j` after `set_pre_bars`.
    pub open spec fn pre_bar_target(self, pre_bars: Map<u32, BarData>, j: int) -> SingleState {
        let b = self.builders[j];
        if pre_bars.contains_key(b.barsz_sec) && self.no_refusal_upto(pre_bars, j) {
            b.pre_bar_step(pre_bars[b.barsz_sec])
        } else {
            b
        }
    }

    /// The builders without the one of size `barsize`.
    pub open spec fn without_size(self, barsize: u32) -> InstState {
        InstState {
            builders: if exists|i: int| 0 <= i < self.builders.len() && #[trigger] self.builders[i].barsz_sec == barsize {
                self.builders.remove(
                    choose|i: int| 0 <= i < self.builders.len() && #[trigger] self.builders[i].barsz_sec == barsize,
                )
            } else {
                self.builders
            },
            ..self
        }
    }

    /// The state after a tick.
    pub open spec fn tick_step(self, tick: TickData) -> InstState {
        let outs = self.tick_outcomes(tick);
        InstState {
            builders: Seq::new(outs.len(), |i: int| outs[i].state),
            bar_end_time: match closed_ends(outs) {
                Some(e) => e,
                None => self.bar_end_time,
            },
            ..self
        }
    }
}

proof fn lemma_flatten_alt_empties(parts: Seq<Seq<BarData>>)
    requires
        forall|j: int| 0 <= j < parts.len() ==> (#[trigger] parts[j]).len() == 0,
    ensures
        parts.flatten_alt() == Seq::<BarData>::empty(),
    decreases parts.len(),
{
    if parts.len() > 0 {
        lemma_flatten_alt_empties(parts.drop_last());
        assert(parts.flatten_alt() =~= Seq::<BarData>::empty());
    }
}

/// What a builder's handling of a tick keeps: its bar size, bar times and
/// setting, no closed bar or zero-volume bars left behind (none are made
/// where they are not asked for), and that a tick was given; a bar is
/// created only for a tick in some bar.
proof fn lemma_builder_tick(b: SingleState, tick: TickData, zero_vol_bar: bool)
    requires
        b.wf(),
        b.zero_vol_bar == zero_vol_bar,
        b.closed_this_tick is None,
        b.zerovol_bars.len() == 0,
    ensures
        ({
            let o = builder_tick(b, tick, zero_vol_bar);
            &&& o.create ==> o.after_check.tick_idx >= 0
            &&& o.after_check.barsz_sec == b.barsz_sec
            &&& o.after_check.zero_vol_bar == b.zero_vol_bar
            &&& o.after_check.zerovol_bars.len() == 0
            &&& !zero_vol_bar ==> o.zero_bars.len() == 0
            &&& o.after_create.barsz_sec == b.barsz_sec
            &&& o.after_create.zero_vol_bar == b.zero_vol_bar
            &&& o.after_create.zerovol_bars.len() == 0
            &&& o.after_create.closed_this_tick is None
            &&& o.state.barsz_sec == b.barsz_sec
            &&& o.state.zero_vol_bar == b.zero_vol_bar
            &&& o.state.closed_this_tick is None
            &&& o.state.zerovol_bars.len() == 0
            &&& o.state.ticked
        }),
{
    lemma_check_step_keeps(b, tick);
    let o = builder_tick(b, tick, zero_vol_bar);
    lemma_create_step_keeps(o.after_check, tick);
}

/// The builder of the bars of all bar sizes of one instrument.
pub struct InstBarBuilder {
    inst: String,
    /// One builder per bar size, smallest size first.
    single_bb_map: Vec<SingleBarBuilder>,
    /// End of the latest bars closed by a tick.
    bar_end_time: i64,
    /// Whether bars with no trade are made.  Not to be turned on where the
    /// session of the instrument is not known for sure (a stand-in session
    /// would make bars that never traded).
    zero_vol_bar: bool,
}

impl View for InstBarBuilder {
    type V = InstState;

    closed spec fn view(&self) -> InstState {
        InstState {
            inst: self.inst@,
            builders: self.single_bb_map@.map_values(|b: SingleBarBuilder| b@),
            bar_end_time: self.bar_end_time,
            zero_vol_bar: self.zero_vol_bar,
        }
    }
}

impl InstBarBuilder {
    /// Hands a tick to the builders of every bar size: bars that the tick
    /// closes are appended to `closed_this_tick` (then the zero-volume bars
    /// made), and, where `realtime_feed`, the bars being built after the tick
    /// to `updated_this_tick`; smaller sizes come first.  Returns whether the
    /// tick falls in the instrument's trading session.
    pub fn on_tick(
        &mut self,
        tick: &TickData,
        closed_this_tick: &mut Vec<BarData>,
        updated_this_tick: &mut Vec<BarData>,
        realtime_feed: bool,
    ) -> (r: bool)
        requires
            old(self)@.wf(),
            valid_tick(*tick),
        ensures
            final(self)@ == old(self)@.tick_step(*tick),
            final(self)@.wf(),
            final(closed_this_tick)@ == old(closed_this_tick)@ + old(self)@.tick_closed(*tick),
            final(updated_this_tick)@ == (if realtime_feed {
                old(updated_this_tick)@ + old(self)@.tick_updated(*tick)
            } else {
                old(updated_this_tick)@
            }),
            r == old(self)@.tick_in_session(*tick),
    {
        let ghost s0 = self@;
        let ghost outs = s0.tick_outcomes(*tick);
        let ghost zvb = s0.zero_vol_bar;
        let ghost parts = Seq::new(
            outs.len(),
            |j: int| handed_out(outs[j], zvb) + zeros_handed_out(outs[j], zvb),
        );
        let n = self.single_bb_map.len();
        let mut need_create: Vec<bool> = Vec::new();
        let mut tick_time_in_session = true;
        let mut bar_end_time_assigned = false;
        let mut i: usize = 0;
        while i < n
            invariant
                n == self.single_bb_map@.len(),
                s0.wf(),
                outs == s0.tick_outcomes(*tick),
                parts == Seq::new(
                    outs.len(),
                    |j: int| handed_out(outs[j], zvb) + zeros_handed_out(outs[j], zvb),
                ),
                n == s0.builders.len(),
                valid_tick(*tick),
                zvb == s0.zero_vol_bar,
                self.zero_vol_bar == zvb,
                self.inst@ == s0.inst,
                i <= n,
                forall|j: int| 0 <= j < i ==> (#[trigger] self.single_bb_map@[j])@ == outs[j].after_check,
                forall|j: int| 0 <= j < i ==> (#[trigger] outs[j]).after_check.wf(),
                forall|j: int| i <= j < n ==> (#[trigger] self.single_bb_map@[j])@ == s0.builders[j],
                need_create@ == Seq::new(i as nat, |j: int| outs[j].create),
                tick_time_in_session == (forall|j: int| 0 <= j < i ==> #[trigger] outs[j].after_check.tick_idx >= 0),
                closed_this_tick@ == old(closed_this_tick)@ + parts.take(i as int).flatten_alt(),
                bar_end_time_assigned == closed_ends(outs.take(i as int)) is Some,
                bar_end_time_assigned ==> self.bar_end_time == closed_ends(outs.take(i as int)).unwrap(),
                !bar_end_time_assigned ==> self.bar_end_time == s0.bar_end_time,
            decreases n - i,
        {
            proof {
                assert(outs[i as int] == builder_tick(s0.builders[i as int], *tick, zvb));
                lemma_builder_tick(s0.builders[i as int], *tick, zvb);
            }
            let ghost before = closed_this_tick@;
            let create = self.single_bb_map[i].check_exists_bar(tick);
            need_create.push(create);
            let ti = self.single_bb_map[i].tick_idx();
            let ghost was_in = tick_time_in_session;
            if ti < 0 {
                tick_time_in_session = false;
            }
            let opt = self.single_bb_map[i].take_closed_this_tick();
            if let Some(bar) = opt {
                let end = self.single_bb_map[i].last_bar_end();
                if !bar_end_time_assigned {
                    self.bar_end_time = end;
                    bar_end_time_assigned = true;
                } else if end < self.bar_end_time {
                    self.bar_end_time = end;
                }
                if bar.volume > 0 || self.zero_vol_bar {
                    closed_this_tick.push(bar);
                }
            }
            proof {
                assert(closed_this_tick@ =~= before + handed_out(outs[i as int], zvb));
            }
            if self.zero_vol_bar {
                let mut zeros = self.single_bb_map[i].take_zerovol_bars();
                closed_this_tick.append(&mut zeros);
            }
            proof {
                assert(self.single_bb_map@[i as int]@ == outs[i as int].after_check);
                assert(closed_this_tick@ =~= before + parts[i as int]);
                assert(outs[i as int].after_check.tick_idx == ti);
                assert(tick_time_in_session == (was_in && outs[i as int].after_check.tick_idx >= 0));
                if tick_time_in_session {
                    assert forall|j: int| 0 <= j < i + 1 implies #[trigger] outs[j].after_check.tick_idx >= 0 by {
                        if j < i {
                        }
                    }
                }
                assert(outs.take(i + 1).drop_last() =~= outs.take(i as int));
                assert(parts.take(i + 1).drop_last() =~= parts.take(i as int));
                assert(need_create@ =~= Seq::new((i + 1) as nat, |j: int| outs[j].create));
            }
            i += 1;
        }
        proof {
            assert(outs.take(n as int) =~= outs);
            assert(parts.take(n as int) =~= parts);
        }
        let ghost end1 = self.bar_end_time;
        i = 0;
        while i < n
            invariant
                n == self.single_bb_map@.len(),
                outs == s0.tick_outcomes(*tick),
                n == s0.builders.len(),
                s0.wf(),
                valid_tick(*tick),
                need_create@ == Seq::new(n as nat, |j: int| outs[j].create),
                i <= n,
                self.zero_vol_bar == zvb,
                zvb == s0.zero_vol_bar,
                self.inst@ == s0.inst,
                self.bar_end_time == end1,
                forall|j: int| 0 <= j < i ==> (#[trigger] self.single_bb_map@[j])@ == outs[j].after_create,
                forall|j: int| 0 <= j < i ==> (#[trigger] outs[j]).after_create.wf(),
                forall|j: int| i <= j < n ==> (#[trigger] self.single_bb_map@[j])@ == outs[j].after_check,
                forall|j: int| 0 <= j < n ==> (#[trigger] outs[j]).after_check.wf(),
            decreases n - i,
        {
            proof {
                lemma_builder_tick(s0.builders[i as int], *tick, zvb);
            }
            if need_create[i] {
                self.single_bb_map[i].create_new_bar(tick);
            }
            i += 1;
        }
        i = 0;
        let ghost updated_before = updated_this_tick@;
        while i < n
            invariant
                n == self.single_bb_map@.len(),
                outs == s0.tick_outcomes(*tick),
                n == s0.builders.len(),
                i <= n,
                forall|j: int| 0 <= j < i ==> (#[trigger] self.single_bb_map@[j])@ == outs[j].state,
                forall|j: int| i <= j < n ==> (#[trigger] self.single_bb_map@[j])@ == outs[j].after_create,
                forall|j: int| 0 <= j < n ==> (#[trigger] outs[j]).after_create.wf(),
                self.zero_vol_bar == s0.zero_vol_bar,
                self.inst@ == s0.inst,
                self.bar_end_time == end1,
                updated_this_tick@ == (if realtime_feed {
                    updated_before + Seq::new(i as nat, |j: int| opt_seq(outs[j].after_create.last_bar)).flatten_alt()
                } else {
                    updated_before
                }),
            decreases n - i,
        {
            if realtime_feed {
                if let Some(bar) = self.single_bb_map[i].last_bar() {
                    updated_this_tick.push(bar);
                }
                proof {
                    assert(Seq::new((i + 1) as nat, |j: int| opt_seq(outs[j].after_create.last_bar)).drop_last()
                        =~= Seq::new(i as nat, |j: int| opt_seq(outs[j].after_create.last_bar)));
                }
            }
            self.single_bb_map[i].clear_created_flag();
            i += 1;
        }
        proof {
            assert(self@.builders =~= s0.tick_step(*tick).builders);
            assert(self@.bar_end_time == s0.tick_step(*tick).bar_end_time);
            assert(self@.inst == s0.inst);
            assert(self@.zero_vol_bar == s0.zero_vol_bar);
            assert forall|j: int| 0 <= j < n implies {
                let b = #[trigger] self@.builders[j];
                &&& b.wf()
                &&& b.zero_vol_bar == self@.zero_vol_bar
                &&& b.closed_this_tick is None
                &&& b.zerovol_bars.len() == 0
            } by {
                lemma_builder_tick(s0.builders[j], *tick, zvb);
                assert(self@.builders[j] == outs[j].state);
                assert(outs[j].after_create.wf());
            }
            assert forall|j: int, k: int| 0 <= j < k < n implies (#[trigger] self@.builders[j]).barsz_sec
                < (#[trigger] self@.builders[k]).barsz_sec by {
                lemma_builder_tick(s0.builders[j], *tick, zvb);
                lemma_builder_tick(s0.builders[k], *tick, zvb);
                assert(s0.builders[j].barsz_sec < s0.builders[k].barsz_sec);
            }
        }
        tick_time_in_session
    }
}

/// The entry of bar size `sz` is as given, if given.
pub open spec fn pre_bars_entry_kept(now: Map<u32, BarData>, given: Map<u32, BarData>, sz: u32) -> bool {
    &&& now.contains_key(sz) == given.contains_key(sz)
    &&& given.contains_key(sz) ==> now[sz] == given[sz]
}

/// `v` is strictly increasing.
pub open spec fn strictly_increasing(v: Seq<u32>) -> bool {
    forall|i: int, j: int| 0 <= i < j < v.len() ==> #[trigger] v[i] < #[trigger] v[j]
}

/// Puts `k` into the increasing `v`, where it is not yet.
#[verifier::spinoff_prover]
fn insert_size(v: &mut Vec<u32>, k: u32)
    requires
        strictly_increasing(old(v)@),
    ensures
        strictly_increasing(final(v)@),
        forall|x: u32| final(v)@.contains(x) <==> (old(v)@.contains(x) || x == k),
{
    let n = v.len();
    let mut pos: usize = 0;
    while pos < n && v[pos] < k
        invariant
            n == v@.len(),
            v@ == old(v)@,
            pos <= n,
            forall|j: int| 0 <= j < pos ==> #[trigger] v@[j] < k,
        decreases n - pos,
    {
        pos += 1;
    }
    if pos < n && v[pos] == k {
        assert(v@[pos as int] == k);
        return;
    }
    let ghost old_v = v@;
    v.insert(pos, k);
    proof {
        assert(old_v == old(v)@);
        assert(v@ == old_v.insert(pos as int, k));
        assert forall|i: int, j: int| 0 <= i < j < v@.len() implies #[trigger] v@[i] < #[trigger] v@[j] by {
            if j < pos {
            } else if i < pos && j == pos {
            } else if i < pos {
                assert(old_v[i] < old_v[j - 1]);
            } else if i == pos {
                assert(k < old_v[pos as int]);
                if j > pos + 1 {
                    assert(old_v[pos as int] < old_v[j - 1]);
                }
            } else {
                assert(old_v[i - 1] < old_v[j - 1]);
            }
        }
        assert forall|x: u32| #[trigger] v@.contains(x) <==> (old_v.contains(x) || x == k) by {
            if v@.contains(x) {
                let i = choose|i: int| 0 <= i < v@.len() && v@[i] == x;
                if i < pos {
                    assert(old_v[i] == x);
                } else if i > pos {
                    assert(old_v[i - 1] == x);
                }
            }
            if old_v.contains(x) {
                let i = choose|i: int| 0 <= i < old_v.len() && old_v[i] == x;
                if i < pos {
                    assert(v@[i] == x);
                } else {
                    assert(v@[i + 1] == x);
                }
            }
            if x == k {
                assert(v@[pos as int] == x);
            }
        }
    }
}

impl InstBarBuilder {
    /// A builder from the bar times of each bar size: one builder per size,
    /// smallest first; sizes of a day or more are dropped.
    pub fn new(inst: &str, barsz_vs_bartime_map: HashMap<u32, Vec<BarTime>>, zero_vol_bar: bool) -> (r: Self)
        requires
            forall|k: u32|
                #[trigger] barsz_vs_bartime_map@.contains_key(k) && k < SECS_PER_DAY ==> 0 < k
                    && bar_times_ok(barsz_vs_bartime_map@[k]@),
        ensures
            r@.wf(),
            r@.inst == inst@,
            r@.zero_vol_bar == zero_vol_bar,
            r@.bar_end_time == 0,
            forall|i: int| 0 <= i < r@.builders.len() ==> {
                let b = #[trigger] r@.builders[i];
                &&& barsz_vs_bartime_map@.contains_key(b.barsz_sec)
                &&& b.barsz_sec < SECS_PER_DAY
                &&& b == fresh_state(inst@, b.barsz_sec, barsz_vs_bartime_map@[b.barsz_sec]@, zero_vol_bar)
            },
            forall|k: u32|
                #[trigger] barsz_vs_bartime_map@.contains_key(k) && k < SECS_PER_DAY ==> exists|i: int|
                    0 <= i < r@.builders.len() && #[trigger] r@.builders[i].barsz_sec == k,
    {
        broadcast use vstd::std_specs::hash::group_hash_axioms;
        let mut map = barsz_vs_bartime_map;
        let ghost m0 = map@;
        let mut sizes: Vec<u32> = Vec::new();
        let ghost all = vstd::std_specs::hash::spec_keys_iter(&map).remaining().unref();
        let ghost mut seen: Seq<u32> = Seq::empty();
        for k in it: map.keys()
            invariant
                map@ == m0,
                all.to_set() == m0.dom(),
                it.seq().unref() == all,
                seen == all.take(it.index() as int),
                strictly_increasing(sizes@),
                forall|i: int| 0 <= i < sizes@.len() ==> #[trigger] sizes@[i] < SECS_PER_DAY && m0.contains_key(sizes@[i]),
                forall|j: int| 0 <= j < seen.len() && seen[j] < SECS_PER_DAY ==> sizes@.contains(#[trigger] seen[j]),
        {
            proof {
                assert(*k == all[seen.len() as int]);
                assert(all.to_set().contains(*k));
            }
            let ghost before = sizes@;
            if *k < SECS_PER_DAY {
                insert_size(&mut sizes, *k);
                proof {
                    assert forall|i: int| 0 <= i < sizes@.len() implies #[trigger] sizes@[i] < SECS_PER_DAY
                        && m0.contains_key(sizes@[i]) by {
                        assert(sizes@.contains(sizes@[i]));
                        if sizes@[i] != *k {
                            assert(before.contains(sizes@[i]));
                        }
                    }
                }
            }
            proof {
                seen = seen.push(*k);
            }
        }
        let ghost sz = sizes@;
        proof {
            assert(seen.len() == all.len());
            assert forall|k: u32| #[trigger] m0.contains_key(k) && k < SECS_PER_DAY implies sz.contains(k) by {
                assert(all.to_set().contains(k));
                let j = choose|j: int| 0 <= j < all.len() && all[j] == k;
                assert(seen[j] == k);
            }
        }
        let mut builders: Vec<SingleBarBuilder> = Vec::new();
        let mut i: usize = 0;
        while i < sizes.len()
            invariant
                sizes@ == sz,
                strictly_increasing(sz),
                forall|t: int| 0 <= t < sz.len() ==> #[trigger] sz[t] < SECS_PER_DAY && m0.contains_key(sz[t]),
                forall|t: int| i <= t < sz.len() ==> map@.contains_key(#[trigger] sz[t]) && map@[sz[t]] == m0[sz[t]],
                forall|k: u32| #[trigger] m0.contains_key(k) && k < SECS_PER_DAY ==> 0 < k && bar_times_ok(m0[k]@),
                i <= sz.len(),
                builders@.len() == i,
                forall|t: int| 0 <= t < i ==> (#[trigger] builders@[t])@ == fresh_state(inst@, sz[t], m0[sz[t]]@, zero_vol_bar),
            decreases sz.len() - i,
        {
            let k = sizes[i];
            let ghost before = map@;
            let v = map.remove(&k);
            proof {
                assert forall|t: int| i + 1 <= t < sz.len() implies map@.contains_key(#[trigger] sz[t]) && map@[sz[t]] == m0[sz[t]] by {
                    assert(sz[i as int] < sz[t]);
                    assert(before.contains_key(sz[t]));
                }
            }
            let bars = match v {
                Some(bars) => bars,
                None => Vec::new(),
            };
            assert(bars@ == m0[k]@);
            builders.push(SingleBarBuilder::new(inst, k, bars, zero_vol_bar));
            i += 1;
        }
        let r = InstBarBuilder { inst: inst.to_owned(), single_bb_map: builders, bar_end_time: 0, zero_vol_bar };
        proof {
            assert forall|t: int| 0 <= t < r@.builders.len() implies {
                let b = #[trigger] r@.builders[t];
                &&& barsz_vs_bartime_map@.contains_key(b.barsz_sec)
                &&& b.barsz_sec < SECS_PER_DAY
                &&& b == fresh_state(inst@, b.barsz_sec, barsz_vs_bartime_map@[b.barsz_sec]@, zero_vol_bar)
            } by {
                assert(r@.builders[t] == builders@[t]@);
            }
            assert forall|k: u32|
                #[trigger] barsz_vs_bartime_map@.contains_key(k) && k < SECS_PER_DAY implies exists|t: int|
                    0 <= t < r@.builders.len() && #[trigger] r@.builders[t].barsz_sec == k by {
                let t = choose|t: int| 0 <= t < sz.len() && sz[t] == k;
                assert(r@.builders[t] == builders@[t]@);
            }
            assert forall|t: int| 0 <= t < r@.builders.len() implies {
                let b = #[trigger] r@.builders[t];
                &&& b.wf()
                &&& b.zero_vol_bar == r@.zero_vol_bar
                &&& b.closed_this_tick is None
                &&& b.zerovol_bars.len() == 0
            } by {
                assert(r@.builders[t] == builders@[t]@);
            }
            assert forall|t: int, u: int| 0 <= t < u < r@.builders.len() implies (#[trigger] r@.builders[t]).barsz_sec
                < (#[trigger] r@.builders[u]).barsz_sec by {
                assert(r@.builders[t] == builders@[t]@);
                assert(r@.builders[u] == builders@[u]@);
            }
        }
        r
    }

    pub fn inst(&self) -> (r: &str)
        ensures
            r@ == self@.inst,
    {
        self.inst.as_str()
    }
}

impl InstBarBuilder {
    /// Closes the bars of each size whose end is at least `threshold`
    /// milliseconds before `now`, and makes the zero-volume bars that have
    /// passed (see `SingleBarBuilder::on_timer`); they are appended to
    /// `closed_bars`, smaller sizes first.  Not to be called outside the
    /// trading day.
    pub fn on_timer(&mut self, now: i64, threshold: i64, closed_bars: &mut Vec<BarData>)
        requires
            old(self)@.wf(),
            valid_datetime(now - threshold),
            valid_datetime(now - threshold - 1),
        ensures
            final(self)@ == old(self)@.timer_state(now as int, threshold as int),
            final(self)@.wf(),
            final(closed_bars)@ == old(closed_bars)@ + old(self)@.timer_closed(now as int, threshold as int),
    {
        let ghost s0 = self@;
        let ghost parts = Seq::new(
            s0.builders.len(),
            |i: int|
                {
                    let t = s0.builders[i].timer_step(now as int, threshold as int);
                    opt_seq(t.closed_this_tick) + t.zerovol_bars
                },
        );
        let n = self.single_bb_map.len();
        let mut i: usize = 0;
        while i < n
            invariant
                n == self.single_bb_map@.len(),
                n == s0.builders.len(),
                s0 == old(self)@,
                s0.wf(),
                valid_datetime(now - threshold),
                valid_datetime(now - threshold - 1),
                parts == Seq::new(
                    s0.builders.len(),
                    |i: int|
                        {
                            let t = s0.builders[i].timer_step(now as int, threshold as int);
                            opt_seq(t.closed_this_tick) + t.zerovol_bars
                        },
                ),
                self.inst@ == s0.inst,
                self.zero_vol_bar == s0.zero_vol_bar,
                self.bar_end_time == s0.bar_end_time,
                i <= n,
                forall|j: int| 0 <= j < i ==> (#[trigger] self.single_bb_map@[j])@ == s0.timer_state(now as int, threshold as int).builders[j],
                forall|j: int| 0 <= j < i ==> (#[trigger] self.single_bb_map@[j])@.wf(),
                forall|j: int| i <= j < n ==> (#[trigger] self.single_bb_map@[j])@ == s0.builders[j],
                closed_bars@ == old(closed_bars)@ + parts.take(i as int).flatten_alt(),
            decreases n - i,
        {
            proof {
                assert(self.single_bb_map@[i as int]@ == s0.builders[i as int]);
            }
            self.single_bb_map[i].on_timer(now, threshold);
            let ghost t = s0.builders[i as int].timer_step(now as int, threshold as int);
            let closed = self.single_bb_map[i].take_closed_this_tick();
            if let Some(bar) = closed {
                closed_bars.push(bar);
            }
            let mut zeros = self.single_bb_map[i].take_zerovol_bars();
            closed_bars.append(&mut zeros);
            proof {
                assert(parts.take(i + 1).drop_last() =~= parts.take(i as int));
                assert(parts[i as int] == opt_seq(t.closed_this_tick) + t.zerovol_bars);
                assert(closed_bars@ =~= old(closed_bars)@ + parts.take(i + 1).flatten_alt());
            }
            i += 1;
        }
        proof {
            assert(parts.take(n as int) =~= parts);
            assert(self@.builders =~= s0.timer_state(now as int, threshold as int).builders);
            assert forall|j: int| 0 <= j < n implies {
                let b = #[trigger] self@.builders[j];
                &&& b.wf()
                &&& b.zero_vol_bar == self@.zero_vol_bar
                &&& b.closed_this_tick is None
                &&& b.zerovol_bars.len() == 0
            } by {
                lemma_timer_step_keeps(s0.builders[j], now as int, threshold as int);
                assert(self@.builders[j] == self.single_bb_map@[j]@);
            }
            assert forall|j: int, k: int| 0 <= j < k < n implies (#[trigger] self@.builders[j]).barsz_sec
                < (#[trigger] self@.builders[k]).barsz_sec by {
                lemma_timer_step_keeps(s0.builders[j], now as int, threshold as int);
                lemma_timer_step_keeps(s0.builders[k], now as int, threshold as int);
                assert(s0.builders[j].barsz_sec < s0.builders[k].barsz_sec);
            }
        }
    }

    /// Closes the bars that end by `force_end_time`, as `on_timer` with no
    /// threshold.
    pub fn force_finish(&mut self, force_end_time: i64, force_closed: &mut Vec<BarData>)
        requires
            old(self)@.wf(),
            valid_datetime(force_end_time as int),
            valid_datetime(force_end_time - 1),
        ensures
            final(self)@ == old(self)@.timer_state(force_end_time as int, 0),
            final(self)@.wf(),
            final(force_closed)@ == old(force_closed)@ + old(self)@.timer_closed(force_end_time as int, 0),
    {
        self.on_timer(force_end_time, 0, force_closed);
    }

    /// Drops the builder of one bar size, where there is one.
    pub fn remove_barsize(&mut self, barsize: u32)
        requires
            old(self)@.wf(),
        ensures
            final(self)@ == old(self)@.without_size(barsize),
            final(self)@.wf(),
    {
        let ghost s0 = self@;
        let n = self.single_bb_map.len();
        let mut i: usize = 0;
        while i < n
            invariant
                n == self.single_bb_map@.len(),
                self@ == s0,
                s0 == old(self)@,
                s0.wf(),
                n == s0.builders.len(),
                i <= n,
                forall|j: int| 0 <= j < i ==> #[trigger] s0.builders[j].barsz_sec != barsize,
            decreases n - i,
        {
            proof {
                assert(self@.builders[i as int] == self.single_bb_map@[i as int]@);
            }
            if self.single_bb_map[i].barsz_sec() == barsize {
                let _removed = self.single_bb_map.remove(i);
                proof {
                    let c = choose|c: int| 0 <= c < s0.builders.len() && #[trigger] s0.builders[c].barsz_sec == barsize;
                    if c != i {
                        if c < i {
                        } else {
                            assert(s0.builders[i as int].barsz_sec < s0.builders[c].barsz_sec);
                        }
                    }
                    assert(self@.builders =~= s0.builders.remove(i as int));
                    assert forall|j: int| 0 <= j < self@.builders.len() implies {
                        let b = #[trigger] self@.builders[j];
                        &&& b.wf()
                        &&& b.zero_vol_bar == self@.zero_vol_bar
                        &&& b.closed_this_tick is None
                        &&& b.zerovol_bars.len() == 0
                    } by {
                        if j < i {
                            assert(self@.builders[j] == s0.builders[j]);
                        } else {
                            assert(self@.builders[j] == s0.builders[j + 1]);
                        }
                    }
                    assert forall|j: int, k: int| 0 <= j < k < self@.builders.len() implies (#[trigger] self@.builders[j]).barsz_sec
                        < (#[trigger] self@.builders[k]).barsz_sec by {
                        let jj = if j < i { j } else { j + 1 };
                        let kk = if k < i { k } else { k + 1 };
                        assert(self@.builders[j] == s0.builders[jj]);
                        assert(self@.builders[k] == s0.builders[kk]);
                    }
                }
                return;
            }
            i += 1;
        }
    }

    /// Sets bars to continue from, by bar size (see
    /// `SingleBarBuilder::set_pre_bar`); only before any tick.  Builders take
    /// their bars in order of size; where one refuses, the error comes back
    /// and it and those after are left as they were.
    pub fn set_pre_bars(&mut self, pre_bars: HashMap<u32, BarData>) -> (r: Result<(), BarBuilderError>)
        requires
            old(self)@.wf(),
            forall|k: u32| #[trigger] pre_bars@.contains_key(k) ==> valid_datetime(pre_bars@[k].begin as int),
        ensures
            final(self)@ == old(self)@.pre_bars_state(pre_bars@),
            final(self)@.wf(),
            r is Err <==> exists|i: int| 0 <= i < old(self)@.builders.len() && #[trigger] old(self)@.pre_bar_refused(pre_bars@, i),
            r is Err ==> r == Err::<(), BarBuilderError>(BarBuilderError::PreBarAfterTick),
    {
        broadcast use vstd::std_specs::hash::group_hash_axioms;
        let ghost s0 = self@;
        let ghost m0 = pre_bars@;
        let mut pre_bars = pre_bars;
        let n = self.single_bb_map.len();
        let mut i: usize = 0;
        let mut result: Result<(), BarBuilderError> = Ok(());
        proof {
            assert forall|j: int| 0 <= j < n implies (#[trigger] self.single_bb_map@[j])@.wf() by {
                assert(self@.builders[j] == self.single_bb_map@[j]@);
            }
        }
        while i < n
            invariant
                n == self.single_bb_map@.len(),
                n == s0.builders.len(),
                s0 == old(self)@,
                s0.wf(),
                forall|k: u32| #[trigger] m0.contains_key(k) ==> valid_datetime(m0[k].begin as int),
                self.inst@ == s0.inst,
                self.zero_vol_bar == s0.zero_vol_bar,
                self.bar_end_time == s0.bar_end_time,
                i <= n,
                result is Ok ==> s0.no_refusal_upto(m0, i - 1),
                result is Err ==> result == Err::<(), BarBuilderError>(BarBuilderError::PreBarAfterTick)
                    && i == n && exists|k: int| 0 <= k < n && #[trigger] s0.pre_bar_refused(m0, k),
                forall|j: int| 0 <= j < n ==> (#[trigger] self.single_bb_map@[j])@.wf(),
                forall|j: int| 0 <= j < i ==> (#[trigger] self.single_bb_map@[j])@ == s0.pre_bar_target(m0, j),
                forall|j: int| i <= j < n ==> (#[trigger] self.single_bb_map@[j])@ == s0.builders[j],
                forall|j: int| i <= j < n ==> pre_bars_entry_kept(pre_bars@, m0, #[trigger] s0.builders[j].barsz_sec),
            decreases n - i,
        {
            proof {
                assert(self.single_bb_map@[i as int]@ == s0.builders[i as int]);
                assert(pre_bars_entry_kept(pre_bars@, m0, s0.builders[i as int].barsz_sec));
            }
            let sz = self.single_bb_map[i].barsz_sec();
            let ghost before = pre_bars@;
            let opt = pre_bars.remove(&sz);
            proof {
                assert(pre_bars@ == before.remove(sz));
                assert forall|j: int| i + 1 <= j < n implies pre_bars_entry_kept(pre_bars@, m0, #[trigger] s0.builders[j].barsz_sec) by {
                    assert(s0.builders[i as int].barsz_sec < s0.builders[j].barsz_sec);
                    assert(pre_bars_entry_kept(before, m0, s0.builders[j].barsz_sec));
                }
            }
            if let Some(pre_bar) = opt {
                let res = self.single_bb_map[i].set_pre_bar(pre_bar);
                if res.is_err() {
                    proof {
                        assert(s0.pre_bar_refused(m0, i as int));
                        assert forall|j: int| i <= j < n implies (#[trigger] self.single_bb_map@[j])@ == s0.pre_bar_target(m0, j) by {
                            assert(!s0.no_refusal_upto(m0, j));
                        }
                    }
                    result = res;
                    i = n;
                    continue;
                }
            }
            proof {
                assert(!s0.pre_bar_refused(m0, i as int));
                assert(s0.no_refusal_upto(m0, i as int));
            }
            i += 1;
        }
        proof {
            assert(self@.builders =~= s0.pre_bars_state(m0).builders) by {
                assert forall|j: int| 0 <= j < n implies self@.builders[j] == s0.pre_bar_target(m0, j) by {
                    assert(self@.builders[j] == self.single_bb_map@[j]@);
                }
            }
            assert forall|j: int| 0 <= j < n implies {
                let b = #[trigger] self@.builders[j];
                &&& b.wf()
                &&& b.zero_vol_bar == self@.zero_vol_bar
                &&& b.closed_this_tick is None
                &&& b.zerovol_bars.len() == 0
            } by {
                assert(self@.builders[j] == self.single_bb_map@[j]@);
                lemma_pre_bar_step_keeps(s0.builders[j], m0[s0.builders[j].barsz_sec]);
            }
            assert forall|j: int, k: int| 0 <= j < k < n implies (#[trigger] self@.builders[j]).barsz_sec
                < (#[trigger] self@.builders[k]).barsz_sec by {
                assert(self@.builders[j] == self.single_bb_map@[j]@);
                assert(self@.builders[k] == self.single_bb_map@[k]@);
                lemma_pre_bar_step_keeps(s0.builders[j], m0[s0.builders[j].barsz_sec]);
                lemma_pre_bar_step_keeps(s0.builders[k], m0[s0.builders[k].barsz_sec]);
                assert(s0.builders[j].barsz_sec < s0.builders[k].barsz_sec);
            }
            if result is Ok {
                if exists|k: int| 0 <= k < n && #[trigger] s0.pre_bar_refused(m0, k) {
                    let k = choose|k: int| 0 <= k < n && #[trigger] s0.pre_bar_refused(m0, k);
                    assert(!s0.pre_bar_refused(m0, k));
                }
            }
        }
        result
    }
}

proof fn lemma_flatten_alt_all(parts: Seq<Seq<BarData>>, p: spec_fn(BarData) -> bool)
    requires
        forall|j: int, k: int| 0 <= j < parts.len() && 0 <= k < parts[j].len() ==> p(#[trigger] parts[j][k]),
    ensures
        forall|k: int| 0 <= k < parts.flatten_alt().len() ==> p(#[trigger] parts.flatten_alt()[k]),
    decreases parts.len(),
{
    if parts.len() > 0 {
        let init = parts.drop_last();
        assert forall|j: int, k: int| 0 <= j < init.len() && 0 <= k < init[j].len() implies p(#[trigger] init[j][k]) by {
            assert(init[j] == parts[j]);
        }
        lemma_flatten_alt_all(init, p);
        let f = parts.flatten_alt();
        let g = init.flatten_alt();
        assert(f == g + parts.last());
        assert forall|k: int| 0 <= k < f.len() implies p(#[trigger] f[k]) by {
            if k < g.len() {
                assert(f[k] == g[k]);
            } else {
                assert(f[k] == parts[parts.len() - 1][k - g.len()]);
            }
        }
    }
}

impl InstState {
    /// The bars being built by every builder have their prices in order.
    pub open spec fn bars_in_order(self) -> bool {
        forall|i: int|
            0 <= i < self.builders.len() && (#[trigger] self.builders[i]).last_bar is Some ==> prices_in_order(
                self.builders[i].last_bar.unwrap(),
            )
    }

    /// The bar sizes of the builders, smallest first.
    pub open spec fn bar_sizes(self) -> Seq<u32> {
        self.builders.map_values(|b: SingleState| b.barsz_sec)
    }
}

/// What a builder's handling of a tick does to sound bars: those it hands
/// out closed are sound, and so are those it keeps building.
proof fn lemma_builder_tick_sound(b: SingleState, tick: TickData, zero_vol_bar: bool)
    requires
        b.wf(),
        b.zero_vol_bar == zero_vol_bar,
        b.closed_this_tick is None,
        b.zerovol_bars.len() == 0,
        b.last_bar is Some ==> prices_in_order(b.last_bar.unwrap()),
    ensures
        ({
            let o = builder_tick(b, tick, zero_vol_bar);
            &&& o.closed_bar is Some ==> sound_closed_bar(o.closed_bar.unwrap())
            &&& forall|k: int| 0 <= k < o.zero_bars.len() ==> sound_closed_bar(#[trigger] o.zero_bars[k])
            &&& o.after_create.last_bar is Some ==> prices_in_order(o.after_create.last_bar.unwrap())
            &&& o.state.last_bar is Some ==> prices_in_order(o.state.last_bar.unwrap())
            &&& o.state.last_bar is Some ==> !o.state.last_bar.unwrap().created_this_tick
        }),
{
    lemma_check_step_sound(b, tick);
    let o = builder_tick(b, tick, zero_vol_bar);
    lemma_create_step_sound(o.after_check, tick);
}

/// A tick hands out sound bars and keeps the bars being built sound: every
/// bar it closes (or makes with no trade) is finished, with its low at most
/// its open and close and those at most its high; without zero-volume bars
/// every closed bar has volume; the bars being built keep their prices in
/// order, none of them counts as new any more, and the bar sizes stay.
pub proof fn lemma_tick_bars_sound(s: InstState, tick: TickData)
    requires
        s.wf(),
        s.bars_in_order(),
    ensures
        forall|k: int|
            0 <= k < s.tick_closed(tick).len() ==> sound_closed_bar(#[trigger] s.tick_closed(tick)[k]),
        !s.zero_vol_bar ==> forall|k: int|
            0 <= k < s.tick_closed(tick).len() ==> (#[trigger] s.tick_closed(tick)[k]).volume > 0,
        forall|k: int|
            0 <= k < s.tick_updated(tick).len() ==> prices_in_order(#[trigger] s.tick_updated(tick)[k]),
        s.tick_step(tick).bars_in_order(),
        forall|i: int|
            0 <= i < s.builders.len() && (#[trigger] s.tick_step(tick).builders[i]).last_bar is Some
                ==> !s.tick_step(tick).builders[i].last_bar.unwrap().created_this_tick,
        s.tick_step(tick).bar_sizes() == s.bar_sizes(),
{
    let outs = s.tick_outcomes(tick);
    let zvb = s.zero_vol_bar;
    let n = s.builders.len();
    assert forall|i: int| 0 <= i < n implies {
        let o = #[trigger] outs[i];
        &&& o.closed_bar is Some ==> sound_closed_bar(o.closed_bar.unwrap())
        &&& forall|k: int| 0 <= k < o.zero_bars.len() ==> sound_closed_bar(#[trigger] o.zero_bars[k])
        &&& o.after_create.last_bar is Some ==> prices_in_order(o.after_create.last_bar.unwrap())
        &&& o.state.last_bar is Some ==> prices_in_order(o.state.last_bar.unwrap())
        &&& o.state.last_bar is Some ==> !o.state.last_bar.unwrap().created_this_tick
        &&& o.state.barsz_sec == s.builders[i].barsz_sec
    } by {
        lemma_builder_tick_sound(s.builders[i], tick, zvb);
        lemma_builder_tick(s.builders[i], tick, zvb);
    }
    let good = |c: BarData| sound_closed_bar(c) && (!zvb ==> c.volume > 0);
    let a = Seq::new(
        outs.len(),
        |i: int| handed_out(outs[i], zvb) + zeros_handed_out(outs[i], zvb),
    );
    assert forall|j: int, k: int| 0 <= j < a.len() && 0 <= k < a[j].len() implies good(#[trigger] a[j][k]) by {
        let h = handed_out(outs[j], zvb);
        if k < h.len() {
            assert(a[j][k] == h[k]);
            assert(outs[j].closed_bar is Some);
        } else {
            assert(zvb);
            assert(a[j][k] == outs[j].zero_bars[k - h.len()]);
        }
    }
    lemma_flatten_alt_all(a, good);
    let closed = s.tick_closed(tick);
    assert(closed == a.flatten_alt());
    let u = Seq::new(outs.len(), |i: int| opt_seq(outs[i].after_create.last_bar));
    let ordered = |c: BarData| prices_in_order(c);
    assert forall|j: int, k: int| 0 <= j < u.len() && 0 <= k < u[j].len() implies ordered(#[trigger] u[j][k]) by {
        assert(outs[j].after_create.last_bar is Some);
    }
    lemma_flatten_alt_all(u, ordered);
    let t = s.tick_step(tick);
    assert forall|i: int| 0 <= i < t.builders.len() && (#[trigger] t.builders[i]).last_bar is Some implies prices_in_order(
        t.builders[i].last_bar.unwrap(),
    ) by {
        assert(t.builders[i] == outs[i].state);
    }
    assert(t.bar_sizes() =~= s.bar_sizes());
}

/// The timer hands out sound bars and keeps the bars being built sound:
/// every bar it closes or makes is finished with its prices in order; a bar
/// still being built afterwards ends after `now - threshold`; the bar sizes
/// stay.
pub proof fn lemma_timer_bars_sound(s: InstState, now: int, threshold: int)
    requires
        s.wf(),
        s.bars_in_order(),
    ensures
        forall|k: int|
            0 <= k < s.timer_closed(now, threshold).len() ==> sound_closed_bar(
                #[trigger] s.timer_closed(now, threshold)[k],
            ),
        s.timer_state(now, threshold).bars_in_order(),
        forall|i: int|
            0 <= i < s.builders.len() && (#[trigger] s.timer_state(now, threshold).builders[i]).last_bar is Some
                ==> s.timer_state(now, threshold).builders[i].last_bar.unwrap().internal_end > now - threshold,
        s.timer_state(now, threshold).bar_sizes() == s.bar_sizes(),
{
    let n = s.builders.len();
    let parts = Seq::new(
        n,
        |i: int|
            {
                let t = s.builders[i].timer_step(now, threshold);
                opt_seq(t.closed_this_tick) + t.zerovol_bars
            },
    );
    let good = |c: BarData| sound_closed_bar(c);
    assert forall|j: int, k: int| 0 <= j < parts.len() && 0 <= k < parts[j].len() implies good(#[trigger] parts[j][k]) by {
        let b = s.builders[j];
        lemma_timer_step_sound(b, now, threshold);
        let t = b.timer_step(now, threshold);
        if t.closed_this_tick is Some {
            if k > 0 {
                assert(parts[j][k] == t.zerovol_bars[k - 1]);
            }
        } else {
            assert(parts[j][k] == t.zerovol_bars[k]);
        }
    }
    lemma_flatten_alt_all(parts, good);
    let ts = s.timer_state(now, threshold);
    assert forall|i: int| 0 <= i < n implies {
        let b = #[trigger] ts.builders[i];
        &&& b.last_bar is Some ==> prices_in_order(b.last_bar.unwrap())
        &&& b.last_bar is Some ==> b.last_bar.unwrap().internal_end > now - threshold
        &&& b.barsz_sec == s.builders[i].barsz_sec
    } by {
        lemma_timer_step_sound(s.builders[i], now, threshold);
        lemma_timer_closes_overdue(s.builders[i], now, threshold);
        lemma_timer_step_keeps(s.builders[i], now, threshold);
    }
    assert(ts.bar_sizes() =~= s.bar_sizes());
}

/// Bars set to continue from keep the bars being built sound where their
/// prices are in order; the bar sizes stay.
pub proof fn lemma_pre_bars_sound(s: InstState, pre_bars: Map<u32, BarData>)
    requires
        s.wf(),
        s.bars_in_order(),
        forall|k: u32| #[trigger] pre_bars.contains_key(k) ==> prices_in_order(pre_bars[k]),
    ensures
        s.pre_bars_state(pre_bars).bars_in_order(),
        s.pre_bars_state(pre_bars).bar_sizes() == s.bar_sizes(),
{
    let ps = s.pre_bars_state(pre_bars);
    assert forall|i: int| 0 <= i < s.builders.len() implies {
        let b = #[trigger] ps.builders[i];
        &&& b.last_bar is Some ==> prices_in_order(b.last_bar.unwrap())
        &&& b.barsz_sec == s.builders[i].barsz_sec
    } by {
        let b = s.builders[i];
        if pre_bars.contains_key(b.barsz_sec) {
            lemma_pre_bar_step_sound(b, pre_bars[b.barsz_sec]);
            lemma_pre_bar_step_keeps(b, pre_bars[b.barsz_sec]);
        }
    }
    assert(ps.bar_sizes() =~= s.bar_sizes());
}

/// Once a tick was given, in the trading session or not, every builder has
/// started: bars set to continue from after it are refused, whichever bar
/// sizes they are given for.
pub proof fn lemma_tick_refuses_pre_bars(s: InstState, tick: TickData, pre_bars: Map<u32, BarData>)
    requires
        s.wf(),
    ensures
        forall|i: int|
            0 <= i < s.builders.len() && pre_bars.contains_key(#[trigger] s.builders[i].barsz_sec)
                ==> s.tick_step(tick).pre_bar_refused(pre_bars, i),
{
    let outs = s.tick_outcomes(tick);
    assert forall|i: int|
        0 <= i < s.builders.len() && pre_bars.contains_key(#[trigger] s.builders[i].barsz_sec) implies s.tick_step(
        tick,
    ).pre_bar_refused(pre_bars, i) by {
        lemma_builder_tick(s.builders[i], tick, s.zero_vol_bar);
        assert(s.tick_step(tick).builders[i] == outs[i].state);
    }
}

impl InstState {
    /// No bar being built counts as new (as after any tick).
    pub open spec fn no_new_bars(self) -> bool {
        forall|i: int|
            0 <= i < self.builders.len() && (#[trigger] self.builders[i]).last_bar is Some
                ==> !self.builders[i].last_bar.unwrap().created_this_tick
    }
}

/// The bars a tick creates carry its trading day: every bar handed out as
/// updated that counts as new has the tick's trading day.
pub proof fn lemma_tick_new_bars_dated(s: InstState, tick: TickData)
    requires
        s.wf(),
        s.no_new_bars(),
    ensures
        forall|k: int|
            0 <= k < s.tick_updated(tick).len() && (#[trigger] s.tick_updated(tick)[k]).created_this_tick
                ==> s.tick_updated(tick)[k].tradeday == tick.tradeday,
{
    let outs = s.tick_outcomes(tick);
    let u = Seq::new(outs.len(), |i: int| opt_seq(outs[i].after_create.last_bar));
    let dated = |c: BarData| c.created_this_tick ==> c.tradeday == tick.tradeday;
    assert forall|j: int, k: int| 0 <= j < u.len() && 0 <= k < u[j].len() implies dated(#[trigger] u[j][k]) by {
        let b = s.builders[j];
        lemma_check_step_bars(b, tick);
        let o = outs[j];
        lemma_create_step_new_only(o.after_check, tick);
        assert(o.after_create.last_bar is Some);
    }
    lemma_flatten_alt_all(u, dated);
}

} // verus!
