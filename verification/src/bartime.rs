//! The bars of one bar size over a trading day, worked out once from the
//! session slices.
//!
//! Shifted clock readings (see `clock`) run four hours ahead, so that a night
//! session starting in the evening reads as one increasing range.  A bar
//! covers `(virtual_begin, virtual_end]`: a time on a boundary belongs to the
//! bar before it.
use vstd::prelude::*;
use crate::clock::{SECS_PER_DAY, SHIFT_SECS, spec_time_of_shifted, time_of_shifted};
use std::collections::BTreeMap;
use vstd::std_specs::btree::increasing_seq;
use vstd::std_specs::iter::IteratorSpec;

verus! {

/// A session slice: a stretch of continuous trading, from `begin` to `end`,
/// both shifted clock readings in seconds.
#[derive(Clone, Copy, Debug, PartialEq, Eq)]
pub struct SessionSlice {
    pub begin: u32,
    pub end: u32,
}

/// Start and end, in seconds, and other properties of one bar of a day.
#[derive(Clone, Copy, Debug, PartialEq, Eq)]
pub struct BarTime {
    /// Shifted begin: the first bar of a slice starts one second early, or 61
    /// seconds early where it takes in the call auction.
    pub virtual_begin: u32,
    /// Shifted end: the last bar of a slice ends one second late.
    pub virtual_end: u32,
    /// Nominal begin, wall-clock seconds since midnight.
    pub nominal_begin: u32,
    /// Seconds from the nominal begin to the real end (a 30-minute bar from
    /// 10:00 that a break cuts at 10:15 lasts 15 minutes).
    pub duration: i64,
    /// The bar takes in the call auction.
    pub with_auction: bool,
    /// The bar starts a session slice.
    pub with_slice_begin: bool,
    /// The bar ends a session slice.
    pub with_slice_end: bool,
}

/// A list of bar times a builder can work with: indices fit in `i32`, it is
/// in order of begin and of end (searches halve it), and each bar has a
/// nominal begin within the day and a duration of at most a day.
pub open spec fn bar_times_ok(v: Seq<BarTime>) -> bool {
    &&& v.len() < i32::MAX
    &&& forall|i: int, j: int|
        0 <= i <= j < v.len() ==> (#[trigger] v[i]).virtual_end <= (#[trigger] v[j]).virtual_end
            && v[i].virtual_begin <= v[j].virtual_begin
    &&& forall|i: int| 0 <= i < v.len() ==> bar_bounds(#[trigger] v[i])
}

/// Shifted 21:00:00, the start of a night session.
pub const NIGHT_OPEN_SHIFTED: u32 = 3600;

/// Shifted 09:00:00, the start of a day session.
pub const DAY_OPEN_SHIFTED: u32 = 46800;

impl BarTime {
    /// A bar at 21:00:00 of no length.
    pub fn default() -> (r: Self)
        ensures
            r == (BarTime {
                virtual_begin: NIGHT_OPEN_SHIFTED,
                virtual_end: NIGHT_OPEN_SHIFTED,
                nominal_begin: 75600,
                duration: 0,
                with_auction: false,
                with_slice_begin: false,
                with_slice_end: false,
            }),
    {
        BarTime {
            virtual_begin: NIGHT_OPEN_SHIFTED,
            virtual_end: NIGHT_OPEN_SHIFTED,
            nominal_begin: 75600,
            duration: 0,
            with_auction: false,
            with_slice_begin: false,
            with_slice_end: false,
        }
    }

    /// Column titles for printing bar times.
    pub fn header_for_print() -> (r: &'static str)
        ensures
            r@ == "       虚拟始末时间,     实际时间,     名义开始时间, 竞价?, 开始?, 结束?"@,
    {
        "       虚拟始末时间,     实际时间,     名义开始时间, 竞价?, 开始?, 结束?"
    }
}

/// The start of the bar size period that holds `b`.
pub open spec fn aligned_start(b: int, z: int) -> int {
    b / z * z
}

/// The end of the first bar size period that reaches `e`.
pub open spec fn aligned_end(e: int, z: int) -> int {
    if e / z * z < e {
        e / z * z + z
    } else {
        e / z * z
    }
}

/// Number of bars of size `z` that a slice is cut into.
pub open spec fn slice_bar_count(sl: SessionSlice, z: int) -> int {
    (aligned_end(sl.end as int, z) - aligned_start(sl.begin as int, z)) / z
}

/// The first bar of slice `index` takes in a call auction: the first slice
/// of the day, and any slice starting at 21:00 or 09:00.
pub open spec fn opens_with_auction(index: int, sl: SessionSlice) -> bool {
    index == 0 || sl.begin == NIGHT_OPEN_SHIFTED || sl.begin == DAY_OPEN_SHIFTED
}

/// Slice `index` can be cut into bars of size `z`: its bounds are shifted
/// readings of one day, it spans at least one bar period, and its start
/// leaves room for the early start of its first bar.
pub open spec fn valid_slice(index: int, sl: SessionSlice, z: int) -> bool {
    &&& 0 < z < SECS_PER_DAY
    &&& sl.begin <= SECS_PER_DAY
    &&& sl.end <= SECS_PER_DAY
    &&& aligned_start(sl.begin as int, z) < aligned_end(sl.end as int, z)
    &&& sl.begin >= (if opens_with_auction(index, sl) { 61int } else { 1int })
}

/// Bar `idx` of slice `index` cut into bars of size `z`.
pub open spec fn slice_bar(index: int, sl: SessionSlice, z: int, idx: int) -> BarTime {
    let n = slice_bar_count(sl, z);
    let b = sl.begin as int;
    let nominal = aligned_start(b, z) + idx * z;
    let first = idx == 0;
    let last = idx == n - 1;
    let start = if first {
        (if nominal < b { b } else { nominal }) - (if opens_with_auction(index, sl) { 61int } else { 1int })
    } else {
        nominal
    };
    let end = if last && sl.end < nominal + z { sl.end as int } else { nominal + z };
    BarTime {
        virtual_begin: start as u32,
        virtual_end: (if last { end + 1 } else { end }) as u32,
        nominal_begin: spec_time_of_shifted(nominal) as u32,
        duration: (end - nominal) as i64,
        with_auction: first && opens_with_auction(index, sl),
        with_slice_begin: first,
        with_slice_end: last,
    }
}

/// The bars of slice `index`, cut into bars of size `z`.
pub open spec fn slice_bars(index: int, sl: SessionSlice, z: int) -> Seq<BarTime> {
    Seq::new(slice_bar_count(sl, z) as nat, |idx: int| slice_bar(index, sl, z, idx))
}

proof fn lemma_slice_bar_count(sl: SessionSlice, z: int)
    requires
        0 < z < SECS_PER_DAY,
        sl.begin <= SECS_PER_DAY,
        sl.end <= SECS_PER_DAY,
        aligned_start(sl.begin as int, z) < aligned_end(sl.end as int, z),
    ensures
        aligned_start(sl.begin as int, z) + slice_bar_count(sl, z) * z == aligned_end(
            sl.end as int,
            z,
        ),
        slice_bar_count(sl, z) >= 1,
        0 <= aligned_start(sl.begin as int, z) <= sl.begin,
        sl.end <= aligned_end(sl.end as int, z) <= sl.end + z,
        aligned_end(sl.end as int, z) <= 2 * SECS_PER_DAY,
{
    let b = sl.begin as int;
    let e = sl.end as int;
    let a = aligned_start(b, z);
    let ae = aligned_end(e, z);
    let qa = b / z;
    let qe = if e / z * z < e { e / z + 1 } else { e / z };
    assert(0 <= a <= b) by (nonlinear_arith)
        requires a == b / z * z, z > 0, b >= 0;
    assert(e / z * z <= e && e < e / z * z + z) by (nonlinear_arith)
        requires z > 0, e >= 0;
    assert(ae == qe * z) by (nonlinear_arith)
        requires
            qe == (if e / z * z < e { e / z + 1 } else { e / z }),
            ae == (if e / z * z < e { e / z * z + z } else { e / z * z });
    assert(ae - a == (qe - qa) * z) by (nonlinear_arith)
        requires ae == qe * z, a == qa * z;
    assert(qe - qa >= 1) by (nonlinear_arith)
        requires ae - a == (qe - qa) * z, ae - a > 0, z > 0;
    vstd::arithmetic::div_mod::lemma_div_by_multiple(qe - qa, z);
}

/// Cuts one session slice into bars of `barsz_sec` seconds.
///
/// Bars are aligned to multiples of the bar size on the shifted clock.  The
/// first bar starts at the slice start, one second early (61 seconds where it
/// takes in the call auction); the last bar ends at the slice end, one second
/// late, and its duration stops at the slice end.
impl BarTime {
pub fn build_from_slice(index: usize, slice: &SessionSlice, barsz_sec: u32) -> (r: Vec<BarTime>)
    requires
        valid_slice(index as int, *slice, barsz_sec as int),
    ensures
        r@ == slice_bars(index as int, *slice, barsz_sec as int),
{
    let session_begin = slice.begin;
    let session_end = slice.end;
    let ghost z = barsz_sec as int;
    proof {
        lemma_slice_bar_count(*slice, z);
    }
    let aligned_start = session_begin / barsz_sec * barsz_sec;
    let mut aligned_end = session_end / barsz_sec * barsz_sec;
    if aligned_end < session_end {
        aligned_end += barsz_sec;
    }
    let last_idx = ((aligned_end - aligned_start) / barsz_sec - 1) as usize;
    let auction = index == 0 || session_begin == NIGHT_OPEN_SHIFTED || session_begin
        == DAY_OPEN_SHIFTED;
    let mut result: Vec<BarTime> = Vec::new();
    let mut shifted_begin = aligned_start;
    let mut idx: usize = 0;
    while shifted_begin < aligned_end
        invariant
            z == barsz_sec,
            valid_slice(index as int, *slice, z),
            session_begin == slice.begin,
            session_end == slice.end,
            aligned_start == crate::bartime::aligned_start(session_begin as int, z),
            aligned_end == crate::bartime::aligned_end(session_end as int, z),
            aligned_start + slice_bar_count(*slice, z) * z == aligned_end,
            aligned_end <= 2 * SECS_PER_DAY,
            aligned_start <= session_begin,
            last_idx == slice_bar_count(*slice, z) - 1,
            auction == opens_with_auction(index as int, *slice),
            shifted_begin == aligned_start + idx * z,
            idx <= slice_bar_count(*slice, z),
            result@ == slice_bars(index as int, *slice, z).take(idx as int),
        decreases slice_bar_count(*slice, z) - idx,
    {
        proof {
            assert(idx < slice_bar_count(*slice, z)) by (nonlinear_arith)
                requires
                    shifted_begin == aligned_start + idx * z,
                    shifted_begin < aligned_end,
                    aligned_start + slice_bar_count(*slice, z) * z == aligned_end,
                    z > 0;
        }
        let mut start = shifted_begin;
        let mut end = start + barsz_sec;
        let mut with_slice_begin = false;
        let mut with_slice_end = false;
        let mut with_auction = false;
        if idx == 0 {
            with_slice_begin = true;
            if start < session_begin {
                start = session_begin;
            }
            if auction {
                start -= 61;
                with_auction = true;
            } else {
                start -= 1;
            }
        }
        if idx == last_idx {
            with_slice_end = true;
            if session_end < end {
                end = session_end;
            }
        }
        let duration = end as i64 - shifted_begin as i64;
        let nominal = time_of_shifted(shifted_begin);
        if with_slice_end {
            end += 1;
        }
        let btm = BarTime {
            virtual_begin: start,
            virtual_end: end,
            nominal_begin: nominal,
            duration,
            with_auction,
            with_slice_begin,
            with_slice_end,
        };
        result.push(btm);
        proof {
            assert(btm == slice_bar(index as int, *slice, z, idx as int));
            assert(result@ =~= slice_bars(index as int, *slice, z).take(idx + 1));
        }
        proof {
            assert(aligned_start + idx * z + z == aligned_start + (idx + 1) * z) by (nonlinear_arith);
        }
        shifted_begin += barsz_sec;
        idx += 1;
    }
    proof {
        assert(idx == slice_bar_count(*slice, z)) by (nonlinear_arith)
            requires
                shifted_begin == aligned_start + idx * z,
                shifted_begin >= aligned_end,
                idx <= slice_bar_count(*slice, z),
                aligned_start + slice_bar_count(*slice, z) * z == aligned_end,
                z > 0;
        assert(slice_bars(index as int, *slice, z).take(idx as int) =~= slice_bars(
            index as int,
            *slice,
            z,
        ));
    }
    result
}
}

/// Two bars of one nominal begin, from two slices (an hour bar from 10:00
/// that a break splits in two), joined into one: from the start of the
/// earlier to the end of the later.
pub open spec fn merge_bar(old: BarTime, bt: BarTime) -> BarTime {
    let small = if old.virtual_begin < bt.virtual_begin { old } else { bt };
    let big = if old.virtual_begin < bt.virtual_begin { bt } else { old };
    BarTime {
        virtual_begin: small.virtual_begin,
        virtual_end: big.virtual_end,
        nominal_begin: bt.nominal_begin,
        duration: (big.nominal_begin - small.nominal_begin + big.duration) as i64,
        with_auction: small.with_auction,
        with_slice_begin: small.with_slice_begin,
        with_slice_end: big.with_slice_end,
    }
}

/// The bars by nominal begin after adding `bt`: merged with the bar of the
/// same nominal begin where there is one.
pub open spec fn insert_bar(m: Map<u32, BarTime>, bt: BarTime) -> Map<u32, BarTime> {
    if m.contains_key(bt.nominal_begin) {
        m.insert(bt.nominal_begin, merge_bar(m[bt.nominal_begin], bt))
    } else {
        m.insert(bt.nominal_begin, bt)
    }
}

/// The bars by nominal begin after adding `bars` in order.
pub open spec fn insert_bars(m: Map<u32, BarTime>, bars: Seq<BarTime>) -> Map<u32, BarTime>
    decreases bars.len(),
{
    if bars.len() == 0 {
        m
    } else {
        insert_bar(insert_bars(m, bars.drop_last()), bars.last())
    }
}

/// The bars of size `z` of a trading day, by nominal begin: the bars of each
/// slice in turn, those of one nominal begin merged.
pub open spec fn session_bar_map(slices: Seq<SessionSlice>, z: int) -> Map<u32, BarTime>
    decreases slices.len(),
{
    if slices.len() == 0 {
        Map::empty()
    } else {
        insert_bars(
            session_bar_map(slices.drop_last(), z),
            slice_bars(slices.len() - 1, slices.last(), z),
        )
    }
}

/// `a` comes before `b`: by shifted begin, then by nominal begin.
pub open spec fn bar_time_before(a: BarTime, b: BarTime) -> bool {
    a.virtual_begin < b.virtual_begin || (a.virtual_begin == b.virtual_begin && a.nominal_begin
        < b.nominal_begin)
}

/// `v` is in strictly increasing order of `bar_time_before`.
pub open spec fn bar_times_sorted(v: Seq<BarTime>) -> bool {
    forall|i: int, j: int| 0 <= i < j < v.len() ==> bar_time_before(#[trigger] v[i], #[trigger] v[j])
}

/// `v` lists the bars of `m`, each once.
pub open spec fn lists_bars_of(v: Seq<BarTime>, m: Map<u32, BarTime>) -> bool {
    &&& forall|i: int|
        0 <= i < v.len() ==> #[trigger] m.contains_key(v[i].nominal_begin) && m[v[i].nominal_begin]
            == v[i]
    &&& forall|k: u32| #[trigger]
        m.contains_key(k) ==> exists|i: int| 0 <= i < v.len() && #[trigger] v[i].nominal_begin == k
    &&& forall|i: int, j: int|
        0 <= i < j < v.len() ==> #[trigger] v[i].nominal_begin != #[trigger] v[j].nominal_begin
}

/// The bar bounds that the merging keeps: a nominal begin within the day and
/// a duration of at most a day.
pub open spec fn bar_bounds(bt: BarTime) -> bool {
    &&& bt.nominal_begin < SECS_PER_DAY
    &&& 0 <= bt.duration <= SECS_PER_DAY
}

proof fn lemma_slice_bar_bounds(index: int, sl: SessionSlice, z: int, idx: int)
    requires
        valid_slice(index, sl, z),
        0 <= idx < slice_bar_count(sl, z),
    ensures
        bar_bounds(slice_bar(index, sl, z, idx)),
{
    lemma_slice_bar_count(sl, z);
    let nominal = aligned_start(sl.begin as int, z) + idx * z;
    let n = slice_bar_count(sl, z);
    assert(nominal + z <= aligned_end(sl.end as int, z)) by (nonlinear_arith)
        requires
            nominal == aligned_start(sl.begin as int, z) + idx * z,
            idx < n,
            aligned_start(sl.begin as int, z) + n * z == aligned_end(sl.end as int, z),
            z > 0;
    if idx == n - 1 {
        assert(nominal + z == aligned_end(sl.end as int, z)) by (nonlinear_arith)
            requires
                nominal == aligned_start(sl.begin as int, z) + idx * z,
                idx == n - 1,
                aligned_start(sl.begin as int, z) + n * z == aligned_end(sl.end as int, z);
    }
    assert(nominal >= 0) by (nonlinear_arith)
        requires nominal == aligned_start(sl.begin as int, z) + idx * z, idx >= 0, z > 0,
            aligned_start(sl.begin as int, z) >= 0;
}

/// The shifted start of the bar period of nominal begin `k` (a wall-clock
/// time of day in seconds).
pub open spec fn nominal_period(k: u32) -> int {
    (k + SHIFT_SECS) % (SECS_PER_DAY as int)
}

/// Where bar `t` of a slice lies: its period starts at `aligned_start +
/// t * z` on the shifted clock, a multiple of `z` within the slice's day; it
/// starts no more than 61 seconds before the slice and before the slice's
/// end, and ends after its period start and the slice start, at most a
/// second after the slice end; a bar that is not the last ends where the
/// next period starts.
proof fn lemma_slice_bar_place(index: int, sl: SessionSlice, z: int, t: int)
    requires
        valid_slice(index, sl, z),
        sl.begin < sl.end,
        0 <= t < slice_bar_count(sl, z),
    ensures
        ({
            let bt = slice_bar(index, sl, z, t);
            let n = aligned_start(sl.begin as int, z) + t * z;
            &&& 0 <= n < sl.end
            &&& n % z == 0
            &&& bt.nominal_begin < SECS_PER_DAY
            &&& nominal_period(bt.nominal_begin) == n
            &&& bt.virtual_begin + 61 >= sl.begin
            &&& bt.virtual_begin < sl.end
            &&& (t > 0 ==> bt.virtual_begin == n)
            &&& (t == 0 ==> bt.virtual_begin < n + z)
            &&& bt.virtual_end > n
            &&& bt.virtual_end > sl.begin
            &&& bt.virtual_end <= sl.end + 1
            &&& (t < slice_bar_count(sl, z) - 1 ==> bt.virtual_end == n + z)
        }),
{
    lemma_slice_bar_count(sl, z);
    let b = sl.begin as int;
    let e = sl.end as int;
    let a = aligned_start(b, z);
    let cnt = slice_bar_count(sl, z);
    let n = a + t * z;
    assert(n + z <= aligned_end(e, z)) by (nonlinear_arith)
        requires
            n == a + t * z,
            t < cnt,
            a + cnt * z == aligned_end(e, z),
            z > 0;
    assert(aligned_end(e, z) - z < e) by (nonlinear_arith)
        requires
            z > 0,
            e >= 0,
            aligned_end(e, z) == (if e / z * z < e { e / z * z + z } else { e / z * z });
    assert(b < a + z) by (nonlinear_arith)
        requires
            a == b / z * z,
            z > 0,
            b >= 0;
    assert(n >= a) by (nonlinear_arith)
        requires
            n == a + t * z,
            t >= 0,
            z > 0;
    assert(n % z == 0) by {
        assert(n == (b / z + t) * z) by (nonlinear_arith)
            requires
                n == a + t * z,
                a == b / z * z;
        vstd::arithmetic::div_mod::lemma_mod_multiples_basic(b / z + t, z);
    }
    if t > 0 {
        assert(n >= a + z) by (nonlinear_arith)
            requires
                n == a + t * z,
                t >= 1,
                z > 0;
    }
    if t < cnt - 1 {
        assert(n + z + z <= aligned_end(e, z)) by (nonlinear_arith)
            requires
                n == a + t * z,
                t < cnt - 1,
                a + cnt * z == aligned_end(e, z),
                z > 0;
    }
}

/// The bars cut from a slice cover it without gap or overlap: the first
/// starts one second before the slice (61 seconds where the slice opens
/// with the call auction: the first slice of the day, or one starting at
/// 21:00 or 09:00), each bar ends where the next starts and after it starts,
/// and the last ends one second after the slice.
pub proof fn lemma_slice_bars_cover(index: int, sl: SessionSlice, z: int)
    requires
        valid_slice(index, sl, z),
        sl.begin < sl.end,
    ensures
        ({
            let bars = slice_bars(index, sl, z);
            &&& bars.len() >= 1
            &&& bars[0].virtual_begin == sl.begin - (if index == 0 || sl.begin == NIGHT_OPEN_SHIFTED
                || sl.begin == DAY_OPEN_SHIFTED { 61int } else { 1int })
            &&& bars[bars.len() - 1].virtual_end == sl.end + 1
            &&& forall|t: int| 0 <= t < bars.len() ==> (#[trigger] bars[t]).virtual_begin < bars[t].virtual_end
            &&& forall|t: int| 0 <= t < bars.len() - 1 ==> (#[trigger] bars[t]).virtual_end == bars[t + 1].virtual_begin
        }),
{
    lemma_slice_bar_count(sl, z);
    let n = slice_bar_count(sl, z);
    let bars = slice_bars(index, sl, z);
    let a = aligned_start(sl.begin as int, z);
    lemma_slice_bar_place(index, sl, z, 0);
    lemma_slice_bar_place(index, sl, z, n - 1);
    assert forall|t: int| 0 <= t < bars.len() implies (#[trigger] bars[t]).virtual_begin < bars[t].virtual_end by {
        lemma_slice_bar_place(index, sl, z, t);
    }
    assert forall|t: int| 0 <= t < bars.len() - 1 implies (#[trigger] bars[t]).virtual_end == bars[t + 1].virtual_begin by {
        lemma_slice_bar_place(index, sl, z, t);
        lemma_slice_bar_place(index, sl, z, t + 1);
        assert(a + t * z + z == a + (t + 1) * z) by (nonlinear_arith);
    }
    let last = slice_bar(index, sl, z, n - 1);
    assert(a + (n - 1) * z + z == aligned_end(sl.end as int, z)) by (nonlinear_arith)
        requires
            a + n * z == aligned_end(sl.end as int, z);
}

/// The bars of `m` are in order of their periods: a bar of a later period
/// starts later, and ends no earlier.
pub open spec fn bars_in_period_order(m: Map<u32, BarTime>) -> bool {
    forall|k1: u32, k2: u32|
        #![trigger m[k1], m[k2]]
        m.contains_key(k1) && m.contains_key(k2) && nominal_period(k1) < nominal_period(k2)
            ==> m[k1].virtual_begin < m[k2].virtual_begin && m[k1].virtual_end <= m[k2].virtual_end
}

proof fn lemma_nominal_period_injective(k1: u32, k2: u32)
    requires
        k1 < SECS_PER_DAY,
        k2 < SECS_PER_DAY,
        nominal_period(k1) == nominal_period(k2),
    ensures
        k1 == k2,
{
}

/// Adding a bar whose period comes last, starting after every bar of `m`
/// and ending no earlier, keeps the bars in order; where a bar of the same
/// nominal begin is there, the merged bar starts where that one did and
/// ends where the new one does.
proof fn lemma_insert_bar_in_order(m: Map<u32, BarTime>, bt: BarTime)
    requires
        bars_in_period_order(m),
        forall|k: u32| #[trigger] m.contains_key(k) ==> k < SECS_PER_DAY,
        bt.nominal_begin < SECS_PER_DAY,
        forall|k: u32|
            #[trigger] m.contains_key(k) && k != bt.nominal_begin ==> nominal_period(k) < nominal_period(
                bt.nominal_begin,
            ),
        forall|k: u32|
            #[trigger] m.contains_key(k) ==> m[k].virtual_begin < bt.virtual_begin && m[k].virtual_end
                <= bt.virtual_end,
    ensures
        bars_in_period_order(insert_bar(m, bt)),
        insert_bar(m, bt)[bt.nominal_begin].virtual_end == bt.virtual_end,
        insert_bar(m, bt)[bt.nominal_begin].virtual_begin <= bt.virtual_begin,
{
    let m2 = insert_bar(m, bt);
    let nb = bt.nominal_begin;
    assert forall|k1: u32, k2: u32|
        #![trigger m2[k1], m2[k2]]
        m2.contains_key(k1) && m2.contains_key(k2) && nominal_period(k1) < nominal_period(k2) implies m2[k1].virtual_begin
        < m2[k2].virtual_begin && m2[k1].virtual_end <= m2[k2].virtual_end by {
        if k2 == nb && k1 != nb {
            assert(m.contains_key(k1));
            if m.contains_key(nb) {
                assert(m[k1].virtual_begin < m[nb].virtual_begin);
            }
        } else if k1 == nb && k2 != nb {
            assert(m.contains_key(k2));
            assert(nominal_period(k2) < nominal_period(nb));
        } else if k1 != nb && k2 != nb {
            assert(m2[k1] == m[k1] && m2[k2] == m[k2]);
        }
    }
}

/// Every bar of `m` has a nominal begin within the day and a period that is
/// a multiple of `z` and before `per`; it starts before `vb` and ends by `ve`.
pub open spec fn bars_below(m: Map<u32, BarTime>, z: int, per: int, vb: int, ve: int) -> bool {
    forall|k: u32|
        #[trigger] m.contains_key(k) ==> k < SECS_PER_DAY && nominal_period(k) % z == 0
            && nominal_period(k) < per && m[k].virtual_begin < vb && m[k].virtual_end <= ve
}

proof fn lemma_multiple_below(x: int, b: int, z: int)
    requires
        z > 0,
        0 <= x < b,
        x % z == 0,
    ensures
        x <= aligned_start(b, z),
{
    vstd::arithmetic::div_mod::lemma_fundamental_div_mod(x, z);
    vstd::arithmetic::div_mod::lemma_div_is_ordered(x, b, z);
    vstd::arithmetic::mul::lemma_mul_inequality(x / z, b / z, z);
    vstd::arithmetic::mul::lemma_mul_is_commutative(z, x / z);
}

/// Adding the first `t` bars of a slice to bars that all lie at least 61
/// seconds before it keeps the bars in order, within the slice's end, and
/// before the next bar of the slice.
proof fn lemma_insert_slice_bars(m0: Map<u32, BarTime>, index: int, sl: SessionSlice, z: int, t: int)
    requires
        valid_slice(index, sl, z),
        sl.begin < sl.end,
        0 <= t <= slice_bar_count(sl, z),
        bars_in_period_order(m0),
        bars_below(m0, z, sl.begin as int, sl.begin - 61, sl.begin - 60),
    ensures
        bars_in_period_order(insert_bars(m0, slice_bars(index, sl, z).take(t))),
        bars_below(insert_bars(m0, slice_bars(index, sl, z).take(t)), z, sl.end as int, sl.end as int, sl.end + 1),
        t > 0 ==> bars_below(
            insert_bars(m0, slice_bars(index, sl, z).take(t)),
            z,
            aligned_start(sl.begin as int, z) + t * z,
            slice_bar(index, sl, z, t - 1).virtual_begin + 1,
            slice_bar(index, sl, z, t - 1).virtual_end as int,
        ),
    decreases t,
{
    let bars = slice_bars(index, sl, z);
    let b = sl.begin as int;
    let a = aligned_start(b, z);
    if t == 0 {
        assert(bars.take(0) =~= Seq::<BarTime>::empty());
        let m = insert_bars(m0, bars.take(0));
        assert(m == m0);
    } else {
        lemma_insert_slice_bars(m0, index, sl, z, t - 1);
        let mp = insert_bars(m0, bars.take(t - 1));
        assert(bars.take(t).drop_last() =~= bars.take(t - 1));
        let bt = slice_bar(index, sl, z, t - 1);
        assert(bars.take(t).last() == bt);
        let m = insert_bars(m0, bars.take(t));
        assert(m == insert_bar(mp, bt));
        let n = a + (t - 1) * z;
        lemma_slice_bar_place(index, sl, z, t - 1);
        if t >= 2 {
            lemma_slice_bar_place(index, sl, z, t - 2);
            assert(a + (t - 2) * z + z == n) by (nonlinear_arith)
                requires
                    n == a + (t - 1) * z;
        }
        assert forall|k: u32| #[trigger] mp.contains_key(k) && k != bt.nominal_begin implies nominal_period(k)
            < nominal_period(bt.nominal_begin) by {
            if t == 1 {
                lemma_multiple_below(nominal_period(k), b, z);
                if nominal_period(k) == n {
                    lemma_nominal_period_injective(k, bt.nominal_begin);
                }
            }
        }
        lemma_insert_bar_in_order(mp, bt);
        assert forall|k: u32| #[trigger] m.contains_key(k) implies k < SECS_PER_DAY && nominal_period(k) % z == 0
            && nominal_period(k) < sl.end && m[k].virtual_begin < sl.end && m[k].virtual_end <= sl.end + 1
            && nominal_period(k) < a + t * z && m[k].virtual_begin < bt.virtual_begin + 1
            && m[k].virtual_end <= bt.virtual_end by {
            assert(n + z == a + t * z) by (nonlinear_arith)
                requires
                    n == a + (t - 1) * z;
            if k != bt.nominal_begin {
                assert(mp.contains_key(k));
                assert(m[k] == mp[k]);
                if t == 1 {
                    lemma_multiple_below(nominal_period(k), b, z);
                }
            }
        }
    }
}

/// Slices in order, each spanning some time, the next one starting at least
/// 61 seconds (a call auction and a second) after the one before ends.
pub open spec fn slices_apart(slices: Seq<SessionSlice>) -> bool {
    &&& forall|i: int| 0 <= i < slices.len() ==> (#[trigger] slices[i]).begin < slices[i].end
    &&& forall|i: int|
        0 <= i < slices.len() - 1 ==> (#[trigger] slices[i]).end + 61 <= slices[i + 1].begin
}

/// The bars of the day made of slices apart from each other are in order of
/// their periods, and lie before the end of the last slice.
proof fn lemma_session_bars_in_order(slices: Seq<SessionSlice>, z: int)
    requires
        forall|i: int| 0 <= i < slices.len() ==> valid_slice(i, #[trigger] slices[i], z),
        slices_apart(slices),
    ensures
        bars_in_period_order(session_bar_map(slices, z)),
        forall|k: u32| #[trigger] session_bar_map(slices, z).contains_key(k) ==> k < SECS_PER_DAY,
        slices.len() > 0 ==> bars_below(
            session_bar_map(slices, z),
            z,
            slices.last().end as int,
            slices.last().end as int,
            slices.last().end + 1,
        ),
    decreases slices.len(),
{
    if slices.len() > 0 {
        let init = slices.drop_last();
        assert forall|i: int| 0 <= i < init.len() implies valid_slice(i, #[trigger] init[i], z) by {
            assert(init[i] == slices[i]);
        }
        assert forall|i: int| 0 <= i < init.len() implies (#[trigger] init[i]).begin < init[i].end by {
            assert(init[i] == slices[i]);
        }
        assert forall|i: int| 0 <= i < init.len() - 1 implies (#[trigger] init[i]).end + 61 <= init[i + 1].begin by {
            assert(init[i] == slices[i]);
            assert(init[i + 1] == slices[i + 1]);
        }
        lemma_session_bars_in_order(init, z);
        let m0 = session_bar_map(init, z);
        let last = slices.last();
        let n = slices.len() - 1;
        assert(valid_slice(n, slices[n], z));
        assert(last.begin < last.end);
        if init.len() > 0 {
            assert(init.last() == slices[n - 1]);
            assert(slices[n - 1].end + 61 <= slices[n].begin);
        }
        assert(bars_below(m0, z, last.begin as int, last.begin - 61, last.begin - 60));
        lemma_insert_slice_bars(m0, n, last, z, slice_bar_count(last, z));
        lemma_slice_bar_count(last, z);
        assert(slice_bars(n, last, z).take(slice_bar_count(last, z)) =~= slice_bars(n, last, z));
    }
}

/// Bars listed once each, in order of start, from bars in order of their
/// periods, are in order of start and of end: what a builder searches.
#[verifier::spinoff_prover]
proof fn lemma_listed_bars_ok(r: Seq<BarTime>, m: Map<u32, BarTime>)
    requires
        lists_bars_of(r, m),
        bar_times_sorted(r),
        bars_in_period_order(m),
        forall|k: u32| #[trigger] m.contains_key(k) ==> k < SECS_PER_DAY,
        forall|i: int| 0 <= i < r.len() ==> bar_bounds(#[trigger] r[i]),
    ensures
        bar_times_ok(r),
{
    assert forall|i: int, j: int| 0 <= i <= j < r.len() implies (#[trigger] r[i]).virtual_end <= (#[trigger] r[j]).virtual_end
        && r[i].virtual_begin <= r[j].virtual_begin by {
        if i < j {
            let ki = r[i].nominal_begin;
            let kj = r[j].nominal_begin;
            assert(m.contains_key(ki) && m[ki] == r[i]);
            assert(m.contains_key(kj) && m[kj] == r[j]);
            assert(bar_time_before(r[i], r[j]));
            if nominal_period(ki) == nominal_period(kj) {
                lemma_nominal_period_injective(ki, kj);
            }
            if nominal_period(kj) < nominal_period(ki) {
                assert(m[kj].virtual_begin < m[ki].virtual_begin);
            }
        }
    }
    let ns = r.map_values(|bt: BarTime| bt.nominal_begin as int);
    assert forall|i: int, j: int| 0 <= i < ns.len() && 0 <= j < ns.len() && i != j implies ns[i] != ns[j] by {
        if i < j {
            assert(r[i].nominal_begin != r[j].nominal_begin);
        } else {
            assert(r[j].nominal_begin != r[i].nominal_begin);
        }
    }
    assert(ns.no_duplicates());
    ns.unique_seq_to_set();
    vstd::set_lib::lemma_int_range(0, SECS_PER_DAY as int);
    assert forall|x: int| ns.to_set().contains(x) implies vstd::set_lib::set_int_range(0, SECS_PER_DAY as int).contains(x) by {
        let i = choose|i: int| 0 <= i < ns.len() && ns[i] == x;
        assert(m.contains_key(r[i].nominal_begin));
    }
    vstd::set_lib::lemma_len_subset(ns.to_set(), vstd::set_lib::set_int_range(0, SECS_PER_DAY as int));
}

/// `u32` keys compare as their values do, so maps keyed by them keep order.
proof fn lemma_u32_keys_ordered()
    ensures
        vstd::laws_cmp::obeys_cmp::<u32>(),
        vstd::std_specs::btree::key_obeys_cmp_spec::<u32>(),
{
    broadcast use vstd::laws_cmp::group_laws_cmp, vstd::std_specs::btree::group_btree_axioms;
}

/// The bars by nominal begin after adding `bt` (see `insert_bar`): merged
/// into the bar of the same nominal begin, or put in.
fn merge_into(map: &mut BTreeMap<u32, BarTime>, bt: BarTime)
    requires
        bar_bounds(bt),
        forall|k: u32| #[trigger] old(map)@.contains_key(k) ==> old(map)@[k].nominal_begin == k && bar_bounds(old(map)@[k]),
    ensures
        final(map)@ == insert_bar(old(map)@, bt),
        forall|k: u32| #[trigger] final(map)@.contains_key(k) ==> final(map)@[k].nominal_begin == k && bar_bounds(final(map)@[k]),
{
    broadcast use vstd::std_specs::btree::group_btree_axioms;
    proof {
        lemma_u32_keys_ordered();
    }
    let nb = bt.nominal_begin;
    let item = match map.get(&nb) {
        Some(found) => {
            let earlier = *found;
            let (small, big) = if earlier.virtual_begin < bt.virtual_begin {
                (earlier, bt)
            } else {
                (bt, earlier)
            };
            BarTime {
                virtual_begin: small.virtual_begin,
                virtual_end: big.virtual_end,
                nominal_begin: nb,
                duration: big.nominal_begin as i64 - small.nominal_begin as i64 + big.duration,
                with_auction: small.with_auction,
                with_slice_begin: small.with_slice_begin,
                with_slice_end: big.with_slice_end,
            }
        },
        None => bt,
    };
    map.insert(nb, item);
}

/// `x` is among the first `n` items of `s`.
spec fn in_prefix(x: BarTime, s: Seq<BarTime>, n: int) -> bool {
    exists|u: int| 0 <= u < n && s[u] == x
}

fn before(a: &BarTime, b: &BarTime) -> (r: bool)
    ensures
        r == bar_time_before(*a, *b),
{
    a.virtual_begin < b.virtual_begin || (a.virtual_begin == b.virtual_begin && a.nominal_begin
        < b.nominal_begin)
}

/// `entries` in increasing order of shifted begin, then nominal begin.
fn sort_bar_times(entries: &Vec<BarTime>, Ghost(m): Ghost<Map<u32, BarTime>>) -> (r: Vec<BarTime>)
    requires
        lists_bars_of(entries@, m),
        forall|i: int| 0 <= i < entries@.len() ==> bar_bounds(#[trigger] entries@[i]),
    ensures
        lists_bars_of(r@, m),
        bar_times_sorted(r@),
        forall|i: int| 0 <= i < r@.len() ==> bar_bounds(#[trigger] r@[i]),
{
    let n = entries.len();
    let mut sorted: Vec<BarTime> = Vec::new();
    let mut t: usize = 0;
    while t < n
        invariant
            n == entries@.len(),
            lists_bars_of(entries@, m),
            forall|i: int| 0 <= i < entries@.len() ==> bar_bounds(#[trigger] entries@[i]),
            forall|i: int| 0 <= i < sorted@.len() ==> bar_bounds(#[trigger] sorted@[i]),
            t <= n,
            sorted@.len() == t,
            bar_times_sorted(sorted@),
            forall|j: int| 0 <= j < sorted@.len() ==> in_prefix(#[trigger] sorted@[j], entries@, t as int),
            forall|u: int| 0 <= u < t ==> in_prefix(#[trigger] entries@[u], sorted@, sorted@.len() as int),
        decreases n - t,
    {
        let e = entries[t];
        let mut pos: usize = 0;
        while pos < sorted.len() && !before(&e, &sorted[pos])
            invariant
                pos <= sorted@.len(),
                forall|j: int| 0 <= j < pos ==> !bar_time_before(e, #[trigger] sorted@[j]),
            decreases sorted@.len() - pos,
        {
            pos += 1;
        }
        let ghost old_sorted = sorted@;
        proof {
            // `e` differs from every bar placed so far: their nominal begins differ.
            assert forall|j: int| 0 <= j < old_sorted.len() implies #[trigger] old_sorted[j].nominal_begin
                != e.nominal_begin by {
                assert(in_prefix(old_sorted[j], entries@, t as int));
                let u = choose|u: int| 0 <= u < t && entries@[u] == old_sorted[j];
                assert(entries@[u].nominal_begin != entries@[t as int].nominal_begin);
            }
            assert forall|j: int| 0 <= j < pos implies bar_time_before(#[trigger] old_sorted[j], e) by {
                assert(!bar_time_before(e, old_sorted[j]));
                assert(old_sorted[j].nominal_begin != e.nominal_begin);
            }
            if pos < old_sorted.len() {
                assert forall|j: int| pos <= j < old_sorted.len() implies bar_time_before(e, #[trigger] old_sorted[j]) by {
                    if j > pos {
                        assert(bar_time_before(old_sorted[pos as int], old_sorted[j]));
                    }
                }
            }
        }
        sorted.insert(pos, e);
        proof {
            assert forall|i: int| 0 <= i < sorted@.len() implies bar_bounds(#[trigger] sorted@[i]) by {
                if i < pos {
                    assert(sorted@[i] == old_sorted[i]);
                } else if i > pos {
                    assert(sorted@[i] == old_sorted[i - 1]);
                }
            }
            assert(sorted@ == old_sorted.insert(pos as int, e));
            assert forall|i: int, j: int| 0 <= i < j < sorted@.len() implies bar_time_before(
                #[trigger] sorted@[i],
                #[trigger] sorted@[j],
            ) by {
                if i < pos && j < pos {
                    assert(bar_time_before(old_sorted[i], old_sorted[j]));
                } else if i < pos && j == pos {
                } else if i < pos && j > pos {
                    assert(bar_time_before(old_sorted[i], old_sorted[j - 1]));
                } else if i == pos {
                } else {
                    assert(bar_time_before(old_sorted[i - 1], old_sorted[j - 1]));
                }
            }
            assert forall|j: int| 0 <= j < sorted@.len() implies in_prefix(#[trigger] sorted@[j], entries@, t + 1) by {
                if j < pos {
                    assert(in_prefix(old_sorted[j], entries@, t as int));
                    let u = choose|u: int| 0 <= u < t && entries@[u] == old_sorted[j];
                    assert(entries@[u] == sorted@[j]);
                } else if j == pos {
                    assert(entries@[t as int] == sorted@[j]);
                } else {
                    assert(in_prefix(old_sorted[j - 1], entries@, t as int));
                    let u = choose|u: int| 0 <= u < t && entries@[u] == old_sorted[j - 1];
                    assert(entries@[u] == sorted@[j]);
                }
            }
            assert forall|u: int| 0 <= u < t + 1 implies in_prefix(#[trigger] entries@[u], sorted@, sorted@.len() as int) by {
                if u == t {
                    assert(sorted@[pos as int] == entries@[u]);
                } else {
                    assert(in_prefix(entries@[u], old_sorted, old_sorted.len() as int));
                    let j = choose|j: int| 0 <= j < old_sorted.len() && old_sorted[j] == entries@[u];
                    if j < pos {
                        assert(sorted@[j] == entries@[u]);
                    } else {
                        assert(sorted@[j + 1] == entries@[u]);
                    }
                }
            }
        }
        t += 1;
    }
    proof {
        assert forall|i: int| 0 <= i < sorted@.len() implies #[trigger] m.contains_key(
            sorted@[i].nominal_begin,
        ) && m[sorted@[i].nominal_begin] == sorted@[i] by {
            assert(in_prefix(sorted@[i], entries@, n as int));
            let u = choose|u: int| 0 <= u < n && entries@[u] == sorted@[i];
            assert(m.contains_key(entries@[u].nominal_begin));
        }
        assert forall|k: u32| #[trigger] m.contains_key(k) implies exists|i: int|
            0 <= i < sorted@.len() && #[trigger] sorted@[i].nominal_begin == k by {
            let u = choose|u: int| 0 <= u < entries@.len() && #[trigger] entries@[u].nominal_begin == k;
            assert(in_prefix(entries@[u], sorted@, sorted@.len() as int));
            let j = choose|j: int| 0 <= j < sorted@.len() && sorted@[j] == entries@[u];
            assert(sorted@[j].nominal_begin == k);
        }
        assert forall|i: int, j: int| 0 <= i < j < sorted@.len() implies #[trigger] sorted@[i].nominal_begin
            != #[trigger] sorted@[j].nominal_begin by {
            assert(in_prefix(sorted@[i], entries@, n as int));
            assert(in_prefix(sorted@[j], entries@, n as int));
            let u = choose|u: int| 0 <= u < n && entries@[u] == sorted@[i];
            let w = choose|w: int| 0 <= w < n && entries@[w] == sorted@[j];
            assert(bar_time_before(sorted@[i], sorted@[j]));
            if u == w {
                assert(sorted@[i] == sorted@[j]);
            } else if u < w {
                assert(entries@[u].nominal_begin != entries@[w].nominal_begin);
            } else {
                assert(entries@[w].nominal_begin != entries@[u].nominal_begin);
            }
        }
    }
    sorted
}

/// The bars of size `barsz_sec` of a trading day made of `slices`: the bars
/// of each slice (see `build_from_slice`), those of one nominal begin (from
/// two slices) merged into one, in order of shifted begin.
impl BarTime {
pub fn vec_from_slices(slices: &Vec<SessionSlice>, barsz_sec: u32) -> (r: Vec<BarTime>)
    requires
        forall|i: int| 0 <= i < slices@.len() ==> valid_slice(i, #[trigger] slices@[i], barsz_sec as int),
    ensures
        lists_bars_of(r@, session_bar_map(slices@, barsz_sec as int)),
        bar_times_sorted(r@),
        forall|i: int| 0 <= i < r@.len() ==> bar_bounds(#[trigger] r@[i]),
        slices_apart(slices@) ==> bar_times_ok(r@),
{
    broadcast use vstd::std_specs::btree::group_btree_axioms;
    proof {
        lemma_u32_keys_ordered();
    }
    let ghost z = barsz_sec as int;
    let mut temp_map: BTreeMap<u32, BarTime> = BTreeMap::new();
    let mut index: usize = 0;
    while index < slices.len()
        invariant
            z == barsz_sec,
            index <= slices@.len(),
            forall|i: int| 0 <= i < slices@.len() ==> valid_slice(i, #[trigger] slices@[i], z),
            temp_map@ == session_bar_map(slices@.take(index as int), z),
            forall|k: u32| #[trigger] temp_map@.contains_key(k) ==> temp_map@[k].nominal_begin == k && bar_bounds(temp_map@[k]),
        decreases slices@.len() - index,
    {
        let tempvec = BarTime::build_from_slice(index, &slices[index], barsz_sec);
        let ghost m0 = session_bar_map(slices@.take(index as int), z);
        let mut k: usize = 0;
        while k < tempvec.len()
            invariant
                z == barsz_sec,
                index < slices@.len(),
                valid_slice(index as int, slices@[index as int], z),
                tempvec@ == slice_bars(index as int, slices@[index as int], z),
                k <= tempvec@.len(),
                temp_map@ == insert_bars(m0, tempvec@.take(k as int)),
                forall|k: u32| #[trigger] temp_map@.contains_key(k) ==> temp_map@[k].nominal_begin == k && bar_bounds(temp_map@[k]),
            decreases tempvec@.len() - k,
        {
            proof {
                lemma_slice_bar_bounds(index as int, slices@[index as int], z, k as int);
                assert(tempvec@.take(k + 1).drop_last() =~= tempvec@.take(k as int));
            }
            merge_into(&mut temp_map, tempvec[k]);
            k += 1;
        }
        proof {
            assert(tempvec@.take(k as int) =~= tempvec@);
            assert(slices@.take(index + 1).drop_last() =~= slices@.take(index as int));
        }
        index += 1;
    }
    proof {
        assert(slices@.take(index as int) =~= slices@);
    }
    let ghost m = temp_map@;
    let vals = temp_map.values();
    let ghost key_seq = choose|ks: Seq<u32>|
        {
            &&& increasing_seq(ks)
            &&& ks.to_set() == m.dom()
            &&& ks.no_duplicates()
            &&& IteratorSpec::remaining(&vals) == ks.map(|i: int, k: u32| &m[k])
        };
    let ghost rem = IteratorSpec::remaining(&vals);
    let mut entries: Vec<BarTime> = Vec::new();
    for v in it: vals
        invariant
            it.seq() == rem,
            entries@.len() == it.index(),
            forall|i: int| 0 <= i < it.index() ==> entries@[i] == *rem[i],
        ensures
            entries@.len() == rem.len(),
            forall|i: int| 0 <= i < rem.len() ==> entries@[i] == *rem[i],
    {
        entries.push(*v);
    }
    proof {
        assert(exists|ks: Seq<u32>|
            {
                &&& increasing_seq(ks)
                &&& ks.to_set() == m.dom()
                &&& ks.no_duplicates()
                &&& IteratorSpec::remaining(&vals) == ks.map(|i: int, k: u32| &m[k])
            });
        assert(rem == key_seq.map(|i: int, k: u32| &m[k]));
        assert forall|i: int| 0 <= i < entries@.len() implies #[trigger] entries@[i] == m[key_seq[i]]
            && m.contains_key(key_seq[i]) by {
            assert(*rem[i] == m[key_seq[i]]);
            assert(key_seq.to_set().contains(key_seq[i]));
        }
        assert forall|i: int| 0 <= i < entries@.len() implies #[trigger] m.contains_key(entries@[i].nominal_begin)
            && m[entries@[i].nominal_begin] == entries@[i] by {
            assert(entries@[i] == m[key_seq[i]]);
        }
        assert forall|k: u32| #[trigger] m.contains_key(k) implies exists|i: int|
            0 <= i < entries@.len() && #[trigger] entries@[i].nominal_begin == k by {
            assert(key_seq.to_set().contains(k));
            let i = choose|i: int| 0 <= i < key_seq.len() && key_seq[i] == k;
            assert(entries@[i] == m[key_seq[i]]);
        }
        assert forall|i: int, j: int| 0 <= i < j < entries@.len() implies #[trigger] entries@[i].nominal_begin
            != #[trigger] entries@[j].nominal_begin by {
            assert(entries@[i] == m[key_seq[i]]);
            assert(entries@[j] == m[key_seq[j]]);
        }
        assert forall|i: int| 0 <= i < entries@.len() implies bar_bounds(#[trigger] entries@[i]) by {
            assert(entries@[i] == m[key_seq[i]]);
        }
    }
    let r = sort_bar_times(&entries, Ghost(session_bar_map(slices@, z)));
    proof {
        if slices_apart(slices@) {
            lemma_session_bars_in_order(slices@, z);
            lemma_listed_bars_ok(r@, session_bar_map(slices@, z));
        }
    }
    r
}

/// Whether slice `index` can be cut into bars of `barsz_sec` seconds (see
/// `valid_slice`).
pub fn slice_fits(index: usize, slice: &SessionSlice, barsz_sec: u32) -> (r: bool)
    ensures
        r == valid_slice(index as int, *slice, barsz_sec as int),
{
    if barsz_sec == 0 || barsz_sec >= SECS_PER_DAY || slice.begin > SECS_PER_DAY || slice.end > SECS_PER_DAY {
        return false;
    }
    let z = barsz_sec;
    let b = slice.begin;
    let e = slice.end;
    proof {
        assert(b / z * z <= b) by (nonlinear_arith)
            requires z > 0;
        assert(e / z * z <= e) by (nonlinear_arith)
            requires z > 0;
    }
    let start = b / z * z;
    let mut end = e / z * z;
    if end < e {
        end = end + z;
    }
    let least: u32 = if index == 0 || b == NIGHT_OPEN_SHIFTED || b == DAY_OPEN_SHIFTED {
        61
    } else {
        1
    };
    start < end && b >= least
}

/// Whether every slice can be cut into bars of `barsz_sec` seconds, as
/// `vec_from_slices` needs.
pub fn slices_fit(slices: &Vec<SessionSlice>, barsz_sec: u32) -> (r: bool)
    ensures
        r == forall|i: int| 0 <= i < slices@.len() ==> valid_slice(i, #[trigger] slices@[i], barsz_sec as int),
{
    let mut i: usize = 0;
    while i < slices.len()
        invariant
            i <= slices@.len(),
            forall|j: int| 0 <= j < i ==> valid_slice(j, #[trigger] slices@[j], barsz_sec as int),
        decreases slices@.len() - i,
    {
        if !BarTime::slice_fits(i, &slices[i], barsz_sec) {
            return false;
        }
        i += 1;
    }
    true
}

/// Whether a builder can work with the bar times `v` (see `bar_times_ok`).
pub fn times_in_order(v: &Vec<BarTime>) -> (r: bool)
    ensures
        r == bar_times_ok(v@),
{
    let n = v.len();
    if n >= 2147483647 {
        return false;
    }
    let mut i: usize = 0;
    while i < n
        invariant
            n == v@.len(),
            n < i32::MAX,
            i <= n,
            forall|a: int, b: int|
                0 <= a <= b < i ==> (#[trigger] v@[a]).virtual_end <= (#[trigger] v@[b]).virtual_end
                    && v@[a].virtual_begin <= v@[b].virtual_begin,
            forall|a: int| 0 <= a < i ==> bar_bounds(#[trigger] v@[a]),
        decreases n - i,
    {
        let bt = v[i];
        if !(bt.nominal_begin < SECS_PER_DAY && 0 <= bt.duration && bt.duration <= SECS_PER_DAY as i64) {
            return false;
        }
        if i > 0 {
            let prev = v[i - 1];
            if prev.virtual_end > bt.virtual_end || prev.virtual_begin > bt.virtual_begin {
                return false;
            }
        }
        proof {
            assert forall|a: int, b: int|
                0 <= a <= b < i + 1 implies (#[trigger] v@[a]).virtual_end <= (#[trigger] v@[b]).virtual_end
                    && v@[a].virtual_begin <= v@[b].virtual_begin by {
                if b == i && a < i {
                    assert(v@[a].virtual_end <= v@[i - 1].virtual_end);
                }
            }
        }
        i += 1;
    }
    true
}
}

} // verus!
