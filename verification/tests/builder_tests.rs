use std::collections::HashMap;

use barbuilder::singlebarbuilder::SingleBarBuilder;
use barbuilder::{BarBuilderError, BarData, BarTime, InstBarBuilder, SessionSlice, TickData};
use chrono::{NaiveDate, NaiveDateTime};

/// Shifted clock reading (four hours ahead, seconds) of a wall-clock time.
fn shifted(h: u32, m: u32) -> u32 {
    ((h * 3600 + m * 60) + 4 * 3600) % 86400
}

/// Sessions of a commodity with a night session: 21:00-23:00, 09:00-10:15,
/// 10:30-11:30, 13:30-15:00.
fn commodity_night_slices() -> Vec<SessionSlice> {
    vec![
        SessionSlice { begin: shifted(21, 0), end: shifted(23, 0) },
        SessionSlice { begin: shifted(9, 0), end: shifted(10, 15) },
        SessionSlice { begin: shifted(10, 30), end: shifted(11, 30) },
        SessionSlice { begin: shifted(13, 30), end: shifted(15, 0) },
    ]
}

fn ms(dt: NaiveDateTime) -> i64 {
    dt.and_utc().timestamp_millis()
}

fn day(d: NaiveDate) -> i32 {
    (d - NaiveDate::from_ymd_opt(1970, 1, 1).unwrap()).num_days() as i32
}

fn at(d: NaiveDate, h: u32, m: u32, s: u32, milli: u32) -> i64 {
    ms(d.and_hms_milli_opt(h, m, s, milli).unwrap())
}

fn print_bar(bar: &BarData) {
    println!(
        "   {}, {} ~ {}, ohlc({}, {}, {}, {}), v {}",
        bar.barsz_sec / 60,
        bar.begin,
        bar.internal_end,
        bar.open,
        bar.high,
        bar.low,
        bar.close,
        bar.volume
    );
}

fn builder(sizes: &[u32], zero_vol_bar: bool) -> InstBarBuilder {
    let slices = commodity_night_slices();
    let mut map: HashMap<u32, Vec<BarTime>> = HashMap::new();
    for &sz in sizes {
        let times = BarTime::vec_from_slices(&slices, sz);
        assert!(BarTime::times_in_order(&times));
        map.insert(sz, times);
    }
    InstBarBuilder::new("ag2510", map, zero_vol_bar)
}

fn prebar(date: NaiveDate, barsize_sec: u32, minutes: u32) -> BarData {
    let mut bar = BarData::default();
    bar.begin = at(date, 9, minutes, 0, 0);
    bar.barsz_sec = barsize_sec;
    bar.tradeday = day(date);
    bar.open = 9468;
    bar.high = 9471;
    bar.low = 9459;
    bar.close = 9463;
    bar.volume = 100;
    bar.openint = 482770;
    bar.turnover = 94017413385;
    bar
}

// A bar set to continue from, and the timer.
#[test]
fn prebar_ontimer() {
    let barsize_sec = 900;
    let minutes = if barsize_sec == 300 {
        5
    } else if barsize_sec == 900 {
        15
    } else if barsize_sec == 1800 {
        30
    } else {
        0
    };

    let date = NaiveDate::from_ymd_opt(2025, 7, 23).expect("");
    let bar = prebar(date, barsize_sec, minutes);
    let mut prebars: HashMap<u32, BarData> = HashMap::new();
    prebars.insert(barsize_sec, bar);
    let mut bb = builder(&[barsize_sec], true);
    bb.set_pre_bars(prebars).expect("before any tick");
    let mut closed_this_tick: Vec<BarData> = vec![];
    let mut updated_this_tick: Vec<BarData> = vec![];
    let mut tick = TickData::default();
    tick.datetime = at(date, 9, 16, 10, 500);
    tick.tradeday = day(date);
    tick.last = 9478;
    tick.vol_delta = 50;
    tick.volume = 760184;
    tick.turnover = 93975804915;
    tick.tnov_delta = 68900;

    println!("\n\nontick: {:<23}, px {}, v {}", tick.datetime, tick.last, tick.vol_delta);

    bb.on_tick(&tick, &mut closed_this_tick, &mut updated_this_tick, true);

    if !closed_this_tick.is_empty() {
        println!("closed bar:");
        for bar in closed_this_tick.iter() {
            print_bar(bar);
        }
        closed_this_tick.clear();
    }

    if !updated_this_tick.is_empty() {
        println!("updated bar:");
        for bar in updated_this_tick.iter() {
            print_bar(bar);
        }
        updated_this_tick.clear();
    }
    let now = at(date, 10, 20, 0, 0);
    println!("\n\nontimer: {}", now);
    bb.on_timer(now, 10_000, &mut closed_this_tick);
    if !closed_this_tick.is_empty() {
        println!("ontimer1 closed bar:");
        for bar in closed_this_tick.iter() {
            print_bar(bar);
        }
        closed_this_tick.clear();
    }

    tick.datetime = at(date, 14, 51, 13, 0);

    println!("\n\ntick: {:<23}, px {}, v {}", tick.datetime, tick.last, tick.vol_delta);
    bb.on_tick(&tick, &mut closed_this_tick, &mut updated_this_tick, true);

    if !closed_this_tick.is_empty() {
        println!("closed bar:");
        for bar in closed_this_tick.iter() {
            print_bar(bar);
        }
        closed_this_tick.clear();
    }
    if !updated_this_tick.is_empty() {
        println!("updated bar:");
        for bar in updated_this_tick.iter() {
            print_bar(bar);
        }
        updated_this_tick.clear();
    }

    let now = at(date, 15, 3, 0, 0);
    println!("\n\nontimer: {}", now);
    bb.on_timer(now, 5_000, &mut closed_this_tick);
    if !closed_this_tick.is_empty() {
        println!("ontimer2 closed bar:");
        for bar in closed_this_tick.iter() {
            print_bar(bar);
        }
        closed_this_tick.clear();
    }
}

#[test]
fn prebar_ontimer_outcomes() {
    let date = NaiveDate::from_ymd_opt(2025, 7, 23).unwrap();
    let mut prebars: HashMap<u32, BarData> = HashMap::new();
    prebars.insert(900, prebar(date, 900, 15));
    let mut bb = builder(&[900], true);
    assert_eq!(bb.set_pre_bars(prebars), Ok(()));

    let mut closed = vec![];
    let mut updated = vec![];
    let mut tick = TickData::default();
    tick.datetime = at(date, 9, 16, 10, 500);
    tick.tradeday = day(date);
    tick.last = 9478;
    tick.vol_delta = 50;
    tick.tnov_delta = 68900;
    assert!(bb.on_tick(&tick, &mut closed, &mut updated, true));
    assert!(closed.is_empty());
    assert_eq!(updated.len(), 1);
    let b = updated[0];
    assert_eq!(b.begin, at(date, 9, 15, 0, 0));
    assert_eq!(b.internal_end, at(date, 9, 30, 0, 0));
    assert_eq!((b.open, b.high, b.low, b.close), (9468, 9478, 9459, 9478));
    assert_eq!(b.volume, 150);
    assert_eq!(b.turnover, 94017413385 + 68900);
    assert!(!b.finished && !b.created_this_tick);

    // 10:19:50 is in the break: the 9:15 bar closes, and the bars of 9:30,
    // 9:45 and 10:00 had no trade.
    bb.on_timer(at(date, 10, 20, 0, 0), 10_000, &mut closed);
    assert_eq!(closed.len(), 4);
    assert!(closed[0].finished && closed[0].volume == 150);
    let begins: Vec<i64> = closed[1..].iter().map(|b| b.begin).collect();
    assert_eq!(begins, vec![at(date, 9, 30, 0, 0), at(date, 9, 45, 0, 0), at(date, 10, 0, 0, 0)]);
    // the 10:00 bar ends at the break, a second late
    assert_eq!(closed[3].internal_end, at(date, 10, 15, 1, 0));
    for z in &closed[1..] {
        assert_eq!(z.volume, 0);
        assert_eq!((z.open, z.high, z.low, z.close), (9478, 9478, 9478, 9478));
        assert!(z.finished);
    }
    closed.clear();

    // a tick at 14:51:13: zero-volume bars from 10:30 to 14:30 come first
    tick.datetime = at(date, 14, 51, 13, 0);
    updated.clear();
    assert!(bb.on_tick(&tick, &mut closed, &mut updated, true));
    assert_eq!(closed.len(), 4 + 5);
    assert_eq!(closed[0].begin, at(date, 10, 30, 0, 0));
    assert_eq!(closed[3].begin, at(date, 11, 15, 0, 0));
    assert_eq!(closed[3].internal_end, at(date, 11, 30, 1, 0));
    assert_eq!(closed[4].begin, at(date, 13, 30, 0, 0));
    assert_eq!(closed[8].begin, at(date, 14, 30, 0, 0));
    assert_eq!(updated.len(), 1);
    assert_eq!(updated[0].begin, at(date, 14, 45, 0, 0));
    assert_eq!(updated[0].internal_end, at(date, 15, 0, 1, 0));
    assert!(updated[0].created_this_tick);
    closed.clear();

    // the last bar of the day closes by the timer
    bb.on_timer(at(date, 15, 3, 0, 0), 5_000, &mut closed);
    assert_eq!(closed.len(), 1);
    assert_eq!(closed[0].begin, at(date, 14, 45, 0, 0));
    assert_eq!(closed[0].volume, 50);

    // no bar can be set to continue from after a tick
    let mut late: HashMap<u32, BarData> = HashMap::new();
    late.insert(900, prebar(date, 900, 15));
    assert_eq!(bb.set_pre_bars(late), Err(BarBuilderError::PreBarAfterTick));
}

#[test]
fn bar_times_of_commodity_day() {
    let slices = commodity_night_slices();
    let hour = BarTime::vec_from_slices(&slices, 3600);
    // night 21:00, 22:00; day 9:00, 10:00 (10:00-10:15 and 10:30-11:00 joined),
    // 11:00, 13:00, 14:00
    let nominal: Vec<u32> = hour.iter().map(|b| b.nominal_begin).collect();
    assert_eq!(nominal, vec![75600, 79200, 32400, 36000, 39600, 46800, 50400]);
    let ten = &hour[3];
    assert_eq!(ten.virtual_begin, shifted(10, 0));
    assert_eq!(ten.virtual_end, shifted(11, 0));
    assert_eq!(ten.duration, 3600);
    assert!(!ten.with_slice_begin && !ten.with_slice_end);
    // the night opens with the call auction: 61 seconds early
    assert_eq!(hour[0].virtual_begin, shifted(21, 0) - 61);
    assert!(hour[0].with_auction);
    // 9:00 opens with the call auction too
    assert_eq!(hour[2].virtual_begin, shifted(9, 0) - 61);
    // 13:30 opens a slice: a second early; the bar starts at 13:00 nominally
    assert_eq!(hour[5].virtual_begin, shifted(13, 30) - 1);
    assert_eq!(hour[5].duration, 3600);
    // 14:00 ends the day at 15:00, a second late
    assert_eq!(hour[6].virtual_end, shifted(15, 0) + 1);
    assert_eq!(hour[6].duration, 3600);

    let half = BarTime::vec_from_slices(&slices, 1800);
    // 10:00 half hour bar lasts until the break at 10:15
    let ten_half = half.iter().find(|b| b.nominal_begin == 36000).unwrap();
    assert_eq!(ten_half.duration, 900);
    assert_eq!(ten_half.virtual_end, shifted(10, 15) + 1);
    assert!(BarTime::times_in_order(&half));
}

#[test]
fn single_slice_bars() {
    let slice = SessionSlice { begin: shifted(9, 30), end: shifted(11, 30) };
    let bars = BarTime::build_from_slice(1, &slice, 3600);
    assert_eq!(bars.len(), 3);
    assert_eq!(bars[0].virtual_begin, shifted(9, 30) - 1);
    assert_eq!(bars[0].nominal_begin, 9 * 3600);
    assert_eq!(bars[2].nominal_begin, 11 * 3600);
    assert_eq!(bars[2].duration, 1800);
    assert_eq!(bars[2].virtual_end, shifted(11, 30) + 1);
    // the first slice of the day takes in the call auction
    let first = BarTime::build_from_slice(0, &slice, 3600);
    assert_eq!(first[0].virtual_begin, shifted(9, 30) - 61);
}

#[test]
fn tick_lookup_left_open_right_closed() {
    let slices = commodity_night_slices();
    let times = BarTime::vec_from_slices(&slices, 300);
    let probe = |h: u32, m: u32, s: u32| {
        let t = BarTime { virtual_end: shifted(h, m) + s, ..BarTime::default() };
        SingleBarBuilder::search_end_time_index(&t, &times)
    };
    // 9:05:00 belongs to the 9:00 bar, 9:05:01 to the next
    let i = probe(9, 5, 0);
    assert!(i >= 0);
    assert_eq!(times[i as usize].nominal_begin, 9 * 3600);
    assert_eq!(probe(9, 5, 1), i + 1);
    // the call auction minute before 9:00 belongs to the first bar
    assert_eq!(probe(8, 59, 30), i);
    // the break and the night are apart
    assert_eq!(probe(10, 20, 0), -1);
    assert_eq!(probe(16, 0, 0), -1);
    // a second after the break belongs to the last bar before it
    let j = probe(10, 15, 1);
    assert_eq!(times[j as usize].nominal_begin, 10 * 3600 + 10 * 60);
    // by begin
    let k = SingleBarBuilder::search_begin_time_index(
        &BarTime { virtual_begin: shifted(9, 10), ..BarTime::default() },
        &times,
    );
    assert_eq!(times[k as usize].nominal_begin, 9 * 3600 + 10 * 60);
}

#[test]
fn ticks_build_bars_of_two_sizes() {
    let date = NaiveDate::from_ymd_opt(2025, 7, 23).unwrap();
    let mut bb = builder(&[300, 60], false);
    assert_eq!(bb.inst(), "ag2510");
    let mut closed = vec![];
    let mut updated = vec![];
    let mut tick = TickData::default();
    tick.tradeday = day(date);
    for (i, (m, s, px, v)) in [(0u32, 10u32, 100i64, 5u64), (0, 40, 103, 2), (1, 5, 98, 4), (1, 30, 101, 1)]
        .iter()
        .enumerate()
    {
        tick.datetime = at(date, 9, *m, *s, 0);
        tick.last = *px;
        tick.vol_delta = *v;
        tick.openint = 10 + i as u64;
        assert!(bb.on_tick(&tick, &mut closed, &mut updated, false));
    }
    // the 1-minute bar of 9:00 closed when the 9:01 tick came
    assert_eq!(closed.len(), 1);
    let c = closed[0];
    assert_eq!(c.barsz_sec, 60);
    assert_eq!((c.open, c.high, c.low, c.close, c.volume), (100, 103, 100, 103, 7));
    assert!(updated.is_empty());
    // a tick outside the session
    tick.datetime = at(date, 12, 0, 0, 0);
    closed.clear();
    assert!(!bb.on_tick(&tick, &mut closed, &mut updated, true));
    // both bars close, the smaller size first
    assert_eq!(closed.len(), 2);
    assert_eq!(closed[0].barsz_sec, 60);
    assert_eq!((closed[0].high, closed[0].low, closed[0].volume), (101, 98, 5));
    assert_eq!(closed[1].barsz_sec, 300);
    assert_eq!((closed[1].open, closed[1].high, closed[1].low, closed[1].close), (100, 103, 98, 101));
    assert_eq!(closed[1].volume, 12);
    assert!(updated.is_empty());

    bb.remove_barsize(60);
    tick.datetime = at(date, 13, 31, 0, 0);
    closed.clear();
    assert!(bb.on_tick(&tick, &mut closed, &mut updated, true));
    assert_eq!(updated.len(), 1);
    assert_eq!(updated[0].barsz_sec, 300);
    assert_eq!(updated[0].begin, at(date, 13, 30, 0, 0));
}

#[test]
fn midnight_tick_stays_on_the_day_before() {
    // a night session running past midnight
    let slices = vec![
        SessionSlice { begin: shifted(21, 0), end: shifted(2, 30) },
        SessionSlice { begin: shifted(9, 0), end: shifted(10, 15) },
    ];
    let mut map: HashMap<u32, Vec<BarTime>> = HashMap::new();
    map.insert(300, BarTime::vec_from_slices(&slices, 300));
    let mut bb = InstBarBuilder::new("ag2510", map, false);
    let d = NaiveDate::from_ymd_opt(2021, 11, 8).unwrap();
    let next = NaiveDate::from_ymd_opt(2021, 11, 9).unwrap();
    let mut closed = vec![];
    let mut updated = vec![];
    let mut tick = TickData::default();
    tick.tradeday = day(next);
    tick.datetime = at(d, 23, 59, 59, 500);
    tick.last = 5;
    tick.vol_delta = 1;
    bb.on_tick(&tick, &mut closed, &mut updated, false);
    tick.datetime = at(next, 0, 0, 0, 0);
    bb.on_tick(&tick, &mut closed, &mut updated, false);
    // the midnight tick closes the 23:55 bar of the day before
    assert_eq!(closed.len(), 1);
    assert_eq!(closed[0].begin, at(d, 23, 55, 0, 0));
    assert_eq!(closed[0].internal_end, at(next, 0, 0, 0, 0));
    assert_eq!(closed[0].volume, 2);
    tick.datetime = at(next, 0, 0, 0, 500);
    bb.on_tick(&tick, &mut closed, &mut updated, true);
    assert_eq!(updated[0].begin, at(next, 0, 0, 0, 0));
}

#[test]
fn force_finish_closes_due_bars() {
    let date = NaiveDate::from_ymd_opt(2025, 7, 23).unwrap();
    let mut bb = builder(&[60, 300], false);
    let mut closed = vec![];
    let mut updated = vec![];
    let mut tick = TickData::default();
    tick.tradeday = day(date);
    tick.datetime = at(date, 9, 3, 20, 0);
    tick.last = 7;
    tick.vol_delta = 3;
    bb.on_tick(&tick, &mut closed, &mut updated, false);
    // at 9:04:00 the minute bar is due, the 5-minute bar is not
    bb.force_finish(at(date, 9, 4, 0, 0), &mut closed);
    assert_eq!(closed.len(), 1);
    assert_eq!(closed[0].barsz_sec, 60);
    assert!(closed[0].finished);
    bb.force_finish(at(date, 9, 5, 0, 0), &mut closed);
    assert_eq!(closed.len(), 2);
    assert_eq!(closed[1].barsz_sec, 300);
}

#[test]
fn zero_volume_bars_only_when_asked() {
    let date = NaiveDate::from_ymd_opt(2025, 7, 23).unwrap();
    for zero_vol_bar in [false, true] {
        let mut bb = builder(&[60], zero_vol_bar);
        let mut closed = vec![];
        let mut updated = vec![];
        let mut tick = TickData::default();
        tick.tradeday = day(date);
        tick.last = 3;
        tick.vol_delta = 1;
        tick.datetime = at(date, 9, 0, 30, 0);
        bb.on_tick(&tick, &mut closed, &mut updated, false);
        // with no bar before it, the first tick of the day fills the night
        // session's 120 one-minute bars with zero-volume bars
        assert_eq!(closed.len(), if zero_vol_bar { 120 } else { 0 });
        assert!(closed.iter().all(|b| b.volume == 0 && b.finished));
        closed.clear();
        tick.datetime = at(date, 9, 3, 30, 0);
        bb.on_tick(&tick, &mut closed, &mut updated, false);
        let zeros = closed.iter().filter(|b| b.volume == 0).count();
        assert_eq!(closed.len(), if zero_vol_bar { 3 } else { 1 });
        assert_eq!(zeros, if zero_vol_bar { 2 } else { 0 });
    }
}

#[test]
fn single_builder_basics() {
    let slices = commodity_night_slices();
    let times = BarTime::vec_from_slices(&slices, 900);
    let n = times.len();
    let sb = SingleBarBuilder::new("rb2510", 900, times, true);
    assert_eq!(sb.barsz_sec(), 900);
    assert_eq!(sb.inst(), "rb2510");
    assert_eq!(sb.bar_time_vec().len(), n);
    assert_eq!(sb.last_bar_end(), 0);
    assert!(BarTime::header_for_print().contains("竞价"));
}

#[test]
fn handed_out_bars_are_sound() {
    let date = NaiveDate::from_ymd_opt(2025, 7, 23).unwrap();
    let sound = |b: &BarData| b.low <= b.open && b.open <= b.high && b.low <= b.close && b.close <= b.high;
    for zero_vol_bar in [false, true] {
        let mut bb = builder(&[60, 300, 900], zero_vol_bar);
        let mut by_tick = vec![];
        let mut updated = vec![];
        let mut tick = TickData::default();
        tick.tradeday = day(date);
        // a wandering price over the morning, a tick every 97 seconds, some
        // with no volume
        let mut px: i64 = 5000;
        for k in 0..40u32 {
            let secs = 9 * 3600 + k * 97;
            tick.datetime = at(date, secs / 3600, secs / 60 % 60, secs % 60, 250);
            px += [7, -13, 4, -2, 11][(k % 5) as usize];
            tick.last = px;
            tick.vol_delta = (k % 3) as u64;
            bb.on_tick(&tick, &mut by_tick, &mut updated, true);
            for b in &updated {
                assert!(sound(b));
                assert!(!b.finished);
            }
            updated.clear();
        }
        assert!(!by_tick.is_empty());
        for b in &by_tick {
            assert!(b.finished && sound(b));
            if !zero_vol_bar {
                assert!(b.volume > 0);
            }
        }
        let mut by_timer = vec![];
        bb.on_timer(at(date, 10, 20, 0, 0), 5_000, &mut by_timer);
        assert!(!by_timer.is_empty());
        for b in &by_timer {
            assert!(b.finished && sound(b));
            assert!(b.internal_end <= at(date, 10, 19, 55, 0));
        }
        // after the ticks, no bar can be set to continue from
        let mut late = HashMap::new();
        late.insert(60, prebar(date, 60, 1));
        assert_eq!(bb.set_pre_bars(late), Err(BarBuilderError::PreBarAfterTick));
    }
}

#[test]
fn closed_by_tick_have_volume_without_zero_volume_bars() {
    let date = NaiveDate::from_ymd_opt(2025, 7, 23).unwrap();
    let mut bb = builder(&[60], false);
    let mut closed = vec![];
    let mut updated = vec![];
    let mut tick = TickData::default();
    tick.tradeday = day(date);
    tick.last = 10;
    // a bar with no volume, then a tick in the next minute
    tick.vol_delta = 0;
    tick.datetime = at(date, 9, 0, 10, 0);
    bb.on_tick(&tick, &mut closed, &mut updated, false);
    tick.vol_delta = 4;
    tick.datetime = at(date, 9, 1, 10, 0);
    bb.on_tick(&tick, &mut closed, &mut updated, false);
    // the 9:00 bar closed with no volume and is not handed out
    assert!(closed.is_empty());
    tick.datetime = at(date, 9, 2, 10, 0);
    bb.on_tick(&tick, &mut closed, &mut updated, false);
    assert_eq!(closed.len(), 1);
    assert_eq!(closed[0].volume, 4);
}

#[test]
fn slices_that_cannot_be_cut() {
    let slices = commodity_night_slices();
    assert!(BarTime::slices_fit(&slices, 60));
    assert!(BarTime::slices_fit(&slices, 3600));
    assert!(!BarTime::slices_fit(&slices, 0));
    assert!(!BarTime::slices_fit(&slices, 86400));
    // the first slice opens with the call auction: 61 seconds must fit before it
    let early = vec![SessionSlice { begin: 30, end: 3600 }];
    assert!(!BarTime::slices_fit(&early, 60));
    let late = vec![SessionSlice { begin: 3600, end: 86401 }];
    assert!(!BarTime::slices_fit(&late, 60));
    assert!(BarTime::slice_fits(1, &SessionSlice { begin: 30, end: 3600 }, 60));
    assert!(!BarTime::slice_fits(1, &SessionSlice { begin: 0, end: 3600 }, 60));
}

#[test]
fn bar_times_of_apart_slices_are_in_order() {
    let night_past_midnight = vec![
        SessionSlice { begin: shifted(21, 0), end: shifted(2, 30) },
        SessionSlice { begin: shifted(9, 0), end: shifted(10, 15) },
        SessionSlice { begin: shifted(10, 30), end: shifted(11, 30) },
        SessionSlice { begin: shifted(13, 30), end: shifted(15, 0) },
    ];
    let financial = vec![
        SessionSlice { begin: shifted(9, 30), end: shifted(11, 30) },
        SessionSlice { begin: shifted(13, 0), end: shifted(15, 0) },
    ];
    for slices in [commodity_night_slices(), night_past_midnight, financial] {
        for sz in [60, 180, 300, 420, 900, 1800, 3600, 7200] {
            assert!(BarTime::slices_fit(&slices, sz));
            let times = BarTime::vec_from_slices(&slices, sz);
            assert!(BarTime::times_in_order(&times), "size {sz}");
        }
    }
}

#[test]
fn a_bar_counts_as_new_only_for_the_tick_that_made_it() {
    let date = NaiveDate::from_ymd_opt(2025, 7, 23).unwrap();
    let mut bb = builder(&[60], false);
    let mut closed = vec![];
    let mut updated = vec![];
    let mut tick = TickData::default();
    tick.tradeday = day(date);
    tick.last = 42;
    tick.vol_delta = 1;
    tick.datetime = at(date, 9, 10, 5, 0);
    bb.on_tick(&tick, &mut closed, &mut updated, true);
    assert_eq!(updated.len(), 1);
    assert!(updated[0].created_this_tick);
    updated.clear();
    tick.datetime = at(date, 9, 10, 35, 0);
    tick.last = 40;
    bb.on_tick(&tick, &mut closed, &mut updated, true);
    assert_eq!(updated.len(), 1);
    assert!(!updated[0].created_this_tick);
    assert_eq!((updated[0].open, updated[0].low, updated[0].close, updated[0].volume), (42, 40, 40, 2));
}

#[test]
fn each_size_hands_out_its_closed_and_zero_volume_bars_together() {
    let date = NaiveDate::from_ymd_opt(2025, 7, 23).unwrap();
    let mut bb = builder(&[60, 300], true);
    let mut closed = vec![];
    let mut updated = vec![];
    let mut tick = TickData::default();
    tick.tradeday = day(date);
    tick.last = 8;
    tick.vol_delta = 2;
    tick.datetime = at(date, 9, 0, 30, 0);
    bb.on_tick(&tick, &mut closed, &mut updated, false);
    closed.clear();
    // 9:07:30: the 9:00 minute bar and the 9:00 five-minute bar close; the
    // minutes 9:01 to 9:06 had no trade
    tick.datetime = at(date, 9, 7, 30, 0);
    bb.on_tick(&tick, &mut closed, &mut updated, false);
    let sizes: Vec<u32> = closed.iter().map(|b| b.barsz_sec).collect();
    assert_eq!(sizes, vec![60, 60, 60, 60, 60, 60, 60, 300]);
    assert_eq!(closed[0].volume, 2);
    assert!(closed[1..7].iter().all(|b| b.volume == 0));
    assert_eq!(closed[7].volume, 2);
}

#[test]
fn no_pre_bar_after_a_tick_outside_the_session() {
    let date = NaiveDate::from_ymd_opt(2025, 7, 23).unwrap();
    let mut bb = builder(&[900], false);
    let mut closed = vec![];
    let mut updated = vec![];
    let mut tick = TickData::default();
    tick.tradeday = day(date);
    tick.datetime = at(date, 12, 0, 0, 0);
    assert!(!bb.on_tick(&tick, &mut closed, &mut updated, false));
    let mut prebars = HashMap::new();
    prebars.insert(900, prebar(date, 900, 15));
    assert_eq!(bb.set_pre_bars(prebars), Err(BarBuilderError::PreBarAfterTick));
}
