//! Bars and ticks as plain values.
//!
//! Times are milliseconds since 1970-01-01 00:00:00 (no time zone), trading
//! days are days since that day.  A price is carried as an order key: an
//! integer whose order is the order of the prices it stands for, so that the
//! highest and lowest prices of a bar are the largest and smallest keys.
//! Turnover is an integer amount in a unit of the caller's choosing.
use vstd::prelude::*;

verus! {

/// One bar (candlestick) of one bar size.
#[derive(Clone, Copy, Debug, PartialEq, Eq)]
pub struct BarData {
    pub tradeday: i32,
    pub begin: i64,
    /// End of the bar as the builder uses it, one second later where the bar
    /// ends a session slice.
    pub internal_end: i64,
    pub open: i64,
    pub high: i64,
    pub low: i64,
    pub close: i64,
    pub volume: u64,
    pub turnover: i64,
    pub openint: u64,
    pub finished: bool,
    pub barsz_sec: u32,
    /// Whether the tick now being handled created this bar.
    pub created_this_tick: bool,
}

impl BarData {
    pub fn new(
        tradeday: i32,
        begin: i64,
        internal_end: i64,
        open: i64,
        high: i64,
        low: i64,
        close: i64,
        volume: u64,
        turnover: i64,
        openint: u64,
        finished: bool,
        barsz_sec: u32,
        created_this_tick: bool,
    ) -> (r: Self)
        ensures
            r == (BarData {
                tradeday,
                begin,
                internal_end,
                open,
                high,
                low,
                close,
                volume,
                turnover,
                openint,
                finished,
                barsz_sec,
                created_this_tick,
            }),
    {
        BarData {
            tradeday,
            begin,
            internal_end,
            open,
            high,
            low,
            close,
            volume,
            turnover,
            openint,
            finished,
            barsz_sec,
            created_this_tick,
        }
    }

    /// The bar that the builder starts from: all zero, finished, and marked
    /// as created by the tick now being handled.
    pub open spec fn spec_empty() -> BarData {
        BarData {
            tradeday: 0,
            begin: 0,
            internal_end: 0,
            open: 0,
            high: 0,
            low: 0,
            close: 0,
            volume: 0,
            turnover: 0,
            openint: 0,
            finished: true,
            barsz_sec: 0,
            created_this_tick: true,
        }
    }

    pub fn new_empty() -> (r: Self)
        ensures
            r == Self::spec_empty(),
    {
        BarData {
            tradeday: 0,
            begin: 0,
            internal_end: 0,
            open: 0,
            high: 0,
            low: 0,
            close: 0,
            volume: 0,
            turnover: 0,
            openint: 0,
            finished: true,
            barsz_sec: 0,
            created_this_tick: true,
        }
    }
}

impl Default for BarData {
    fn default() -> (r: Self)
        ensures
            r == (BarData {
                tradeday: 0,
                begin: 0,
                internal_end: 0,
                open: 0,
                high: 0,
                low: 0,
                close: 0,
                volume: 0,
                turnover: 0,
                openint: 0,
                finished: false,
                barsz_sec: 0,
                created_this_tick: false,
            }),
    {
        BarData {
            tradeday: 0,
            begin: 0,
            internal_end: 0,
            open: 0,
            high: 0,
            low: 0,
            close: 0,
            volume: 0,
            turnover: 0,
            openint: 0,
            finished: false,
            barsz_sec: 0,
            created_this_tick: false,
        }
    }
}

/// One tick: the latest trade of an instrument.
#[derive(Clone, Copy, Debug, PartialEq, Eq)]
pub struct TickData {
    pub tradeday: i32,
    pub datetime: i64,
    pub last: i64,
    pub openint: u64,
    pub volume: u64,
    pub turnover: i64,
    /// Volume traded since the previous tick.
    pub vol_delta: u64,
    /// Turnover since the previous tick.
    pub tnov_delta: i64,
}

impl TickData {
    pub fn new(
        trade_day: i32,
        datetime: i64,
        last_price: i64,
        openint: u64,
        volume: u64,
        turnover: i64,
        vol_delta: u64,
        tnov_delta: i64,
    ) -> (r: Self)
        ensures
            r == (TickData {
                tradeday: trade_day,
                datetime,
                last: last_price,
                openint,
                volume,
                turnover,
                vol_delta,
                tnov_delta,
            }),
    {
        TickData {
            tradeday: trade_day,
            datetime,
            last: last_price,
            openint,
            volume,
            turnover,
            vol_delta,
            tnov_delta,
        }
    }
}

impl Default for TickData {
    fn default() -> (r: Self)
        ensures
            r == (TickData {
                tradeday: 0,
                datetime: 0,
                last: 0,
                openint: 0,
                volume: 0,
                turnover: 0,
                vol_delta: 0,
                tnov_delta: 0,
            }),
    {
        TickData::new(0, 0, 0, 0, 0, 0, 0, 0)
    }
}

} // verus!
