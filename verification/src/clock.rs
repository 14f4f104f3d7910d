//! Plain-value clock: datetimes as milliseconds since 1970-01-01 00:00:00
//! (no time zone), dates as days since that day, times of day as seconds or
//! milliseconds since midnight, and the "shifted" clock of the trading day.
use vstd::prelude::*;

verus! {

/// Milliseconds in one second.
pub const MS_PER_SEC: i64 = 1000;

/// Milliseconds in one day.
pub const MS_PER_DAY: i64 = 86_400_000;

/// Seconds in one day.
pub const SECS_PER_DAY: u32 = 86_400;

/// How far the shifted clock runs ahead of the wall clock: four hours, so
/// that a night session starting in the evening and running past midnight
/// reads as one increasing range (20:00:00 on the wall clock is 0).
pub const SHIFT_SECS: u32 = 14_400;

/// Largest magnitude of a datetime, in milliseconds from the epoch; it covers
/// every date a calendar library of years -262143..=262143 can hold.
pub const DATETIME_LIMIT_MS: i64 = 9_007_199_254_740_992;

/// Largest magnitude of a day number of a datetime this library carries.
pub const DAY_LIMIT: i32 = 104_249_992;

/// A day number of a datetime this library carries.
pub open spec fn valid_day(d: int) -> bool {
    -DAY_LIMIT <= d <= DAY_LIMIT
}

/// A datetime in milliseconds that this library can carry.
pub open spec fn valid_datetime(ms: int) -> bool {
    -DATETIME_LIMIT_MS <= ms <= DATETIME_LIMIT_MS
}

/// The day (days since the epoch) that a datetime falls on.
pub open spec fn spec_day_of(ms: int) -> int {
    ms / (MS_PER_DAY as int)
}

/// Milliseconds since midnight of a datetime.
pub open spec fn spec_ms_of_day(ms: int) -> int {
    ms % (MS_PER_DAY as int)
}

/// The shifted clock reading, in whole seconds, of a time of day given in
/// milliseconds: a fraction of a second counts as a whole one (a time just
/// after a bar boundary belongs to the next bar), then four hours are added,
/// modulo one day.
pub open spec fn spec_shifted_of(ms_of_day: int) -> int {
    ((ms_of_day + 999) / 1000 + SHIFT_SECS as int) % (SECS_PER_DAY as int)
}

/// The wall-clock time of day, in seconds, of a shifted clock reading.
pub open spec fn spec_time_of_shifted(shifted: int) -> int {
    (shifted + (SECS_PER_DAY - SHIFT_SECS) as int) % (SECS_PER_DAY as int)
}

proof fn lemma_floor_div_neg(ms: int, q: int)
    requires
        ms < 0,
        q == (-ms - 1) / (MS_PER_DAY as int),
    ensures
        ms / (MS_PER_DAY as int) == -q - 1,
        ms % (MS_PER_DAY as int) == ms + (q + 1) * MS_PER_DAY,
{
    let d = MS_PER_DAY as int;
    let r = (-ms - 1) % d;
    assert(-ms - 1 == q * d + r && 0 <= r < d) by (nonlinear_arith)
        requires d == MS_PER_DAY, q == (-ms - 1) / d, r == (-ms - 1) % d, d > 0;
    assert(ms == (-q - 1) * d + (d - 1 - r)) by (nonlinear_arith)
        requires -ms - 1 == q * d + r;
    vstd::arithmetic::div_mod::lemma_fundamental_div_mod_converse(ms, d, -q - 1, d - 1 - r);
}

/// The day a datetime falls on.
pub fn day_of(ms: i64) -> (d: i32)
    requires
        valid_datetime(ms as int),
    ensures
        d == spec_day_of(ms as int),
        valid_day(d as int),
{
    if ms >= 0 {
        let q = ms / MS_PER_DAY;
        assert(q <= 104_249_991) by (nonlinear_arith)
            requires q == (ms as int) / (MS_PER_DAY as int), 0 <= ms <= DATETIME_LIMIT_MS;
        q as i32
    } else {
        let q = (-ms - 1) / MS_PER_DAY;
        assert(q <= 104_249_991) by (nonlinear_arith)
            requires q == (-ms - 1) / (MS_PER_DAY as int), 0 <= -ms - 1 <= DATETIME_LIMIT_MS;
        proof {
            lemma_floor_div_neg(ms as int, q as int);
        }
        -(q as i32) - 1
    }
}

/// Milliseconds since midnight of a datetime.
pub fn ms_of_day(ms: i64) -> (t: u32)
    requires
        valid_datetime(ms as int),
    ensures
        t == spec_ms_of_day(ms as int),
        t < MS_PER_DAY,
{
    if ms >= 0 {
        (ms % MS_PER_DAY) as u32
    } else {
        let q = (-ms - 1) / MS_PER_DAY;
        proof {
            lemma_floor_div_neg(ms as int, q as int);
        }
        assert(q <= 104_249_991) by (nonlinear_arith)
            requires q == (-ms - 1) / (MS_PER_DAY as int), 0 <= -ms - 1 <= DATETIME_LIMIT_MS;
        (ms + (q + 1) * MS_PER_DAY) as u32
    }
}

/// The shifted clock reading of a time of day given in milliseconds.
pub fn shifted_of(ms_of_day: u32) -> (s: u32)
    requires
        ms_of_day < MS_PER_DAY,
    ensures
        s == spec_shifted_of(ms_of_day as int),
        s < SECS_PER_DAY,
{
    ((ms_of_day + 999) / 1000 + SHIFT_SECS) % SECS_PER_DAY
}

/// The wall-clock time of day, in seconds, of a shifted clock reading.
pub fn time_of_shifted(shifted: u32) -> (t: u32)
    requires
        shifted <= 2 * SECS_PER_DAY,
    ensures
        t == spec_time_of_shifted(shifted as int),
        t < SECS_PER_DAY,
{
    (shifted + (SECS_PER_DAY - SHIFT_SECS)) % SECS_PER_DAY
}

} // verus!
