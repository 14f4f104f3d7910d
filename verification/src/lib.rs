//! Bars (candlesticks) of several sizes built from the ticks of an
//! instrument, over the sessions of its trading day.
//!
//! A tick goes to the bar whose `(begin, end]` holds its time: a time on a
//! bar boundary belongs to the bar before.  The first bar of a session starts
//! a second early (61 seconds where it takes in the call auction), the last
//! one ends a second late.  Bars closed by ticks, and bars with no trade in
//! between (where asked for), are handed out; a timer closes bars that no
//! later tick would close.

pub mod bartime;
pub mod clock;
pub mod data_impl;
pub mod instbarbuilder;
pub mod singlebarbuilder;
pub mod util;

pub use bartime::{BarTime, SessionSlice};
pub use data_impl::{BarData, TickData};
pub use instbarbuilder::InstBarBuilder;
pub use singlebarbuilder::{BarBuilderError, LastBarCache, SingleBarBuilder};
