# barbuilder

Bars (candlesticks) of several sizes built from the ticks of one instrument
over the sessions of its trading day, with the builder's behaviour stated in
contracts and proved by Verus.

- `src/` is the verified library: the shifted clock (`clock`), the bar times
  of a day cut from its session slices (`bartime`), the builder of one bar
  size (`singlebarbuilder`) and of all sizes of an instrument
  (`instbarbuilder`), plain bars and ticks (`data_impl`), and helpers on
  instrument names and a binary search (`util`).  Times are milliseconds
  since 1970-01-01, prices are order keys (integers ordered as the prices).
- `app/` is the code around it: bars and ticks with `chrono` times and float
  prices, bar times from the `tradesession` crate, error values, and the
  Python (`pyo3`) and C++ (`cxx`) bindings.
- `tests/` runs the library on concrete days and ticks.
