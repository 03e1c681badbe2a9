# rquant

The verified core of a fuzzy decision-tree backtester for A-share markets,
written in Verus. Every function in `src/` carries a contract that Verus
proves; the laws of the library are public proof functions (named `law_*`).

## Layout

- `src/dsl/` — the condition language: lexer, precedence-climbing parser
  (exact error messages), and parameter substitution.
- `src/data/` — the time model (timestamps in seconds, day numbers; bare
  dates of daily bars taken at the 15:00 close), the A-share calendar and
  holiday files, universe, membership, aux and fundamentals tables read from
  CSV text, the point-in-time row lookup, Sina and Tencent quote rows turned
  into time-ordered bars (prices kept as written), the bar and news file
  time checks, quote service URLs, the download retry decisions, and series
  time profiles.
- `src/backtest/` — gap detection against the calendar, the cross-sectional
  timeline, rebalance schedules, walk-forward folds and the simulator's T+1
  rule.
- `src/features/` — the point-in-time gate: what a decision at time `t` may see.
- `src/factor/` — factor configuration checks, sampling points, layer sizes and
  the IC decay ladder.
- `src/optimize/` — grid flags, Cartesian grid expansion and fold plans.
- `src/screen/` — screener configuration checks, sector and symbol lists, the
  as-of bar.
- `src/eval/` — LLM node decisions (disabled and stub evaluators, fallbacks),
  the user message, and content-addressed cache keys.
- `tests/` — example-based tests of the library.
- `app/` — the command line (`fetch`, `validate-data`): network and file I/O,
  Sina's typed JSON rows, reading the written prices and table values into
  numbers, forward adjustment and price-jump checks.

The library works on the integer, text and index structure of the
backtester. The floating-point work on prices and returns that is in this
crate (reading prices into numbers, adjustment, jump checks) lives in
`app/`; the floating-point backtest, optimizer, factor, screener, simulation
and report computations (including the HTML charts) are not part of this
crate.
