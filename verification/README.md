# backtester

An event-driven backtesting engine for US equity minute bars, written in Verus.
A strategy implements `Algorithm`; the engine takes the dataset's ticks in order,
executes orders, applies splits, dividends, renames and delistings at day
boundaries, and reports trades, equity and statistics.

- `src/` is the verified library. It is generic over its `Number`s, so that
  contracts say which operations are applied to which amounts; `decimal.rs` is a
  fixed-point number, and `exact.rs` says how numbers stand for reals: in
  range, to within a step.
- `tests/` runs whole backtests on synthetic bars with machine floats, and the
  parts on their own.
- `app/` runs the library over Parquet datasets: files, decoding threads, JSON
  and printing.

## Where things stand

| Module | What it holds |
| --- | --- |
| `number`, `decimal`, `exact` | amounts |
| `symbol`, `data`, `calendar`, `text` | ids, ticker names, dates and instants, paths |
| `bar`, `slice`, `tick`, `reader`, `tick_stream`, `drains`, `files` | rows into ticks, in order, on one thread or many |
| `metadata`, `insider`, `agenda` | corporate actions and filings by date |
| `slippage`, `commission`, `margin` | execution models |
| `context`, `algorithm`, `consolidator` | what a strategy sees and steers |
| `broker`, `stats` | positions, trades, figures |
| `engine` | the run: orders, corporate actions, financing, the event loop, the result |

The laws of the library stand beside what they speak of. Those on whole runs are
in `engine/accounting.rs`, `engine/chain.rs` and `engine/whole_run.rs` (the books
always add up; the equity curve), `engine/safeguards.rs` (limits, margin and
volume caps, what splits and fills keep) and `engine/timeline.rs` (no look-ahead,
once-a-day work, what the strategy is told, the record of equity). What draining
a reader or a stream yields is in `drains.rs`, and how a strategy lives through
its calls in `algorithm.rs`.

## Trusted code

Time zones, calendar parsing and formatting are chrono's and chrono-tz's, the
ticker map's JSON is serde_json's, and sets of names are rustc-hash's. Each call
stands behind a small function at the top of `calendar.rs` or `metadata.rs` that
says what is relied on.
