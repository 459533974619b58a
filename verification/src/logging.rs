//! Configurable engine logging: which categories of events are reported as a
//! backtest runs.

use vstd::prelude::*;

verus! {

/// Which categories of engine events are logged while a backtest runs. Set it
/// with [`Context::set_log_config`](crate::context::Context::set_log_config).
///
/// Defaults to warnings only, so data-quality problems are never silent while
/// the happy path stays quiet.
#[derive(Debug, Clone, Copy, PartialEq, Eq, Structural)]
pub struct LogConfig {
    /// The run header, the warm-up-complete marker, and the run footer.
    pub run_summary: bool,
    /// Every order fill and every completed round-trip trade.
    pub trades: bool,
    /// One line at each day boundary: date, equity, cash, open positions.
    pub daily_recap: bool,
    /// Corporate events as they apply: splits, dividends, renames, delist
    /// liquidations.
    pub corporate_events: bool,
    /// Data-quality warnings: a date range the data does not fully cover.
    pub warnings: bool,
}

impl Default for LogConfig {
    fn default() -> (r: LogConfig)
        ensures
            r == (LogConfig {
                run_summary: false,
                trades: false,
                daily_recap: false,
                corporate_events: false,
                warnings: true,
            }),
    {
        LogConfig {
            run_summary: false,
            trades: false,
            daily_recap: false,
            corporate_events: false,
            warnings: true,
        }
    }
}

impl LogConfig {
    /// Every category on.
    pub fn all() -> (r: LogConfig)
        ensures
            r.run_summary && r.trades && r.daily_recap && r.corporate_events && r.warnings,
    {
        LogConfig {
            run_summary: true,
            trades: true,
            daily_recap: true,
            corporate_events: true,
            warnings: true,
        }
    }

    /// Every category off, warnings included.
    pub fn none() -> (r: LogConfig)
        ensures
            !r.run_summary && !r.trades && !r.daily_recap && !r.corporate_events && !r.warnings,
    {
        LogConfig {
            run_summary: false,
            trades: false,
            daily_recap: false,
            corporate_events: false,
            warnings: false,
        }
    }
}

} // verus!
