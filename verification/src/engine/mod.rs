//! The backtest engine: the event loop's state, order execution, day-boundary
//! corporate actions and the trade ledger.

pub mod accounting;
pub mod chain;
pub mod charges;
pub mod corporate_actions;
pub mod day;
pub mod driver;
pub mod execution;
pub mod financing;
pub mod ledger;
pub mod orders;
pub mod pending;
pub mod restated;
pub mod result;
pub mod round_trips;
pub mod run;
pub mod safeguards;
pub mod sizing;
pub mod state;
pub mod timeline;
pub mod whole_run;
