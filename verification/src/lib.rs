//! An event-driven backtesting engine for minute-bar equity data, verified.
//!
//! Implement [`Algorithm`], configure the [`Context`] in `initialize`
//! (symbols, dates, cash) and trade in `on_data`. A [`Backtest`] takes the
//! dataset's ticks one by one and gives a [`BacktestResult`] at the end.
//!
//! # Symbols
//!
//! Instruments are identified by [`Symbol`], the dataset's encoded ticker id,
//! handed out by [`Context::add_equity`]. Ticker texts are read when a strategy
//! subscribes, when the corporate-action files are matched, and when results
//! are written; everything in between is keyed by that integer.
//!
//! # Execution models
//!
//! Fill friction and buying power are pluggable: hand a built-in model or one
//! of your own to [`Context::set_slippage`], [`Context::set_commission`] and
//! [`Context::set_margin_model`].
//!
//! # Numbers
//!
//! The engine is generic over its [`Number`]s. Contracts say which operations
//! are applied to which amounts, whatever the numbers are; the laws on amounts,
//! such as that the books always balance, are stated to within rounding.

pub mod agenda;
pub mod algorithm;
pub mod bar;
pub mod broker;
pub mod calendar;
pub mod commission;
pub mod consolidator;
pub mod context;
pub mod data;
pub mod decimal;
pub mod drains;
pub mod engine;
pub mod error;
pub mod exact;
pub mod files;
pub mod insider;
pub mod logging;
pub mod margin;
pub mod metadata;
pub mod number;
pub mod queue;
pub mod reader;
pub mod slice;
pub mod slippage;
pub mod stats;
pub mod symbol;
pub mod text;
pub mod tick;
pub mod tick_stream;

pub use algorithm::Algorithm;
pub use commission::{CommissionModel, NoCommission, PerShareCommission, PercentCommission};
pub use context::{Context, FillTiming};
pub use engine::driver::Backtest;
pub use engine::result::BacktestResult;
pub use error::BacktestError;
pub use logging::LogConfig;
pub use margin::{MarginContext, MarginModel, MaxLeverage, NoMargin};
pub use number::Number;
pub use slice::Slice;
pub use slippage::{FillContext, FixedSlippage, NoSlippage, PercentSlippage, SlippageModel};
pub use stats::{BacktestStats, EquityPoint, Trade};
pub use symbol::{Symbol, SymbolMap, SymbolSet, SymbolVec};
