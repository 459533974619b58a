//! What can go wrong loading data or running a backtest.

use vstd::prelude::*;
use vstd::string::*;

use crate::calendar;
use crate::calendar::{Date, Time};

verus! {

/// Everything that can go wrong loading data or running a backtest: bad
/// paths, malformed metadata, unreadable or unsorted data.
#[derive(Debug, Clone)]
pub enum BacktestError {
    /// A file could not be opened, read, or written.
    Io { path: String, message: String },
    /// A JSON file failed to parse or serialize.
    Json { path: String, message: String },
    /// A Parquet file failed to open or decode.
    Parquet { path: String, message: String },
    /// A required column is missing from a Parquet file, or has the wrong
    /// type.
    MissingColumn { path: String, column: String },
    /// The ticker map contains a key that is not a `u16` ticker id.
    InvalidTickerKey { path: String, key: String },
    /// No Parquet files were found under the data path.
    NoData { path: String },
    /// The configured date range is inverted: the start date is after the end
    /// date.
    InvalidDateRange { start: Date, end: Date },
    /// A row's timestamp lies before one already read.
    OutOfOrderData { path: String, at: Time, stream_at: Time },
    /// A decode thread ended without finishing its share of the data.
    ReaderThreadDied,
}

impl BacktestError {
    /// The error in words.
    pub open spec fn text(self) -> Seq<char> {
        match self {
            BacktestError::Io { path, message } => path@ + ": "@ + message@,
            BacktestError::Json { path, message } => path@ + ": "@ + message@,
            BacktestError::Parquet { path, message } => path@ + ": "@ + message@,
            BacktestError::MissingColumn { path, column } => path@
                + ": missing or mistyped column `"@ + column@ + "`"@,
            BacktestError::InvalidTickerKey { path, key } => path@ + ": ticker key `"@ + key@
                + "` is not a u16 id"@,
            BacktestError::NoData { path } => "no .parquet files found under "@ + path@,
            BacktestError::InvalidDateRange { start, end } => "invalid date range: start date "@
                + calendar::day_text(start.day()) + " is after end date "@ + calendar::day_text(
                end.day(),
            ),
            BacktestError::OutOfOrderData { path, at, stream_at } => path@
                + ": data is not sorted by time: a row at "@ + calendar::instant_text(
                at.secs(),
                at.subsec(),
            ) + " follows one at "@ + calendar::instant_text(stream_at.secs(), stream_at.subsec()),
            BacktestError::ReaderThreadDied => "a decode thread ended early"@,
        }
    }

    /// The error in words.
    pub fn message(&self) -> (r: String)
        ensures
            r@ == self.text(),
    {
        match self {
            BacktestError::Io { path, message } => labelled(path, message),
            BacktestError::Json { path, message } => labelled(path, message),
            BacktestError::Parquet { path, message } => labelled(path, message),
            BacktestError::MissingColumn { path, column } => {
                let mut out = path.clone();
                out.append(": missing or mistyped column `");
                out.append(column.as_str());
                out.append("`");
                out
            },
            BacktestError::InvalidTickerKey { path, key } => {
                let mut out = path.clone();
                out.append(": ticker key `");
                out.append(key.as_str());
                out.append("` is not a u16 id");
                out
            },
            BacktestError::NoData { path } => {
                let mut out = "no .parquet files found under ".to_owned();
                out.append(path.as_str());
                out
            },
            BacktestError::InvalidDateRange { start, end } => {
                let mut out = "invalid date range: start date ".to_owned();
                out.append(start.to_text().as_str());
                out.append(" is after end date ");
                out.append(end.to_text().as_str());
                out
            },
            BacktestError::OutOfOrderData { path, at, stream_at } => {
                let mut out = path.clone();
                out.append(": data is not sorted by time: a row at ");
                out.append(at.to_rfc3339().as_str());
                out.append(" follows one at ");
                out.append(stream_at.to_rfc3339().as_str());
                out
            },
            BacktestError::ReaderThreadDied => "a decode thread ended early".to_owned(),
        }
    }
}

fn labelled(path: &String, message: &String) -> (r: String)
    ensures
        r@ == path@ + ": "@ + message@,
{
    let mut out = path.clone();
    out.append(": ");
    out.append(message.as_str());
    out
}

/// Whether a text begins with another.
pub open spec fn begins_with(text: Seq<char>, start: Seq<char>) -> bool {
    text.len() >= start.len() && text.take(start.len() as int) == start
}

/// Whether a text ends with another.
pub open spec fn ends_with(text: Seq<char>, end: Seq<char>) -> bool {
    text.len() >= end.len() && text.skip(text.len() - end.len()) == end
}

/// An error tells where it happened and what happened there: the path comes first,
/// and the reason given by what failed comes last. Of rows out of order it names the
/// instant of the row that runs back and then that of the row before it, and of an
/// inverted range the start and then the end.
pub proof fn errors_tell_where_and_why(error: BacktestError)
    ensures
        match error {
            BacktestError::Io { path, message } => begins_with(error.text(), path@) && ends_with(
                error.text(),
                message@,
            ),
            BacktestError::Json { path, message } => begins_with(error.text(), path@) && ends_with(
                error.text(),
                message@,
            ),
            BacktestError::Parquet { path, message } => begins_with(error.text(), path@)
                && ends_with(error.text(), message@),
            BacktestError::MissingColumn { path, column } => begins_with(error.text(), path@)
                && ends_with(error.text(), column@ + "`"@),
            BacktestError::InvalidTickerKey { path, key } => begins_with(error.text(), path@)
                && ends_with(error.text(), key@ + "` is not a u16 id"@),
            BacktestError::NoData { path } => ends_with(error.text(), path@),
            BacktestError::InvalidDateRange { start, end } => ends_with(
                error.text(),
                calendar::day_text(start.day()) + " is after end date "@ + calendar::day_text(
                    end.day(),
                ),
            ),
            BacktestError::OutOfOrderData { path, at, stream_at } => begins_with(
                error.text(),
                path@,
            ) && ends_with(
                error.text(),
                calendar::instant_text(at.secs(), at.subsec()) + " follows one at "@
                    + calendar::instant_text(stream_at.secs(), stream_at.subsec()),
            ),
            BacktestError::ReaderThreadDied => true,
        },
{
    let told = error.text();
    match error {
        BacktestError::Io { path, message } => {
            assert(told.take(path@.len() as int) =~= path@);
            assert(told.skip(told.len() - message@.len()) =~= message@);
        },
        BacktestError::Json { path, message } => {
            assert(told.take(path@.len() as int) =~= path@);
            assert(told.skip(told.len() - message@.len()) =~= message@);
        },
        BacktestError::Parquet { path, message } => {
            assert(told.take(path@.len() as int) =~= path@);
            assert(told.skip(told.len() - message@.len()) =~= message@);
        },
        BacktestError::MissingColumn { path, column } => {
            let end = column@ + "`"@;
            assert(told.take(path@.len() as int) =~= path@);
            assert(told.skip(told.len() - end.len()) =~= end);
        },
        BacktestError::InvalidTickerKey { path, key } => {
            let end = key@ + "` is not a u16 id"@;
            assert(told.take(path@.len() as int) =~= path@);
            assert(told.skip(told.len() - end.len()) =~= end);
        },
        BacktestError::NoData { path } => {
            assert(told.skip(told.len() - path@.len()) =~= path@);
        },
        BacktestError::InvalidDateRange { start, end } => {
            let both = calendar::day_text(start.day()) + " is after end date "@
                + calendar::day_text(end.day());
            assert(told.skip(told.len() - both.len()) =~= both);
        },
        BacktestError::OutOfOrderData { path, at, stream_at } => {
            let both = calendar::instant_text(at.secs(), at.subsec()) + " follows one at "@
                + calendar::instant_text(stream_at.secs(), stream_at.subsec());
            assert(told.take(path@.len() as int) =~= path@);
            assert(told.skip(told.len() - both.len()) =~= both);
        },
        BacktestError::ReaderThreadDied => {},
    }
}

} // verus!
