//! Feeding a dataset through the engine: which files to read, which ticks to
//! process, and where to stop.

use vstd::prelude::*;

use crate::algorithm;
use crate::algorithm::{Algorithm, CallLog};
use crate::calendar;
use crate::calendar::{ts_to_datetime, Date, Time};
use crate::context::{Context, Settings};
use crate::data;
use crate::data::file_year_month;
use crate::engine::result::BacktestResult;
use crate::engine::state::{Engine, FilledOrder, PendingActions};
use crate::error::BacktestError;
use crate::files;
use crate::number::Number;
use crate::stats;
use crate::stats::{EquityPoint, Trade};
use crate::tick::Tick;

verus! {

/// Whether a date range is inverted.
pub open spec fn inverted<N: Number>(settings: Settings<N>) -> bool {
    match (settings.start_date, settings.end_date) {
        (Some(start), Some(end)) => end.day() < start.day(),
        _ => false,
    }
}

/// An inverted date range is a configuration mistake, not a data problem: it
/// fails up front instead of producing an empty backtest.
pub fn check_date_range<N: Number>(settings: &Settings<N>) -> (r: Result<(), BacktestError>)
    ensures
        r is Err <==> inverted(*settings),
        r is Err ==> r == Err::<(), BacktestError>(
            BacktestError::InvalidDateRange {
                start: settings.start_date->0,
                end: settings.end_date->0,
            },
        ),
{
    if let (Some(start), Some(end)) = (settings.start_date, settings.end_date) {
        if end.before(start) {
            return Err(BacktestError::InvalidDateRange { start, end });
        }
    }
    Ok(())
}

/// A data root without data files is almost always a wrong path.
pub fn check_files(files: &Vec<String>, data_path: &str) -> (r: Result<(), BacktestError>)
    ensures
        r is Err <==> files@.len() == 0,
        r is Err ==> (r->Err_0 matches BacktestError::NoData { path } && path@ == data_path@),
{
    if files.len() == 0 {
        Err(BacktestError::NoData { path: data_path.to_owned() })
    } else {
        Ok(())
    }
}

/// What to do with a data file.
#[derive(Debug, Clone, Copy, PartialEq, Eq, Structural)]
pub enum FilePlan {
    /// Read its ticks.
    Read,
    /// Its month lies before the start date.
    Skip,
    /// Its month lies past the end date, and so do those of later files.
    Stop,
}

/// Whether a month does not come after another.
pub open spec fn not_later(a: (int, int), b: (int, int)) -> bool {
    a.0 < b.0 || (a.0 == b.0 && a.1 <= b.1)
}

/// The month of a file, to compare with that of a date, whose year may lie
/// before nought.
pub open spec fn signed(month: (nat, nat)) -> (int, int) {
    (month.0 as int, month.1 as int)
}

/// What to do with a file of a month.
pub open spec fn plan_for(month: Option<(nat, nat)>, start: Option<Date>, end: Option<Date>) -> FilePlan {
    match month {
        Some(month) => {
            if start is Some && !not_later(
                calendar::month_of(start->0.day()),
                signed(month),
            ) {
                FilePlan::Skip
            } else if end is Some && !not_later(
                signed(month),
                calendar::month_of(end->0.day()),
            ) {
                FilePlan::Stop
            } else {
                FilePlan::Read
            }
        },
        None => FilePlan::Read,
    }
}

/// The month of a date.
fn month_of(date: Date) -> (r: (i64, u32))
    ensures
        (r.0 as int, r.1 as int) == calendar::month_of(date.day()),
{
    let (year, month) = date.year_month();
    (year as i64, month)
}

/// The month of a file, as that of a date.
fn file_month(month: (u32, u32)) -> (r: (i64, u32))
    ensures
        (r.0 as int, r.1 as int) == signed((month.0 as nat, month.1 as nat)),
{
    (month.0 as i64, month.1)
}

fn month_not_after(a: (i64, u32), b: (i64, u32)) -> (r: bool)
    ensures
        r == not_later((a.0 as int, a.1 as int), (b.0 as int, b.1 as int)),
{
    a.0 < b.0 || (a.0 == b.0 && a.1 <= b.1)
}

/// What to do with a data file: whole months outside the date range are not
/// read.
pub fn plan_file(path: &str, start: Option<Date>, end: Option<Date>) -> (r: FilePlan)
    ensures
        r == plan_for(data::year_month_of(path@), start, end),
{
    if let Some(month) = file_year_month(path) {
        if let Some(start) = start {
            if !month_not_after(month_of(start), file_month(month)) {
                return FilePlan::Skip;
            }
        }
        if let Some(end) = end {
            if !month_not_after(file_month(month), month_of(end)) {
                return FilePlan::Stop;
            }
        }
    }
    FilePlan::Read
}

/// A date range that reaches beyond the months the data covers.
#[derive(Debug, Clone, Copy)]
pub struct Coverage {
    /// The first month of the data, where the start date predates it.
    pub starts_late: Option<(u32, u32)>,
    /// The last month of the data, where the end date lies beyond it.
    pub ends_early: Option<(u32, u32)>,
}

/// The months of the files that lie in one.
pub open spec fn months_of(paths: Seq<Seq<char>>) -> Seq<(nat, nat)>
    decreases paths.len(),
{
    if paths.len() == 0 {
        Seq::empty()
    } else {
        let before = months_of(paths.drop_last());
        match data::year_month_of(paths.last()) {
            Some(month) => before.push(month),
            None => before,
        }
    }
}

/// A month as numbers.
pub open spec fn month_nat(month: Option<(u32, u32)>) -> Option<(nat, nat)> {
    match month {
        Some(month) => Some((month.0 as nat, month.1 as nat)),
        None => None,
    }
}

/// The first month of the data, where the start date predates it.
pub open spec fn late_start(months: Seq<(nat, nat)>, start: Option<Date>) -> Option<(nat, nat)> {
    if months.len() > 0 && start is Some && !not_later(
        signed(months[0]),
        calendar::month_of(start->0.day()),
    ) {
        Some(months[0])
    } else {
        None
    }
}

/// The last month of the data, where the end date lies beyond it.
pub open spec fn early_end(months: Seq<(nat, nat)>, end: Option<Date>) -> Option<(nat, nat)> {
    if months.len() > 0 && end is Some && !not_later(
        calendar::month_of(end->0.day()),
        signed(months.last()),
    ) {
        Some(months.last())
    } else {
        None
    }
}

/// How the date range and the months of the files, which are in order, fit. A
/// range that reaches beyond the data is not fatal: the run covers the overlap.
pub fn check_coverage(files: &Vec<String>, start: Option<Date>, end: Option<Date>) -> (r: Coverage)
    ensures
        ({
            let months = months_of(files::texts(files@));
            &&& month_nat(r.starts_late) == late_start(months, start)
            &&& month_nat(r.ends_early) == early_end(months, end)
            &&& month_nat(r.starts_late) == if months.len() > 0 && start is Some
                && !not_later(signed(months[0]), calendar::month_of(start->0.day())) {
                Some(months[0])
            } else {
                None
            }
            &&& month_nat(r.ends_early) == if months.len() > 0 && end is Some && !not_later(
                calendar::month_of(end->0.day()),
                signed(months.last()),
            ) {
                Some(months.last())
            } else {
                None
            }
        }),
{
    let mut first: Option<(u32, u32)> = None;
    let mut last: Option<(u32, u32)> = None;
    let ghost paths = files::texts(files@);
    assert(paths.take(0) =~= Seq::empty());
    for i in 0..files.len()
        invariant
            paths == files::texts(files@),
            first is Some <==> months_of(paths.take(i as int)).len() > 0,
            last is Some <==> months_of(paths.take(i as int)).len() > 0,
            first is Some ==> month_nat(first) == Some(months_of(paths.take(i as int))[0]),
            last is Some ==> month_nat(last) == Some(months_of(paths.take(i as int)).last()),
    {
        proof {
            assert(paths.take(i + 1).drop_last() =~= paths.take(i as int));
            assert(paths.take(i + 1).last() == files@[i as int]@);
        }
        if let Some(month) = file_year_month(files[i].as_str()) {
            if first.is_none() {
                first = Some(month);
            }
            last = Some(month);
        }
    }
    assert(paths.take(paths.len() as int) =~= paths);
    let starts_late: Option<(u32, u32)> = match (first, start) {
        (Some(month), Some(start)) => if month_not_after(
            file_month(month),
            month_of(start),
        ) {
            None
        } else {
            Some(month)
        },
        _ => None,
    };
    let ends_early: Option<(u32, u32)> = match (last, end) {
        (Some(month), Some(end)) => if month_not_after(
            month_of(end),
            file_month(month),
        ) {
            None
        } else {
            Some(month)
        },
        _ => None,
    };
    Coverage { starts_late, ends_early }
}

/// What to do with a tick.
#[derive(Debug, Clone, Copy, PartialEq, Eq, Structural)]
pub enum Verdict {
    /// Process it, at this instant and on this trading date.
    Process { time: Time, date: Date },
    /// Leave it out.
    Skip,
    /// It lies past the end date: stop reading.
    Stop,
}

/// Whether `r` is what to do with a tick at a timestamp, and `after` the instant
/// the stream has got to with it.
pub open spec fn screens(
    ts: i64,
    before: Option<Time>,
    start: Option<Date>,
    end: Option<Date>,
    r: Verdict,
    after: Option<Time>,
) -> bool {
    if !calendar::is_instant(ts as int) {
        r is Skip && after == before
    } else {
        let time = calendar::instant(ts as int);
        let day = calendar::eastern_clock(time.secs()).0;
        &&& after == Some(time)
        &&& if start is Some && day < start->0.day() {
            r is Skip
        } else if end is Some && end->0.day() < day {
            r is Stop
        } else {
            r matches Verdict::Process { time: at, date } && at == time && date.day() == day
        }
    }
}

/// Whether a tick lies before the instant the stream has got to.
pub open spec fn steps_back(ts: i64, before: Option<Time>) -> bool {
    &&& calendar::is_instant(ts as int)
    &&& before is Some
    &&& calendar::earlier(calendar::instant(ts as int), before->0)
}

/// Decide what to do with a tick of the file `path`. Trading dates are US
/// Eastern, so after-market bars stay on the day they belong to.
pub fn screen(
    path: &str,
    ts: i64,
    last: &mut Option<Time>,
    start: Option<Date>,
    end: Option<Date>,
) -> (r: Result<Verdict, BacktestError>)
    ensures
        r is Err <==> steps_back(ts, *old(last)),
        match r {
            Ok(verdict) => screens(ts, *old(last), start, end, verdict, *final(last)),
            Err(error) => {
                &&& error matches BacktestError::OutOfOrderData { path: named, at, stream_at }
                &&& named@ == path@
                &&& at == calendar::instant(ts as int)
                &&& stream_at == (*old(last))->0
                &&& *final(last) == *old(last)
            },
        },
{
    let time: Time = match ts_to_datetime(ts) {
        Some(time) => time,
        None => {
            return Ok(Verdict::Skip);
        },
    };
    if let Some(prev) = *last {
        if time.before(prev) {
            return Err(
                BacktestError::OutOfOrderData {
                    path: path.to_owned(),
                    at: time,
                    stream_at: prev,
                },
            );
        }
    }
    *last = Some(time);
    let date: Date = time.eastern_date();
    if let Some(start) = start {
        if date.before(start) {
            return Ok(Verdict::Skip);
        }
    }
    if let Some(end) = end {
        if end.before(date) {
            return Ok(Verdict::Stop);
        }
    }
    Ok(Verdict::Process { time, date })
}

/// A backtest under way: the engine, and the instant the stream has got to.
#[verifier::reject_recursive_types(N)]
pub struct Backtest<N: Number> {
    pub(crate) engine: Engine<N>,
    pub(crate) last_tick: Option<Time>,
}

/// Whether to go on reading.
#[derive(Debug, Clone, Copy, PartialEq, Eq, Structural)]
pub enum Flow {
    Continue,
    Stop,
}

impl<N: Number> Backtest<N> {
    /// The engine.
    pub open(crate) spec fn state(self) -> Engine<N> {
        self.engine
    }

    /// The instant the stream has got to.
    pub open(crate) spec fn reached(self) -> Option<Time> {
        self.last_tick
    }

    /// Whether taking in a tick can take the backtest from `self` to `after`,
    /// and say whether to go on: a tick in the date range is processed, any
    /// other changes nothing.
    pub open(crate) spec fn takes(self, tick: Tick<N>, flow: Flow, after: Backtest<N>) -> bool {
        let settings = self.state().context().config();
        exists|verdict: Verdict|
            {
                &&& #[trigger] screens(
                    tick.0,
                    self.reached(),
                    settings.start_date,
                    settings.end_date,
                    verdict,
                    after.reached(),
                )
                &&& flow == (if verdict is Stop {
                    Flow::Stop
                } else {
                    Flow::Continue
                })
                &&& match verdict {
                    Verdict::Process { time, date } => self.state().ticks(
                        tick.1@,
                        time,
                        date,
                        after.state(),
                    ),
                    _ => after.state() == self.state(),
                }
            }
    }

    /// A backtest about to read its first tick.
    pub fn new(ctx: Context<N>, pending: PendingActions<N>) -> (r: Backtest<N>)
        ensures
            r.state().context() == ctx,
            r.state().agenda() == pending,
            r.state().starting_cash() == ctx.portfolio_of().balance(),
            r.state().fresh(),
            r.reached() is None,
    {
        Backtest { engine: Engine::new(ctx, pending), last_tick: None }
    }

    /// The context.
    pub fn context(&self) -> (r: &Context<N>)
        ensures
            *r == self.state().context(),
    {
        &self.engine.ctx
    }

    /// The trades completed so far.
    pub fn trades(&self) -> (r: &Vec<Trade<N>>)
        ensures
            stats::trade_views(r@) == self.state().account().ledger.trades,
    {
        &self.engine.ledger.trades
    }

    /// The fills of the tick last processed, in order.
    pub fn fills(&self) -> (r: &Vec<FilledOrder<N>>)
        ensures
            r@ == self.state().account().fills,
    {
        &self.engine.fills
    }

    /// The equity marked at the close of each day so far.
    pub fn equity_curve(&self) -> (r: &Vec<EquityPoint<N>>)
        ensures
            *r == self.state().recorded().daily,
    {
        &self.engine.record.daily
    }

    /// What to do with a data file.
    pub fn plan(&self, path: &str) -> (r: FilePlan)
        ensures
            r == plan_for(
                data::year_month_of(path@),
                self.state().context().config().start_date,
                self.state().context().config().end_date,
            ),
    {
        plan_file(path, self.engine.ctx.settings.start_date, self.engine.ctx.settings.end_date)
    }

    /// Take in a tick of the file `path`: process it if it lies in the date
    /// range. Time cannot run back: a tick before the one already read is an
    /// error.
    pub fn offer<A: Algorithm<N>>(&mut self, algo: &mut A, path: &str, tick: Tick<N>) -> (r: Result<
        Flow,
        BacktestError,
    >)
        ensures
            r is Err <==> steps_back(tick.0, old(self).reached()),
            r is Err ==> {
                &&& r->Err_0 matches BacktestError::OutOfOrderData { path: named, at, stream_at }
                &&& named@ == path@
                &&& at == calendar::instant(tick.0 as int)
                &&& stream_at == old(self).reached()->0
                &&& *final(self) == *old(self)
            },
            r is Ok ==> old(self).takes(tick, r->Ok_0, *final(self)),
            algorithm::lives(
                *old(algo),
                old(self).state().told(),
                *final(algo),
                final(self).state().told(),
            ),
    {
        let (ts, bars) = tick;
        let ghost before = *self;
        let start: Option<Date> = self.engine.ctx.settings.start_date;
        let end: Option<Date> = self.engine.ctx.settings.end_date;
        match screen(path, ts, &mut self.last_tick, start, end) {
            Ok(verdict) => {
                assert(screens(ts, before.reached(), start, end, verdict, self.last_tick));
                match verdict {
                    Verdict::Process { time, date } => {
                        self.engine.process_tick(algo, time, date, bars);
                        Ok(Flow::Continue)
                    },
                    Verdict::Skip => Ok(Flow::Continue),
                    Verdict::Stop => Ok(Flow::Stop),
                }
            },
            Err(error) => Err(error),
        }
    }

    /// The end of the data: the result, and what the strategy was told in the
    /// course of the run.
    pub fn finish<A: Algorithm<N>>(self, algo: &mut A) -> (r: (BacktestResult<N>, CallLog<N>))
        ensures
            self.state().finishes(r.0, r.1@),
            algorithm::lives(*old(algo), self.state().told(), *final(algo), r.1@),
    {
        self.engine.finish(algo)
    }
}

/// A file is skipped exactly when every day of its month lies before the start date,
/// and reading stops at it exactly when every day of its month lies after the end
/// date, where it is not skipped: no file with a day in the range is left out, and
/// none without one is read. A file whose name tells no month is read.
pub proof fn files_are_read_for_their_days(
    year: nat,
    month: nat,
    start: Option<Date>,
    end: Option<Date>,
    start_month: (int, int),
    end_month: (int, int),
    day: int,
)
    requires
        1 <= month <= 12,
        start matches Some(date) ==> calendar::in_month(
            date.day(),
            start_month.0,
            start_month.1,
        ),
        end matches Some(date) ==> calendar::in_month(date.day(), end_month.0, end_month.1),
        calendar::in_month(day, year as int, month as int),
    ensures
        ({
            let plan = plan_for(Some((year, month)), start, end);
            let first = calendar::day_number(year as int, month as int, 1);
            let last = calendar::day_number(
                year as int,
                month as int,
                calendar::days_in_month(year as int, month as int),
            );
            &&& plan is Skip <==> start is Some && last < start->0.day()
            &&& plan is Stop <==> plan !is Skip && end is Some && end->0.day() < first
            &&& plan is Skip ==> day < start->0.day()
            &&& plan is Stop ==> end->0.day() < day
        }),
        plan_for(None, start, end) is Read,
{
    let y = year as int;
    let m = month as int;
    let first = calendar::day_number(y, m, 1);
    let last = calendar::day_number(y, m, calendar::days_in_month(y, m));
    assert(calendar::is_day(y, m, 1));
    assert(calendar::is_day(y, m, calendar::days_in_month(y, m)));
    assert(calendar::in_month(first, y, m));
    assert(calendar::in_month(last, y, m));
    if let Some(date) = start {
        calendar::lemma_month_of(date.day(), start_month.0, start_month.1);
        lemma_month_order(date.day(), start_month, last, (y, m));
        lemma_month_order(day, (y, m), date.day(), start_month);
        lemma_bounds(date.day(), start_month.0, start_month.1, y, m);
    }
    if let Some(date) = end {
        calendar::lemma_month_of(date.day(), end_month.0, end_month.1);
        lemma_month_order(first, (y, m), date.day(), end_month);
        lemma_month_order(date.day(), end_month, day, (y, m));
        lemma_bounds(date.day(), end_month.0, end_month.1, y, m);
    }
}

proof fn lemma_month_order(a: int, month: (int, int), b: int, other: (int, int))
    requires
        calendar::in_month(a, month.0, month.1),
        calendar::in_month(b, other.0, other.1),
    ensures
        !not_later(other, month) ==> a < b,
        !not_later(month, other) ==> b < a,
{
    if !not_later(other, month) {
        calendar::months_follow_each_other(a, month.0, month.1, b, other.0, other.1);
    }
    if !not_later(month, other) {
        calendar::months_follow_each_other(b, other.0, other.1, a, month.0, month.1);
    }
}

proof fn lemma_bounds(day: int, year: int, month: int, y: int, m: int)
    requires
        calendar::in_month(day, year, month),
        1 <= m <= 12,
    ensures
        (year, month) == (y, m) ==> calendar::day_number(y, m, 1) <= day <= calendar::day_number(
            y,
            m,
            calendar::days_in_month(y, m),
        ),
{
}

/// A tick is processed exactly when its trading date lies in the range, both ends
/// counted, on that date and at its own instant; it ends the reading when its date
/// is past the end. What does not end it is skipped.
pub proof fn ticks_are_processed_in_range(
    ts: i64,
    before: Option<Time>,
    start: Option<Date>,
    end: Option<Date>,
    verdict: Verdict,
    after: Option<Time>,
)
    requires
        screens(ts, before, start, end, verdict, after),
        start is Some && end is Some ==> start->0.day() <= end->0.day(),
    ensures
        ({
            let time = calendar::instant(ts as int);
            let day = calendar::eastern_clock(time.secs()).0;
            let began = start is None || start->0.day() <= day;
            let ended = end is Some && end->0.day() < day;
            &&& verdict is Process <==> began && !ended
            &&& verdict is Stop <==> ended
            &&& verdict matches Verdict::Process { time: at, date } ==> at.secs() == time.secs()
                && at.subsec() == time.subsec() && date.day() == day
            &&& after == Some(time)
        }),
{
    broadcast use calendar::instant_is_its_timestamp;

}

/// A date range is inverted exactly when it has both ends and no day lies between
/// them.
pub proof fn an_inverted_range_holds_no_day<N: Number>(settings: Settings<N>)
    ensures
        inverted(settings) <==> {
            &&& settings.start_date is Some
            &&& settings.end_date is Some
            &&& forall|day: int|
                !(settings.start_date->0.day() <= day && #[trigger] reaches(
                    settings.end_date->0,
                    day,
                ))
        },
{
    if let (Some(start), Some(end)) = (settings.start_date, settings.end_date) {
        if start.day() <= end.day() {
            assert(reaches(end, start.day()));
        }
    }
}

/// Whether a date does not lie before a day.
pub open spec fn reaches(end: Date, day: int) -> bool {
    day <= end.day()
}

/// The data is said to start late exactly when the start date lies before the first
/// day of its first month, and to end early exactly when the end date lies after the
/// last day of its last; it is that month which is told.
pub proof fn coverage_is_told_by_days(
    months: Seq<(nat, nat)>,
    start: Date,
    start_month: (int, int),
    end: Date,
    end_month: (int, int),
)
    requires
        months.len() > 0,
        forall|i: int| 0 <= i < months.len() ==> 1 <= (#[trigger] months[i]).1 <= 12,
        calendar::in_month(start.day(), start_month.0, start_month.1),
        calendar::in_month(end.day(), end_month.0, end_month.1),
    ensures
        ({
            let (year, month) = signed(months[0]);
            let (last_year, last_month) = signed(months.last());
            let first_day = calendar::day_number(year, month, 1);
            let last_day = calendar::day_number(
                last_year,
                last_month,
                calendar::days_in_month(last_year, last_month),
            );
            &&& late_start(months, Some(start)) is Some <==> start.day() < first_day
            &&& early_end(months, Some(end)) is Some <==> last_day < end.day()
            &&& late_start(months, Some(start)) matches Some(told) ==> told == months[0]
            &&& early_end(months, Some(end)) matches Some(told) ==> told == months.last()
            &&& late_start(months, None) is None
            &&& early_end(months, None) is None
        }),
{
    let (year, month) = signed(months[0]);
    let last = months.len() - 1;
    let (last_year, last_month) = signed(months[last]);
    let first_day = calendar::day_number(year, month, 1);
    let last_day = calendar::day_number(
        last_year,
        last_month,
        calendar::days_in_month(last_year, last_month),
    );
    assert(calendar::is_day(year, month, 1));
    assert(calendar::in_month(first_day, year, month));
    assert(calendar::is_day(
        last_year,
        last_month,
        calendar::days_in_month(last_year, last_month),
    ));
    assert(calendar::in_month(last_day, last_year, last_month));
    calendar::lemma_month_of(start.day(), start_month.0, start_month.1);
    calendar::lemma_month_of(end.day(), end_month.0, end_month.1);
    lemma_month_order(start.day(), start_month, first_day, (year, month));
    lemma_month_order(end.day(), end_month, last_day, (last_year, last_month));
    lemma_bounds(start.day(), start_month.0, start_month.1, year, month);
    lemma_bounds(end.day(), end_month.0, end_month.1, last_year, last_month);
}

/// A tick whose trading date lies in the range is processed, at its own instant and
/// on that date; any other changes nothing but the instant the stream has got to.
/// Reading goes on until a tick lies past the end. A tick steps back exactly when it
/// lies before the tick the stream has got to.
pub proof fn only_ticks_in_range_change_anything<N: Number>(
    before: Backtest<N>,
    tick: Tick<N>,
    flow: Flow,
    after: Backtest<N>,
    reached: i64,
)
    requires
        before.takes(tick, flow, after),
        ({
            let settings = before.state().context().config();
            settings.start_date is Some && settings.end_date is Some
                ==> settings.start_date->0.day() <= settings.end_date->0.day()
        }),
    ensures
        ({
            let settings = before.state().context().config();
            let time = calendar::instant(tick.0 as int);
            let day = calendar::eastern_clock(time.secs()).0;
            let began = settings.start_date is None || settings.start_date->0.day() <= day;
            let ended = settings.end_date is Some && settings.end_date->0.day() < day;
            &&& flow is Stop <==> ended
            &&& !began || ended ==> after.state() == before.state()
            &&& began && !ended ==> exists|date: Date|
                date.day() == day && #[trigger] before.state().ticks(
                    tick.1@,
                    time,
                    date,
                    after.state(),
                )
            &&& after.reached() == Some(time)
            &&& steps_back(tick.0, Some(calendar::instant(reached as int))) <==> tick.0 < reached
        }),
{
    broadcast use calendar::instant_is_its_timestamp, calendar::time_is_its_second;

    let settings = before.state().context().config();
    let verdict = choose|verdict: Verdict|
        {
            &&& #[trigger] screens(
                tick.0,
                before.reached(),
                settings.start_date,
                settings.end_date,
                verdict,
                after.reached(),
            )
            &&& flow == (if verdict is Stop {
                Flow::Stop
            } else {
                Flow::Continue
            })
            &&& match verdict {
                Verdict::Process { time, date } => before.state().ticks(
                    tick.1@,
                    time,
                    date,
                    after.state(),
                ),
                _ => after.state() == before.state(),
            }
        };
    ticks_are_processed_in_range(
        tick.0,
        before.reached(),
        settings.start_date,
        settings.end_date,
        verdict,
        after.reached(),
    );
    calendar::instants_are_ordered_by_nanoseconds(tick.0, reached);
}

} // verus!
