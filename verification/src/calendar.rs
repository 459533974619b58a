//! Instants, calendar dates, and the US Eastern clock that trading days follow.
//!
//! The calendar arithmetic itself (time zone rules, parsing, formatting) is
//! chrono's. The functions that call it stand at the top of this file; what
//! they take and return are plain numbers and text.

use chrono::{DateTime, Datelike, NaiveDate, TimeZone, Timelike, Utc};
use chrono_tz::US::Eastern;
use vstd::prelude::*;

verus! {

/// The day number of 1 January 1970, counting 1 January of year 1 as day 1.
pub const EPOCH_DAY: i64 = 719_163;

pub const SECONDS_PER_DAY: i64 = 86_400;

pub const NANOS_PER_SECOND: i64 = 1_000_000_000;

/// The first and last day a [`Date`] can hold.
pub const MIN_DAY: i32 = -95_746_129;

pub const MAX_DAY: i32 = 95_745_399;

/// The first and last second a [`Time`] can hold. They lie some days inside
/// the range of [`Date`], so every instant has a date in every time zone.
pub const MIN_SECOND: i64 = -8_300_000_000_000;

pub const MAX_SECOND: i64 = 8_200_000_000_000;

pub open spec fn leap_year(year: int) -> bool {
    year % 4 == 0 && (year % 100 != 0 || year % 400 == 0)
}

pub open spec fn days_in_month(year: int, month: int) -> int {
    if month == 2 {
        if leap_year(year) {
            29
        } else {
            28
        }
    } else if month == 4 || month == 6 || month == 9 || month == 11 {
        30
    } else {
        31
    }
}

pub open spec fn days_before_month(year: int, month: int) -> int
    decreases month,
{
    if month <= 1 {
        0
    } else {
        days_before_month(year, month - 1) + days_in_month(year, month - 1)
    }
}

/// Whether the calendar has this day.
pub open spec fn is_day(year: int, month: int, day: int) -> bool {
    1 <= month <= 12 && 1 <= day <= days_in_month(year, month)
}

/// The number of a calendar day, counting 1 January of year 1 as day 1.
pub open spec fn day_number(year: int, month: int, day: int) -> int {
    let past = year - 1;
    365 * past + past / 4 - past / 100 + past / 400 + days_before_month(year, month) + day
}

/// Whether a day lies inside the calendar, with room for its midnight in every
/// time zone.
pub open spec fn opens_inside(day: int) -> bool {
    MIN_DAY + 2 <= day <= MAX_DAY - 2
}

/// A second held inside the range of [`Time`].
pub open spec fn held(second: int) -> int {
    if second < MIN_SECOND {
        MIN_SECOND as int
    } else if second > MAX_SECOND {
        MAX_SECOND as int
    } else {
        second
    }
}

/// The date, the hour and the minute on the US Eastern clock at a second since
/// the epoch.
pub uninterp spec fn eastern_reading(second: int) -> (int, int, int);

/// The date and the minute of the day on the US Eastern clock at a second
/// since the epoch.
pub open spec fn eastern_clock(second: int) -> (int, int) {
    let (day, hour, minute) = eastern_reading(second);
    (day, hour * 60 + minute)
}

/// The second since the epoch at which a day begins on the US Eastern clock.
pub uninterp spec fn eastern_midnight(day: int) -> int;

/// The day number a date text stands for, if it is one.
pub uninterp spec fn parsed_day(text: Seq<char>) -> Option<int>;

/// A day written as year, month and day.
pub uninterp spec fn day_text(day: int) -> Seq<char>;

/// An instant written as an RFC 3339 timestamp.
pub uninterp spec fn instant_text(second: int, nanos: int) -> Seq<char>;

/// `chrono::TimeZone::timestamp_opt` on UTC: inside the calendar, a second
/// exists with every count of nanoseconds below a thousand million, and with
/// none at or above two thousand million. In between lie leap seconds, of
/// which nothing is claimed.
#[verifier::external_body]
fn instant_exists(second: i64, nanos: u32) -> (r: bool)
    requires
        MIN_SECOND <= second <= MAX_SECOND,
    ensures
        nanos < NANOS_PER_SECOND ==> r,
        nanos >= 2 * NANOS_PER_SECOND ==> !r,
{
    Utc.timestamp_opt(second, nanos).single().is_some()
}

/// `chrono::DateTime::with_timezone` to `chrono_tz::US::Eastern`, read off as
/// a date, an hour and a minute: named, and the date follows the UTC date by at
/// most a day either way, since no offset reaches a whole day.
#[verifier::external_body]
fn read_eastern_clock(second: i64) -> (r: (i32, u32, u32))
    requires
        MIN_SECOND <= second <= MAX_SECOND,
    ensures
        (r.0 as int, r.1 as int, r.2 as int) == eastern_reading(second as int),
        r.1 < 24,
        r.2 < 60,
        -1 <= r.0 - (second as int / SECONDS_PER_DAY as int + EPOCH_DAY) <= 1,
{
    let utc: DateTime<Utc> = DateTime::from_timestamp(second, 0).unwrap();
    let eastern = utc.with_timezone(&Eastern);
    (eastern.date_naive().num_days_from_ce(), eastern.hour(), eastern.minute())
}

/// `chrono::TimeZone::from_local_datetime` on `chrono_tz::US::Eastern` at
/// midnight: named. It falls within a day of midnight UTC, and the Eastern
/// clock reads that day, hour and minute nought, at it.
#[verifier::external_body]
fn find_eastern_midnight(day: i32) -> (r: i64)
    requires
        opens_inside(day as int),
    ensures
        r as int == eastern_midnight(day as int),
        -SECONDS_PER_DAY < r - (day - EPOCH_DAY) * SECONDS_PER_DAY < SECONDS_PER_DAY,
        eastern_reading(r as int) == (day as int, 0int, 0int),
{
    let naive = NaiveDate::from_num_days_from_ce_opt(day).unwrap().and_hms_opt(0, 0, 0).unwrap();
    Eastern.from_local_datetime(&naive).earliest().unwrap().timestamp()
}

/// `chrono::NaiveDate::from_ymd_opt`: the number of a calendar day, or `None`
/// where the calendar has no such day or the year is out of range.
#[verifier::external_body]
fn number_of_day(year: i32, month: u32, day: u32) -> (r: Option<i32>)
    ensures
        r is Some <==> (is_day(year as int, month as int, day as int) && -262_143 <= year
            && year <= 262_142),
        r is Some ==> r->0 == day_number(year as int, month as int, day as int),
        r is Some ==> (MIN_DAY <= r->0 && r->0 <= MAX_DAY),
{
    NaiveDate::from_ymd_opt(year, month, day).map(|date| date.num_days_from_ce())
}

/// `chrono::Datelike::year` and `month` of a day: the year and month in which
/// some day has this number.
#[verifier::external_body]
fn month_of_day(day: i32) -> (r: (i32, u32))
    requires
        MIN_DAY <= day <= MAX_DAY,
    ensures
        exists|of_month: int|
            #[trigger] is_day(r.0 as int, r.1 as int, of_month) && day == day_number(
                r.0 as int,
                r.1 as int,
                of_month,
            ),
{
    let date = NaiveDate::from_num_days_from_ce_opt(day).unwrap();
    (date.year(), date.month())
}

/// `chrono::NaiveDate`'s `FromStr`: named.
#[verifier::external_body]
fn parse_day(text: &str) -> (r: Option<i32>)
    ensures
        r is Some <==> parsed_day(text@) is Some,
        r is Some ==> parsed_day(text@) == Some(r->0 as int),
        r is Some ==> (MIN_DAY <= r->0 && r->0 <= MAX_DAY),
{
    text.parse::<NaiveDate>().ok().map(|date| date.num_days_from_ce())
}

/// `chrono::NaiveDate`'s `Display`: named.
#[verifier::external_body]
fn write_day(day: i32) -> (r: String)
    requires
        MIN_DAY <= day <= MAX_DAY,
    ensures
        r@ == day_text(day as int),
{
    NaiveDate::from_num_days_from_ce_opt(day).unwrap().to_string()
}

/// `chrono::DateTime::to_rfc3339` on UTC: named.
#[verifier::external_body]
fn write_instant(second: i64, nanos: u32) -> (r: String)
    requires
        MIN_SECOND <= second <= MAX_SECOND,
        nanos < NANOS_PER_SECOND,
    ensures
        r@ == instant_text(second as int, nanos as int),
{
    let utc: DateTime<Utc> = DateTime::from_timestamp(second, nanos).unwrap();
    utc.to_rfc3339()
}

/// A calendar date.
#[derive(Debug, Clone, Copy, PartialEq, Eq, Structural)]
pub struct Date {
    number: i32,
}

impl Date {
    /// The day number, counting 1 January of year 1 as day 1.
    pub closed spec fn day(self) -> int {
        self.number as int
    }

    #[verifier::type_invariant]
    spec fn in_calendar(self) -> bool {
        MIN_DAY <= self.number <= MAX_DAY
    }

    /// The day number: 1 January of year 1 is day 1.
    pub fn day_number(self) -> (r: i32)
        ensures
            r == self.day(),
            MIN_DAY <= r <= MAX_DAY,
    {
        proof {
            use_type_invariant(&self);
        }
        self.number
    }

    /// The date with a day number, if the calendar reaches it.
    pub fn from_day_number(number: i32) -> (r: Option<Date>)
        ensures
            r is Some <==> MIN_DAY <= number <= MAX_DAY,
            r matches Some(date) ==> date.day() == number,
    {
        if MIN_DAY <= number && number <= MAX_DAY {
            Some(Date { number })
        } else {
            None
        }
    }

    /// The date of a year, month and day, if the calendar has it.
    pub fn from_ymd(year: i32, month: u32, day: u32) -> (r: Option<Date>)
        ensures
            r is Some <==> is_day(year as int, month as int, day as int) && -262_143 <= year
                <= 262_142,
            r matches Some(date) ==> date.day() == day_number(
                year as int,
                month as int,
                day as int,
            ),
    {
        match number_of_day(year, month, day) {
            Some(number) => Some(Date { number }),
            None => None,
        }
    }

    /// The date `text` stands for, if it is one.
    pub fn parse(text: &str) -> (r: Option<Date>)
        ensures
            match r {
                Some(date) => parsed_day(text@) == Some(date.day()),
                None => parsed_day(text@) is None,
            },
    {
        match parse_day(text) {
            Some(number) => Some(Date { number }),
            None => None,
        }
    }

    /// The year and month this date lies in.
    pub fn year_month(self) -> (r: (i32, u32))
        ensures
            in_month(self.day(), r.0 as int, r.1 as int),
            month_of(self.day()) == (r.0 as int, r.1 as int),
    {
        proof {
            use_type_invariant(&self);
        }
        let r: (i32, u32) = month_of_day(self.number);
        proof {
            assert(in_month(self.day(), r.0 as int, r.1 as int));
            lemma_month_of(self.day(), r.0 as int, r.1 as int);
        }
        r
    }

    /// The day before, if the calendar reaches it.
    pub fn pred(self) -> (r: Option<Date>)
        ensures
            r is Some <==> self.day() > MIN_DAY,
            r matches Some(date) ==> date.day() == self.day() - 1,
    {
        proof {
            use_type_invariant(&self);
        }
        if self.number > MIN_DAY {
            Some(Date { number: self.number - 1 })
        } else {
            None
        }
    }

    /// Whether this date is earlier than `other`.
    pub fn before(self, other: Date) -> (r: bool)
        ensures
            r == (self.day() < other.day()),
    {
        self.number < other.number
    }

    /// The date written as year, month and day.
    pub fn to_text(self) -> (r: String)
        ensures
            r@ == day_text(self.day()),
    {
        proof {
            use_type_invariant(&self);
        }
        write_day(self.number)
    }
}

/// Whether day number `day` lies in a month.
pub open spec fn in_month(day: int, year: int, month: int) -> bool {
    exists|of_month: int|
        #[trigger] is_day(year, month, of_month) && day == day_number(year, month, of_month)
}

/// The number of the last day of December of the year before `year`.
pub open spec fn days_before_year(year: int) -> int {
    let past = year - 1;
    365 * past + past / 4 - past / 100 + past / 400
}

proof fn lemma_year_length(year: int)
    ensures
        days_before_year(year + 1) == days_before_year(year) + if leap_year(year) {
            366int
        } else {
            365int
        },
        days_before_month(year, 13) == if leap_year(year) {
            366int
        } else {
            365int
        },
{
    reveal_with_fuel(days_before_month, 14);
}

proof fn lemma_years_grow(low: int, high: int)
    requires
        low <= high,
    ensures
        days_before_year(low) <= days_before_year(high),
    decreases high - low,
{
    if low < high {
        lemma_years_grow(low, high - 1);
        lemma_year_length(high - 1);
    }
}

proof fn lemma_months_grow(year: int, low: int, high: int)
    requires
        1 <= low <= high <= 13,
    ensures
        days_before_month(year, low) <= days_before_month(year, high),
    decreases high - low,
{
    if low < high {
        lemma_months_grow(year, low, high - 1);
    }
}

/// A day lies in one month.
pub proof fn month_is_unique(day: int, year: int, month: int, other_year: int, other_month: int)
    requires
        in_month(day, year, month),
        in_month(day, other_year, other_month),
    ensures
        year == other_year,
        month == other_month,
{
    let a = choose|of_month: int|
        #[trigger] is_day(year, month, of_month) && day == day_number(year, month, of_month);
    let b = choose|of_month: int|
        #[trigger] is_day(other_year, other_month, of_month) && day == day_number(
            other_year,
            other_month,
            of_month,
        );
    if year < other_year || (year == other_year && month < other_month) {
        lemma_later_month(year, month, a, other_year, other_month, b);
    } else if other_year < year || (year == other_year && other_month < month) {
        lemma_later_month(other_year, other_month, b, year, month, a);
    }
}

proof fn lemma_later_month(
    year: int,
    month: int,
    day: int,
    later_year: int,
    later_month: int,
    later_day: int,
)
    requires
        is_day(year, month, day),
        is_day(later_year, later_month, later_day),
        year < later_year || (year == later_year && month < later_month),
    ensures
        day_number(year, month, day) < day_number(later_year, later_month, later_day),
{
    lemma_months_grow(year, month + 1, 13);
    lemma_months_grow(later_year, 1, later_month);
    if year < later_year {
        lemma_year_length(year);
        lemma_years_grow(year + 1, later_year);
    } else {
        lemma_months_grow(year, month + 1, later_month);
    }
}

/// The year and month a day lies in.
pub open spec fn month_of(day: int) -> (int, int) {
    choose|month: (int, int)| #[trigger] in_month(day, month.0, month.1)
}

pub proof fn lemma_month_of(day: int, year: int, month: int)
    requires
        in_month(day, year, month),
    ensures
        month_of(day) == (year, month),
{
    let found = (year, month);
    assert(in_month(day, found.0, found.1));
    let chosen = month_of(day);
    assert(in_month(day, chosen.0, chosen.1));
    month_is_unique(day, chosen.0, chosen.1, year, month);
}

/// Two dates with one day number are one date.
pub broadcast proof fn date_is_its_day(a: Date, b: Date)
    ensures
        #![trigger a.day(), b.day()]
        a.day() == b.day() ==> a == b,
{
}

/// An instant: a second since the Unix epoch and a fraction of it.
#[derive(Debug, Clone, Copy, PartialEq, Eq, Structural)]
pub struct Time {
    second: i64,
    nanos: u32,
}

impl Time {
    /// Whole seconds since the epoch.
    pub closed spec fn secs(self) -> int {
        self.second as int
    }

    /// Nanoseconds past the second.
    pub closed spec fn subsec(self) -> int {
        self.nanos as int
    }

    #[verifier::type_invariant]
    spec fn in_calendar(self) -> bool {
        MIN_SECOND <= self.second <= MAX_SECOND && self.nanos < NANOS_PER_SECOND
    }

    /// Whether the instant is well inside the range of [`Time`], so that the
    /// day and the week it lies in open in range too.
    pub open spec fn well_inside(self) -> bool {
        MIN_SECOND + 10 * SECONDS_PER_DAY <= self.secs() <= MAX_SECOND - 10 * SECONDS_PER_DAY
    }

    /// The instant `second` seconds and `nanos` nanoseconds past the epoch, if
    /// it is in range.
    pub fn from_timestamp(second: i64, nanos: u32) -> (r: Option<Time>)
        ensures
            r is Some <==> MIN_SECOND <= second <= MAX_SECOND && nanos < NANOS_PER_SECOND,
            r matches Some(time) ==> time.secs() == second && time.subsec() == nanos,
    {
        if second < MIN_SECOND || second > MAX_SECOND {
            return None;
        }
        if nanos as i64 >= NANOS_PER_SECOND && (nanos as i64) < 2 * NANOS_PER_SECOND {
            return None;
        }
        if instant_exists(second, nanos) {
            Some(Time { second, nanos })
        } else {
            None
        }
    }

    /// Whole seconds since the epoch.
    pub fn timestamp(self) -> (r: i64)
        ensures
            r == self.secs(),
            MIN_SECOND <= r <= MAX_SECOND,
    {
        proof {
            use_type_invariant(&self);
        }
        self.second
    }

    /// Nanoseconds past the second.
    pub fn subsec_nanos(self) -> (r: u32)
        ensures
            r == self.subsec(),
            r < NANOS_PER_SECOND,
    {
        proof {
            use_type_invariant(&self);
        }
        self.nanos
    }

    /// Whether this instant is earlier than `other`.
    pub fn before(self, other: Time) -> (r: bool)
        ensures
            r == earlier(self, other),
    {
        self.second < other.second || (self.second == other.second && self.nanos < other.nanos)
    }

    /// The date on the US Eastern clock.
    pub fn eastern_date(self) -> (r: Date)
        ensures
            r.day() == eastern_clock(self.secs()).0,
    {
        self.eastern().0
    }

    /// The minute of the day on the US Eastern clock.
    pub fn eastern_minute(self) -> (r: u32)
        ensures
            r == eastern_clock(self.secs()).1,
            r < 1440,
    {
        self.eastern().1
    }

    /// The date and the minute of the day on the US Eastern clock.
    pub fn eastern(self) -> (r: (Date, u32))
        ensures
            (r.0.day(), r.1 as int) == eastern_clock(self.secs()),
            r.1 < 1440,
            -1 <= r.0.day() - (self.secs() / SECONDS_PER_DAY as int + EPOCH_DAY) <= 1,
            MIN_DAY + 10 <= r.0.day() <= MAX_DAY - 10,
    {
        proof {
            use_type_invariant(&self);
        }
        let (number, hour, minute) = read_eastern_clock(self.second);
        (Date { number }, hour * 60 + minute)
    }

    /// The instant written as an RFC 3339 timestamp.
    pub fn to_rfc3339(self) -> (r: String)
        ensures
            r@ == instant_text(self.secs(), self.subsec()),
    {
        proof {
            use_type_invariant(&self);
        }
        write_instant(self.second, self.nanos)
    }
}

/// Whether `a` is earlier than `b`.
pub open spec fn earlier(a: Time, b: Time) -> bool {
    a.secs() < b.secs() || (a.secs() == b.secs() && a.subsec() < b.subsec())
}

/// Two instants with one second and one fraction are one instant.
pub broadcast proof fn time_is_its_second(a: Time, b: Time)
    ensures
        #![trigger a.secs(), b.secs()]
        a.secs() == b.secs() && a.subsec() == b.subsec() ==> a == b,
{
}

/// The whole second `second`, as an instant.
fn whole_second(second: i64) -> (r: Time)
    requires
        MIN_SECOND <= second <= MAX_SECOND,
    ensures
        r.secs() == second,
        r.subsec() == 0,
{
    Time { second, nanos: 0 }
}

/// The latest multiple of `step` seconds from the epoch that is not after
/// `second`, held inside the range.
pub open spec fn floored(second: int, step: int) -> int {
    held(second - second % step)
}

/// The latest multiple of `step` seconds from the epoch that is not after
/// `time`. See [`floored`].
pub fn floor_to(time: Time, step: i64) -> (r: Time)
    requires
        0 < step <= 0x1_0000_0000 * 3600,
    ensures
        r.secs() == floored(time.secs(), step as int),
        r.subsec() == 0,
{
    proof {
        use_type_invariant(&time);
    }
    let second: i64 = time.second;
    assert(0 <= second as int % (step as int) < step) by (nonlinear_arith)
        requires
            step > 0,
    ;
    match second.checked_rem_euclid(step) {
        Some(past) => {
            if second - past < MIN_SECOND {
                whole_second(MIN_SECOND)
            } else {
                whole_second(second - past)
            }
        },
        None => time,
    }
}

/// The instant US Eastern midnight opens `date`, held inside the range.
pub fn et_midnight(date: Date) -> (r: Time)
    requires
        opens_inside(date.day()),
    ensures
        r.secs() == held(eastern_midnight(date.day())),
        r.subsec() == 0,
        -SECONDS_PER_DAY < eastern_midnight(date.day()) - (date.day() - EPOCH_DAY)
            * SECONDS_PER_DAY < SECONDS_PER_DAY,
        eastern_clock(eastern_midnight(date.day())) == (date.day(), 0int),
{
    let second: i64 = find_eastern_midnight(date.number);
    if second < MIN_SECOND {
        whole_second(MIN_SECOND)
    } else if second > MAX_SECOND {
        whole_second(MAX_SECOND)
    } else {
        whole_second(second)
    }
}

/// Whether a nanosecond timestamp stands for an instant in range. Every one that
/// fits in 64 bits does.
pub open spec fn is_instant(ts_ns: int) -> bool {
    MIN_SECOND <= ts_ns / (NANOS_PER_SECOND as int) <= MAX_SECOND
}

/// The instant a nanosecond timestamp stands for.
pub closed spec fn instant(ts_ns: int) -> Time {
    Time {
        second: (ts_ns / (NANOS_PER_SECOND as int)) as i64,
        nanos: (ts_ns % (NANOS_PER_SECOND as int)) as u32,
    }
}

/// An instant lies as many nanoseconds past the epoch as its timestamp says.
pub broadcast proof fn instant_is_its_timestamp(ts_ns: i64)
    ensures
        #![trigger instant(ts_ns as int)]
        instant(ts_ns as int).secs() * NANOS_PER_SECOND + instant(ts_ns as int).subsec() == ts_ns,
        instant(ts_ns as int).well_inside(),
        0 <= instant(ts_ns as int).subsec() < NANOS_PER_SECOND,
{
}

/// The instant a nanosecond timestamp stands for, if it stands for one.
pub fn ts_to_datetime(ts_ns: i64) -> (r: Option<Time>)
    ensures
        r == (if is_instant(ts_ns as int) {
            Some(instant(ts_ns as int))
        } else {
            None
        }),
{
    match (ts_ns.checked_div_euclid(NANOS_PER_SECOND), ts_ns.checked_rem_euclid(
        NANOS_PER_SECOND,
    )) {
        (Some(second), Some(nanos)) => Time::from_timestamp(second, nanos as u32),
        _ => None,
    }
}

/// The calendar has no gaps and no overlaps: each day's number is one more than that
/// of the day before, across the ends of months and years, every fourth year has a
/// day more but for the hundredth years that are not four-hundredth ones, and 1
/// January 1970 is the day the epoch begins.
pub proof fn the_calendar_has_no_gaps(year: int, month: int, day: int)
    requires
        is_day(year, month, day),
    ensures
        is_day(year, month, day + 1) ==> day_number(year, month, day + 1) == day_number(
            year,
            month,
            day,
        ) + 1,
        !is_day(year, month, day + 1) && month < 12 ==> is_day(year, month + 1, 1) && day_number(
            year,
            month + 1,
            1,
        ) == day_number(year, month, day) + 1,
        !is_day(year, month, day + 1) && month == 12 ==> day_number(year + 1, 1, 1) == day_number(
            year,
            month,
            day,
        ) + 1,
        is_day(year, 2, 29) <==> year % 4 == 0 && (year % 100 != 0 || year % 400 == 0),
        !is_day(year, 2, 30) && !is_day(year, month, 32),
        day_number(1970, 1, 1) == EPOCH_DAY,
{
    lemma_year_length(year);
    assert(days_before_month(year + 1, 1) == 0);
    assert(days_before_month(1970, 1) == 0);
    if month < 12 {
        assert(days_before_month(year, month + 1) == days_before_month(year, month)
            + days_in_month(year, month));
    } else {
        assert(days_before_month(year, 13) == days_before_month(year, 12) + days_in_month(
            year,
            12,
        ));
        assert(days_in_month(year, 12) == 31);
    }
}

/// Every day of a month comes before every day of a later one.
pub proof fn months_follow_each_other(
    day: int,
    year: int,
    month: int,
    later_day: int,
    later_year: int,
    later_month: int,
)
    requires
        in_month(day, year, month),
        in_month(later_day, later_year, later_month),
        year < later_year || (year == later_year && month < later_month),
    ensures
        day < later_day,
{
    let a = choose|of_month: int|
        #[trigger] is_day(year, month, of_month) && day == day_number(year, month, of_month);
    let b = choose|of_month: int|
        #[trigger] is_day(later_year, later_month, of_month) && later_day == day_number(
            later_year,
            later_month,
            of_month,
        );
    lemma_later_month(year, month, a, later_year, later_month, b);
}

/// Of two instants the earlier is the one fewer nanoseconds past the epoch.
pub proof fn instants_are_ordered_by_nanoseconds(a: i64, b: i64)
    ensures
        earlier(instant(a as int), instant(b as int)) <==> a < b,
        a == b <==> instant(a as int) == instant(b as int),
{
}

/// A second in the range of [`Time`] is held as it is, and any other at the bound it
/// passed.
pub proof fn seconds_in_range_are_kept(second: int)
    ensures
        MIN_SECOND <= held(second) <= MAX_SECOND,
        MIN_SECOND <= second <= MAX_SECOND ==> held(second) == second,
        second < MIN_SECOND ==> held(second) == MIN_SECOND,
        second > MAX_SECOND ==> held(second) == MAX_SECOND,
{
}

/// A minute of the Eastern day is as many whole hours and minutes past midnight as
/// the clock reads, on the date it reads.
pub proof fn the_clock_counts_minutes(second: int)
    ensures
        ({
            let (day, hour, minute) = eastern_reading(second);
            let (date, of_day) = eastern_clock(second);
            &&& date == day
            &&& 0 <= minute < 60 ==> of_day / 60 == hour && of_day % 60 == minute
        }),
{
}

} // verus!
