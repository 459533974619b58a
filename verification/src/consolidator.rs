//! Bar consolidation: fold a stream of bars into coarser ones on a fixed grid.

use vstd::prelude::*;

use crate::bar::Bar;
use crate::calendar;
use crate::calendar::{et_midnight, floor_to, Date, Time};
use crate::exact;
use crate::number::Number;
use crate::symbol::Symbol;

verus! {

#[derive(Debug, Clone, Copy, PartialEq, Eq, Structural)]
pub enum ConsolidatorPeriod {
    Minutes(u32),
    Hours(u32),
    Daily,
    Weekly,
}

/// Days since the Monday of a day's week: 1 January of year 1 was a Monday.
pub open spec fn days_from_monday(day: int) -> int {
    (day - 1) % 7
}

/// A bucket on a grid opens no later than the instants in it and lasts one step,
/// wherever the grid reaches, and its opening lies in it.
pub proof fn floors_are_fixed(second: int, step: int)
    requires
        step > 0,
        second <= calendar::MAX_SECOND,
    ensures
        calendar::floored(calendar::floored(second, step), step) == calendar::floored(second, step),
        calendar::MIN_SECOND <= second - second % step ==> calendar::floored(second, step) <= second
            < calendar::floored(second, step) + step,
{
    let floor = second - second % step;
    assert(0 <= second % step < step) by (nonlinear_arith)
        requires
            step > 0,
    ;
    assert(floor % step == 0) by {
        vstd::arithmetic::div_mod::lemma_fundamental_div_mod(second, step);
        vstd::arithmetic::div_mod::lemma_mod_multiples_basic(second / step, step);
        assert(floor == (second / step) * step) by (nonlinear_arith)
            requires
                second == step * (second / step) + second % step,
                floor == second - second % step,
        ;
    }
    let low = calendar::MIN_SECOND as int;
    assert(0 <= low % step < step) by (nonlinear_arith)
        requires
            step > 0,
    ;
}

impl ConsolidatorPeriod {
    /// The second at which the bucket containing `second` opens. Buckets are
    /// aligned to the wall-clock grid, not to the first bar seen:
    ///
    /// - minutes and hours are floored to the period grid from the epoch;
    /// - a day opens at US Eastern midnight of the trading date;
    /// - a week opens at US Eastern midnight of its Monday.
    pub open spec fn opening(self, second: int) -> int {
        match self {
            ConsolidatorPeriod::Minutes(m) => calendar::floored(second, m * 60),
            ConsolidatorPeriod::Hours(h) => calendar::floored(second, h * 3_600),
            ConsolidatorPeriod::Daily => calendar::held(
                calendar::eastern_midnight(calendar::eastern_clock(second).0),
            ),
            ConsolidatorPeriod::Weekly => {
                let day = calendar::eastern_clock(second).0;
                calendar::held(calendar::eastern_midnight(day - days_from_monday(day)))
            },
        }
    }

    /// Whether the period has a length.
    pub open spec fn has_length(self) -> bool {
        match self {
            ConsolidatorPeriod::Minutes(m) => m > 0,
            ConsolidatorPeriod::Hours(h) => h > 0,
            _ => true,
        }
    }

    /// Whether the grid reaches below `second`, so that the bucket it lies in opens
    /// in range.
    pub open spec fn reaches(self, second: int) -> bool {
        match self {
            ConsolidatorPeriod::Minutes(m) => calendar::MIN_SECOND + 60 * m <= second
                <= calendar::MAX_SECOND,
            ConsolidatorPeriod::Hours(h) => calendar::MIN_SECOND + 3_600 * h <= second
                <= calendar::MAX_SECOND,
            _ => calendar::MIN_SECOND + 10 * calendar::SECONDS_PER_DAY <= second
                <= calendar::MAX_SECOND - 10 * calendar::SECONDS_PER_DAY,
        }
    }

    /// Whether the bucket that opens at `start` holds `second`: so many minutes or
    /// hours of 3600 seconds from a multiple of that length, the Eastern day that
    /// begins there, or the seven Eastern days from the Monday that begins there.
    pub open spec fn holds(self, start: int, second: int) -> bool {
        match self {
            ConsolidatorPeriod::Minutes(m) => {
                &&& start % (60 * m) == 0
                &&& start <= second < start + 60 * m
            },
            ConsolidatorPeriod::Hours(h) => {
                &&& start % (3_600 * h) == 0
                &&& start <= second < start + 3_600 * h
            },
            ConsolidatorPeriod::Daily => {
                &&& calendar::eastern_clock(start).1 == 0
                &&& calendar::eastern_clock(start).0 == calendar::eastern_clock(second).0
            },
            ConsolidatorPeriod::Weekly => {
                &&& calendar::eastern_clock(start).1 == 0
                &&& a_monday(calendar::eastern_clock(start).0)
                &&& calendar::eastern_clock(start).0 <= calendar::eastern_clock(second).0
                    < calendar::eastern_clock(start).0 + 7
            },
        }
    }

    /// The instant the bucket containing `time` opens. It lies in that bucket.
    pub fn bucket_start(&self, time: Time) -> (r: Time)
        requires
            self.has_length(),
        ensures
            r.secs() == self.opening(time.secs()),
            r.subsec() == 0,
            time.well_inside() ==> self.opening(r.secs()) == r.secs(),
            self.reaches(time.secs()) ==> self.holds(r.secs(), time.secs()),
    {
        proof {
            a_week_starts_on_a_monday(calendar::eastern_clock(time.secs()).0);
            if self.reaches(time.secs()) && (self is Minutes || self is Hours) {
                buckets_last_their_period(*self, time.secs(), time.secs());
            }
            if time.well_inside() {
                match self {
                    ConsolidatorPeriod::Minutes(m) => {
                        floors_are_fixed(time.secs(), m * 60);
                    },
                    ConsolidatorPeriod::Hours(h) => {
                        floors_are_fixed(time.secs(), h * 3_600);
                    },
                    _ => {},
                }
            }
        }
        match self {
            ConsolidatorPeriod::Minutes(m) => floor_to(time, *m as i64 * 60),
            ConsolidatorPeriod::Hours(h) => floor_to(time, *h as i64 * 3_600),
            ConsolidatorPeriod::Daily => et_midnight(time.eastern().0),
            ConsolidatorPeriod::Weekly => {
                let date = time.eastern().0;
                et_midnight(monday_of(date))
            },
        }
    }
}

/// Whether a day is so many whole weeks from 5 January 1970, a Monday.
pub open spec fn a_monday(day: int) -> bool {
    (day - calendar::day_number(1970, 1, 5)) % 7 == 0
}

/// The days since the Monday of a day's week lead back to a Monday, no more than
/// six days earlier.
pub proof fn a_week_starts_on_a_monday(day: int)
    ensures
        a_monday(day - days_from_monday(day)),
        0 <= days_from_monday(day) < 7,
{
    assert(calendar::day_number(1970, 1, 5) == 719_167) by {
        assert(calendar::days_before_month(1970, 1) == 0);
    }
}

/// A bucket of minutes or hours lasts that long: it opens at a multiple of its
/// length from the epoch, no later than what it holds, and two instants lie in
/// one bucket exactly when they lie in one multiple of its length. An hour is
/// sixty minutes.
pub proof fn buckets_last_their_period(period: ConsolidatorPeriod, a: int, b: int)
    requires
        period is Minutes || period is Hours,
        period.has_length(),
        period.reaches(a),
        period.reaches(b),
    ensures
        period.holds(period.opening(a), a),
        period matches ConsolidatorPeriod::Minutes(m) ==> (period.opening(a) == period.opening(b)
            <==> a / (60 * m) == b / (60 * m)),
        period matches ConsolidatorPeriod::Hours(h) ==> (period.opening(a) == period.opening(b)
            <==> a / (3_600 * h) == b / (3_600 * h)),
        period matches ConsolidatorPeriod::Hours(h) ==> 60 * h <= u32::MAX ==> period.opening(a)
            == ConsolidatorPeriod::Minutes((60 * h) as u32).opening(a),
{
    let step = match period {
        ConsolidatorPeriod::Minutes(m) => 60 * m,
        ConsolidatorPeriod::Hours(h) => 3_600 * h,
        _ => 1int,
    };
    lemma_floor(a, step);
    lemma_floor(b, step);
    assert(period.opening(a) == calendar::held(a - a % step));
    assert(period.opening(b) == calendar::held(b - b % step));
    assert(a / step != b / step ==> step * (a / step) != step * (b / step)) by (nonlinear_arith)
        requires
            step > 0,
    ;
}

proof fn lemma_floor(second: int, step: int)
    requires
        step > 0,
    ensures
        0 <= second % step < step,
        second - second % step == step * (second / step),
        (second - second % step) % step == 0,
{
    vstd::arithmetic::div_mod::lemma_fundamental_div_mod(second, step);
    vstd::arithmetic::div_mod::lemma_mod_multiples_basic(second / step, step);
    assert(step * (second / step) == (second / step) * step) by (nonlinear_arith);
    assert(0 <= second % step < step) by (nonlinear_arith)
        requires
            step > 0,
    ;
}

/// Two instants are given one opening exactly when they lie in one bucket: one
/// multiple of the period's length, one Eastern date, or one Eastern week from
/// Monday to Sunday.
pub proof fn buckets_do_not_overlap(
    period: ConsolidatorPeriod,
    a: int,
    a_start: int,
    b: int,
    b_start: int,
)
    requires
        period.has_length(),
        period.reaches(a),
        period.reaches(b),
        a_start == period.opening(a),
        b_start == period.opening(b),
        period.holds(a_start, a),
        period.holds(b_start, b),
    ensures
        a_start == b_start <==> match period {
            ConsolidatorPeriod::Minutes(m) => a / (60 * m) == b / (60 * m),
            ConsolidatorPeriod::Hours(h) => a / (3_600 * h) == b / (3_600 * h),
            ConsolidatorPeriod::Daily => calendar::eastern_clock(a).0 == calendar::eastern_clock(
                b,
            ).0,
            ConsolidatorPeriod::Weekly => {
                let monday = calendar::day_number(1970, 1, 5);
                (calendar::eastern_clock(a).0 - monday) / 7 == (calendar::eastern_clock(b).0
                    - monday) / 7
            },
        },
{
    if period is Minutes || period is Hours {
        buckets_last_their_period(period, a, b);
    }
    assert(calendar::day_number(1970, 1, 5) == 719_167) by {
        assert(calendar::days_before_month(1970, 1) == 0);
    }
}

/// The Monday of a date's week.
fn monday_of(date: Date) -> (r: Date)
    requires
        date.day() >= calendar::MIN_DAY + 6,
    ensures
        r.day() == date.day() - days_from_monday(date.day()),
{
    let number: i32 = date.day_number();
    let past: i64 = match (number as i64 - 1).checked_rem_euclid(7) {
        Some(past) => past,
        None => 0,
    };
    assert(0 <= (number - 1) % 7 < 7);
    match Date::from_day_number((number as i64 - past) as i32) {
        Some(monday) => monday,
        None => date,
    }
}

/// A bucket being filled: the period, and the bar accumulated since the bucket
/// opened.
#[derive(Debug)]
pub struct ConsolidatorEntry<N> {
    symbol: Symbol,
    period: ConsolidatorPeriod,
    current_bar: Option<Bar<N>>,
}

/// `bar` as the first of its bucket.
pub open spec fn opens_bucket<N: Number>(bar: Bar<N>, seed: Bar<N>, opening: int) -> bool {
    &&& seed.time.secs() == opening
    &&& seed.time.subsec() == 0
    &&& seed == (Bar { time: seed.time, ..bar })
}

/// `bar` added to the bar of the open bucket: the first open, the last close,
/// the extremes, the sum of the volumes (held at the largest count there is),
/// and the stamp of the opening.
pub open spec fn folded<N: Number>(current: Bar<N>, bar: Bar<N>) -> Bar<N> {
    Bar {
        time: current.time,
        open: current.open,
        high: current.high.max(bar.high),
        low: current.low.min(bar.low),
        close: bar.close,
        volume: if current.volume + bar.volume > u64::MAX {
            u64::MAX
        } else {
            (current.volume + bar.volume) as u64
        },
    }
}

impl<N> ConsolidatorEntry<N> {
    #[verifier::type_invariant]
    spec fn sound(self) -> bool {
        self.period.has_length()
    }
}

impl<N: Number> ConsolidatorEntry<N> {
    /// The symbol whose bars are folded.
    pub closed spec fn source(self) -> Symbol {
        self.symbol
    }

    /// How long a bucket is.
    pub closed spec fn bucket(self) -> ConsolidatorPeriod {
        self.period
    }

    /// The bar of the open bucket, stamped with the instant it opened.
    pub closed spec fn current(self) -> Option<Bar<N>> {
        self.current_bar
    }

    pub fn new(symbol: Symbol, period: ConsolidatorPeriod) -> (r: ConsolidatorEntry<N>)
        requires
            period.has_length(),
        ensures
            r.source() == symbol,
            r.bucket() == period,
            r.current() is None,
    {
        ConsolidatorEntry { symbol, period, current_bar: None }
    }

    /// The symbol whose bars are folded.
    pub fn symbol(&self) -> (r: Symbol)
        ensures
            r == self.source(),
    {
        self.symbol
    }

    /// What feeding `bar` does: the entry afterwards and the bar emitted.
    ///
    /// The first bar of a new bucket emits the finished one and seeds the
    /// next; every other is folded into the bucket it belongs to. The emitted
    /// bar carries the instant its bucket opened.
    pub open spec fn fed(self, bar: Bar<N>, after: ConsolidatorEntry<N>, emitted: Option<Bar<N>>)
        -> bool {
        let opening = self.bucket().opening(bar.time.secs());
        &&& after.source() == self.source()
        &&& after.bucket() == self.bucket()
        &&& match self.current() {
            Some(current) if current.time.secs() == opening && current.time.subsec() == 0 => {
                &&& emitted is None
                &&& after.current() == Some(folded(current, bar))
            },
            _ => {
                &&& emitted == self.current()
                &&& after.current() matches Some(seed) && opens_bucket(bar, seed, opening)
            },
        }
    }

    /// Take in one bar, returning the bar of the bucket it finished, if it
    /// finished one.
    pub fn feed(&mut self, bar: &Bar<N>) -> (r: Option<Bar<N>>)
        ensures
            old(self).fed(*bar, *final(self), r),
    {
        proof {
            use_type_invariant(&*self);
        }
        let start = self.period.bucket_start(bar.time);
        match self.current_bar {
            Some(current) => {
                if current.time.timestamp() == start.timestamp() && current.time.subsec_nanos()
                    == 0 {
                    self.current_bar = Some(
                        Bar {
                            time: current.time,
                            open: current.open,
                            high: current.high.max(bar.high),
                            low: current.low.min(bar.low),
                            close: bar.close,
                            volume: current.volume.saturating_add(bar.volume),
                        },
                    );
                    None
                } else {
                    self.open_bucket(bar, start);
                    Some(current)
                }
            },
            None => {
                self.open_bucket(bar, start);
                None
            },
        }
    }

    fn open_bucket(&mut self, bar: &Bar<N>, start: Time)
        ensures
            final(self).source() == old(self).source(),
            final(self).bucket() == old(self).bucket(),
            final(self).current() == Some(Bar { time: start, ..*bar }),
    {
        proof {
            use_type_invariant(&*self);
        }
        self.current_bar = Some(
            Bar {
                time: start,
                open: bar.open,
                high: bar.high,
                low: bar.low,
                close: bar.close,
                volume: bar.volume,
            },
        );
    }

    /// Give up the bar of the open bucket, finished or not.
    pub fn flush(&mut self) -> (r: Option<Bar<N>>)
        ensures
            r == old(self).current(),
            final(self).source() == old(self).source(),
            final(self).bucket() == old(self).bucket(),
            final(self).current() is None,
    {
        proof {
            use_type_invariant(&*self);
        }
        let bar = self.current_bar;
        self.current_bar = None;
        bar
    }
}

/// The traded volume of bars.
pub open spec fn volume_of<N>(bars: Seq<Bar<N>>) -> int
    decreases bars.len(),
{
    if bars.len() == 0 {
        0
    } else {
        volume_of(bars.drop_last()) + bars.last().volume
    }
}

/// A list with what was emitted, if anything was.
pub open spec fn with_emitted<N>(bars: Seq<Bar<N>>, emitted: Option<Bar<N>>) -> Seq<Bar<N>> {
    match emitted {
        Some(bar) => bars.push(bar),
        None => bars,
    }
}

impl<N: Number> ConsolidatorEntry<N> {
    /// What feeding `bar` after others does: the entry afterwards, and all the
    /// bars emitted, of which `before` were emitted earlier.
    pub open spec fn fed_last(
        self,
        before: Seq<Bar<N>>,
        bar: Bar<N>,
        after: ConsolidatorEntry<N>,
        emitted: Seq<Bar<N>>,
    ) -> bool {
        exists|last: Option<Bar<N>>| #[trigger]
            self.fed(bar, after, last) && emitted == with_emitted(before, last)
    }

    /// What feeding bars one after the other does: the entry afterwards and the
    /// bars emitted.
    pub open spec fn fed_all(
        self,
        bars: Seq<Bar<N>>,
        after: ConsolidatorEntry<N>,
        emitted: Seq<Bar<N>>,
    ) -> bool
        decreases bars.len(),
    {
        if bars.len() == 0 {
            after == self && emitted == Seq::<Bar<N>>::empty()
        } else {
            exists|mid: ConsolidatorEntry<N>, before: Seq<Bar<N>>|
                self.fed_all(bars.drop_last(), mid, before) && #[trigger] mid.fed_last(
                    before,
                    bars.last(),
                    after,
                    emitted,
                )
        }
    }

    /// The volume gathered in the open bucket.
    pub open spec fn volume_held(self) -> int {
        match self.current() {
            Some(bar) => bar.volume as int,
            None => 0,
        }
    }
}

/// A consolidator that starts empty turns the bars of one bucket into one bar:
/// the first open, the last close, the highest high, the lowest low and all the
/// volume, stamped with the opening of the bucket.
pub proof fn a_bucket_gathers_its_bars<N: Number>(
    entry: ConsolidatorEntry<N>,
    bars: Seq<Bar<N>>,
    after: ConsolidatorEntry<N>,
    emitted: Seq<Bar<N>>,
    opening: int,
    val: spec_fn(N) -> real,
)
    requires
        exact::ordered(val),
        entry.current() is None,
        bars.len() > 0,
        forall|i: int|
            0 <= i < bars.len() ==> entry.bucket().opening((#[trigger] bars[i]).time.secs())
                == opening,
        volume_of(bars) <= u64::MAX,
        entry.fed_all(bars, after, emitted),
    ensures
        emitted == Seq::<Bar<N>>::empty(),
        after.current() is Some,
        after.current()->0.time.secs() == opening,
        after.current()->0.time.subsec() == 0,
        after.current()->0.open == bars[0].open,
        after.current()->0.close == bars.last().close,
        after.current()->0.volume == volume_of(bars),
        forall|i: int|
            0 <= i < bars.len() ==> val((#[trigger] bars[i]).high) <= val(
                after.current()->0.high,
            ),
        forall|i: int|
            0 <= i < bars.len() ==> val((#[trigger] bars[i]).low) >= val(after.current()->0.low),
        exists|i: int|
            0 <= i < bars.len() && val((#[trigger] bars[i]).high) == val(after.current()->0.high),
        exists|i: int|
            0 <= i < bars.len() && val((#[trigger] bars[i]).low) == val(after.current()->0.low),
        after.bucket() == entry.bucket(),
    decreases bars.len(),
{
    let rest = bars.drop_last();
    let (mid, before) = choose|mid: ConsolidatorEntry<N>, before: Seq<Bar<N>>|
        entry.fed_all(rest, mid, before) && #[trigger] mid.fed_last(
            before,
            bars.last(),
            after,
            emitted,
        );
    let end = bars.len() - 1;
    assert(bars[end] == bars.last());
    if rest.len() > 0 {
        assert(volume_of(rest) <= volume_of(bars));
        a_bucket_gathers_its_bars(entry, rest, mid, before, opening, val);
        let high = choose|i: int|
            0 <= i < rest.len() && val((#[trigger] rest[i]).high) == val(mid.current()->0.high);
        let low = choose|i: int|
            0 <= i < rest.len() && val((#[trigger] rest[i]).low) == val(mid.current()->0.low);
        assert(rest[high] == bars[high] && rest[low] == bars[low]);
        assert forall|i: int| 0 <= i < bars.len() implies val((#[trigger] bars[i]).high) <= val(
            after.current()->0.high,
        ) && val(bars[i].low) >= val(after.current()->0.low) by {
            if i < end {
                assert(rest[i] == bars[i]);
            }
        }
    } else {
        assert(volume_of(rest) == 0);
    }
}

/// No volume is lost or counted twice: what a consolidator has emitted and what
/// it still holds is what it held and was fed.
pub proof fn volume_is_kept<N: Number>(
    entry: ConsolidatorEntry<N>,
    bars: Seq<Bar<N>>,
    after: ConsolidatorEntry<N>,
    emitted: Seq<Bar<N>>,
)
    requires
        entry.volume_held() + volume_of(bars) <= u64::MAX,
        entry.fed_all(bars, after, emitted),
    ensures
        volume_of(emitted) + after.volume_held() == entry.volume_held() + volume_of(bars),
        volume_of(emitted) >= 0,
    decreases bars.len(),
{
    if bars.len() > 0 {
        let (mid, before) = choose|mid: ConsolidatorEntry<N>, before: Seq<Bar<N>>|
            entry.fed_all(bars.drop_last(), mid, before) && #[trigger] mid.fed_last(
                before,
                bars.last(),
                after,
                emitted,
            );
        let last = choose|last: Option<Bar<N>>| #[trigger]
            mid.fed(bars.last(), after, last) && emitted == with_emitted(before, last);
        volume_is_kept(entry, bars.drop_last(), mid, before);
        match last {
            Some(bar) => {
                assert(before.push(bar).drop_last() =~= before);
            },
            None => {},
        }
    }
}

/// Bars cut into maximal runs of those that lie in one bucket.
pub open spec fn bucket_runs<N>(period: ConsolidatorPeriod, bars: Seq<Bar<N>>) -> Seq<Seq<Bar<N>>>
    decreases bars.len(),
{
    if bars.len() == 0 {
        Seq::empty()
    } else {
        let before = bucket_runs(period, bars.drop_last());
        let bar = bars.last();
        if before.len() > 0 && period.opening(before.last().last().time.secs()) == period.opening(
            bar.time.secs(),
        ) {
            before.drop_last().push(before.last().push(bar))
        } else {
            before.push(seq![bar])
        }
    }
}

/// A run of bars folded into its first.
pub open spec fn gathered<N: Number>(run: Seq<Bar<N>>) -> Bar<N>
    decreases run.len(),
{
    if run.len() <= 1 {
        run[0]
    } else {
        folded(gathered(run.drop_last()), run.last())
    }
}

/// Whether `bar` is a run of bars of one bucket folded into one, stamped with
/// the opening of the bucket.
pub open spec fn gathers<N: Number>(
    period: ConsolidatorPeriod,
    run: Seq<Bar<N>>,
    bar: Bar<N>,
) -> bool {
    &&& run.len() > 0
    &&& bar == (Bar { time: bar.time, ..gathered(run) })
    &&& bar.time.secs() == period.opening(run.last().time.secs())
    &&& bar.time.subsec() == 0
}

/// A consolidator that starts empty emits one bar for each maximal run of the
/// bars that lie in one bucket, in order, and holds the last.
pub proof fn runs_become_bars<N: Number>(
    entry: ConsolidatorEntry<N>,
    bars: Seq<Bar<N>>,
    after: ConsolidatorEntry<N>,
    emitted: Seq<Bar<N>>,
)
    requires
        entry.current() is None,
        entry.fed_all(bars, after, emitted),
    ensures
        after.bucket() == entry.bucket(),
        with_emitted(emitted, after.current()).len() == bucket_runs(entry.bucket(), bars).len(),
        bars.len() > 0 ==> after.current() is Some,
        forall|i: int|
            0 <= i < bucket_runs(entry.bucket(), bars).len() ==> gathers(
                entry.bucket(),
                #[trigger] bucket_runs(entry.bucket(), bars)[i],
                with_emitted(emitted, after.current())[i],
            ),
    decreases bars.len(),
{
    if bars.len() > 0 {
        let rest = bars.drop_last();
        let bar = bars.last();
        let (mid, before) = choose|mid: ConsolidatorEntry<N>, before: Seq<Bar<N>>|
            entry.fed_all(rest, mid, before) && #[trigger] mid.fed_last(
                before,
                bar,
                after,
                emitted,
            );
        let last = choose|last: Option<Bar<N>>| #[trigger]
            mid.fed(bar, after, last) && emitted == with_emitted(before, last);
        runs_become_bars(entry, rest, mid, before);
        let period = entry.bucket();
        let old_runs = bucket_runs(period, rest);
        let runs = bucket_runs(period, bars);
        let old_out = with_emitted(before, mid.current());
        let out = with_emitted(emitted, after.current());
        if rest.len() > 0 {
            let n = old_runs.len() - 1;
            assert(gathers(period, old_runs[n], old_out[n]));
            assert(old_out[n] == mid.current()->0);
            if last is None {
                let run = old_runs.last();
                assert(runs.last() == run.push(bar));
                assert(run.push(bar).drop_last() =~= run);
                assert(gathered(run.push(bar)) == folded(gathered(run), bar));
            }
        } else {
            assert(mid.current() is None);
        }
        assert forall|i: int| 0 <= i < runs.len() implies gathers(
            period,
            #[trigger] runs[i],
            out[i],
        ) by {
            if i < runs.len() - 1 {
                assert(runs[i] == old_runs[i]);
                assert(gathers(period, old_runs[i], old_out[i]));
            }
        }
    }
}

} // verus!
