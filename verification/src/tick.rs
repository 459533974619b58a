//! Rows, and the ticks they group into.
//!
//! A tick is every subscribed bar sharing one timestamp. Rows arrive in
//! batches, in file order, and nothing aligns a tick to a batch; what follows
//! says what a stretch of rows decodes to and how it groups, whatever the
//! batches.

use vstd::prelude::*;

use crate::bar::Bar;
use crate::calendar;
use crate::calendar::ts_to_datetime;
use crate::data::SubscriptionMask;
use crate::error::BacktestError;
use crate::number::Number;
use crate::symbol;
use crate::symbol::Symbol;

verus! {

/// One row of the data: a bar of one instrument at a nanosecond timestamp.
#[derive(Debug, Clone, Copy)]
pub struct Row<N> {
    pub ticker: u16,
    pub volume: u32,
    pub open: N,
    pub high: N,
    pub low: N,
    pub close: N,
    pub window_start: i64,
}

/// One tick: a nanosecond timestamp and every subscribed bar printed on it.
pub type Tick<N> = (i64, Vec<(Symbol, Bar<N>)>);

/// What a [`Tick`] says.
pub type TickView<N> = (i64, Seq<(Symbol, Bar<N>)>);

/// What a tick says.
pub open spec fn tick_view<N>(tick: Tick<N>) -> TickView<N> {
    (tick.0, tick.1@)
}

/// What a list of ticks says.
pub open spec fn tick_views<N>(ticks: Seq<Tick<N>>) -> Seq<TickView<N>> {
    Seq::new(ticks.len(), |i: int| tick_view(ticks[i]))
}

/// A decoded row: its timestamp, its symbol and its bar.
pub type Entry<N> = (i64, (Symbol, Bar<N>));

/// The bar of a row.
pub open spec fn row_bar<N>(row: Row<N>) -> Bar<N> {
    Bar {
        time: calendar::instant(row.window_start as int),
        open: row.open,
        high: row.high,
        low: row.low,
        close: row.close,
        volume: row.volume as u64,
    }
}

/// Whether a row's timestamp stands for an instant. One that does not is
/// corrupt.
pub open spec fn sound<N>(row: Row<N>) -> bool {
    calendar::is_instant(row.window_start as int)
}

/// The sound, subscribed rows of a stretch, decoded.
pub open spec fn entries<N>(rows: Seq<Row<N>>, subscribed: Set<int>) -> Seq<Entry<N>>
    decreases rows.len(),
{
    if rows.len() == 0 {
        Seq::empty()
    } else {
        let before = entries(rows.drop_last(), subscribed);
        let row = rows.last();
        if sound(row) && subscribed.contains(row.ticker as int) {
            before.push((row.window_start, (symbol::symbol_of(row.ticker), row_bar(row))))
        } else {
            before
        }
    }
}

/// The timestamp of the last sound row of a stretch, or `before` it.
pub open spec fn last_stamp<N>(rows: Seq<Row<N>>, before: Option<i64>) -> Option<i64>
    decreases rows.len(),
{
    if rows.len() == 0 {
        before
    } else if sound(rows.last()) {
        Some(rows.last().window_start)
    } else {
        last_stamp(rows.drop_last(), before)
    }
}

/// Whether row `i` of a stretch lies before a sound row that came before it.
/// Every sound row counts, subscribed or not.
pub open spec fn runs_back<N>(rows: Seq<Row<N>>, before: Option<i64>, i: int) -> bool {
    sound(rows[i]) && match last_stamp(rows.take(i), before) {
        Some(last) => rows[i].window_start < last,
        None => false,
    }
}

/// Whether row `i` is the first of a stretch to run back.
pub open spec fn first_runs_back<N>(rows: Seq<Row<N>>, before: Option<i64>, i: int) -> bool {
    &&& 0 <= i < rows.len()
    &&& runs_back(rows, before, i)
    &&& forall|j: int| 0 <= j < i ==> !#[trigger] runs_back(rows, before, j)
}

/// Whether no row of a stretch runs back.
pub open spec fn in_order<N>(rows: Seq<Row<N>>, before: Option<i64>) -> bool {
    forall|j: int| 0 <= j < rows.len() ==> !#[trigger] runs_back(rows, before, j)
}

/// `error` reports the first row of a stretch that runs back.
pub open spec fn reports_order<N>(
    error: BacktestError,
    path: Seq<char>,
    rows: Seq<Row<N>>,
    before: Option<i64>,
) -> bool {
    exists|i: int|
        {
            &&& #[trigger] first_runs_back(rows, before, i)
            &&& error matches BacktestError::OutOfOrderData { path: named, at, stream_at }
            &&& named@ == path
            &&& at == calendar::instant(rows[i].window_start as int)
            &&& stream_at == calendar::instant(last_stamp(rows.take(i), before)->0 as int)
        }
}

/// Whether a stamp, if there is one, stands for an instant.
pub open spec fn stamp_sound(stamp: Option<i64>) -> bool {
    match stamp {
        Some(ts) => calendar::is_instant(ts as int),
        None => true,
    }
}

/// `ticks` with an entry behind them: in the last tick if it has the same
/// timestamp, in one of its own otherwise.
pub open spec fn with_entry<N>(ticks: Seq<TickView<N>>, entry: Entry<N>) -> Seq<TickView<N>> {
    if ticks.len() > 0 && ticks.last().0 == entry.0 {
        ticks.drop_last().push((entry.0, ticks.last().1.push(entry.1)))
    } else {
        ticks.push((entry.0, seq![entry.1]))
    }
}

/// Entries grouped into ticks: consecutive ones that share a timestamp.
pub open spec fn grouped<N>(entries: Seq<Entry<N>>) -> Seq<TickView<N>>
    decreases entries.len(),
{
    if entries.len() == 0 {
        Seq::empty()
    } else {
        with_entry(grouped(entries.drop_last()), entries.last())
    }
}

/// The entries of a tick.
pub open spec fn tick_entries<N>(tick: TickView<N>) -> Seq<Entry<N>> {
    Seq::new(tick.1.len(), |i: int| (tick.0, tick.1[i]))
}

/// The entries of a list of ticks, in order.
pub open spec fn flattened<N>(ticks: Seq<TickView<N>>) -> Seq<Entry<N>>
    decreases ticks.len(),
{
    if ticks.len() == 0 {
        Seq::empty()
    } else {
        flattened(ticks.drop_last()) + tick_entries(ticks.last())
    }
}

/// Whether every tick of a list has a bar, and no two neighbours share a
/// timestamp.
pub open spec fn well_grouped<N>(ticks: Seq<TickView<N>>) -> bool {
    &&& forall|i: int| 0 <= i < ticks.len() ==> (#[trigger] ticks[i]).1.len() > 0
    &&& forall|i: int|
        0 <= i < ticks.len() - 1 ==> (#[trigger] ticks[i]).0 != ticks[i + 1].0
}

/// Grouping keeps every entry, in order, and leaves no two neighbours with one
/// timestamp.
pub proof fn grouping_keeps_entries<N>(entries: Seq<Entry<N>>)
    ensures
        flattened(grouped(entries)) == entries,
        well_grouped(grouped(entries)),
        entries.len() > 0 ==> grouped(entries).len() > 0 && grouped(entries).last().0
            == entries.last().0,
    decreases entries.len(),
{
    if entries.len() > 0 {
        let before = grouped(entries.drop_last());
        let entry = entries.last();
        let after = with_entry(before, entry);
        grouping_keeps_entries(entries.drop_last());
        if before.len() > 0 && before.last().0 == entry.0 {
            let grown = (entry.0, before.last().1.push(entry.1));
            assert(after.drop_last() =~= before.drop_last());
            assert(tick_entries(grown) =~= tick_entries(before.last()).push(entry));
            assert(flattened(after) =~= flattened(before).push(entry));
            assert forall|i: int| 0 <= i < after.len() - 1 implies (#[trigger] after[i]).0
                != after[i + 1].0 by {
                assert(before[i].0 != before[i + 1].0);
            }
        } else {
            let single = (entry.0, seq![entry.1]);
            assert(after.drop_last() =~= before);
            assert(tick_entries(single) =~= seq![entry]);
            assert(flattened(after) =~= flattened(before).push(entry));
            assert forall|i: int| 0 <= i < after.len() - 1 implies (#[trigger] after[i]).0
                != after[i + 1].0 by {
                if i + 1 < before.len() {
                    assert(before[i].0 != before[i + 1].0);
                }
            }
        }
        assert(flattened(before).push(entry) =~= entries);
    } else {
        assert(flattened(grouped(entries)) =~= entries);
    }
}

/// A list of ticks in which no two neighbours share a timestamp is the grouping
/// of its own entries: how the ticks were cut up on the way does not show.
pub proof fn grouping_is_unique<N>(ticks: Seq<TickView<N>>)
    requires
        well_grouped(ticks),
    ensures
        grouped(flattened(ticks)) == ticks,
    decreases ticks.len(),
{
    if ticks.len() > 0 {
        let before = ticks.drop_last();
        assert forall|i: int| 0 <= i < before.len() - 1 implies (#[trigger] before[i]).0
            != before[i + 1].0 by {
            assert(ticks[i].0 != ticks[i + 1].0);
        }
        grouping_is_unique(before);
        if before.len() > 0 {
            assert(ticks[before.len() - 1].0 != ticks[before.len() - 1 + 1].0);
        }
        lemma_group_tick(flattened(before), ticks.last());
        assert(before.push(ticks.last()) =~= ticks);
    } else {
        assert(grouped(flattened(ticks)) =~= ticks);
    }
}

/// Entries that share a timestamp group into the tick they came from.
proof fn lemma_group_tick<N>(entries: Seq<Entry<N>>, tick: TickView<N>)
    requires
        tick.1.len() > 0,
        grouped(entries).len() > 0 ==> grouped(entries).last().0 != tick.0,
    ensures
        grouped(entries + tick_entries(tick)) == grouped(entries).push(tick),
    decreases tick.1.len(),
{
    let all = entries + tick_entries(tick);
    let last = (tick.0, tick.1.last());
    if tick.1.len() == 1 {
        assert(all.drop_last() =~= entries);
        assert(all.last() == last);
        assert(seq![tick.1.last()] =~= tick.1);
    } else {
        let shorter = (tick.0, tick.1.drop_last());
        lemma_group_tick(entries, shorter);
        assert(all.drop_last() =~= entries + tick_entries(shorter));
        assert(all.last() == last);
        let before = grouped(entries).push(shorter);
        assert(before.drop_last() =~= grouped(entries));
        assert(shorter.1.push(tick.1.last()) =~= tick.1);
        assert(with_entry(before, last) =~= grouped(entries).push(tick));
    }
}

/// Whether timestamps never run back.
pub open spec fn ascending<N>(ticks: Seq<TickView<N>>) -> bool {
    forall|i: int, j: int|
        0 <= i < j < ticks.len() ==> (#[trigger] ticks[i]).0 <= (#[trigger] ticks[j]).0
}

proof fn lemma_last_stamp_step<N>(rows: Seq<Row<N>>, before: Option<i64>, i: int)
    requires
        0 <= i < rows.len(),
    ensures
        last_stamp(rows.take(i + 1), before) == if sound(rows[i]) {
            Some(rows[i].window_start)
        } else {
            last_stamp(rows.take(i), before)
        },
{
    assert(rows.take(i + 1).drop_last() =~= rows.take(i));
}

proof fn lemma_entries_step<N>(rows: Seq<Row<N>>, subscribed: Set<int>, i: int)
    requires
        0 <= i < rows.len(),
    ensures
        entries(rows.take(i + 1), subscribed) == if sound(rows[i]) && subscribed.contains(
            rows[i].ticker as int,
        ) {
            entries(rows.take(i), subscribed).push(
                (rows[i].window_start, (symbol::symbol_of(rows[i].ticker), row_bar(rows[i]))),
            )
        } else {
            entries(rows.take(i), subscribed)
        },
{
    assert(rows.take(i + 1).drop_last() =~= rows.take(i));
}

/// Decoding goes row by row: a stretch decodes to what its parts decode to.
pub proof fn lemma_entries_join<N>(left: Seq<Row<N>>, right: Seq<Row<N>>, subscribed: Set<int>)
    ensures
        entries(left + right, subscribed) == entries(left, subscribed) + entries(
            right,
            subscribed,
        ),
    decreases right.len(),
{
    let all = left + right;
    if right.len() == 0 {
        assert(all =~= left);
        assert(entries(left, subscribed) + Seq::empty() =~= entries(left, subscribed));
    } else {
        assert(all.drop_last() =~= left + right.drop_last());
        assert(all.last() == right.last());
        lemma_entries_join(left, right.drop_last(), subscribed);
        assert(entries(all, subscribed) =~= entries(left, subscribed) + entries(
            right,
            subscribed,
        ));
    }
}

/// Whether a tick list lies between two stamps, as far as they are there.
pub open spec fn within<N>(
    ticks: Seq<TickView<N>>,
    before: Option<i64>,
    last: Option<i64>,
) -> bool {
    forall|i: int|
        0 <= i < ticks.len() ==> {
            &&& before is Some ==> before->0 <= (#[trigger] ticks[i]).0
            &&& last is Some
            &&& ticks[i].0 <= last->0
        }
}

/// Rows in order decode to ticks in order, between the stamp they start from
/// and the one they come to.
pub proof fn order_is_kept<N>(rows: Seq<Row<N>>, subscribed: Set<int>, before: Option<i64>)
    requires
        in_order(rows, before),
    ensures
        ascending(grouped(entries(rows, subscribed))),
        within(grouped(entries(rows, subscribed)), before, last_stamp(rows, before)),
        before is Some ==> last_stamp(rows, before) is Some && before->0 <= last_stamp(
            rows,
            before,
        )->0,
    decreases rows.len(),
{
    if rows.len() > 0 {
        let shorter = rows.drop_last();
        let n = shorter.len() as int;
        assert(rows.take(n) =~= shorter);
        assert(!runs_back(rows, before, n));
        assert forall|j: int| 0 <= j < n implies !#[trigger] runs_back(shorter, before, j) by {
            assert(shorter.take(j) =~= rows.take(j));
            assert(!runs_back(rows, before, j));
        }
        order_is_kept(shorter, subscribed, before);
        let ticks = grouped(entries(shorter, subscribed));
        let all = entries(rows, subscribed);
        if all.len() > entries(shorter, subscribed).len() {
            assert(all.drop_last() =~= entries(shorter, subscribed));
            let after = with_entry(ticks, all.last());
            assert forall|i: int, j: int| 0 <= i < j < after.len() implies (#[trigger] after[i]).0
                <= (#[trigger] after[j]).0 by {
                if j < ticks.len() {
                    assert(ticks[i].0 <= ticks[j].0);
                } else {
                    assert(ticks[i].0 <= last_stamp(shorter, before)->0);
                }
            }
            assert forall|i: int| 0 <= i < after.len() implies {
                &&& before is Some ==> before->0 <= (#[trigger] after[i]).0
                &&& after[i].0 <= last_stamp(rows, before)->0
            } by {
                if i < ticks.len() {
                    assert(ticks[i].0 <= last_stamp(shorter, before)->0);
                }
            }
        } else {
            assert forall|i: int| 0 <= i < ticks.len() implies {
                &&& before is Some ==> before->0 <= (#[trigger] ticks[i]).0
                &&& last_stamp(rows, before) is Some
                &&& ticks[i].0 <= last_stamp(rows, before)->0
            } by {
                assert(ticks[i].0 <= last_stamp(shorter, before)->0);
            }
        }
    }
}

/// Decode the rows of a batch and group them into ticks, checking that time
/// never runs back from `last_ts` on. Nothing is re-sorted.
pub fn group_rows<N: Number>(
    path: &str,
    rows: &Vec<Row<N>>,
    subscribed: &SubscriptionMask,
    last_ts: Option<i64>,
) -> (r: Result<(Vec<Tick<N>>, Option<i64>), BacktestError>)
    requires
        stamp_sound(last_ts),
    ensures
        r is Ok <==> in_order(rows@, last_ts),
        match r {
            Ok((ticks, stamp)) => {
                &&& tick_views(ticks@) == grouped(entries(rows@, subscribed@))
                &&& stamp == last_stamp(rows@, last_ts)
                &&& stamp_sound(stamp)
            },
            Err(error) => reports_order(error, path@, rows@, last_ts),
        },
{
    let mut ticks: Vec<Tick<N>> = Vec::new();
    let mut stamp: Option<i64> = last_ts;
    assert(rows@.take(0) =~= Seq::<Row<N>>::empty());
    assert(tick_views(ticks@) =~= Seq::<TickView<N>>::empty());
    for i in 0..rows.len()
        invariant
            stamp == last_stamp(rows@.take(i as int), last_ts),
            stamp_sound(stamp),
            tick_views(ticks@) == grouped(entries(rows@.take(i as int), subscribed@)),
            forall|j: int| 0 <= j < i ==> !#[trigger] runs_back(rows@, last_ts, j),
    {
        let row = rows[i];
        proof {
            lemma_last_stamp_step(rows@, last_ts, i as int);
            lemma_entries_step(rows@, subscribed@, i as int);
        }
        // A timestamp that stands for no instant is a corrupt row: dropped
        // before the order check.
        if let Some(time) = ts_to_datetime(row.window_start) {
            if let Some(last) = stamp {
                if row.window_start < last {
                    assert(first_runs_back(rows@, last_ts, i as int));
                    return Err(out_of_order(path, row.window_start, last));
                }
            }
            stamp = Some(row.window_start);
            if subscribed.contains(row.ticker) {
                let bar = Bar {
                    time,
                    open: row.open,
                    high: row.high,
                    low: row.low,
                    close: row.close,
                    volume: row.volume as u64,
                };
                push_entry(&mut ticks, row.window_start, Symbol::from_ticker_id(row.ticker), bar);
                proof {
                    let before = entries(rows@.take(i as int), subscribed@);
                    let entry = (row.window_start, (symbol::symbol_of(row.ticker), row_bar(row)));
                    assert(bar == row_bar(row));
                    assert(before.push(entry).drop_last() =~= before);
                }
            }
        }
        assert(!runs_back(rows@, last_ts, i as int));
    }
    assert(rows@.take(rows@.len() as int) =~= rows@);
    Ok((ticks, stamp))
}

/// The error for a row that runs back.
pub fn out_of_order(path: &str, at: i64, stream_at: i64) -> (r: BacktestError)
    requires
        calendar::is_instant(at as int),
        calendar::is_instant(stream_at as int),
    ensures
        r matches BacktestError::OutOfOrderData { path: named, at: when, stream_at: after }
            && named@ == path@ && when == calendar::instant(at as int) && after
            == calendar::instant(stream_at as int),
{
    BacktestError::OutOfOrderData {
        path: path.to_owned(),
        at: ts_to_datetime(at).unwrap(),
        stream_at: ts_to_datetime(stream_at).unwrap(),
    }
}

fn push_entry<N: Number>(ticks: &mut Vec<Tick<N>>, ts: i64, symbol: Symbol, bar: Bar<N>)
    ensures
        tick_views(final(ticks)@) == with_entry(tick_views(old(ticks)@), (ts, (symbol, bar))),
{
    let ghost before = tick_views(ticks@);
    match ticks.pop() {
        Some(last) => {
            let (last_ts, bars) = last;
            let mut bars = bars;
            assert(tick_views(ticks@) =~= before.drop_last());
            if last_ts == ts {
                bars.push((symbol, bar));
                ticks.push((ts, bars));
                assert(tick_views(ticks@) =~= with_entry(before, (ts, (symbol, bar))));
            } else {
                ticks.push((last_ts, bars));
                let mut own: Vec<(Symbol, Bar<N>)> = Vec::new();
                own.push((symbol, bar));
                assert(own@ =~= seq![(symbol, bar)]);
                ticks.push((ts, own));
                assert(tick_views(ticks@) =~= with_entry(before, (ts, (symbol, bar))));
            }
        },
        None => {
            let mut own: Vec<(Symbol, Bar<N>)> = Vec::new();
            own.push((symbol, bar));
            assert(own@ =~= seq![(symbol, bar)]);
            ticks.push((ts, own));
            assert(tick_views(ticks@) =~= with_entry(before, (ts, (symbol, bar))));
        },
    }
}

/// The rows among a stretch that stand for an instant and are subscribed, each as
/// its timestamp, its symbol and its bar.
pub open spec fn wanted<N>(rows: Seq<Row<N>>, subscribed: Set<int>) -> Seq<Entry<N>> {
    rows.filter(
        |row: Row<N>|
            calendar::is_instant(row.window_start as int) && subscribed.contains(row.ticker as int),
    ).map_values(
        |row: Row<N>| (row.window_start, (symbol::symbol_of(row.ticker), row_bar(row))),
    )
}

/// A stretch of rows decodes to those that stand for an instant and are subscribed,
/// in their order. A bar stands as many nanoseconds past the epoch as its row says,
/// and has the row's prices and volume.
pub proof fn wanted_rows_are_decoded<N>(rows: Seq<Row<N>>, subscribed: Set<int>, row: Row<N>)
    ensures
        entries(rows, subscribed) == wanted(rows, subscribed),
        row_bar(row).time.secs() * 1_000_000_000 + row_bar(row).time.subsec() == row.window_start,
        row_bar(row).open == row.open,
        row_bar(row).high == row.high,
        row_bar(row).low == row.low,
        row_bar(row).close == row.close,
        row_bar(row).volume == row.volume,
    decreases rows.len(),
{
    broadcast use calendar::instant_is_its_timestamp;

    reveal(Seq::filter);
    if rows.len() > 0 {
        wanted_rows_are_decoded(rows.drop_last(), subscribed, row);
        let last = rows.last();
        let before = wanted(rows.drop_last(), subscribed);
        if sound(last) && subscribed.contains(last.ticker as int) {
            assert(wanted(rows, subscribed) =~= before.push(
                (last.window_start, (symbol::symbol_of(last.ticker), row_bar(last))),
            ));
        } else {
            assert(wanted(rows, subscribed) =~= before);
        }
    } else {
        assert(wanted(rows, subscribed) =~= Seq::empty());
    }
}

/// A stretch is in order exactly when no row that stands for an instant lies before
/// an earlier row that does, subscribed or not.
pub proof fn order_is_by_timestamp<N>(rows: Seq<Row<N>>)
    ensures
        in_order(rows, None) <==> forall|i: int, j: int|
            0 <= i < j < rows.len() && calendar::is_instant(
                (#[trigger] rows[i]).window_start as int,
            ) && calendar::is_instant((#[trigger] rows[j]).window_start as int)
                ==> rows[i].window_start <= rows[j].window_start,
{
    if in_order(rows, None) {
        assert forall|i: int, j: int|
            0 <= i < j < rows.len() && calendar::is_instant(
                (#[trigger] rows[i]).window_start as int,
            ) && calendar::is_instant((#[trigger] rows[j]).window_start as int) implies rows[i]
            .window_start <= rows[j].window_start by {
            lemma_stamps_rise(rows, i, j);
            assert(!runs_back(rows, None, j));
        }
    }
    if forall|i: int, j: int|
        0 <= i < j < rows.len() && calendar::is_instant((#[trigger] rows[i]).window_start as int)
            && calendar::is_instant((#[trigger] rows[j]).window_start as int)
            ==> rows[i].window_start <= rows[j].window_start {
        assert forall|j: int| 0 <= j < rows.len() implies !#[trigger] runs_back(rows, None, j) by {
            lemma_last_stamp_is_a_row(rows, j);
        }
    }
}

/// In a stretch in order, the last timestamp before a row is no earlier than that of
/// any sound row before it.
proof fn lemma_stamps_rise<N>(rows: Seq<Row<N>>, i: int, end: int)
    requires
        in_order(rows, None),
        0 <= i < end <= rows.len(),
        sound(rows[i]),
    ensures
        last_stamp(rows.take(end), None) matches Some(last) && rows[i].window_start <= last,
    decreases end,
{
    assert(rows.take(end).drop_last() =~= rows.take(end - 1));
    assert(rows.take(end).last() == rows[end - 1]);
    if i < end - 1 {
        lemma_stamps_rise(rows, i, end - 1);
        assert(!runs_back(rows, None, end - 1));
    }
}

proof fn lemma_last_stamp_is_a_row<N>(rows: Seq<Row<N>>, end: int)
    requires
        0 <= end <= rows.len(),
    ensures
        last_stamp(rows.take(end), None) matches Some(last) ==> exists|i: int|
            0 <= i < end && sound(#[trigger] rows[i]) && rows[i].window_start == last,
    decreases end,
{
    if end > 0 {
        assert(rows.take(end).drop_last() =~= rows.take(end - 1));
        assert(rows.take(end).last() == rows[end - 1]);
        lemma_last_stamp_is_a_row(rows, end - 1);
    }
}

} // verus!
