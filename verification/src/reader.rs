//! Reading one file's ticks, batch by batch.

use std::collections::HashMap;

use vstd::prelude::*;
use vstd::string::*;

use crate::bar::Bar;
use crate::calendar;
use crate::calendar::ts_to_datetime;
use crate::data::SubscriptionMask;
use crate::error::BacktestError;
use crate::metadata;
use crate::number::Number;
use crate::tick;
use crate::tick::{group_rows, Row, Tick, TickView};
use crate::tick_stream;
use crate::tick_stream::{Assembler, Pulled};

verus! {

/// What reading on came to.
pub enum Reading<N> {
    /// The next tick.
    Tick(Tick<N>),
    /// Another batch is needed to tell.
    NeedRows,
    /// The file is exhausted.
    End,
}

/// Groups one file's subscribed bars into ticks, all consecutive rows that
/// share a timestamp, in row order. Batches of rows are handed in as they are
/// asked for, so only a batch is ever resident instead of a whole file.
///
/// The rows have to be in order of time: nothing is re-sorted, and a timestamp
/// that runs back is an error, whether or not its row is subscribed. Rows whose
/// timestamp stands for no instant are corrupt and dropped before the check.
pub struct TickReader<N> {
    path: String,
    groups: Assembler<N>,
    last_ts: Option<i64>,
    exhausted: bool,
}

impl<N> TickReader<N> {
    #[verifier::type_invariant]
    spec fn wf(self) -> bool {
        &&& tick::stamp_sound(self.last_ts)
        &&& tick::ascending(self.groups@)
        &&& tick::within(self.groups@, None, self.last_ts)
    }

    /// The file.
    pub closed spec fn file(&self) -> Seq<char> {
        self.path@
    }

    /// The groups decoded and not handed out yet.
    pub closed spec fn waiting(&self) -> Seq<TickView<N>> {
        self.groups@
    }

    /// The timestamp of the last sound row.
    pub closed spec fn stamp(&self) -> Option<i64> {
        self.last_ts
    }

    /// Whether no batch is left.
    pub closed spec fn is_over(&self) -> bool {
        self.exhausted
    }

    /// `self` is `before` but for the groups that wait.
    pub open spec fn keeps_place(&self, before: &TickReader<N>) -> bool {
        &&& self.file() == before.file()
        &&& self.stamp() == before.stamp()
        &&& self.is_over() == before.is_over()
    }

    /// Whether accepting a batch can take the reader from `self` to `after`.
    pub open spec fn accepts(
        self,
        rows: Seq<Row<N>>,
        subscribed: Set<int>,
        after: TickReader<N>,
    ) -> bool {
        &&& after.file() == self.file()
        &&& after.is_over() == self.is_over()
        &&& after.waiting() == self.waiting() + tick::grouped(tick::entries(rows, subscribed))
        &&& after.stamp() == tick::last_stamp(rows, self.stamp())
    }

    /// Whether learning that no batch is left can take the reader from `self` to
    /// `after`.
    pub open spec fn exhausts(self, after: TickReader<N>) -> bool {
        &&& after.is_over()
        &&& after.file() == self.file()
        &&& after.waiting() == self.waiting()
        &&& after.stamp() == self.stamp()
    }

    /// Whether a reading can take the reader from `self` to `after`: the tick at
    /// the front once it is known to be whole, all that is left of it once no
    /// batch is.
    pub open spec fn hands_out(self, reading: Reading<N>, after: TickReader<N>) -> bool {
        let groups = self.waiting();
        let n = tick_stream::leading(groups);
        &&& after.keeps_place(&self)
        &&& if n < groups.len() || (self.is_over() && groups.len() > 0) {
            &&& reading matches Reading::Tick(whole)
            &&& tick::tick_view(whole) == tick_stream::head(groups)
            &&& after.waiting() == groups.skip(n)
        } else if self.is_over() {
            &&& reading is End
            &&& after.waiting() == groups
        } else {
            &&& reading is NeedRows
            &&& after.waiting() == if groups.len() == 0 {
                groups
            } else {
                seq![tick_stream::head(groups)]
            }
        }
    }
}

impl<N: Number> TickReader<N> {
    /// A reader at the start of a file.
    pub fn new(path: &str) -> (r: TickReader<N>)
        ensures
            r.file() == path@,
            r.waiting() == Seq::<TickView<N>>::empty(),
            r.stamp() is None,
            !r.is_over(),
    {
        TickReader {
            path: path.to_owned(),
            groups: Assembler::new(),
            last_ts: None,
            exhausted: false,
        }
    }

    /// Decode the file's next batch. Where a row runs back, the rows before it are
    /// taken in.
    pub fn accept(&mut self, rows: &Vec<Row<N>>, subscribed: &SubscriptionMask) -> (r: Result<
        (),
        BacktestError,
    >)
        ensures
            r is Ok <==> tick::in_order(rows@, old(self).stamp()),
            final(self).file() == old(self).file(),
            final(self).is_over() == old(self).is_over(),
            match r {
                Ok(_) => old(self).accepts(rows@, subscribed@, *final(self)),
                Err(error) => {
                    &&& tick::reports_order(error, old(self).file(), rows@, old(self).stamp())
                    &&& exists|i: int|
                        {
                            &&& #[trigger] tick::first_runs_back(rows@, old(self).stamp(), i)
                            &&& final(self).waiting() == old(self).waiting() + tick::grouped(
                                tick::entries(rows@.take(i), subscribed@),
                            )
                            &&& final(self).stamp() == tick::last_stamp(
                                rows@.take(i),
                                old(self).stamp(),
                            )
                        }
                },
            },
    {
        match self.take_in(rows, subscribed) {
            Ok(_) => Ok(()),
            Err(error) => {
                let part = rows_before_error(rows, self.last_ts);
                let ghost i = choose|i: int|
                    #[trigger] tick::first_runs_back(rows@, self.last_ts, i) && part@
                        == rows@.take(i);
                proof {
                    assert forall|j: int| 0 <= j < part@.len() implies !#[trigger] tick::runs_back(
                        part@,
                        self.last_ts,
                        j,
                    ) by {
                        assert(part@.take(j) =~= rows@.take(j));
                        assert(!tick::runs_back(rows@, self.last_ts, j));
                    }
                }
                let _ = self.take_in(&part, subscribed);
                Err(error)
            },
        }
    }

    /// Decode a batch, or leave the reader as it is where a row runs back.
    fn take_in(&mut self, rows: &Vec<Row<N>>, subscribed: &SubscriptionMask) -> (r: Result<
        (),
        BacktestError,
    >)
        ensures
            r is Ok <==> tick::in_order(rows@, old(self).stamp()),
            final(self).file() == old(self).file(),
            final(self).is_over() == old(self).is_over(),
            match r {
                Ok(_) => old(self).accepts(rows@, subscribed@, *final(self)),
                Err(error) => {
                    &&& tick::reports_order(error, old(self).file(), rows@, old(self).stamp())
                    &&& *final(self) == *old(self)
                },
            },
    {
        proof {
            use_type_invariant(&*self);
        }
        match group_rows(self.path.as_str(), rows, subscribed, self.last_ts) {
            Ok((ticks, stamp)) => {
                let ghost before = self.groups@;
                let ghost own = tick::grouped(tick::entries(rows@, subscribed@));
                let mut groups = Assembler::new();
                std::mem::swap(&mut groups, &mut self.groups);
                groups.queue(ticks);
                proof {
                    tick::order_is_kept(rows@, subscribed@, self.last_ts);
                    let all = before + own;
                    assert forall|i: int, j: int| 0 <= i < j < all.len() implies (
                    #[trigger] all[i]).0 <= (#[trigger] all[j]).0 by {
                        if j < before.len() {
                            assert(before[i].0 <= before[j].0);
                        } else if i < before.len() {
                            assert(before[i].0 <= self.last_ts->0);
                            assert(self.last_ts->0 <= own[j - before.len()].0);
                        } else {
                            assert(own[i - before.len()].0 <= own[j - before.len()].0);
                        }
                    }
                    assert forall|i: int| 0 <= i < all.len() implies stamp is Some && (
                    #[trigger] all[i]).0 <= stamp->0 by {
                        if i < before.len() {
                            assert(before[i].0 <= self.last_ts->0);
                        } else {
                            assert(own[i - before.len()].0 <= stamp->0);
                        }
                    }
                    if all.len() > 0 {
                        assert(all[0].0 <= stamp->0);
                    }
                    assert(tick::within(all, None, stamp));
                }
                self.last_ts = stamp;
                self.groups = groups;
                Ok(())
            },
            Err(error) => Err(error),
        }
    }

    /// No batch is left.
    pub fn exhaust(&mut self)
        ensures
            old(self).exhausts(*final(self)),
    {
        proof {
            use_type_invariant(&*self);
        }
        self.exhausted = true;
    }

    /// The next tick, every subscribed bar sharing the file's next timestamp.
    pub fn next_tick(&mut self) -> (r: Reading<N>)
        ensures
            old(self).hands_out(r, *final(self)),
    {
        proof {
            use_type_invariant(&*self);
            tick_stream::lemma_leading_range(self.groups@);
        }
        let ghost before = self.groups@;
        let mut groups = Assembler::new();
        std::mem::swap(&mut groups, &mut self.groups);
        match groups.pull() {
            Pulled::Tick(whole) => {
                proof {
                    let n = tick_stream::leading(before);
                    let rest = before.skip(n);
                    assert forall|i: int, j: int| 0 <= i < j < rest.len() implies (
                    #[trigger] rest[i]).0 <= (#[trigger] rest[j]).0 by {
                        assert(before[i + n].0 <= before[j + n].0);
                    }
                    assert forall|i: int| 0 <= i < rest.len() implies self.last_ts is Some && (
                    #[trigger] rest[i]).0 <= self.last_ts->0 by {
                        assert(before[i + n].0 <= self.last_ts->0);
                    }
                    assert(tick::within(rest, None, self.last_ts));
                }
                self.groups = groups;
                Reading::Tick(whole)
            },
            Pulled::Back { at: _, stream_at: _ } => {
                // The groups are in order.
                assert(false);
                Reading::End
            },
            Pulled::Short => {
                if !self.exhausted {
                    assert(before.len() > 0 ==> before[0].0 <= self.last_ts->0);
                    assert(tick::within(groups@, None, self.last_ts));
                    assert(groups@ =~= if before.len() == 0 {
                        before
                    } else {
                        seq![tick_stream::head(before)]
                    });
                    self.groups = groups;
                    return Reading::NeedRows;
                }
                let last = groups.finish();
                proof {
                    assert(before.skip(tick_stream::leading(before)) =~= Seq::empty());
                }
                assert(groups@ =~= before.skip(tick_stream::leading(before)));
                assert(before.len() == 0 ==> groups@ =~= before);
                self.groups = groups;
                match last {
                    Some(whole) => Reading::Tick(whole),
                    None => Reading::End,
                }
            },
        }
    }
}

/// The rows of a batch before the first that runs back.
fn rows_before_error<N: Number>(rows: &Vec<Row<N>>, stamp: Option<i64>) -> (r: Vec<Row<N>>)
    requires
        !tick::in_order(rows@, stamp),
    ensures
        exists|i: int| #[trigger] tick::first_runs_back(rows@, stamp, i) && r@ == rows@.take(i),
{
    let mut part: Vec<Row<N>> = Vec::new();
    let mut last = stamp;
    assert(rows@.take(0) =~= Seq::<Row<N>>::empty());
    for i in 0..rows.len()
        invariant
            part@ == rows@.take(i as int),
            last == tick::last_stamp(rows@.take(i as int), stamp),
            forall|j: int| 0 <= j < i ==> !#[trigger] tick::runs_back(rows@, stamp, j),
    {
        let row = rows[i];
        proof {
            assert(rows@.take(i + 1).drop_last() =~= rows@.take(i as int));
            assert(rows@.take(i + 1) =~= rows@.take(i as int).push(row));
        }
        if ts_to_datetime(row.window_start).is_some() {
            if let Some(before) = last {
                if row.window_start < before {
                    assert(tick::first_runs_back(rows@, stamp, i as int));
                    return part;
                }
            }
            last = Some(row.window_start);
        }
        part.push(row);
    }
    part
}

/// The bars of a stretch of rows with their tickers. Rows whose id has no name
/// and rows whose timestamp stands for no instant are left out.
pub open spec fn named_bars<N>(rows: Seq<Row<N>>, names: Map<u16, Seq<char>>) -> Seq<
    (Seq<char>, Bar<N>),
>
    decreases rows.len(),
{
    if rows.len() == 0 {
        Seq::empty()
    } else {
        let before = named_bars(rows.drop_last(), names);
        let row = rows.last();
        if names.contains_key(row.ticker) && tick::sound(row) {
            before.push((names[row.ticker], tick::row_bar(row)))
        } else {
            before
        }
    }
}

/// What a list of named bars says.
pub open spec fn named_views<N>(bars: Seq<(String, Bar<N>)>) -> Seq<(Seq<char>, Bar<N>)> {
    Seq::new(bars.len(), |i: int| (bars[i].0@, bars[i].1))
}

/// The bars of a batch with their tickers, in row order.
pub fn read_bars<N: Number>(rows: &Vec<Row<N>>, ticker_map: &HashMap<u16, String>) -> (r: Vec<
    (String, Bar<N>),
>)
    ensures
        named_views(r@) == named_bars(rows@, metadata::text_values(ticker_map@)),
{
    broadcast use vstd::std_specs::hash::group_hash_axioms;

    let mut bars: Vec<(String, Bar<N>)> = Vec::new();
    let ghost names = metadata::text_values(ticker_map@);
    assert(rows@.take(0) =~= Seq::<Row<N>>::empty());
    assert(named_views(bars@) =~= Seq::empty());
    for i in 0..rows.len()
        invariant
            names == metadata::text_values(ticker_map@),
            named_views(bars@) == named_bars(rows@.take(i as int), names),
    {
        let row = rows[i];
        proof {
            assert(rows@.take(i + 1).drop_last() =~= rows@.take(i as int));
            assert(rows@.take(i + 1).last() == row);
            assert(names.contains_key(row.ticker) <==> ticker_map@.contains_key(row.ticker));
        }
        if let Some(name) = ticker_map.get(&row.ticker) {
            if let Some(time) = ts_to_datetime(row.window_start) {
                let bar = Bar {
                    time,
                    open: row.open,
                    high: row.high,
                    low: row.low,
                    close: row.close,
                    volume: row.volume as u64,
                };
                let ghost before = bars@;
                bars.push((name.as_str().to_owned(), bar));
                proof {
                    assert(names[row.ticker] == name@);
                    assert(bar == tick::row_bar(row));
                    assert(named_views(bars@) =~= named_views(before).push((name@, bar)));
                }
            }
        }
    }
    assert(rows@.take(rows@.len() as int) =~= rows@);
    bars
}

/// The rows among a stretch that stand for an instant and whose id has a name, each
/// as that name and its bar.
pub open spec fn nameable<N>(rows: Seq<Row<N>>, names: Map<u16, Seq<char>>) -> Seq<
    (Seq<char>, Bar<N>),
> {
    rows.filter(
        |row: Row<N>|
            names.contains_key(row.ticker) && calendar::is_instant(row.window_start as int),
    ).map_values(|row: Row<N>| (names[row.ticker], tick::row_bar(row)))
}

/// A stretch of rows reads as the bars of those that stand for an instant and whose
/// id has a name, under that name, in their order.
pub proof fn nameable_rows_are_read<N>(rows: Seq<Row<N>>, names: Map<u16, Seq<char>>)
    ensures
        named_bars(rows, names) == nameable(rows, names),
    decreases rows.len(),
{
    reveal(Seq::filter);
    if rows.len() > 0 {
        nameable_rows_are_read(rows.drop_last(), names);
        let last = rows.last();
        let before = nameable(rows.drop_last(), names);
        if names.contains_key(last.ticker) && tick::sound(last) {
            assert(nameable(rows, names) =~= before.push(
                (names[last.ticker], tick::row_bar(last)),
            ));
        } else {
            assert(nameable(rows, names) =~= before);
        }
    } else {
        assert(nameable(rows, names) =~= Seq::empty());
    }
}

} // verus!
