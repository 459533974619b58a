//! An ordered tick stream put together from chunks decoded in parallel.
//!
//! The unit of work is a stretch of rows that can be decoded by itself. Units
//! are numbered in file order and dealt round-robin to the workers; the
//! consumer reads its workers in the same rotation, which puts the units back
//! in file order without a reorder buffer. Ticks straddle boundaries, so the
//! consumer holds back the last group of every chunk and merges it with the
//! next one when the timestamps match.
//!
//! What is here decides; running the threads and moving the messages is the
//! caller's.

use std::collections::VecDeque;

use vstd::prelude::*;

use crate::bar::Bar;
use crate::calendar;
use crate::calendar::{ts_to_datetime, Time};
use crate::data::SubscriptionMask;
use crate::error::BacktestError;
use crate::number::Number;
use crate::symbol::Symbol;
use crate::tick;
use crate::tick::{group_rows, Row, Tick, TickView};

verus! {

/// Cap on auto-selected decode threads.
pub const MAX_AUTO_THREADS: usize = 8;

/// How many decode threads to use: as many as asked for, or, where none are
/// asked for, as many as the machine offers up to a cap; never more than there
/// are units, and always one.
pub open spec fn threads_for(asked: usize, offered: usize, units: nat) -> int {
    let wanted: int = if asked == 0 {
        if offered < 1 {
            1
        } else if offered > MAX_AUTO_THREADS {
            MAX_AUTO_THREADS as int
        } else {
            offered as int
        }
    } else {
        asked as int
    };
    let most: int = if units < 1 {
        1
    } else {
        units as int
    };
    if wanted > most {
        most
    } else {
        wanted
    }
}

/// How many decode threads to use. See [`threads_for`].
pub fn choose_threads(asked: usize, offered: usize, units: usize) -> (r: usize)
    ensures
        r == threads_for(asked, offered, units as nat),
        r >= 1,
{
    let wanted: usize = if asked == 0 {
        if offered < 1 {
            1
        } else if offered > MAX_AUTO_THREADS {
            MAX_AUTO_THREADS
        } else {
            offered
        }
    } else {
        asked
    };
    let most: usize = if units < 1 {
        1
    } else {
        units
    };
    if wanted > most {
        most
    } else {
        wanted
    }
}

/// What worker `worker` of `workers` is dealt of the first `count` units: every
/// one whose number leaves that remainder, in order.
pub open spec fn dealt<T>(units: Seq<T>, workers: int, worker: int, count: int) -> Seq<T>
    decreases count,
{
    if count <= 0 {
        Seq::empty()
    } else {
        let before = dealt(units, workers, worker, count - 1);
        if (count - 1) % workers == worker {
            before.push(units[count - 1])
        } else {
            before
        }
    }
}

proof fn lemma_quotient(x: int, d: int, q: int, r: int)
    requires
        0 <= r < d,
        x == d * q + r,
    ensures
        x / d == q,
{
    assert(d * q == q * d) by (nonlinear_arith);
    vstd::arithmetic::div_mod::lemma_fundamental_div_mod_converse(x, d, q, r);
}

proof fn lemma_dealt_len<T>(units: Seq<T>, workers: int, worker: int, count: int)
    requires
        0 <= worker < workers,
        0 <= count <= units.len(),
    ensures
        dealt(units, workers, worker, count).len() == (count + workers - 1 - worker) / workers,
    decreases count,
{
    if count > 0 {
        lemma_dealt_len(units, workers, worker, count - 1);
        let a = count - 1;
        let q = a / workers;
        let m = a % workers;
        vstd::arithmetic::div_mod::lemma_fundamental_div_mod(a, workers);
        assert(workers * (q + 1) == workers * q + workers) by (nonlinear_arith);
        assert((a + workers - 1 - worker) / workers == if m > worker {
            q + 1
        } else {
            q
        }) by {
            if m > worker {
                lemma_quotient(
                    a + workers - 1 - worker,
                    workers,
                    q + 1,
                    m - 1 - worker,
                );
            } else {
                lemma_quotient(
                    a + workers - 1 - worker,
                    workers,
                    q,
                    m + workers - 1 - worker,
                );
            }
        }
        assert((a + 1 + workers - 1 - worker) / workers == if m >= worker {
            q + 1
        } else {
            q
        }) by {
            if m >= worker {
                lemma_quotient(
                    a + workers - worker,
                    workers,
                    q + 1,
                    m - worker,
                );
            } else {
                lemma_quotient(
                    a + workers - worker,
                    workers,
                    q,
                    m + workers - worker,
                );
            }
        }
    } else {
        lemma_quotient(
            workers - 1 - worker,
            workers,
            0,
            workers - 1 - worker,
        );
    }
}

/// Reading the workers in rotation reads the units in order: unit `i` is the
/// next unread one of the worker whose turn it is.
pub proof fn rotation_restores_order<T>(units: Seq<T>, workers: int, i: int)
    requires
        0 < workers,
        0 <= i < units.len(),
    ensures
        i / workers < dealt(units, workers, i % workers, units.len() as int).len(),
        dealt(units, workers, i % workers, units.len() as int)[i / workers] == units[i],
{
    vstd::arithmetic::div_mod::lemma_fundamental_div_mod(i, workers);
    let worker = i % workers;
    lemma_dealt_len(units, workers, worker, i);
    lemma_quotient(
        i + workers - 1 - worker,
        workers,
        i / workers,
        workers - 1,
    );
    lemma_dealt_grows(units, workers, worker, i + 1, units.len() as int);
    let so_far = dealt(units, workers, worker, i + 1);
    assert(so_far.len() == i / workers + 1);
    assert(so_far[i / workers] == units[i]);
    let all = dealt(units, workers, worker, units.len() as int);
    assert(all.take(so_far.len() as int)[i / workers] == all[i / workers]);
}

pub proof fn lemma_dealt_grows<T>(units: Seq<T>, workers: int, worker: int, low: int, high: int)
    requires
        0 <= low <= high,
    ensures
        dealt(units, workers, worker, low).len() <= dealt(units, workers, worker, high).len(),
        dealt(units, workers, worker, low) == dealt(units, workers, worker, high).take(
            dealt(units, workers, worker, low).len() as int,
        ),
    decreases high - low,
{
    if low < high {
        lemma_dealt_grows(units, workers, worker, low, high - 1);
        let shorter = dealt(units, workers, worker, high - 1);
        let longer = dealt(units, workers, worker, high);
        let n = dealt(units, workers, worker, low).len() as int;
        assert(longer.take(n) =~= shorter.take(n));
    } else {
        let all = dealt(units, workers, worker, high);
        assert(all.take(all.len() as int) =~= all);
    }
}

/// Deal units round-robin to `workers` queues.
pub fn deal<T: Copy>(units: &Vec<T>, workers: usize) -> (r: Vec<Vec<T>>)
    requires
        workers > 0,
    ensures
        r@.len() == workers,
        forall|w: int|
            0 <= w < workers ==> (#[trigger] r@[w])@ == dealt(
                units@,
                workers as int,
                w,
                units@.len() as int,
            ),
{
    let mut queues: Vec<Vec<T>> = Vec::new();
    for w in 0..workers
        invariant
            queues@.len() == w,
            forall|v: int| 0 <= v < w ==> (#[trigger] queues@[v])@ == Seq::<T>::empty(),
    {
        queues.push(Vec::new());
    }
    for i in 0..units.len()
        invariant
            workers > 0,
            queues@.len() == workers,
            forall|w: int|
                0 <= w < workers ==> (#[trigger] queues@[w])@ == dealt(
                    units@,
                    workers as int,
                    w,
                    i as int,
                ),
    {
        let turn: usize = i % workers;
        queues[turn].push(units[i]);
    }
    queues
}

/// The instant of a timestamp, or the epoch where it stands for none.
pub open spec fn instant_or_epoch(ts: i64) -> Time {
    if calendar::is_instant(ts as int) {
        calendar::instant(ts as int)
    } else {
        calendar::instant(0)
    }
}

fn time_or_epoch(ts: i64) -> (r: Time)
    ensures
        r == instant_or_epoch(ts),
{
    match ts_to_datetime(ts) {
        Some(time) => time,
        None => ts_to_datetime(0).unwrap(),
    }
}

/// How many of the groups at the front share a timestamp.
pub open spec fn leading<N>(groups: Seq<TickView<N>>) -> int
    decreases groups.len(),
{
    if groups.len() == 0 {
        0
    } else {
        let shorter = leading(groups.drop_last());
        if shorter == groups.len() - 1 && groups.last().0 == groups[0].0 {
            groups.len() as int
        } else {
            shorter
        }
    }
}

/// The bars of groups, one behind the other.
pub open spec fn joined_bars<N>(groups: Seq<TickView<N>>) -> Seq<(Symbol, Bar<N>)>
    decreases groups.len(),
{
    if groups.len() == 0 {
        Seq::empty()
    } else {
        joined_bars(groups.drop_last()) + groups.last().1
    }
}

/// The tick at the front: the groups that share its timestamp, whole.
pub open spec fn head<N>(groups: Seq<TickView<N>>) -> TickView<N> {
    (groups[0].0, joined_bars(groups.take(leading(groups))))
}

pub proof fn lemma_leading_range<N>(groups: Seq<TickView<N>>)
    ensures
        0 <= leading(groups) <= groups.len(),
        groups.len() > 0 ==> leading(groups) > 0,
        forall|i: int| 0 <= i < leading(groups) ==> (#[trigger] groups[i]).0 == groups[0].0,
        leading(groups) < groups.len() ==> groups[leading(groups)].0 != groups[0].0,
    decreases groups.len(),
{
    if groups.len() > 0 {
        let shorter = groups.drop_last();
        lemma_leading_range(shorter);
        assert forall|i: int| 0 <= i < leading(groups) implies (#[trigger] groups[i]).0
            == groups[0].0 by {
            if i < shorter.len() {
                assert(shorter[i].0 == shorter[0].0);
            }
        }
    }
}

/// Groups waiting to be handed out, and the tick being assembled of them. The
/// tick in hand is held back until a group with a different timestamp proves it
/// complete, since the next chunk may continue it.
pub struct Assembler<N> {
    pending: Option<Tick<N>>,
    buffered: VecDeque<Tick<N>>,
}

impl<N> View for Assembler<N> {
    type V = Seq<TickView<N>>;

    /// The groups not handed out yet, the tick in hand first.
    closed spec fn view(&self) -> Seq<TickView<N>> {
        match self.pending {
            Some(pending) => seq![tick::tick_view(pending)] + tick::tick_views(self.buffered@),
            None => tick::tick_views(self.buffered@),
        }
    }
}

/// What pulling a tick came to.
pub enum Pulled<N> {
    /// A whole tick.
    Tick(Tick<N>),
    /// Nothing yet: more groups may continue the tick in hand.
    Short,
    /// A group whose timestamp lies before that of the tick in hand.
    Back { at: i64, stream_at: i64 },
}

impl<N: Number> Assembler<N> {
    pub fn new() -> (r: Assembler<N>)
        ensures
            r@ == Seq::<TickView<N>>::empty(),
    {
        let r = Assembler { pending: None, buffered: VecDeque::new() };
        assert(r@ =~= Seq::<TickView<N>>::empty());
        r
    }

    /// Queue a chunk of groups behind those that wait.
    pub fn queue(&mut self, chunk: Vec<Tick<N>>)
        ensures
            final(self)@ == old(self)@ + tick::tick_views(chunk@),
    {
        let ghost before = self@;
        let ghost all = chunk@;
        let mut chunk = chunk;
        let mut reversed: Vec<Tick<N>> = Vec::new();
        while chunk.len() > 0
            invariant
                chunk@ =~= all.take(chunk@.len() as int),
                chunk@.len() <= all.len(),
                reversed@.len() == all.len() - chunk@.len(),
                forall|i: int|
                    0 <= i < reversed@.len() ==> #[trigger] reversed@[i] == all[all.len() - 1 - i],
            decreases chunk@.len(),
        {
            if let Some(group) = chunk.pop() {
                reversed.push(group);
            }
        }
        while reversed.len() > 0
            invariant
                reversed@.len() <= all.len(),
                forall|i: int|
                    0 <= i < reversed@.len() ==> #[trigger] reversed@[i] == all[all.len() - 1 - i],
                self@ =~= before + tick::tick_views(all.take(all.len() - reversed@.len())),
            decreases reversed@.len(),
        {
            let ghost waiting = self@;
            if let Some(group) = reversed.pop() {
                self.buffered.push_back(group);
                proof {
                    assert(self@ =~= waiting.push(tick::tick_view(group)));
                    let n = all.len() - reversed@.len();
                    assert(tick::tick_views(all.take(n)) =~= tick::tick_views(
                        all.take(n - 1),
                    ).push(tick::tick_view(group)));
                }
            }
        }
        assert(all.take(all.len() as int) =~= all);
    }

    /// The whole tick at the front, if a later group proves it complete.
    pub fn pull(&mut self) -> (r: Pulled<N>)
        ensures
            ({
                let groups = old(self)@;
                let n = leading(groups);
                if n < groups.len() {
                    if groups[n].0 < groups[0].0 {
                        &&& r == Pulled::<N>::Back { at: groups[n].0, stream_at: groups[0].0 }
                        &&& final(self)@ == seq![head(groups)] + groups.skip(n + 1)
                    } else {
                        &&& r matches Pulled::Tick(whole) && tick::tick_view(whole) == head(groups)
                        &&& final(self)@ == groups.skip(n)
                    }
                } else {
                    &&& r is Short
                    &&& final(self)@ == if groups.len() == 0 {
                        groups
                    } else {
                        seq![head(groups)]
                    }
                }
            }),
    {
        let ghost groups = self@;
        let ghost mut taken: int = 0;
        let mut pending: Option<Tick<N>> = None;
        std::mem::swap(&mut pending, &mut self.pending);
        let (ts, bars): Tick<N> = match pending {
            Some(pending) => pending,
            None => match self.buffered.pop_front() {
                Some(group) => {
                    group
                },
                None => {
                    return Pulled::Short;
                },
            },
        };
        let mut bars = bars;
        proof {
            taken = 1;
            assert(tick::tick_views(self.buffered@) =~= groups.skip(1));
            let first = groups.take(1);
            assert(first.last() == groups[0]);
            assert(first.drop_last().len() == 0);
            assert(joined_bars(first.drop_last()) =~= Seq::empty());
            assert(joined_bars(first) =~= bars@);
            assert(leading(first.drop_last()) == 0);
        }
        loop
            invariant
                groups == old(self)@,
                1 <= taken <= groups.len(),
                self.pending is None,
                tick::tick_views(self.buffered@) == groups.skip(taken),
                ts == groups[0].0,
                leading(groups.take(taken)) == taken,
                bars@ == joined_bars(groups.take(taken)),
            decreases groups.len() - taken,
        {
            let ghost waiting = self.buffered@;
            assert(tick::tick_views(waiting).len() == waiting.len());
            match self.buffered.pop_front() {
                Some(group) => {
                    let (group_ts, group_bars) = group;
                    proof {
                        assert(groups.skip(taken)[0] == tick::tick_view(group));
                        assert forall|j: int| 0 <= j < self.buffered@.len() implies tick::tick_views(
                            self.buffered@,
                        )[j] == groups.skip(taken + 1)[j] by {
                            assert(tick::tick_views(waiting)[j + 1] == groups.skip(taken)[j + 1]);
                        }
                        assert(tick::tick_views(self.buffered@) =~= groups.skip(taken + 1));
                        assert(groups.take(taken + 1).drop_last() =~= groups.take(taken));
                        assert(groups.take(taken + 1)[0] == groups[0]);
                    }
                    if group_ts == ts {
                        // The rest of a tick that straddled a boundary.
                        let mut group_bars = group_bars;
                        bars.append(&mut group_bars);
                        proof {
                            taken = taken + 1;
                        }
                    } else {
                        proof {
                            lemma_leading_stops(groups, taken);
                        }
                        if group_ts < ts {
                            // That group is given up; the tick in hand is not.
                            self.pending = Some((ts, bars));
                            assert(self@ =~= seq![head(groups)] + groups.skip(taken + 1));
                            return Pulled::Back { at: group_ts, stream_at: ts };
                        }
                        self.pending = Some((group_ts, group_bars));
                        proof {
                            assert(self@ =~= groups.skip(taken));
                        }
                        return Pulled::Tick((ts, bars));
                    }
                },
                None => {
                    proof {
                        assert(groups.take(taken) =~= groups);
                    }
                    self.pending = Some((ts, bars));
                    assert(self@ =~= seq![head(groups)]);
                    return Pulled::Short;
                },
            }
        }
    }

    /// Give up the tick in hand: nothing more is coming.
    pub fn finish(&mut self) -> (r: Option<Tick<N>>)
        requires
            old(self)@.len() <= 1,
        ensures
            r is Some <==> old(self)@.len() == 1,
            r is Some ==> tick::tick_view(r->0) == old(self)@[0],
            final(self)@ == Seq::<TickView<N>>::empty(),
    {
        let ghost before = self@;
        let mut pending: Option<Tick<N>> = None;
        std::mem::swap(&mut pending, &mut self.pending);
        match pending {
            Some(tick) => {
                assert(before[0] == tick::tick_view(tick));
                assert(self@ =~= before.skip(1));
                Some(tick)
            },
            None => {
                let r = self.buffered.pop_front();
                assert(self@ =~= Seq::<TickView<N>>::empty());
                if let Some(tick) = &r {
                    assert(before[0] == tick::tick_view(*tick));
                }
                r
            },
        }
    }
}

proof fn lemma_leading_stops<N>(groups: Seq<TickView<N>>, n: int)
    requires
        1 <= n < groups.len(),
        leading(groups.take(n)) == n,
        groups[n].0 != groups[0].0,
    ensures
        leading(groups) == n,
{
    lemma_leading_range(groups);
    lemma_leading_range(groups.take(n));
    let m = leading(groups);
    if m < n {
        assert(groups.take(n)[m].0 == groups.take(n)[0].0);
    } else if m > n {
        assert(groups[n].0 == groups[0].0);
    }
}

/// The ticks a list of groups amounts to: neighbours that share a timestamp
/// become one.
pub open spec fn merged<N>(groups: Seq<TickView<N>>) -> Seq<TickView<N>>
    decreases groups.len(),
{
    if groups.len() == 0 {
        Seq::empty()
    } else {
        let n = leading(groups);
        if 0 < n <= groups.len() {
            seq![head(groups)] + merged(groups.skip(n))
        } else {
            Seq::empty()
        }
    }
}

/// Whether every group has a bar.
pub open spec fn all_filled<N>(groups: Seq<TickView<N>>) -> bool {
    forall|i: int| 0 <= i < groups.len() ==> (#[trigger] groups[i]).1.len() > 0
}

proof fn lemma_flattened_split<N>(groups: Seq<TickView<N>>, n: int)
    requires
        0 <= n <= groups.len(),
    ensures
        tick::flattened(groups) == tick::flattened(groups.take(n)) + tick::flattened(
            groups.skip(n),
        ),
    decreases groups.len() - n,
{
    if n == groups.len() {
        assert(groups.take(n) =~= groups);
        assert(groups.skip(n).len() == 0);
        assert(tick::flattened(groups.skip(n)) =~= Seq::empty());
        assert(tick::flattened(groups) + Seq::empty() =~= tick::flattened(groups));
    } else {
        let shorter = groups.drop_last();
        lemma_flattened_split(shorter, n);
        assert(shorter.take(n) =~= groups.take(n));
        assert(shorter.skip(n) =~= groups.skip(n).drop_last());
        assert(tick::flattened(groups.skip(n)) == tick::flattened(shorter.skip(n))
            + tick::tick_entries(groups.last()));
        assert(tick::flattened(groups) =~= tick::flattened(groups.take(n)) + tick::flattened(
            groups.skip(n),
        ));
    }
}

proof fn lemma_flattened_same<N>(groups: Seq<TickView<N>>, ts: i64)
    requires
        forall|i: int| 0 <= i < groups.len() ==> (#[trigger] groups[i]).0 == ts,
    ensures
        tick::flattened(groups) == tick::tick_entries((ts, joined_bars(groups))),
    decreases groups.len(),
{
    if groups.len() > 0 {
        let shorter = groups.drop_last();
        assert forall|i: int| 0 <= i < shorter.len() implies (#[trigger] shorter[i]).0 == ts by {
            assert(groups[i].0 == ts);
        }
        lemma_flattened_same(shorter, ts);
    }
    assert(tick::flattened(groups) =~= tick::tick_entries((ts, joined_bars(groups))));
}

/// Merging keeps every entry, in order, and leaves no two neighbours with one
/// timestamp.
pub proof fn merging_keeps_entries<N>(groups: Seq<TickView<N>>)
    requires
        all_filled(groups),
    ensures
        tick::flattened(merged(groups)) == tick::flattened(groups),
        tick::well_grouped(merged(groups)),
        groups.len() > 0 ==> merged(groups).len() > 0 && merged(groups)[0].0 == groups[0].0,
    decreases groups.len(),
{
    if groups.len() == 0 {
        assert(tick::flattened(merged(groups)) =~= tick::flattened(groups));
    } else {
        let n = leading(groups);
        lemma_leading_range(groups);
        let rest = groups.skip(n);
        assert(all_filled(rest));
        merging_keeps_entries(rest);
        let first = groups.take(n);
        lemma_flattened_same(first, groups[0].0);
        lemma_flattened_split(groups, n);
        let all = merged(groups);
        lemma_flattened_split(all, 1);
        assert(all.skip(1) =~= merged(rest));
        let single = all.take(1);
        assert(single.drop_last().len() == 0);
        assert(single.last() == head(groups));
        assert(tick::flattened(single.drop_last()) =~= Seq::empty());
        assert(tick::flattened(single) =~= tick::tick_entries(head(groups)));
        lemma_joined_filled(first);
        assert forall|i: int| 0 <= i < all.len() implies (#[trigger] all[i]).1.len() > 0 by {
            if i > 0 {
                assert(all[i] == merged(rest)[i - 1]);
            }
        }
        assert forall|i: int| 0 <= i < all.len() - 1 implies (#[trigger] all[i]).0
            != all[i + 1].0 by {
            assert(all[i + 1] == merged(rest)[i]);
            if i > 0 {
                assert(all[i] == merged(rest)[i - 1]);
                assert(merged(rest)[i - 1].0 != merged(rest)[i - 1 + 1].0);
            }
        }
    }
}

proof fn lemma_joined_filled<N>(groups: Seq<TickView<N>>)
    requires
        groups.len() > 0,
        all_filled(groups),
    ensures
        joined_bars(groups).len() > 0,
{
    assert(groups.last().1.len() > 0);
}

/// However the entries of a stream were cut into groups, the ticks it yields
/// are the grouping of the entries.
pub proof fn cuts_do_not_show<N>(groups: Seq<TickView<N>>)
    requires
        all_filled(groups),
    ensures
        merged(groups) == tick::grouped(tick::flattened(groups)),
{
    merging_keeps_entries(groups);
    tick::grouping_is_unique(merged(groups));
}

/// The rows of a list of batches, one behind the other.
pub open spec fn all_rows<N>(batches: Seq<Seq<Row<N>>>) -> Seq<Row<N>>
    decreases batches.len(),
{
    if batches.len() == 0 {
        Seq::empty()
    } else {
        all_rows(batches.drop_last()) + batches.last()
    }
}

/// The groups a list of batches decodes to, each batch by itself.
pub open spec fn decoded<N>(batches: Seq<Seq<Row<N>>>, subscribed: Set<int>) -> Seq<TickView<N>>
    decreases batches.len(),
{
    if batches.len() == 0 {
        Seq::empty()
    } else {
        decoded(batches.drop_last(), subscribed) + tick::grouped(
            tick::entries(batches.last(), subscribed),
        )
    }
}

/// Decoding the batches apart and merging the groups yields what decoding the
/// rows in one go yields, whatever the batches.
pub proof fn batches_do_not_show<N>(batches: Seq<Seq<Row<N>>>, subscribed: Set<int>)
    ensures
        merged(decoded(batches, subscribed)) == tick::grouped(
            tick::entries(all_rows(batches), subscribed),
        ),
{
    lemma_decoded(batches, subscribed);
    cuts_do_not_show(decoded(batches, subscribed));
}

proof fn lemma_decoded<N>(batches: Seq<Seq<Row<N>>>, subscribed: Set<int>)
    ensures
        all_filled(decoded(batches, subscribed)),
        tick::flattened(decoded(batches, subscribed)) == tick::entries(
            all_rows(batches),
            subscribed,
        ),
    decreases batches.len(),
{
    if batches.len() > 0 {
        let before = decoded(batches.drop_last(), subscribed);
        let own = tick::grouped(tick::entries(batches.last(), subscribed));
        lemma_decoded(batches.drop_last(), subscribed);
        tick::grouping_keeps_entries(tick::entries(batches.last(), subscribed));
        let all = before + own;
        lemma_flattened_split(all, before.len() as int);
        assert(all.take(before.len() as int) =~= before);
        assert(all.skip(before.len() as int) =~= own);
        tick::lemma_entries_join(all_rows(batches.drop_last()), batches.last(), subscribed);
        assert forall|i: int| 0 <= i < all.len() implies (#[trigger] all[i]).1.len() > 0 by {
            if i >= before.len() {
                assert(all[i] == own[i - before.len()]);
            }
        }
    } else {
        assert(tick::flattened(decoded(batches, subscribed)) =~= tick::entries(
            all_rows(batches),
            subscribed,
        ));
    }
}

/// Something that happens to the groups a reader or a stream holds.
pub ghost enum Event<N> {
    /// A chunk of groups came in.
    Came(Seq<TickView<N>>),
    /// What is held was found to be no more than the beginning of a tick.
    Short,
    /// A tick went out.
    Went(TickView<N>),
}

/// Whether an event takes what is held from `before` to `after`. A tick goes out
/// only once a later group proves it whole, or, with `last`, once no more is to
/// come.
pub open spec fn happens<N>(
    before: Seq<TickView<N>>,
    event: Event<N>,
    after: Seq<TickView<N>>,
    last: bool,
) -> bool {
    let n = leading(before);
    match event {
        Event::Came(chunk) => !last && all_filled(chunk) && after == before + chunk,
        Event::Short => n == before.len() && after == if before.len() == 0 {
            before
        } else {
            seq![head(before)]
        },
        Event::Went(tick) => {
            &&& n < before.len() || (last && before.len() > 0)
            &&& tick == head(before)
            &&& after == before.skip(n)
        },
    }
}

/// All the groups that came in, one behind the other.
pub open spec fn came<N>(events: Seq<Event<N>>) -> Seq<TickView<N>>
    decreases events.len(),
{
    if events.len() == 0 {
        Seq::empty()
    } else {
        match events.last() {
            Event::Came(chunk) => came(events.drop_last()) + chunk,
            _ => came(events.drop_last()),
        }
    }
}

/// The ticks that went out, in order.
pub open spec fn went<N>(events: Seq<Event<N>>) -> Seq<TickView<N>>
    decreases events.len(),
{
    if events.len() == 0 {
        Seq::empty()
    } else {
        match events.last() {
            Event::Went(tick) => went(events.drop_last()).push(tick),
            _ => went(events.drop_last()),
        }
    }
}

/// Whether events lead from holding nothing through what `held` says. From event
/// `over` on, no more is to come.
pub open spec fn history<N>(held: Seq<Seq<TickView<N>>>, events: Seq<Event<N>>, over: int) -> bool {
    &&& held.len() == events.len() + 1
    &&& held[0] == Seq::<TickView<N>>::empty()
    &&& forall|i: int|
        0 <= i < events.len() ==> happens(
            held[i],
            #[trigger] events[i],
            held[i + 1],
            i >= over,
        )
}

/// A reader or a stream that was emptied has handed out the grouping of all that
/// came in: no entry is lost, doubled or moved, and no tick is cut, however the
/// groups were cut into chunks.
pub proof fn ticks_go_out_whole<N>(
    held: Seq<Seq<TickView<N>>>,
    events: Seq<Event<N>>,
    over: int,
)
    requires
        history(held, events, over),
        held.last().len() == 0,
    ensures
        went(events) == tick::grouped(tick::flattened(came(events))),
{
    lemma_history(held, events, over);
    assert(tick::flattened(held.last()) =~= Seq::empty());
    assert(tick::flattened(went(events)) + Seq::empty() =~= tick::flattened(went(events)));
    tick::grouping_is_unique(went(events));
}

proof fn lemma_history<N>(held: Seq<Seq<TickView<N>>>, events: Seq<Event<N>>, over: int)
    requires
        history(held, events, over),
    ensures
        all_filled(held.last()),
        tick::flattened(went(events)) + tick::flattened(held.last()) == tick::flattened(
            came(events),
        ),
        tick::well_grouped(went(events)),
        went(events).len() > 0 && held.last().len() > 0 ==> went(events).last().0
            != held.last()[0].0,
        went(events).len() > 0 && held.last().len() == 0 ==> events.len() > over,
    decreases events.len(),
{
    if events.len() == 0 {
        assert(tick::flattened(went(events)) + tick::flattened(held.last())
            =~= tick::flattened(came(events)));
    } else {
        let n = events.len() - 1;
        let before = held[n];
        let after = held[n + 1];
        let earlier = events.drop_last();
        let kept = held.drop_last();
        assert forall|i: int| 0 <= i < earlier.len() implies happens(
            kept[i],
            #[trigger] earlier[i],
            kept[i + 1],
            i >= over,
        ) by {
            assert(events[i] == earlier[i]);
        }
        lemma_history(kept, earlier, over);
        assert(events[n] == events.last());
        assert(kept.last() == before);
        lemma_leading_range(before);
        match events.last() {
            Event::Came(chunk) => {
                lemma_flattened_split(before + chunk, before.len() as int);
                assert((before + chunk).take(before.len() as int) =~= before);
                assert((before + chunk).skip(before.len() as int) =~= chunk);
                let all = came(earlier) + chunk;
                lemma_flattened_split(all, came(earlier).len() as int);
                assert(all.take(came(earlier).len() as int) =~= came(earlier));
                assert(all.skip(came(earlier).len() as int) =~= chunk);
                assert(tick::flattened(went(events)) + tick::flattened(after)
                    =~= tick::flattened(came(events)));
            },
            Event::Short => {
                if before.len() > 0 {
                    assert(before.take(leading(before)) =~= before);
                    lemma_flattened_same(before, before[0].0);
                    lemma_joined_filled(before);
                    lemma_single(head(before));
                }
            },
            Event::Went(tick) => {
                let m = leading(before);
                let first = before.take(m);
                lemma_flattened_same(first, before[0].0);
                lemma_flattened_split(before, m);
                lemma_joined_filled(first);
                let given = went(events);
                assert(given.drop_last() =~= went(earlier));
                assert(tick::flattened(given) == tick::flattened(went(earlier))
                    + tick::tick_entries(tick));
                assert(tick::flattened(given) + tick::flattened(after) =~= tick::flattened(
                    came(events),
                ));
                assert forall|i: int| 0 <= i < given.len() implies (#[trigger] given[i]).1.len()
                    > 0 by {
                    if i < given.len() - 1 {
                        assert(given[i] == went(earlier)[i]);
                    }
                }
                assert forall|i: int| 0 <= i < given.len() - 1 implies (#[trigger] given[i]).0
                    != given[i + 1].0 by {
                    assert(given[i] == went(earlier)[i]);
                    if i + 1 < given.len() - 1 {
                        assert(given[i + 1] == went(earlier)[i + 1]);
                    } else {
                        assert(given[i + 1] == tick);
                        assert(went(earlier).last() == given[i]);
                    }
                }
            },
        }
    }
}

/// A reader that was given a file batch by batch and drained has handed out
/// exactly the subscribed rows, in order: no tick is empty, and where the rows
/// are in order, timestamps strictly increase.
pub proof fn a_drained_reader_hands_out_its_rows<N>(
    held: Seq<Seq<TickView<N>>>,
    events: Seq<Event<N>>,
    over: int,
    batches: Seq<Seq<Row<N>>>,
    subscribed: Set<int>,
)
    requires
        history(held, events, over),
        held.last().len() == 0,
        came(events) == decoded(batches, subscribed),
    ensures
        tick::flattened(went(events)) == tick::entries(all_rows(batches), subscribed),
        went(events) == tick::grouped(tick::entries(all_rows(batches), subscribed)),
        all_filled(went(events)),
        tick::in_order(all_rows(batches), None) ==> forall|i: int, j: int|
            0 <= i < j < went(events).len() ==> (#[trigger] went(events)[i]).0 < (
            #[trigger] went(events)[j]).0,
{
    ticks_go_out_whole(held, events, over);
    lemma_decoded(batches, subscribed);
    let entries = tick::entries(all_rows(batches), subscribed);
    tick::grouping_keeps_entries(entries);
    let ticks = went(events);
    if tick::in_order(all_rows(batches), None) {
        tick::order_is_kept(all_rows(batches), subscribed, None);
        assert forall|i: int, j: int| 0 <= i < j < ticks.len() implies (#[trigger] ticks[i]).0 < (
        #[trigger] ticks[j]).0 by {
            assert(ticks[i].0 != ticks[i + 1].0);
            assert(ticks[i].0 <= ticks[i + 1].0);
            if i + 1 < j {
                assert(ticks[i + 1].0 <= ticks[j].0);
            }
        }
    }
}

/// The batches of a list of units, one behind the other.
pub open spec fn unit_batches<N>(units: Seq<Seq<Seq<Row<N>>>>) -> Seq<Seq<Row<N>>>
    decreases units.len(),
{
    if units.len() == 0 {
        Seq::empty()
    } else {
        unit_batches(units.drop_last()) + units.last()
    }
}

proof fn lemma_single<N>(tick: TickView<N>)
    ensures
        tick::flattened(seq![tick]) == tick::tick_entries(tick),
{
    let one = seq![tick];
    assert(one.drop_last().len() == 0);
    assert(tick::flattened(one.drop_last()) =~= Seq::empty());
    assert(tick::flattened(one) =~= tick::tick_entries(tick));
}

/// What a worker tells the consumer.
pub enum Message<N> {
    /// A run of consecutive groups in file order, and the file they are from.
    /// The first and the last may each be part of a tick.
    Ticks(String, Vec<Tick<N>>),
    /// The worker finished a unit.
    UnitDone,
    /// The worker ran out of units.
    Finished,
    /// The worker gave up.
    Failed(BacktestError),
    /// The worker went away without a word.
    Lost,
}

/// What to do next to get at the stream's ticks.
pub enum Step<N> {
    /// The next tick.
    Tick(Tick<N>),
    /// Receive a message from this worker.
    Receive(usize),
    /// The stream is exhausted.
    End,
}

/// Decode one batch of a unit into the message to send, if there is anything in
/// it. `last_ts` is what the batch before came to.
pub fn decode_batch<N: Number>(
    path: &str,
    rows: &Vec<Row<N>>,
    subscribed: &SubscriptionMask,
    last_ts: Option<i64>,
) -> (r: Result<(Option<Message<N>>, Option<i64>), BacktestError>)
    requires
        tick::stamp_sound(last_ts),
    ensures
        r is Ok <==> tick::in_order(rows@, last_ts),
        match r {
            Ok((message, stamp)) => {
                &&& stamp == tick::last_stamp(rows@, last_ts)
                &&& tick::stamp_sound(stamp)
                &&& message is None <==> tick::entries(rows@, subscribed@).len() == 0
                &&& message is Some ==> {
                    &&& message->0 matches Message::Ticks(named, ticks)
                    &&& named@ == path@
                    &&& tick::tick_views(ticks@) == tick::grouped(
                        tick::entries(rows@, subscribed@),
                    )
                }
            },
            Err(error) => tick::reports_order(error, path@, rows@, last_ts),
        },
{
    match group_rows(path, rows, subscribed, last_ts) {
        Ok((ticks, stamp)) => {
            let ghost all = tick::entries(rows@, subscribed@);
            proof {
                tick::grouping_keeps_entries(all);
                assert(tick::tick_views(ticks@).len() == ticks@.len());
                if ticks@.len() == 0 {
                    assert(tick::flattened(tick::grouped(all)).len() == 0);
                }
            }
            if ticks.len() == 0 {
                Ok((None, stamp))
            } else {
                Ok((Some(Message::Ticks(path.to_owned(), ticks)), stamp))
            }
        },
        Err(error) => Err(error),
    }
}

/// The consumer's end of an ordered tick stream decoded in parallel: which
/// worker to hear next, and the ticks put together from what was heard.
pub struct TickStream<N> {
    groups: Assembler<N>,
    workers: usize,
    turn: usize,
    source: Option<String>,
    finished: bool,
}

impl<N> TickStream<N> {
    #[verifier::type_invariant]
    spec fn wf(self) -> bool {
        self.turn < self.workers
    }

    /// The groups received and not handed out yet.
    pub closed spec fn waiting(&self) -> Seq<TickView<N>> {
        self.groups@
    }

    /// How many workers there are.
    pub closed spec fn worker_count(&self) -> int {
        self.workers as int
    }

    /// The worker to hear next.
    pub closed spec fn whose_turn(&self) -> int {
        self.turn as int
    }

    /// The file the last chunk came from.
    pub closed spec fn origin(&self) -> Seq<char> {
        match self.source {
            Some(path) => path@,
            None => Seq::empty(),
        }
    }

    /// Whether nothing more is coming.
    pub closed spec fn is_over(&self) -> bool {
        self.finished
    }

    /// `self` is `before` but for the groups that wait.
    pub open spec fn keeps_place(&self, before: &TickStream<N>) -> bool {
        &&& self.worker_count() == before.worker_count()
        &&& self.whose_turn() == before.whose_turn()
        &&& self.origin() == before.origin()
        &&& self.is_over() == before.is_over()
    }

    /// Whether a message of the worker whose turn it is can take the stream from
    /// `self` to `after`: groups wait behind the others, and the end of a unit
    /// passes the turn on. No message follows the one that ends the stream.
    pub open spec fn receives(self, message: Message<N>, after: TickStream<N>) -> bool {
        &&& after.worker_count() == self.worker_count()
        &&& after.waiting() == match message {
            Message::Ticks(_, chunk) => self.waiting() + tick::tick_views(chunk@),
            _ => self.waiting(),
        }
        &&& after.origin() == match message {
            Message::Ticks(path, _) => path@,
            _ => self.origin(),
        }
        &&& after.whose_turn() == match message {
            Message::UnitDone => (self.whose_turn() + 1) % self.worker_count(),
            _ => self.whose_turn(),
        }
        &&& after.is_over() == match message {
            Message::Ticks(_, _) => self.is_over(),
            Message::UnitDone => self.is_over(),
            _ => true,
        }
    }

    /// Whether asking for a tick can be answered `r` and take the stream from
    /// `self` to `after`: the tick at the front once it is known to be whole, an
    /// error where the group behind it runs back, and where to hear more from or
    /// the end where there is no more.
    pub open spec fn answers(
        self,
        r: Result<Step<N>, BacktestError>,
        after: TickStream<N>,
    ) -> bool {
        let groups = self.waiting();
        let n = leading(groups);
        &&& after.keeps_place(&self)
        &&& if n < groups.len() && groups[n].0 < groups[0].0 {
            &&& r matches Err(BacktestError::OutOfOrderData { path, at, stream_at })
            &&& path@ == self.origin()
            &&& at == instant_or_epoch(groups[n].0)
            &&& stream_at == instant_or_epoch(groups[0].0)
            &&& after.waiting() == seq![head(groups)] + groups.skip(n + 1)
        } else if n < groups.len() || (self.is_over() && groups.len() > 0) {
            &&& r matches Ok(Step::Tick(whole))
            &&& tick::tick_view(whole) == head(groups)
            &&& after.waiting() == groups.skip(n)
        } else if self.is_over() {
            &&& r matches Ok(Step::End)
            &&& after.waiting() == groups
        } else {
            &&& r matches Ok(Step::Receive(worker))
            &&& worker == self.whose_turn()
            &&& after.waiting() == if groups.len() == 0 {
                groups
            } else {
                seq![head(groups)]
            }
        }
    }
}

impl<N: Number> TickStream<N> {
    /// A stream over `workers` workers, to be heard from the first one on.
    pub fn new(workers: usize) -> (r: TickStream<N>)
        requires
            workers > 0,
        ensures
            r.waiting() == Seq::<TickView<N>>::empty(),
            r.worker_count() == workers,
            r.whose_turn() == 0,
            r.origin() == Seq::<char>::empty(),
            !r.is_over(),
    {
        TickStream { groups: Assembler::new(), workers, turn: 0, source: None, finished: false }
    }

    /// Take in a message of the worker whose turn it is.
    pub fn receive(&mut self, message: Message<N>) -> (r: Result<(), BacktestError>)
        ensures
            old(self).receives(message, *final(self)),
            match message {
                Message::Failed(error) => r == Err::<(), BacktestError>(error),
                Message::Lost => r == Err::<(), BacktestError>(BacktestError::ReaderThreadDied),
                _ => r is Ok,
            },
    {
        proof {
            use_type_invariant(&*self);
        }
        match message {
            Message::Ticks(path, chunk) => {
                let mut groups = Assembler::new();
                std::mem::swap(&mut groups, &mut self.groups);
                groups.queue(chunk);
                self.groups = groups;
                self.source = Some(path);
                Ok(())
            },
            Message::UnitDone => {
                if self.turn < self.workers - 1 {
                    self.turn = self.turn + 1;
                } else {
                    self.turn = 0;
                }
                proof {
                    let next = old(self).turn + 1;
                    if next < self.workers {
                        vstd::arithmetic::div_mod::lemma_small_mod(
                            next as nat,
                            self.workers as nat,
                        );
                    } else {
                        vstd::arithmetic::div_mod::lemma_mod_self_0(self.workers as int);
                    }
                }
                Ok(())
            },
            Message::Finished => {
                self.finished = true;
                Ok(())
            },
            Message::Failed(error) => {
                self.finished = true;
                Err(error)
            },
            // Treating this as the end of the data would silently cut the
            // stream short.
            Message::Lost => {
                self.finished = true;
                Err(BacktestError::ReaderThreadDied)
            },
        }
    }

    /// The next tick, every subscribed bar sharing one timestamp; or where to
    /// hear more from; or the end.
    pub fn next_tick(&mut self) -> (r: Result<Step<N>, BacktestError>)
        ensures
            old(self).answers(r, *final(self)),
    {
        proof {
            use_type_invariant(&*self);
            lemma_leading_range(self.groups@);
        }
        let ghost before = self.groups@;
        let mut groups = Assembler::new();
        std::mem::swap(&mut groups, &mut self.groups);
        match groups.pull() {
            Pulled::Tick(whole) => {
                self.groups = groups;
                Ok(Step::Tick(whole))
            },
            Pulled::Back { at, stream_at } => {
                self.groups = groups;
                let path: String = match &self.source {
                    Some(path) => path.as_str().to_owned(),
                    None => {
                        proof {
                            reveal_strlit("");
                            assert(""@ =~= Seq::empty());
                        }
                        "".to_owned()
                    },
                };
                Err(
                    BacktestError::OutOfOrderData {
                        path,
                        at: time_or_epoch(at),
                        stream_at: time_or_epoch(stream_at),
                    },
                )
            },
            Pulled::Short => {
                if !self.finished {
                    self.groups = groups;
                    return Ok(Step::Receive(self.turn));
                }
                let last = groups.finish();
                assert(groups@ =~= before.skip(leading(before)));
                assert(before.len() == 0 ==> groups@ =~= before);
                self.groups = groups;
                match last {
                    Some(whole) => Ok(Step::Tick(whole)),
                    None => Ok(Step::End),
                }
            },
        }
    }
}

/// Decoding runs on the threads asked for, or on up to eight of those the machine
/// offers where none are asked for; on no more than there are units to decode, and on
/// at least one.
pub proof fn threads_are_neither_idle_nor_missing(asked: usize, offered: usize, units: nat)
    ensures
        threads_for(asked, offered, units) >= 1,
        units >= 1 ==> threads_for(asked, offered, units) <= units,
        units <= 1 ==> threads_for(asked, offered, units) == 1,
        1 <= asked <= units ==> threads_for(asked, offered, units) == asked,
        asked > units >= 1 ==> threads_for(asked, offered, units) == units,
        asked == 0 ==> threads_for(asked, offered, units) <= 8,
        asked == 0 && 1 <= offered <= 8 && offered <= units ==> threads_for(asked, offered, units)
            == offered,
        asked == 0 && offered >= 8 && units >= 8 ==> threads_for(asked, offered, units) == 8,
{
}

} // verus!
