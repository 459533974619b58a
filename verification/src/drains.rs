//! What draining a reader or a stream comes to: the subscribed rows, in order,
//! whatever they were cut into and however many workers decoded them.

use vstd::prelude::*;

use crate::error::BacktestError;
use crate::reader::{Reading, TickReader};
use crate::tick;
use crate::tick::{Row, TickView};
use crate::tick_stream;
use crate::tick_stream::{Event, Message, Step, TickStream};

verus! {

/// Something done with a reader.
pub ghost enum ReaderStep<N> {
    /// It accepted a batch.
    Accept(Seq<Row<N>>),
    /// It was told that no batch is left.
    Exhaust,
    /// It was asked for a tick.
    Next(Reading<N>),
}

/// The states a reader passes through, and what is done in between.
#[verifier::reject_recursive_types(N)]
pub ghost struct ReaderCourse<N> {
    pub states: Seq<TickReader<N>>,
    pub steps: Seq<ReaderStep<N>>,
}

/// Whether a step takes a reader from one state to another. No batch comes after
/// the last.
pub open spec fn reader_steps<N>(
    before: TickReader<N>,
    step: ReaderStep<N>,
    subscribed: Set<int>,
    after: TickReader<N>,
) -> bool {
    match step {
        ReaderStep::Accept(rows) => !before.is_over() && before.accepts(rows, subscribed, after),
        ReaderStep::Exhaust => !before.is_over() && before.exhausts(after),
        ReaderStep::Next(reading) => before.hands_out(reading, after),
    }
}

impl<N> ReaderCourse<N> {
    /// Whether each step leads from one state to the next, from a fresh reader
    /// on.
    pub open spec fn runs(self, subscribed: Set<int>) -> bool {
        &&& self.states.len() == self.steps.len() + 1
        &&& self.states[0].waiting() == Seq::<TickView<N>>::empty()
        &&& !self.states[0].is_over()
        &&& forall|i: int|
            0 <= i < self.steps.len() ==> reader_steps(
                self.states[i],
                #[trigger] self.steps[i],
                subscribed,
                self.states[i + 1],
            )
    }
}

/// The batches accepted, in order.
pub open spec fn accepted<N>(steps: Seq<ReaderStep<N>>) -> Seq<Seq<Row<N>>>
    decreases steps.len(),
{
    if steps.len() == 0 {
        Seq::empty()
    } else {
        match steps.last() {
            ReaderStep::Accept(rows) => accepted(steps.drop_last()).push(rows),
            _ => accepted(steps.drop_last()),
        }
    }
}

/// The ticks a reader handed out, in order.
pub open spec fn read<N>(steps: Seq<ReaderStep<N>>) -> Seq<TickView<N>>
    decreases steps.len(),
{
    if steps.len() == 0 {
        Seq::empty()
    } else {
        match steps.last() {
            ReaderStep::Next(Reading::Tick(whole)) => read(steps.drop_last()).push(
                tick::tick_view(whole),
            ),
            _ => read(steps.drop_last()),
        }
    }
}

/// What a step with a reader is to what it holds.
spec fn reader_event<N>(step: ReaderStep<N>, subscribed: Set<int>) -> Event<N> {
    match step {
        ReaderStep::Accept(rows) => Event::Came(tick::grouped(tick::entries(rows, subscribed))),
        ReaderStep::Exhaust => Event::Came(Seq::empty()),
        ReaderStep::Next(Reading::Tick(whole)) => Event::Went(tick::tick_view(whole)),
        ReaderStep::Next(_) => Event::Short,
    }
}

/// Flags that never go down have a first that is up.
proof fn lemma_turning(flags: Seq<bool>) -> (turning: int)
    requires
        forall|i: int, j: int| 0 <= i <= j < flags.len() && flags[i] ==> flags[j],
    ensures
        0 <= turning <= flags.len(),
        forall|i: int| 0 <= i < flags.len() ==> (#[trigger] flags[i] <==> i >= turning),
    decreases flags.len(),
{
    if flags.len() == 0 {
        0
    } else {
        let before = flags.drop_last();
        let end = flags.len() - 1;
        assert forall|i: int, j: int| 0 <= i <= j < before.len() && before[i] implies before[j] by {
            assert(flags[i] && flags[j]);
        }
        let turning = lemma_turning(before);
        assert forall|i: int| 0 <= i < end implies (#[trigger] flags[i] <==> i >= turning) by {
            assert(before[i] == flags[i]);
        }
        if flags[end] {
            turning
        } else {
            assert forall|i: int| 0 <= i < flags.len() implies !#[trigger] flags[i] by {
                if flags[i] {
                    assert(flags[end]);
                }
            }
            flags.len() as int
        }
    }
}

proof fn lemma_reader_over<N>(course: ReaderCourse<N>, subscribed: Set<int>, i: int, j: int)
    requires
        course.runs(subscribed),
        0 <= i <= j < course.states.len(),
        course.states[i].is_over(),
    ensures
        course.states[j].is_over(),
    decreases j - i,
{
    if i < j {
        lemma_reader_over(course, subscribed, i, j - 1);
        assert(reader_steps(
            course.states[j - 1],
            course.steps[j - 1],
            subscribed,
            course.states[j - 1 + 1],
        ));
    }
}

proof fn lemma_reader_events<N>(
    steps: Seq<ReaderStep<N>>,
    events: Seq<Event<N>>,
    subscribed: Set<int>,
)
    requires
        events.len() == steps.len(),
        forall|i: int|
            0 <= i < steps.len() ==> #[trigger] events[i] == reader_event(steps[i], subscribed),
    ensures
        tick_stream::came(events) == tick_stream::decoded(accepted(steps), subscribed),
        tick_stream::went(events) == read(steps),
    decreases steps.len(),
{
    if steps.len() > 0 {
        let shorter = steps.drop_last();
        let fewer = events.drop_last();
        assert forall|i: int| 0 <= i < shorter.len() implies #[trigger] fewer[i] == reader_event(
            shorter[i],
            subscribed,
        ) by {
            assert(fewer[i] == events[i]);
        }
        lemma_reader_events(shorter, fewer, subscribed);
        let end = steps.len() - 1;
        assert(events[end] == reader_event(steps[end], subscribed));
        match steps.last() {
            ReaderStep::Accept(rows) => {
                assert(accepted(shorter).push(rows).drop_last() =~= accepted(shorter));
            },
            ReaderStep::Exhaust => {
                assert(tick_stream::came(fewer) + Seq::empty() =~= tick_stream::came(fewer));
            },
            _ => {},
        }
    }
}

/// A reader that accepts batch after batch, is told that none is left, and is
/// asked for ticks until it has no more, whenever it is asked in between, hands
/// out exactly the subscribed rows, in order: every tick whole, none empty, and
/// timestamps strictly increasing.
pub proof fn a_drained_reader<N>(course: ReaderCourse<N>, subscribed: Set<int>)
    requires
        course.runs(subscribed),
        course.steps.len() > 0,
        course.steps.last() == ReaderStep::<N>::Next(Reading::End),
    ensures
        read(course.steps) == tick::grouped(
            tick::entries(tick_stream::all_rows(accepted(course.steps)), subscribed),
        ),
        tick::flattened(read(course.steps)) == tick::entries(
            tick_stream::all_rows(accepted(course.steps)),
            subscribed,
        ),
        tick_stream::all_filled(read(course.steps)),
        tick::in_order(tick_stream::all_rows(accepted(course.steps)), None) ==> forall|
            i: int,
            j: int,
        |
            0 <= i < j < read(course.steps).len() ==> (#[trigger] read(course.steps)[i]).0 < (
            #[trigger] read(course.steps)[j]).0,
{
    let held = Seq::new(course.states.len(), |i: int| course.states[i].waiting());
    let events = Seq::new(
        course.steps.len(),
        |i: int| reader_event(course.steps[i], subscribed),
    );
    let flags = Seq::new(course.steps.len(), |i: int| course.states[i].is_over());
    assert forall|i: int, j: int| 0 <= i <= j < flags.len() && flags[i] implies flags[j] by {
        lemma_reader_over(course, subscribed, i, j);
    }
    let over = lemma_turning(flags);
    assert forall|i: int| 0 <= i < events.len() implies tick_stream::happens(
        held[i],
        #[trigger] events[i],
        held[i + 1],
        i >= over,
    ) by {
        assert(flags[i] <==> i >= over);
        let step = course.steps[i];
        assert(reader_steps(course.states[i], step, subscribed, course.states[i + 1]));
        assert(held[i + 1] == course.states[i + 1].waiting());
        tick_stream::lemma_leading_range(held[i]);
        match step {
            ReaderStep::Accept(rows) => {
                tick::grouping_keeps_entries(tick::entries(rows, subscribed));
                assert(tick_stream::happens(held[i], events[i], held[i + 1], i >= over));
            },
            ReaderStep::Exhaust => {
                assert(held[i] + Seq::<TickView<N>>::empty() =~= held[i]);
                assert(tick_stream::happens(held[i], events[i], held[i + 1], i >= over));
            },
            ReaderStep::Next(reading) => {
                assert(tick_stream::happens(held[i], events[i], held[i + 1], i >= over));
            },
        }
    }
    lemma_reader_events(course.steps, events, subscribed);
    let end = course.steps.len() - 1;
    assert(reader_steps(
        course.states[end],
        course.steps[end],
        subscribed,
        course.states[end + 1],
    ));
    assert(held.last().len() == 0) by {
        tick_stream::lemma_leading_range(course.states[end].waiting());
    }
    tick_stream::a_drained_reader_hands_out_its_rows(
        held,
        events,
        over,
        accepted(course.steps),
        subscribed,
    );
}

/// What a message says.
pub ghost enum Said<N> {
    Ticks(Seq<TickView<N>>),
    UnitDone,
    Finished,
    /// Anything that is no part of a sound decode.
    Trouble,
}

/// What a message says.
pub open spec fn said<N>(message: Message<N>) -> Said<N> {
    match message {
        Message::Ticks(_, chunk) => Said::Ticks(tick::tick_views(chunk@)),
        Message::UnitDone => Said::UnitDone,
        Message::Finished => Said::Finished,
        _ => Said::Trouble,
    }
}

/// What a worker says of batches: the groups of each that has any.
pub open spec fn batch_talk<N>(batches: Seq<Seq<Row<N>>>, subscribed: Set<int>) -> Seq<Said<N>>
    decreases batches.len(),
{
    if batches.len() == 0 {
        Seq::empty()
    } else {
        let before = batch_talk(batches.drop_last(), subscribed);
        let own = tick::entries(batches.last(), subscribed);
        if own.len() == 0 {
            before
        } else {
            before.push(Said::Ticks(tick::grouped(own)))
        }
    }
}

/// What a worker says of a unit: its batches, and that it is done.
pub open spec fn unit_talk<N>(unit: Seq<Seq<Row<N>>>, subscribed: Set<int>) -> Seq<Said<N>> {
    batch_talk(unit, subscribed).push(Said::UnitDone)
}

/// What is said of units, one after the other.
pub open spec fn talk<N>(units: Seq<Seq<Seq<Row<N>>>>, subscribed: Set<int>) -> Seq<Said<N>>
    decreases units.len(),
{
    if units.len() == 0 {
        Seq::empty()
    } else {
        talk(units.drop_last(), subscribed) + unit_talk(units.last(), subscribed)
    }
}

/// What a worker says from first to last: the units it was dealt, and that there
/// are no more.
pub open spec fn worker_talk<N>(
    units: Seq<Seq<Seq<Row<N>>>>,
    workers: int,
    worker: int,
    subscribed: Set<int>,
) -> Seq<Said<N>> {
    talk(
        tick_stream::dealt(units, workers, worker, units.len() as int),
        subscribed,
    ).push(Said::Finished)
}

/// Something done with a stream.
pub ghost enum StreamStep<N> {
    /// A message was received of the worker whose turn it was.
    Hear(Message<N>),
    /// It was asked for a tick.
    Next(Result<Step<N>, BacktestError>),
}

/// The states a stream passes through, and what is done in between.
#[verifier::reject_recursive_types(N)]
pub ghost struct StreamCourse<N> {
    pub states: Seq<TickStream<N>>,
    pub steps: Seq<StreamStep<N>>,
}

impl<N> StreamCourse<N> {
    /// How many messages of a worker were received in the first `end` steps.
    pub open spec fn heard_of(self, worker: int, end: int) -> int
        decreases end,
    {
        if end <= 0 {
            0
        } else {
            let before = self.heard_of(worker, end - 1);
            if self.steps[end - 1] is Hear && self.states[end - 1].whose_turn() == worker {
                before + 1
            } else {
                before
            }
        }
    }

    /// Whether step `i` takes the stream from one state to the next. What is
    /// received is the next thing that the worker whose turn it is has to say.
    pub open spec fn steps_on(
        self,
        units: Seq<Seq<Seq<Row<N>>>>,
        workers: int,
        subscribed: Set<int>,
        i: int,
    ) -> bool {
        let before = self.states[i];
        match self.steps[i] {
            StreamStep::Hear(message) => {
                let spoken = worker_talk(units, workers, before.whose_turn(), subscribed);
                let heard = self.heard_of(before.whose_turn(), i);
                &&& !before.is_over()
                &&& before.receives(message, self.states[i + 1])
                &&& heard < spoken.len()
                &&& said(message) == spoken[heard]
            },
            StreamStep::Next(answer) => answer is Ok && before.answers(answer, self.states[i + 1]),
        }
    }

    /// Whether a fresh stream over `workers` workers, which were dealt `units`,
    /// passes through the states by the steps, and no step fails.
    pub open spec fn runs(
        self,
        units: Seq<Seq<Seq<Row<N>>>>,
        workers: int,
        subscribed: Set<int>,
    ) -> bool {
        &&& 0 < workers
        &&& self.states.len() == self.steps.len() + 1
        &&& self.states[0].waiting() == Seq::<TickView<N>>::empty()
        &&& self.states[0].worker_count() == workers
        &&& self.states[0].whose_turn() == 0
        &&& !self.states[0].is_over()
        &&& forall|i: int|
            0 <= i < self.steps.len() ==> #[trigger] self.steps_on(units, workers, subscribed, i)
    }
}

/// The messages received, in order.
pub open spec fn heard<N>(steps: Seq<StreamStep<N>>) -> Seq<Said<N>>
    decreases steps.len(),
{
    if steps.len() == 0 {
        Seq::empty()
    } else {
        match steps.last() {
            StreamStep::Hear(message) => heard(steps.drop_last()).push(said(message)),
            _ => heard(steps.drop_last()),
        }
    }
}

/// The ticks a stream handed out, in order.
pub open spec fn streamed<N>(steps: Seq<StreamStep<N>>) -> Seq<TickView<N>>
    decreases steps.len(),
{
    if steps.len() == 0 {
        Seq::empty()
    } else {
        match steps.last() {
            StreamStep::Next(Ok(Step::Tick(whole))) => streamed(steps.drop_last()).push(
                tick::tick_view(whole),
            ),
            _ => streamed(steps.drop_last()),
        }
    }
}

/// The groups among what was said.
spec fn groups_said<N>(talk: Seq<Said<N>>) -> Seq<TickView<N>>
    decreases talk.len(),
{
    if talk.len() == 0 {
        Seq::empty()
    } else {
        match talk.last() {
            Said::Ticks(groups) => groups_said(talk.drop_last()) + groups,
            _ => groups_said(talk.drop_last()),
        }
    }
}

proof fn lemma_groups_join<N>(a: Seq<Said<N>>, b: Seq<Said<N>>)
    ensures
        groups_said(a + b) == groups_said(a) + groups_said(b),
    decreases b.len(),
{
    if b.len() == 0 {
        assert(a + b =~= a);
        assert(groups_said(a) + groups_said(b) =~= groups_said(a));
    } else {
        assert((a + b).drop_last() =~= a + b.drop_last());
        lemma_groups_join(a, b.drop_last());
        assert(groups_said(a + b) =~= groups_said(a) + groups_said(b));
    }
}

proof fn lemma_decoded_join<N>(a: Seq<Seq<Row<N>>>, b: Seq<Seq<Row<N>>>, subscribed: Set<int>)
    ensures
        tick_stream::decoded(a + b, subscribed) == tick_stream::decoded(a, subscribed)
            + tick_stream::decoded(b, subscribed),
    decreases b.len(),
{
    if b.len() == 0 {
        assert(a + b =~= a);
        assert(tick_stream::decoded(a, subscribed) + tick_stream::decoded(b, subscribed)
            =~= tick_stream::decoded(a, subscribed));
    } else {
        assert((a + b).drop_last() =~= a + b.drop_last());
        lemma_decoded_join(a, b.drop_last(), subscribed);
        assert(tick_stream::decoded(a + b, subscribed) =~= tick_stream::decoded(a, subscribed)
            + tick_stream::decoded(b, subscribed));
    }
}

proof fn lemma_batch_talk<N>(batches: Seq<Seq<Row<N>>>, subscribed: Set<int>)
    ensures
        groups_said(batch_talk(batches, subscribed)) == tick_stream::decoded(batches, subscribed),
        forall|i: int|
            0 <= i < batch_talk(batches, subscribed).len() ==> (#[trigger] batch_talk(
                batches,
                subscribed,
            )[i] matches Said::Ticks(groups) && tick_stream::all_filled(groups)),
    decreases batches.len(),
{
    if batches.len() > 0 {
        let rest = batches.drop_last();
        let own = tick::entries(batches.last(), subscribed);
        lemma_batch_talk(rest, subscribed);
        tick::grouping_keeps_entries(own);
        let before = batch_talk(rest, subscribed);
        if own.len() == 0 {
            assert(tick_stream::decoded(rest, subscribed) + tick::grouped(own)
                =~= tick_stream::decoded(rest, subscribed));
        } else {
            let all = before.push(Said::Ticks(tick::grouped(own)));
            assert(all.drop_last() =~= before);
            assert forall|i: int| 0 <= i < all.len() implies (
            #[trigger] all[i] matches Said::Ticks(groups) && tick_stream::all_filled(groups)) by {
                if i < before.len() {
                    assert(all[i] == before[i]);
                }
            }
        }
    }
}

proof fn lemma_talk<N>(units: Seq<Seq<Seq<Row<N>>>>, subscribed: Set<int>)
    ensures
        groups_said(talk(units, subscribed)) == tick_stream::decoded(
            tick_stream::unit_batches(units),
            subscribed,
        ),
    decreases units.len(),
{
    if units.len() > 0 {
        let rest = units.drop_last();
        let own = unit_talk(units.last(), subscribed);
        lemma_talk(rest, subscribed);
        lemma_groups_join(talk(rest, subscribed), own);
        lemma_batch_talk(units.last(), subscribed);
        assert(own.drop_last() =~= batch_talk(units.last(), subscribed));
        lemma_decoded_join(tick_stream::unit_batches(rest), units.last(), subscribed);
    }
}

/// What is said of the first few units comes first.
proof fn lemma_talk_prefix<N>(
    units: Seq<Seq<Seq<Row<N>>>>,
    first: Seq<Seq<Seq<Row<N>>>>,
    subscribed: Set<int>,
)
    requires
        first.is_prefix_of(units),
    ensures
        talk(first, subscribed).is_prefix_of(talk(units, subscribed)),
    decreases units.len(),
{
    if first.len() < units.len() {
        assert(first.is_prefix_of(units.drop_last()));
        lemma_talk_prefix(units.drop_last(), first, subscribed);
    } else {
        assert(first =~= units);
    }
}

/// How far the messages received have got: units that are over, and messages of
/// the unit that is not.
ghost struct Place {
    pub units: int,
    pub messages: int,
}

impl<N> StreamCourse<N> {
    /// Whether the first `end` steps have got to a place.
    spec fn has_reached(
        self,
        units: Seq<Seq<Seq<Row<N>>>>,
        workers: int,
        subscribed: Set<int>,
        end: int,
        place: Place,
    ) -> bool {
        let k = place.units;
        let m = place.messages;
        let state = self.states[end];
        &&& 0 <= k <= units.len()
        &&& 0 <= m
        &&& state.worker_count() == workers
        &&& state.whose_turn() == k % workers
        &&& if k < units.len() {
            &&& m < unit_talk(units[k], subscribed).len()
            &&& heard(self.steps.take(end)) == talk(units.take(k), subscribed) + unit_talk(
                units[k],
                subscribed,
            ).take(m)
        } else {
            m == 0 && heard(self.steps.take(end)) == talk(units, subscribed)
        }
        &&& forall|worker: int|
            0 <= worker < workers ==> #[trigger] self.heard_of(worker, end) == talk(
                tick_stream::dealt(units, workers, worker, k),
                subscribed,
            ).len() + (if worker == k % workers {
                m
            } else {
                0
            })
    }
}

proof fn lemma_next_worker(k: int, workers: int)
    requires
        0 <= k,
        0 < workers,
    ensures
        (k % workers + 1) % workers == (k + 1) % workers,
        0 <= k % workers < workers,
{
    vstd::arithmetic::div_mod::lemma_add_mod_noop(k, 1, workers);
    vstd::arithmetic::div_mod::lemma_mod_bound(k, workers);
    if workers == 1 {
        assert((k % workers + 1) % workers == 0);
        assert((k + 1) % workers == 0);
    } else {
        vstd::arithmetic::div_mod::lemma_small_mod(1, workers as nat);
    }
}

/// The next message of the worker whose turn it is goes on where the others left
/// off.
proof fn lemma_next_message<N>(
    units: Seq<Seq<Seq<Row<N>>>>,
    workers: int,
    subscribed: Set<int>,
    place: Place,
)
    requires
        0 < workers,
        0 <= place.units <= units.len(),
        0 <= place.messages,
        place.units < units.len() ==> place.messages < unit_talk(
            units[place.units],
            subscribed,
        ).len(),
        place.units == units.len() ==> place.messages == 0,
    ensures
        ({
            let k = place.units;
            let worker = k % workers;
            let spoken = worker_talk(units, workers, worker, subscribed);
            let at = talk(tick_stream::dealt(units, workers, worker, k), subscribed).len()
                + place.messages;
            spoken[at] == if k < units.len() {
                unit_talk(units[k], subscribed)[place.messages]
            } else {
                Said::Finished
            }
        }),
{
    let k = place.units;
    let worker = k % workers;
    let n = units.len() as int;
    vstd::arithmetic::div_mod::lemma_mod_bound(k, workers);
    if k < n {
        let before = tick_stream::dealt(units, workers, worker, k);
        let with = tick_stream::dealt(units, workers, worker, k + 1);
        let all = tick_stream::dealt(units, workers, worker, n);
        assert(with == before.push(units[k]));
        assert(with.drop_last() =~= before);
        tick_stream::lemma_dealt_grows(units, workers, worker, k + 1, n);
        assert(with.is_prefix_of(all)) by {
            assert(with =~= all.take(with.len() as int));
        }
        lemma_talk_prefix(all, with, subscribed);
        let at = talk(before, subscribed).len() + place.messages;
        assert(talk(with, subscribed)[at] == unit_talk(units[k], subscribed)[place.messages]);
        assert(at < talk(with, subscribed).len());
        assert(talk(all, subscribed)[at] == talk(with, subscribed)[at]);
    }
}

/// The place that the first `end` steps have got to, as long as the stream is not
/// over; all that there is to hear once it is.
proof fn lemma_reached<N>(
    course: StreamCourse<N>,
    units: Seq<Seq<Seq<Row<N>>>>,
    workers: int,
    subscribed: Set<int>,
    end: int,
) -> (place: Place)
    requires
        course.runs(units, workers, subscribed),
        0 <= end < course.states.len(),
    ensures
        !course.states[end].is_over() ==> course.has_reached(
            units,
            workers,
            subscribed,
            end,
            place,
        ),
        course.states[end].is_over() ==> heard(course.steps.take(end)) == talk(
            units,
            subscribed,
        ).push(Said::Finished),
    decreases end,
{
    if end == 0 {
        let place = Place { units: 0, messages: 0 };
        assert(course.steps.take(0) =~= Seq::<StreamStep<N>>::empty());
        assert(units.take(0) =~= Seq::<Seq<Seq<Row<N>>>>::empty());
        assert(heard(course.steps.take(0)) =~= talk(units.take(0), subscribed));
        vstd::arithmetic::div_mod::lemma_small_mod(0, workers as nat);
        if units.len() > 0 {
            assert(unit_talk(units[0], subscribed).take(0) =~= Seq::<Said<N>>::empty());
            assert(talk(units.take(0), subscribed) + unit_talk(units[0], subscribed).take(0)
                =~= talk(units.take(0), subscribed));
        } else {
            assert(units.take(0) =~= units);
        }
        place
    } else {
        let i = end - 1;
        let before = lemma_reached(course, units, workers, subscribed, i);
        assert(course.steps_on(units, workers, subscribed, i));
        let so_far = course.steps.take(i);
        assert(course.steps.take(end).drop_last() =~= so_far);
        assert(course.steps.take(end).last() == course.steps[i]);
        let k = before.units;
        let m = before.messages;
        match course.steps[i] {
            StreamStep::Hear(message) => {
                lemma_next_worker(k, workers);
                lemma_next_message(units, workers, subscribed, before);
                let turn = k % workers;
                assert(course.heard_of(turn, i) == talk(
                    tick_stream::dealt(units, workers, turn, k),
                    subscribed,
                ).len() + m);
                if k < units.len() {
                    let own = unit_talk(units[k], subscribed);
                    assert(said(message) == own[m]);
                    lemma_batch_talk(units[k], subscribed);
                    assert(own.take(m).push(own[m]) =~= own.take(m + 1));
                    assert(heard(course.steps.take(end)) =~= talk(units.take(k), subscribed)
                        + own.take(m + 1));
                    let place = if m + 1 < own.len() {
                        Place { units: k, messages: m + 1 }
                    } else {
                        Place { units: k + 1, messages: 0 }
                    };
                    if m + 1 < own.len() {
                        assert(own[m] == batch_talk(units[k], subscribed)[m]);
                        assert(course.has_reached(units, workers, subscribed, end, place)) by {
                            assert forall|worker: int|
                                0 <= worker < workers implies #[trigger] course.heard_of(
                                worker,
                                end,
                            ) == talk(
                                tick_stream::dealt(units, workers, worker, k),
                                subscribed,
                            ).len() + (if worker == k % workers {
                                m + 1
                            } else {
                                0
                            }) by {
                                assert(course.heard_of(worker, i) == talk(
                                    tick_stream::dealt(units, workers, worker, k),
                                    subscribed,
                                ).len() + (if worker == k % workers {
                                    m
                                } else {
                                    0
                                }));
                            }
                        }
                    } else {
                        assert(own.take(m + 1) =~= own);
                        assert(units.take(k + 1).drop_last() =~= units.take(k));
                        assert(units.take(k + 1).last() == units[k]);
                        if k + 1 == units.len() {
                            assert(units.take(k + 1) =~= units);
                        } else {
                            let next = unit_talk(units[k + 1], subscribed);
                            assert(talk(units.take(k + 1), subscribed) + next.take(0)
                                =~= talk(units.take(k + 1), subscribed));
                        }
                        assert forall|worker: int|
                            0 <= worker < workers implies #[trigger] course.heard_of(
                            worker,
                            end,
                        ) == talk(
                            tick_stream::dealt(units, workers, worker, k + 1),
                            subscribed,
                        ).len() by {
                            let was = tick_stream::dealt(units, workers, worker, k);
                            assert(course.heard_of(worker, i) == talk(was, subscribed).len() + (
                            if worker == k % workers {
                                m
                            } else {
                                0
                            }));
                            if worker == k % workers {
                                assert(was.push(units[k]).drop_last() =~= was);
                            }
                        }
                    }
                    place
                } else {
                    assert(units.take(k) =~= units);
                    before
                }
            },
            StreamStep::Next(answer) => {
                assert forall|worker: int| 0 <= worker < workers implies #[trigger] course.heard_of(
                    worker,
                    end,
                ) == course.heard_of(worker, i) by {}
                before
            },
        }
    }
}

/// What a step with a stream is to what it holds.
spec fn stream_event<N>(step: StreamStep<N>) -> Event<N> {
    match step {
        StreamStep::Hear(Message::Ticks(_, chunk)) => Event::Came(tick::tick_views(chunk@)),
        StreamStep::Hear(_) => Event::Came(Seq::empty()),
        StreamStep::Next(Ok(Step::Tick(whole))) => Event::Went(tick::tick_view(whole)),
        StreamStep::Next(_) => Event::Short,
    }
}

proof fn lemma_stream_events<N>(steps: Seq<StreamStep<N>>, events: Seq<Event<N>>)
    requires
        events.len() == steps.len(),
        forall|i: int| 0 <= i < steps.len() ==> #[trigger] events[i] == stream_event(steps[i]),
    ensures
        tick_stream::came(events) == groups_said(heard(steps)),
        tick_stream::went(events) == streamed(steps),
    decreases steps.len(),
{
    if steps.len() > 0 {
        let shorter = steps.drop_last();
        let fewer = events.drop_last();
        assert forall|i: int| 0 <= i < shorter.len() implies #[trigger] fewer[i] == stream_event(
            shorter[i],
        ) by {
            assert(fewer[i] == events[i]);
        }
        lemma_stream_events(shorter, fewer);
        let end = steps.len() - 1;
        assert(events[end] == stream_event(steps[end]));
        if let StreamStep::Hear(message) = steps.last() {
            assert(heard(shorter).push(said(message)).drop_last() =~= heard(shorter));
            assert(tick_stream::came(fewer) + Seq::<TickView<N>>::empty()
                =~= tick_stream::came(fewer));
        }
    }
}

proof fn lemma_stream_over<N>(
    course: StreamCourse<N>,
    units: Seq<Seq<Seq<Row<N>>>>,
    workers: int,
    subscribed: Set<int>,
    i: int,
    j: int,
)
    requires
        course.runs(units, workers, subscribed),
        0 <= i <= j < course.states.len(),
        course.states[i].is_over(),
    ensures
        course.states[j].is_over(),
    decreases j - i,
{
    if i < j {
        lemma_stream_over(course, units, workers, subscribed, i, j - 1);
        assert(course.steps_on(units, workers, subscribed, j - 1));
    }
}

/// What a message brings is made of groups with bars.
proof fn lemma_filled<N>(
    course: StreamCourse<N>,
    units: Seq<Seq<Seq<Row<N>>>>,
    workers: int,
    subscribed: Set<int>,
    i: int,
)
    requires
        course.runs(units, workers, subscribed),
        0 <= i < course.steps.len(),
    ensures
        course.steps[i] matches StreamStep::Hear(message) ==> (said(message) matches Said::Ticks(
            groups,
        ) ==> tick_stream::all_filled(groups)),
{
    if let StreamStep::Hear(message) = course.steps[i] {
        assert(course.steps_on(units, workers, subscribed, i));
        let place = lemma_reached(course, units, workers, subscribed, i);
        let k = place.units;
        let m = place.messages;
        lemma_next_worker(k, workers);
        lemma_next_message(units, workers, subscribed, place);
        assert(course.heard_of(k % workers, i) == talk(
            tick_stream::dealt(units, workers, k % workers, k),
            subscribed,
        ).len() + m);
        if k < units.len() {
            lemma_batch_talk(units[k], subscribed);
            if m < batch_talk(units[k], subscribed).len() {
                assert(unit_talk(units[k], subscribed)[m] == batch_talk(units[k], subscribed)[m]);
            }
        }
    }
}

/// A stream whose workers were dealt units in rotation, which hears of whichever
/// worker it says is next, and is asked for ticks until it has no more, hands out
/// exactly the subscribed rows, in order: every tick whole, none empty, and
/// timestamps strictly increasing, however many workers there are and however the
/// rows are cut into units and batches.
pub proof fn a_drained_stream<N>(
    course: StreamCourse<N>,
    units: Seq<Seq<Seq<Row<N>>>>,
    workers: int,
    subscribed: Set<int>,
)
    requires
        course.runs(units, workers, subscribed),
        course.steps.len() > 0,
        course.steps.last() == StreamStep::<N>::Next(Ok(Step::End)),
    ensures
        streamed(course.steps) == tick::grouped(
            tick::entries(
                tick_stream::all_rows(tick_stream::unit_batches(units)),
                subscribed,
            ),
        ),
        tick_stream::all_filled(streamed(course.steps)),
        tick::in_order(tick_stream::all_rows(tick_stream::unit_batches(units)), None) ==> forall|
            i: int,
            j: int,
        |
            0 <= i < j < streamed(course.steps).len() ==> (#[trigger] streamed(course.steps)[i]).0
                < (#[trigger] streamed(course.steps)[j]).0,
{
    let held = Seq::new(course.states.len(), |i: int| course.states[i].waiting());
    let events = Seq::new(course.steps.len(), |i: int| stream_event(course.steps[i]));
    let flags = Seq::new(course.steps.len(), |i: int| course.states[i].is_over());
    assert forall|i: int, j: int| 0 <= i <= j < flags.len() && flags[i] implies flags[j] by {
        lemma_stream_over(course, units, workers, subscribed, i, j);
    }
    let over = lemma_turning(flags);
    assert forall|i: int| 0 <= i < events.len() implies tick_stream::happens(
        held[i],
        #[trigger] events[i],
        held[i + 1],
        i >= over,
    ) by {
        assert(flags[i] <==> i >= over);
        assert(course.steps_on(units, workers, subscribed, i));
        assert(held[i + 1] == course.states[i + 1].waiting());
        tick_stream::lemma_leading_range(held[i]);
        match course.steps[i] {
            StreamStep::Hear(message) => {
                lemma_filled(course, units, workers, subscribed, i);
                assert(held[i] + Seq::<TickView<N>>::empty() =~= held[i]);
                assert(tick_stream::happens(held[i], events[i], held[i + 1], i >= over));
            },
            StreamStep::Next(answer) => {
                assert(tick_stream::happens(held[i], events[i], held[i + 1], i >= over));
            },
        }
    }
    lemma_stream_events(course.steps, events);
    let end = course.steps.len() - 1;
    assert(course.steps_on(units, workers, subscribed, end));
    tick_stream::lemma_leading_range(course.states[end].waiting());
    assert(course.states[end].is_over());
    let _ = lemma_reached(course, units, workers, subscribed, end);
    assert(course.steps.take(end) =~= course.steps.drop_last());
    let all = talk(units, subscribed).push(Said::Finished);
    assert(heard(course.steps) == all);
    assert(all.drop_last() =~= talk(units, subscribed));
    lemma_talk(units, subscribed);
    tick_stream::a_drained_reader_hands_out_its_rows(
        held,
        events,
        over,
        tick_stream::unit_batches(units),
        subscribed,
    );
}

/// A stream yields what one reader over the same rows yields, however many
/// workers decode them.
pub proof fn a_stream_reads_like_a_reader<N>(
    stream: StreamCourse<N>,
    units: Seq<Seq<Seq<Row<N>>>>,
    workers: int,
    reader: ReaderCourse<N>,
    subscribed: Set<int>,
)
    requires
        stream.runs(units, workers, subscribed),
        stream.steps.len() > 0,
        stream.steps.last() == StreamStep::<N>::Next(Ok(Step::End)),
        reader.runs(subscribed),
        reader.steps.len() > 0,
        reader.steps.last() == ReaderStep::<N>::Next(Reading::End),
        tick_stream::all_rows(accepted(reader.steps)) == tick_stream::all_rows(
            tick_stream::unit_batches(units),
        ),
    ensures
        streamed(stream.steps) == read(reader.steps),
{
    a_drained_stream(stream, units, workers, subscribed);
    a_drained_reader(reader, subscribed);
}

} // verus!
