//! Items queued by date.

use std::collections::BTreeMap;

use vstd::prelude::*;

use crate::calendar::Date;

verus! {

/// Items queued by the date they take effect, each date's in the order they
/// were queued.
pub struct Agenda<T> {
    entries: BTreeMap<i32, Vec<T>>,
}

impl<T> View for Agenda<T> {
    type V = Map<i32, Seq<T>>;

    /// The items of each day number.
    closed spec fn view(&self) -> Map<i32, Seq<T>> {
        Map::new(|day: i32| self.entries@.contains_key(day), |day: i32| self.entries@[day]@)
    }
}

/// The items of a day, none where nothing is queued.
pub open spec fn items_on<T>(agenda: Map<i32, Seq<T>>, day: i32) -> Seq<T> {
    if agenda.contains_key(day) {
        agenda[day]
    } else {
        Seq::empty()
    }
}

/// The items of every day up to and including `day`, oldest day first.
pub open spec fn items_through<T>(agenda: Map<i32, Seq<T>>, day: int) -> Seq<T>
    decreases day - i32::MIN + 1,
{
    if day < i32::MIN {
        Seq::empty()
    } else {
        items_through(agenda, day - 1) + items_on(agenda, day as i32)
    }
}

/// Items with a day number.
pub open spec fn dated<T>(items: Seq<T>, day: i32) -> Seq<(i32, T)> {
    Seq::new(items.len(), |i: int| (day, items[i]))
}

/// The items of every day up to and including `day` with their days, oldest day
/// first.
pub open spec fn dated_through<T>(agenda: Map<i32, Seq<T>>, day: int) -> Seq<(i32, T)>
    decreases day - i32::MIN + 1,
{
    if day < i32::MIN {
        Seq::empty()
    } else {
        dated_through(agenda, day - 1) + dated(items_on(agenda, day as i32), day as i32)
    }
}

/// All items with their days, oldest day first.
pub open spec fn all_dated<T>(agenda: Map<i32, Seq<T>>) -> Seq<(i32, T)> {
    dated_through(agenda, i32::MAX as int)
}

/// The agenda without the days up to and including `day`.
pub open spec fn after_day<T>(agenda: Map<i32, Seq<T>>, day: int) -> Map<i32, Seq<T>> {
    agenda.remove_keys(Set::new(|due: i32| due <= day))
}

/// Draining an agenda day by day hands out every item once: what is due by one
/// day, and after it what is due by a later one, is what is due by the later
/// day, in the same order.
pub proof fn nothing_is_lost<T>(agenda: Map<i32, Seq<T>>, day: int, later: int)
    requires
        day <= later <= i32::MAX,
    ensures
        items_through(agenda, day) + items_through(after_day(agenda, day), later) == items_through(
            agenda,
            later,
        ),
    decreases later - i32::MIN + 1,
{
    let rest = after_day(agenda, day);
    if later < i32::MIN {
        assert(items_through(agenda, day) + items_through(rest, later) =~= items_through(
            agenda,
            later,
        ));
    } else if day == later {
        quiet_days_add_nothing(rest, i32::MIN - 1, later);
        assert(items_through(agenda, day) + items_through(rest, later) =~= items_through(
            agenda,
            later,
        ));
    } else {
        nothing_is_lost(agenda, day, later - 1);
        assert(items_on(rest, later as i32) == items_on(agenda, later as i32));
        assert(items_through(agenda, day) + items_through(rest, later) =~= items_through(agenda, day)
            + items_through(rest, later - 1) + items_on(agenda, later as i32));
    }
}

/// Nothing an agenda has handed out is due again.
pub proof fn nothing_is_due_twice<T>(agenda: Map<i32, Seq<T>>, day: int)
    requires
        day <= i32::MAX,
    ensures
        items_through(after_day(agenda, day), day) == Seq::<T>::empty(),
{
    if day >= i32::MIN {
        quiet_days_add_nothing(after_day(agenda, day), i32::MIN - 1, day);
    }
}

/// Days on which nothing is queued add nothing to what is due.
pub proof fn quiet_days_add_nothing<T>(agenda: Map<i32, Seq<T>>, low: int, high: int)
    requires
        i32::MIN - 1 <= low <= high <= i32::MAX,
        forall|day: i32| low < day <= high ==> !agenda.contains_key(day),
    ensures
        items_through(agenda, high) == items_through(agenda, low),
    decreases high - low,
{
    if low < high {
        quiet_days_add_nothing(agenda, low, high - 1);
        assert(!agenda.contains_key(high as i32));
        assert(items_through(agenda, high) =~= items_through(agenda, high - 1));
    }
}

proof fn lemma_dated_gap<T>(agenda: Map<i32, Seq<T>>, low: int, high: int)
    requires
        i32::MIN - 1 <= low <= high <= i32::MAX,
        forall|day: i32| low < day <= high ==> !agenda.contains_key(day),
    ensures
        dated_through(agenda, high) == dated_through(agenda, low),
    decreases high - low,
{
    if low < high {
        lemma_dated_gap(agenda, low, high - 1);
        assert(!agenda.contains_key(high as i32));
        assert(dated_through(agenda, high) =~= dated_through(agenda, high - 1));
    }
}

/// Where two agendas say the same of each item, so do their lists.
pub proof fn lemma_dated_maps<T, U>(
    agenda: Map<i32, Seq<T>>,
    other: Map<i32, Seq<U>>,
    says: spec_fn(T) -> U,
    day: int,
)
    requires
        day <= i32::MAX,
        forall|d: i32| #[trigger] agenda.contains_key(d) <==> other.contains_key(d),
        forall|d: i32| #[trigger]
            agenda.contains_key(d) ==> other[d] == Seq::new(
                agenda[d].len(),
                |i: int| says(agenda[d][i]),
            ),
    ensures
        dated_through(other, day).len() == dated_through(agenda, day).len(),
        forall|i: int|
            0 <= i < dated_through(agenda, day).len() ==> #[trigger] dated_through(other, day)[i]
                == (
                dated_through(agenda, day)[i].0,
                says(dated_through(agenda, day)[i].1),
            ),
    decreases day - i32::MIN + 1,
{
    if day >= i32::MIN {
        lemma_dated_maps(agenda, other, says, day - 1);
        let d = day as i32;
        assert(agenda.contains_key(d) <==> other.contains_key(d));
        let a = dated_through(agenda, day - 1);
        let b = dated_through(other, day - 1);
        assert forall|i: int| 0 <= i < dated_through(agenda, day).len() implies
            #[trigger] dated_through(other, day)[i] == (
            dated_through(agenda, day)[i].0,
            says(dated_through(agenda, day)[i].1),
        ) by {
            if i < a.len() {
                assert(b[i] == (a[i].0, says(a[i].1)));
            }
        }
    }
}

impl<T> Default for Agenda<T> {
    fn default() -> (r: Agenda<T>)
        ensures
            r@ == Map::<i32, Seq<T>>::empty(),
    {
        Agenda::new()
    }
}

impl<T> Agenda<T> {
    pub fn new() -> (r: Agenda<T>)
        ensures
            r@ == Map::<i32, Seq<T>>::empty(),
    {
        let r = Agenda { entries: BTreeMap::new() };
        assert(r@ =~= Map::<i32, Seq<T>>::empty());
        r
    }

    /// Queue `item` behind what `date` already has.
    pub fn push(&mut self, date: Date, item: T)
        ensures
            final(self)@ == old(self)@.insert(
                date.day() as i32,
                items_on(old(self)@, date.day() as i32).push(item),
            ),
    {
        self.push_on(date.day_number(), item);
    }

    /// Queue `item` behind what day number `day` already has.
    pub fn push_on(&mut self, day: i32, item: T)
        ensures
            final(self)@ == old(self)@.insert(day, items_on(old(self)@, day).push(item)),
    {
        let mut items: Vec<T> = match self.entries.remove(&day) {
            Some(items) => items,
            None => Vec::new(),
        };
        assert(items@ =~= items_on(old(self)@, day));
        items.push(item);
        self.entries.insert(day, items);
        assert(self@ =~= old(self)@.insert(day, items_on(old(self)@, day).push(item)));
    }

    /// The days that have items, in order.
    pub fn days(&self) -> (r: Vec<i32>)
        ensures
            forall|i: int, j: int| 0 <= i < j < r@.len() ==> r@[i] < r@[j],
            forall|day: i32| #[trigger] self@.contains_key(day) <==> r@.contains(day),
    {
        let mut out: Vec<i32> = Vec::new();
        for k in it: self.entries.keys()
            invariant
                it.seq() == vstd::std_specs::iter::IteratorSpec::remaining(
                    &vstd::std_specs::btree::spec_keys_iter(&self.entries),
                ),
                out@.len() == it.index(),
                forall|i: int| 0 <= i < out@.len() ==> #[trigger] out@[i] == *it.seq()[i],
        {
            out.push(*k);
        }
        proof {
            let keys = vstd::std_specs::iter::IteratorSpec::remaining(
                &vstd::std_specs::btree::spec_keys_iter(&self.entries),
            );
            assert(vstd::laws_cmp::obeys_cmp::<&i32>()) by {
                reveal(vstd::laws_cmp::obeys_cmp);
                reveal(vstd::laws_eq::obeys_eq);
                reveal(vstd::laws_cmp::obeys_partial_cmp_spec_properties);
                reveal(vstd::laws_cmp::obeys_cmp_partial_ord);
                reveal(vstd::laws_cmp::obeys_cmp_ord);
            }
            assert(vstd::std_specs::btree::increasing_seq(keys));
            assert forall|i: int, j: int| 0 <= i < j < out@.len() implies out@[i] < out@[j] by {
                assert(vstd::std_specs::cmp::OrdSpec::cmp_spec(&keys[i], &keys[j]) is Less);
            }
            assert(out@ =~= keys.unref());
            assert forall|day: i32| #[trigger] self@.contains_key(day) <==> out@.contains(day) by {
                assert(keys.unref().to_set().contains(day) <==> keys.unref().contains(day));
            }
        }
        out
    }

    /// The items of a day number, none where nothing is queued.
    pub fn on(&self, day: i32) -> (r: Vec<T>) where T: Copy
        ensures
            r@ == items_on(self@, day),
    {
        let mut out: Vec<T> = Vec::new();
        match self.entries.get(&day) {
            Some(items) => {
                for i in 0..items.len()
                    invariant
                        out@ =~= items@.take(i as int),
                {
                    out.push(items[i]);
                }
                assert(items@.take(items@.len() as int) =~= items@);
            },
            None => {},
        }
        out
    }

    /// All items with their day numbers, oldest day first.
    pub fn listed(&self) -> (r: Vec<(i32, &T)>)
        ensures
            r@.len() == all_dated(self@).len(),
            forall|i: int|
                0 <= i < r@.len() ==> (#[trigger] r@[i]).0 == all_dated(self@)[i].0 && *r@[i].1
                    == all_dated(self@)[i].1,
    {
        let days = self.days();
        let mut out: Vec<(i32, &T)> = Vec::new();
        for d in 0..days.len()
            invariant
                forall|i: int, j: int| 0 <= i < j < days@.len() ==> days@[i] < days@[j],
                forall|day: i32| #[trigger] self@.contains_key(day) <==> days@.contains(day),
                out@.len() == dated_through(self@, reached(days@, d as int)).len(),
                forall|i: int|
                    0 <= i < out@.len() ==> (#[trigger] out@[i]).0 == dated_through(
                        self@,
                        reached(days@, d as int),
                    )[i].0 && *out@[i].1 == dated_through(self@, reached(days@, d as int))[i].1,
        {
            let day: i32 = days[d];
            let ghost low = reached(days@, d as int);
            let ghost before = dated_through(self@, low);
            proof {
                lemma_next_day(self@, days@, d as int);
                lemma_dated_gap(self@, low, day - 1);
                assert(dated_through(self@, day as int) =~= before + dated(
                    items_on(self@, day),
                    day,
                ));
            }
            match self.entries.get(&day) {
                Some(items) => {
                    assert(items@ == items_on(self@, day));
                    for k in 0..items.len()
                        invariant
                            items@ == items_on(self@, day),
                            out@.len() == before.len() + k,
                            forall|i: int|
                                0 <= i < out@.len() ==> (#[trigger] out@[i]).0 == (before + dated(
                                    items@,
                                    day,
                                ))[i].0 && *out@[i].1 == (before + dated(items@, day))[i].1,
                    {
                        out.push((day, &items[k]));
                    }
                },
                None => {
                    assert(self@.contains_key(day));
                },
            }
        }
        proof {
            let low = reached(days@, days@.len() as int);
            assert forall|day: i32| low < day <= i32::MAX implies !self@.contains_key(day) by {
                if self@.contains_key(day) {
                    let k = choose|k: int| 0 <= k < days@.len() && days@[k] == day;
                    assert(days@[k] <= days@[days@.len() - 1]);
                }
            }
            lemma_dated_gap(self@, low, i32::MAX as int);
        }
        out
    }

    /// The items of a day number, taken off the agenda.
    pub fn take_on(&mut self, day: i32) -> (r: Vec<T>)
        ensures
            r@ == items_on(old(self)@, day),
            final(self)@ == old(self)@.remove(day),
    {
        let r: Vec<T> = match self.entries.remove(&day) {
            Some(items) => items,
            None => Vec::new(),
        };
        assert(r@ =~= items_on(old(self)@, day));
        assert(self@ =~= old(self)@.remove(day));
        r
    }

    /// Put `items` on the agenda as those of a day number.
    pub fn put_on(&mut self, day: i32, items: Vec<T>)
        ensures
            final(self)@ == old(self)@.insert(day, items@),
    {
        self.entries.insert(day, items);
        assert(self@ =~= old(self)@.insert(day, items@));
    }

    /// Look at the items of a day number.
    pub fn get(&self, day: i32) -> (r: Option<&Vec<T>>)
        ensures
            r is Some <==> self@.contains_key(day),
            r is Some ==> r->0@ == self@[day],
    {
        self.entries.get(&day)
    }

    /// Remove and return every item dated on or before `today`, oldest first.
    pub fn drain_due(&mut self, today: Date) -> (r: Vec<T>)
        ensures
            r@ == items_through(old(self)@, today.day()),
            final(self)@ == after_day(old(self)@, today.day()),
    {
        let last: i32 = today.day_number();
        let days = self.days();
        let ghost before = self@;
        let mut due: Vec<T> = Vec::new();
        let mut done: usize = 0;
        proof {
            assert(after_day(before, i32::MIN - 1) =~= before);
        }
        while done < days.len() && days[done] <= last
            invariant
                0 <= done <= days@.len(),
                forall|i: int, j: int| 0 <= i < j < days@.len() ==> days@[i] < days@[j],
                forall|day: i32| #[trigger] before.contains_key(day) <==> days@.contains(day),
                forall|i: int| 0 <= i < done ==> days@[i] <= last,
                due@ == items_through(before, reached(days@, done as int)),
                self@ =~= after_day(before, reached(days@, done as int)),
            decreases days@.len() - done,
        {
            let day: i32 = days[done];
            proof {
                lemma_next_day(before, days@, done as int);
            }
            let ghost now = self@;
            assert(now.contains_key(day));
            assert(now[day] == before[day]);
            match self.entries.remove(&day) {
                Some(items) => {
                    let mut items = items;
                    assert(items@ == items_on(before, day));
                    due.append(&mut items);
                },
                None => {},
            }
            assert(self@ =~= now.remove(day));
            assert(self@ =~= after_day(before, day as int));
            done = done + 1;
        }
        proof {
            let low = reached(days@, done as int);
            assert forall|day: i32| low < day <= last implies !before.contains_key(day) by {
                if before.contains_key(day) {
                    let k = choose|k: int| 0 <= k < days@.len() && days@[k] == day;
                    if k < done {
                        assert(days@[k] <= days@[done - 1]);
                    } else {
                        assert(days@[done as int] <= days@[k]);
                    }
                }
            }
            quiet_days_add_nothing(before, low, last as int);
            assert(self@ =~= after_day(before, last as int));
        }
        due
    }
}

/// The day before position `i` of a list of days, or the one before the first
/// that there can be.
pub open spec fn reached(days: Seq<i32>, i: int) -> int {
    if i <= 0 {
        i32::MIN - 1
    } else {
        days[i - 1] as int
    }
}

proof fn lemma_next_day<T>(agenda: Map<i32, Seq<T>>, days: Seq<i32>, i: int)
    requires
        0 <= i < days.len(),
        forall|a: int, b: int| 0 <= a < b < days.len() ==> days[a] < days[b],
        forall|day: i32| #[trigger] agenda.contains_key(day) <==> days.contains(day),
    ensures
        agenda.contains_key(days[i]),
        items_through(agenda, days[i] as int) == items_through(agenda, reached(days, i)) + items_on(
            agenda,
            days[i],
        ),
        forall|day: i32| reached(days, i) < day < days[i] ==> !agenda.contains_key(day),
{
    let low = reached(days, i);
    assert(days.contains(days[i]));
    assert forall|day: i32| low < day < days[i] implies !agenda.contains_key(day) by {
        if agenda.contains_key(day) {
            let k = choose|k: int| 0 <= k < days.len() && days[k] == day;
            if k < i {
                assert(days[k] <= days[i - 1]);
            } else {
                assert(days[i] <= days[k]);
            }
        }
    }
    quiet_days_add_nothing(agenda, low, days[i] - 1);
}

/// What an agenda holds for a day is due on that day: it comes last among what is
/// due by then, was not due the day before, and leaves the agenda with it. What it
/// holds for later days stays.
pub proof fn items_are_due_on_their_day<T>(agenda: Map<i32, Seq<T>>, day: i32, later: i32)
    requires
        agenda.contains_key(day),
        day < later,
    ensures
        ({
            let due = items_through(agenda, day as int);
            let before = items_through(agenda, day - 1);
            &&& due.len() == before.len() + agenda[day].len()
            &&& due.take(before.len() as int) == before
            &&& due.skip(before.len() as int) == agenda[day]
            &&& !after_day(agenda, day as int).contains_key(day)
            &&& after_day(agenda, day - 1).contains_key(day) && after_day(agenda, day - 1)[day]
                == agenda[day]
            &&& agenda.contains_key(later) ==> after_day(agenda, day as int).contains_key(later)
                && after_day(agenda, day as int)[later] == agenda[later]
            &&& after_day(agenda, day as int).contains_key(later) ==> agenda.contains_key(later)
        }),
{
    let due = items_through(agenda, day as int);
    let before = items_through(agenda, day - 1);
    assert(due.take(before.len() as int) =~= before);
    assert(due.skip(before.len() as int) =~= agenda[day]);
}

/// Listing an agenda lists every item of every day under that day, the items of a
/// day in their order, and earlier days before later ones.
pub proof fn all_items_are_listed_by_day<T>(agenda: Map<i32, Seq<T>>, day: i32)
    ensures
        all_dated(agenda).filter(|item: (i32, T)| item.0 == day) == dated(
            items_on(agenda, day),
            day,
        ),
        forall|i: int, j: int|
            0 <= i < j < all_dated(agenda).len() ==> (#[trigger] all_dated(agenda)[i]).0 <= (
            #[trigger] all_dated(agenda)[j]).0,
{
    lemma_listed(agenda, day, i32::MAX as int);
}

proof fn lemma_listed<T>(agenda: Map<i32, Seq<T>>, day: i32, end: int)
    requires
        i32::MIN - 1 <= end <= i32::MAX,
    ensures
        dated_through(agenda, end).filter(|item: (i32, T)| item.0 == day) == if day <= end {
            dated(items_on(agenda, day), day)
        } else {
            Seq::<(i32, T)>::empty()
        },
        forall|i: int|
            0 <= i < dated_through(agenda, end).len() ==> (#[trigger] dated_through(
                agenda,
                end,
            )[i]).0 <= end,
        forall|i: int, j: int|
            0 <= i < j < dated_through(agenda, end).len() ==> (#[trigger] dated_through(
                agenda,
                end,
            )[i]).0 <= (#[trigger] dated_through(agenda, end)[j]).0,
    decreases end - i32::MIN + 1,
{
    let of_day = |item: (i32, T)| item.0 == day;
    reveal(Seq::filter);
    if end >= i32::MIN {
        lemma_listed(agenda, day, end - 1);
        let before = dated_through(agenda, end - 1);
        let last = dated(items_on(agenda, end as i32), end as i32);
        Seq::filter_distributes_over_add(before, last, of_day);
        lemma_one_day(items_on(agenda, end as i32), end as i32, day);
        assert(before.filter(of_day) + last.filter(of_day) =~= if day <= end {
            dated(items_on(agenda, day), day)
        } else {
            Seq::<(i32, T)>::empty()
        });
    }
}

proof fn lemma_one_day<T>(items: Seq<T>, on: i32, day: i32)
    ensures
        dated(items, on).filter(|item: (i32, T)| item.0 == day) == if on == day {
            dated(items, day)
        } else {
            Seq::<(i32, T)>::empty()
        },
    decreases items.len(),
{
    reveal(Seq::filter);
    if items.len() > 0 {
        lemma_one_day(items.drop_last(), on, day);
        assert(dated(items, on).drop_last() =~= dated(items.drop_last(), on));
        assert(dated(items, day) =~= dated(items.drop_last(), day).push((day, items.last())));
    }
}

} // verus!
