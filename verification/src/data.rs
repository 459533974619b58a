//! The dataset's ticker naming, the subscription mask, and where a data file
//! lies in time.

use std::collections::HashMap;

use vstd::prelude::*;
use vstd::string::*;

use crate::symbol;
use crate::symbol::Symbol;
use crate::text;
use crate::text::{after_last_mark, entries_of, parse_unsigned};

verus! {

/// The dataset's ticker naming, both ways: a [`Symbol`] (an encoded ticker id)
/// to its ticker text, and a ticker text to its symbol.
///
/// It is read when a strategy subscribes, when the corporate-action files are
/// matched by ticker, and when results are written, never per bar.
#[derive(Debug)]
pub struct TickerMap {
    /// Ticker id to name, `None` for ids the map does not list.
    names: Vec<Option<String>>,
}

/// The text of an optional name.
pub open spec fn name_view(name: Option<String>) -> Option<Seq<char>> {
    match name {
        Some(text) => Some(text@),
        None => None,
    }
}

impl View for TickerMap {
    type V = Seq<Option<Seq<char>>>;

    /// The name of each id, up to the highest that has one.
    closed spec fn view(&self) -> Seq<Option<Seq<char>>> {
        Seq::new(self.names@.len(), |i: int| name_view(self.names@[i]))
    }
}

/// The name of the ticker id `id`.
pub open spec fn name_of(names: Seq<Option<Seq<char>>>, id: u16) -> Option<Seq<char>> {
    if id < names.len() {
        names[id as int]
    } else {
        None
    }
}

/// Whether `id` is the lowest id named `ticker`.
pub open spec fn first_named(names: Seq<Option<Seq<char>>>, ticker: Seq<char>, id: u16) -> bool {
    &&& name_of(names, id) == Some(ticker)
    &&& forall|other: u16| other < id ==> #[trigger] name_of(names, other) != Some(ticker)
}

/// Whether some id is named `ticker`.
pub open spec fn lists_name(names: Seq<Option<Seq<char>>>, ticker: Seq<char>) -> bool {
    exists|id: u16| #[trigger] name_of(names, id) == Some(ticker)
}

/// The lowest id named `ticker`, if there is one.
pub open spec fn id_named(names: Seq<Option<Seq<char>>>, ticker: Seq<char>) -> Option<u16> {
    if lists_name(names, ticker) {
        Some(choose|id: u16| first_named(names, ticker, id))
    } else {
        None
    }
}

/// There is no more than one lowest id.
pub proof fn lemma_id_named(names: Seq<Option<Seq<char>>>, ticker: Seq<char>, id: u16)
    requires
        first_named(names, ticker, id),
    ensures
        id_named(names, ticker) == Some(id),
{
    assert(lists_name(names, ticker));
    let chosen = choose|other: u16| first_named(names, ticker, other);
    assert(first_named(names, ticker, chosen));
    if chosen < id {
        assert(name_of(names, chosen) != Some(ticker));
    } else if id < chosen {
        assert(name_of(names, id) != Some(ticker));
    }
}

/// A naming goes both ways: the id a ticker is encoded as carries its name, and
/// where no two ids share a name, a name leads back to its id.
pub proof fn naming_goes_both_ways(names: Seq<Option<Seq<char>>>, ticker: Seq<char>, id: u16)
    requires
        name_of(names, id) == Some(ticker),
    ensures
        id_named(names, ticker) is Some,
        name_of(names, id_named(names, ticker)->0) == Some(ticker),
        (forall|other: u16| #[trigger] name_of(names, other) == Some(ticker) ==> other == id)
            ==> id_named(names, ticker) == Some(id),
{
    assert(lists_name(names, ticker));
    let lowest = lowest_named(names, ticker, id);
    lemma_id_named(names, ticker, lowest);
}

proof fn lowest_named(names: Seq<Option<Seq<char>>>, ticker: Seq<char>, id: u16) -> (r: u16)
    requires
        name_of(names, id) == Some(ticker),
    ensures
        first_named(names, ticker, r),
    decreases id,
{
    if exists|other: u16| other < id && #[trigger] name_of(names, other) == Some(ticker) {
        let other = choose|other: u16|
            other < id && #[trigger] name_of(names, other) == Some(ticker);
        lowest_named(names, ticker, other)
    } else {
        id
    }
}

impl Default for TickerMap {
    fn default() -> (r: TickerMap)
        ensures
            r@ == Seq::<Option<Seq<char>>>::empty(),
    {
        let r = TickerMap { names: Vec::new() };
        assert(r@ =~= Seq::<Option<Seq<char>>>::empty());
        r
    }
}

impl TickerMap {
    #[verifier::type_invariant]
    spec fn sized(self) -> bool {
        self.names@.len() <= 0x1_0000
    }

    /// The naming that `pairs` lists.
    pub fn from_pairs(pairs: HashMap<u16, String>) -> (r: TickerMap)
        ensures
            r@.len() <= 0x1_0000,
            r@.len() > 0 ==> r@.last() is Some,
            forall|id: u16| #[trigger]
                name_of(r@, id) == (if pairs@.contains_key(id) {
                    Some(pairs@[id]@)
                } else {
                    None
                }),
    {
        broadcast use vstd::std_specs::hash::group_hash_axioms;

        let mut names: Vec<Option<String>> = Vec::new();
        for id in 0..0x1_0000u32
            invariant
                names@.len() <= id,
                names@.len() > 0 ==> names@.last() is Some,
                forall|i: int|
                    0 <= i < names@.len() ==> name_view(#[trigger] names@[i]) == (
                    if pairs@.contains_key(i as u16) {
                        Some(pairs@[i as u16]@)
                    } else {
                        None
                    }),
                forall|i: u16| names@.len() <= i < id ==> !pairs@.contains_key(i),
        {
            match pairs.get(&(id as u16)) {
                Some(name) => {
                    while names.len() < id as usize
                        invariant
                            id < 0x1_0000,
                            names@.len() <= id,
                            forall|i: int|
                                0 <= i < names@.len() ==> name_view(#[trigger] names@[i]) == (
                                if pairs@.contains_key(i as u16) {
                                    Some(pairs@[i as u16]@)
                                } else {
                                    None
                                }),
                            forall|i: u16| names@.len() <= i < id ==> !pairs@.contains_key(i),
                        decreases id - names@.len(),
                    {
                        assert(!pairs@.contains_key(names@.len() as u16));
                        names.push(None);
                    }
                    names.push(Some(name.clone()));
                },
                None => {},
            }
        }
        let r = TickerMap { names };
        assert forall|id: u16| #[trigger]
            name_of(r@, id) == (if pairs@.contains_key(id) {
                Some(pairs@[id]@)
            } else {
                None
            }) by {
            if id < r@.len() {
                assert(r@[id as int] == name_view(names@[id as int]));
            }
        }
        r
    }

    /// The symbol this dataset encodes `ticker` as, or `None` if it has no data
    /// for that ticker. Where several ids share the name, the lowest.
    pub fn symbol(&self, ticker: &str) -> (r: Option<Symbol>)
        ensures
            r is Some <==> lists_name(self@, ticker@),
            r is Some ==> first_named(self@, ticker@, r->0.id()),
    {
        proof {
            use_type_invariant(self);
        }
        let wanted: String = ticker.to_owned();
        for i in 0..self.names.len()
            invariant
                wanted@ == ticker@,
                self.names@.len() <= 0x1_0000,
                forall|id: u16| id < i ==> #[trigger] name_of(self@, id) != Some(ticker@),
        {
            let found: bool = match &self.names[i] {
                Some(name) => *name == wanted,
                None => false,
            };
            assert(self@[i as int] == name_view(self.names@[i as int]));
            assert(found <==> name_of(self@, i as u16) == Some(ticker@));
            if found {
                let r = Symbol::from_ticker_id(i as u16);
                assert(first_named(self@, ticker@, r.id()));
                return Some(r);
            }
        }
        None
    }

    /// The ticker `symbol` stands for, or `None` for an id the map does not
    /// list.
    pub fn name(&self, symbol: Symbol) -> (r: Option<&str>)
        ensures
            r is Some <==> name_of(self@, symbol.id()) is Some,
            r is Some ==> name_of(self@, symbol.id()) == Some(r->0@),
    {
        if symbol.index() < self.names.len() {
            assert(self@[symbol.id() as int] == name_view(self.names@[symbol.id() as int]));
            match &self.names[symbol.index()] {
                Some(name) => Some(name.as_str()),
                None => None,
            }
        } else {
            None
        }
    }

    /// Every symbol the dataset has data for, in ticker-id order.
    pub fn symbols(&self) -> (r: Vec<Symbol>)
        ensures
            forall|i: int, j: int| 0 <= i < j < r@.len() ==> #[trigger] r@[i].id() < #[trigger] r@[j].id(),
            forall|id: u16|
                #![trigger name_of(self@, id)]
                name_of(self@, id) is Some <==> symbol::ids_of(r@).contains(id),
    {
        proof {
            use_type_invariant(self);
        }
        let mut out: Vec<Symbol> = Vec::new();
        assert(symbol::ids_of(out@) =~= Seq::<u16>::empty());
        for i in 0..self.names.len()
            invariant
                self.names@.len() <= 0x1_0000,
                forall|j: int| 0 <= j < out@.len() ==> #[trigger] out@[j].id() < i,
                forall|j: int, k: int|
                    0 <= j < k < out@.len() ==> #[trigger] out@[j].id() < #[trigger] out@[k].id(),
                forall|id: u16|
                    #![trigger name_of(self@, id)]
                    (id < i && name_of(self@, id) is Some) <==> symbol::ids_of(out@).contains(id),
        {
            let ghost before = out@;
            assert(self@[i as int] == name_view(self.names@[i as int]));
            if self.names[i].is_some() {
                out.push(Symbol::from_ticker_id(i as u16));
                assert(symbol::ids_of(out@) =~= symbol::ids_of(before).push(i as u16));
                assert forall|id: u16|
                    #![trigger name_of(self@, id)]
                    (id < i + 1 && name_of(self@, id) is Some) <==> symbol::ids_of(
                        out@,
                    ).contains(id) by {
                    let listed = symbol::ids_of(before);
                    let longer = listed.push(i as u16);
                    if listed.contains(id) {
                        let k = choose|k: int| 0 <= k < listed.len() && listed[k] == id;
                        assert(longer[k] == id);
                    }
                    if id == i {
                        assert(longer[listed.len() as int] == id);
                    }
                    if longer.contains(id) {
                        let k = choose|k: int| 0 <= k < longer.len() && longer[k] == id;
                        if k < listed.len() {
                            assert(listed[k] == id);
                        }
                    }
                }
            }
        }
        out
    }

    /// One past the highest ticker id: how many slots a dense per-symbol table
    /// needs to cover the dataset.
    pub fn id_space(&self) -> (r: usize)
        ensures
            r == self@.len(),
    {
        self.names.len()
    }

    /// Whether the dataset names nothing.
    pub fn is_empty(&self) -> (r: bool)
        ensures
            r <==> forall|id: u16| #[trigger] name_of(self@, id) is None,
    {
        let symbols = self.symbols();
        proof {
            if symbols@.len() > 0 {
                assert(symbol::ids_of(symbols@)[0] == symbols@[0].id());
                assert(symbol::ids_of(symbols@).contains(symbols@[0].id()));
                assert(name_of(self@, symbols@[0].id()) is Some);
            } else {
                assert forall|id: u16| #[trigger] name_of(self@, id) is None by {
                    assert(!symbol::ids_of(symbols@).contains(id));
                }
            }
        }
        symbols.len() == 0
    }
}

/// Which ticker ids a run subscribes, as a flag per id.
#[derive(Debug)]
pub struct SubscriptionMask {
    subscribed: Vec<bool>,
    count: usize,
}

/// The ids that are flagged.
pub open spec fn flagged(flags: Seq<bool>) -> Set<int> {
    Set::new(|id: int| 0 <= id < flags.len() && flags[id])
}

/// How many of the flags below `end` are set.
pub open spec fn count_set(flags: Seq<bool>, end: int) -> nat
    decreases end,
{
    if end <= 0 {
        0
    } else {
        count_set(flags, end - 1) + if flags[end - 1] {
            1nat
        } else {
            0nat
        }
    }
}

proof fn lemma_count_update(flags: Seq<bool>, id: int, end: int)
    requires
        0 <= id < flags.len(),
        0 <= end <= flags.len(),
    ensures
        count_set(flags.update(id, true), end) == count_set(flags, end) + if id < end
            && !flags[id] {
            1nat
        } else {
            0nat
        },
    decreases end,
{
    if end > 0 {
        lemma_count_update(flags, id, end - 1);
    }
}

proof fn lemma_count_same(a: Seq<bool>, b: Seq<bool>, end: int)
    requires
        0 <= end <= a.len(),
        end <= b.len(),
        forall|i: int| 0 <= i < end ==> a[i] == b[i],
    ensures
        count_set(a, end) == count_set(b, end),
    decreases end,
{
    if end > 0 {
        lemma_count_same(a, b, end - 1);
    }
}

proof fn lemma_count_unset(flags: Seq<bool>, low: int, high: int)
    requires
        0 <= low <= high <= flags.len(),
        forall|i: int| low <= i < high ==> !flags[i],
    ensures
        count_set(flags, high) == count_set(flags, low),
    decreases high - low,
{
    if low < high {
        lemma_count_unset(flags, low, high - 1);
    }
}

proof fn lemma_count_bound(flags: Seq<bool>, end: int)
    requires
        0 <= end <= flags.len(),
    ensures
        count_set(flags, end) <= end,
        (count_set(flags, end) == 0) <==> (forall|i: int| 0 <= i < end ==> !flags[i]),
    decreases end,
{
    if end > 0 {
        lemma_count_bound(flags, end - 1);
        if flags[end - 1] {
            assert(!(forall|i: int| 0 <= i < end ==> !flags[i]));
        }
    }
}

/// The flags a set of ids stands for have as many set as the set has members.
proof fn lemma_count_is_len(flags: Seq<bool>, end: int)
    requires
        0 <= end <= flags.len(),
    ensures
        flagged(flags.take(end)).finite(),
        flagged(flags.take(end)).len() == count_set(flags, end),
    decreases end,
{
    if end == 0 {
        assert(flagged(flags.take(0)) =~= Set::<int>::empty());
    } else {
        lemma_count_is_len(flags, end - 1);
        let before = flagged(flags.take(end - 1));
        if flags[end - 1] {
            assert(flagged(flags.take(end)) =~= before.insert(end - 1));
        } else {
            assert(flagged(flags.take(end)) =~= before);
        }
    }
}

impl View for SubscriptionMask {
    type V = Set<int>;

    /// The subscribed ids.
    closed spec fn view(&self) -> Set<int> {
        flagged(self.subscribed@)
    }
}

impl Default for SubscriptionMask {
    fn default() -> (r: SubscriptionMask)
        ensures
            r@ == Set::<int>::empty(),
            r.space() == 0,
    {
        SubscriptionMask::new()
    }
}

impl Clone for SubscriptionMask {
    fn clone(&self) -> (r: SubscriptionMask)
        ensures
            r@ == self@,
            r.space() == self.space(),
    {
        proof {
            use_type_invariant(self);
        }
        let subscribed: Vec<bool> = self.subscribed.clone();
        assert(subscribed@ =~= self.subscribed@);
        SubscriptionMask { subscribed, count: self.count }
    }
}

impl SubscriptionMask {
    #[verifier::type_invariant]
    spec fn counted(self) -> bool {
        self.count == count_set(self.subscribed@, self.subscribed@.len() as int)
    }

    /// How many ids the mask covers, subscribed or not.
    pub closed spec fn space(&self) -> nat {
        self.subscribed@.len()
    }

    pub fn new() -> (r: SubscriptionMask)
        ensures
            r@ == Set::<int>::empty(),
            r.space() == 0,
    {
        let r = SubscriptionMask { subscribed: Vec::new(), count: 0 };
        assert(r@ =~= Set::<int>::empty());
        r
    }

    /// A mask over every id below `len`, none of them subscribed.
    pub fn with_id_space(len: usize) -> (r: SubscriptionMask)
        ensures
            r@ == Set::<int>::empty(),
            r.space() == len,
    {
        let mut subscribed: Vec<bool> = Vec::new();
        while subscribed.len() < len
            invariant
                subscribed@.len() <= len,
                forall|i: int| 0 <= i < subscribed@.len() ==> !subscribed@[i],
            decreases len - subscribed@.len(),
        {
            subscribed.push(false);
        }
        proof {
            lemma_count_unset(subscribed@, 0, subscribed@.len() as int);
        }
        let r = SubscriptionMask { subscribed, count: 0 };
        assert(r@ =~= Set::<int>::empty());
        r
    }

    /// Subscribe `symbol`.
    pub fn insert(&mut self, symbol: Symbol)
        ensures
            final(self)@ == old(self)@.insert(symbol.id() as int),
            final(self).space() == (if old(self).space() <= symbol.id() {
                symbol.id() + 1
            } else {
                old(self).space() as int
            }),
    {
        proof {
            use_type_invariant(&*self);
        }
        let mut taken = SubscriptionMask::new();
        std::mem::swap(&mut taken, self);
        let count: usize = taken.count;
        let mut subscribed: Vec<bool> = taken.subscribed;
        let ghost before = subscribed@;
        let index: usize = symbol.index();
        while subscribed.len() <= index
            invariant
                before.len() <= subscribed@.len(),
                subscribed@.len() <= index + 1 || subscribed@.len() == before.len(),
                forall|i: int| 0 <= i < before.len() ==> #[trigger] subscribed@[i] == before[i],
                forall|i: int| before.len() <= i < subscribed@.len() ==> !subscribed@[i],
            decreases index + 1 - subscribed@.len(),
        {
            subscribed.push(false);
        }
        let ghost grown = subscribed@;
        proof {
            lemma_count_same(before, grown, before.len() as int);
            lemma_count_unset(grown, before.len() as int, grown.len() as int);
            lemma_count_update(grown, index as int, grown.len() as int);
            lemma_count_bound(grown.update(index as int, true), grown.len() as int);
        }
        let new: bool = !subscribed[index];
        subscribed.set(index, true);
        let count: usize = if new {
            count + 1
        } else {
            count
        };
        *self = SubscriptionMask { subscribed, count };
        assert(self@ =~= old(self)@.insert(symbol.id() as int));
    }

    /// Whether the ticker id is subscribed.
    pub fn contains(&self, ticker_id: u16) -> (r: bool)
        ensures
            r == self@.contains(ticker_id as int),
    {
        if (ticker_id as usize) < self.subscribed.len() {
            self.subscribed[ticker_id as usize]
        } else {
            false
        }
    }

    /// How many ids are subscribed.
    pub fn len(&self) -> (r: usize)
        ensures
            self@.finite(),
            r == self@.len(),
            r <= self.space(),
    {
        proof {
            use_type_invariant(self);
            lemma_count_is_len(self.subscribed@, self.subscribed@.len() as int);
            lemma_count_bound(self.subscribed@, self.subscribed@.len() as int);
            assert(self.subscribed@.take(self.subscribed@.len() as int) =~= self.subscribed@);
        }
        self.count
    }

    /// Whether nothing is subscribed at all.
    pub fn is_empty(&self) -> (r: bool)
        ensures
            r <==> self@ =~= Set::<int>::empty(),
    {
        proof {
            use_type_invariant(self);
            lemma_count_bound(self.subscribed@, self.subscribed@.len() as int);
            if self.count != 0 {
                let i = choose|i: int| 0 <= i < self.subscribed@.len() && self.subscribed@[i];
                assert(self@.contains(i));
            }
        }
        self.count == 0
    }

    /// Whether filtering rows while decoding beats decoding all of them: it
    /// does where at most half of the id space is subscribed.
    pub fn worth_pushing_down(&self) -> (r: bool)
        ensures
            r <==> worth_filtering(self@.len() as int, self.space() as int),
            r <==> 2 * self@.len() <= self.space(),
    {
        let count: usize = self.len();
        let space: usize = self.subscribed.len();
        count <= space / 2
    }
}

/// Whether filtering out all but `count` of `space` ids is worth it.
pub open spec fn worth_filtering(count: int, space: int) -> bool {
    2 * count <= space
}

/// Filtering is worth it exactly where no more ids are kept than are filtered out.
pub proof fn filtering_pays_for_half(kept: int, filtered: int)
    requires
        kept >= 0,
        filtered >= 0,
    ensures
        worth_filtering(kept, kept + filtered) <==> kept <= filtered,
{
}

/// The number a partition directory stands for: a bare number, or what follows
/// the last equals sign.
pub open spec fn dir_number(entry: Seq<char>) -> Option<nat> {
    match text::unsigned_value(text::after_last(entry, '=')) {
        Some(value) if value <= u32::MAX => Some(value),
        _ => None,
    }
}

/// The year and month a data file belongs to, from the two directories it lies
/// in.
pub open spec fn year_month_of(path: Seq<char>) -> Option<(nat, nat)> {
    let entries = text::path_entries(path);
    if entries.len() < 3 {
        None
    } else {
        match (dir_number(entries[entries.len() - 3]), dir_number(entries[entries.len() - 2])) {
            (Some(year), Some(month)) => Some((year, month)),
            _ => None,
        }
    }
}

fn parse_dir(entry: &Vec<char>) -> (r: Option<u32>)
    ensures
        r is Some <==> dir_number(entry@) is Some,
        r is Some ==> dir_number(entry@) == Some(r->0 as nat),
{
    parse_unsigned(&after_last_mark(entry, '='), u32::MAX)
}

/// The (year, month) a data file belongs to, derived from its
/// `year=YYYY/month=M` (or bare `YYYY/M`) parent directories.
pub fn file_year_month(path: &str) -> (r: Option<(u32, u32)>)
    ensures
        r is Some <==> year_month_of(path@) is Some,
        r matches Some(at) ==> year_month_of(path@) == Some((at.0 as nat, at.1 as nat)),
{
    let entries = entries_of(path);
    let n: usize = entries.len();
    assert(text::views(entries@).len() == n);
    if n < 3 {
        return None;
    }
    assert(text::views(entries@)[n - 3] == entries@[n - 3]@);
    assert(text::views(entries@)[n - 2] == entries@[n - 2]@);
    match parse_dir(&entries[n - 3]) {
        Some(year) => match parse_dir(&entries[n - 2]) {
            Some(month) => Some((year, month)),
            None => None,
        },
        None => None,
    }
}

/// Whether a directory's name tells a number: the bare number, or a label, an
/// equals sign and the number.
pub open spec fn tells(entry: Seq<char>, label: Seq<char>, number: nat) -> bool {
    entry == text::decimal(number) || entry == label.push('=') + text::decimal(number)
}

/// A file in a directory for a month in a directory for a year lies in that month,
/// wherever the two lie and whatever they call the year and the month; one that lies
/// in fewer than two directories lies in none.
pub proof fn files_lie_in_the_month_of_their_directories(
    root: Seq<char>,
    year_dir: Seq<char>,
    year_label: Seq<char>,
    year: nat,
    month_dir: Seq<char>,
    month_label: Seq<char>,
    month: nat,
    file: Seq<char>,
)
    requires
        year <= u32::MAX,
        month <= u32::MAX,
        tells(year_dir, year_label, year),
        tells(month_dir, month_label, month),
        text::is_name(year_dir),
        text::is_name(month_dir),
        text::is_name(file),
    ensures
        year_month_of(text::joined(text::joined(text::joined(root, year_dir), month_dir), file))
            == Some((year, month)),
        year_month_of(file) is None,
        year_month_of(text::joined(month_dir, file)) is None,
{
    let outer = text::joined(root, year_dir);
    let inner = text::joined(outer, month_dir);
    let path = text::joined(inner, file);
    text::a_name_is_one_entry(year_dir);
    text::a_name_is_one_entry(month_dir);
    text::a_name_is_one_entry(file);
    text::joining_puts_entries_behind_each_other(root, year_dir);
    text::joining_puts_entries_behind_each_other(outer, month_dir);
    text::joining_puts_entries_behind_each_other(inner, file);
    text::joining_puts_entries_behind_each_other(month_dir, file);
    let entries = text::path_entries(path);
    assert(entries =~= text::path_entries(root) + seq![year_dir, month_dir, file]);
    lemma_told(year_dir, year_label, year);
    lemma_told(month_dir, month_label, month);
}

proof fn lemma_told(entry: Seq<char>, label: Seq<char>, number: nat)
    requires
        tells(entry, label, number),
        number <= u32::MAX,
    ensures
        dir_number(entry) == Some(number),
{
    let digits = text::decimal(number);
    text::numbers_are_read_back(number, digits, 0);
    assert forall|i: int| 0 <= i < digits.len() implies #[trigger] digits[i] != '=' by {
        if i > 0 {
            text::numbers_are_read_back(number, digits, i);
        } else {
            text::numbers_are_read_back(number, digits, 0);
        }
    }
    text::the_last_mark_decides(label, '=', digits);
}

} // verus!
