//! The metadata files next to the data: the ticker map, splits, dividends and
//! renames.
//!
//! Reading a file and taking its JSON apart into records is the caller's; what
//! is here decides what the records come to. The ticker map is a plain JSON
//! object of texts, which is parsed here.

use std::collections::{BTreeMap, HashMap};

use rustc_hash::FxHashSet;
use vstd::prelude::*;
use vstd::string::*;

use crate::agenda;
use crate::agenda::Agenda;
use crate::calendar;
use crate::calendar::Date;
use crate::data;
use crate::data::TickerMap;
use crate::error::BacktestError;
use crate::exact;
use crate::number;
use crate::number::Number;
use crate::text;
use crate::text::{absolute, chars_of, join, parse_unsigned};

verus! {

/// Metadata files the loaders expect inside the data root, next to the Parquet
/// tree. Only the ticker map is required.
pub const TICKER_MAP_FILE: &'static str = "encoded_tickers.json";

pub const SPLITS_FILE: &'static str = "get_splits.json";

pub const DIVIDENDS_FILE: &'static str = "get_dividends.json";

pub const RENAMES_FILE: &'static str = "ticker_renames.json";

pub const INSIDER_FILE: &'static str = "insider_transactions.json";

/// The hasher of a set of names.
#[verifier::external_type_specification]
#[verifier::external_body]
pub struct ExFxBuildHasher(rustc_hash::FxBuildHasher);

/// The names a set holds.
pub uninterp spec fn held_names(names: &FxHashSet<String>) -> Set<Seq<char>>;

/// `rustc_hash::FxHashSet`'s `default`: it holds no name.
#[verifier::external_body]
pub(crate) fn no_names() -> (r: FxHashSet<String>)
    ensures
        held_names(&r) == Set::<Seq<char>>::empty(),
{
    FxHashSet::default()
}

/// `rustc_hash::FxHashSet::insert`: the set holds the name besides what it
/// held.
#[verifier::external_body]
pub(crate) fn add_name(names: &mut FxHashSet<String>, name: &str)
    ensures
        held_names(final(names)) == held_names(old(names)).insert(name@),
{
    names.insert(name.to_owned());
}

/// `rustc_hash::FxHashSet::contains`: whether the set holds the name.
#[verifier::external_body]
pub(crate) fn has_name(names: &FxHashSet<String>, name: &str) -> (r: bool)
    ensures
        r == held_names(names).contains(name@),
{
    names.contains(name)
}

/// The entries of a JSON object of texts, in the order of their keys, or what
/// is wrong with it.
pub uninterp spec fn text_object(content: Seq<char>) -> Result<
    Seq<(Seq<char>, Seq<char>)>,
    Seq<char>,
>;

/// What a list of text pairs says.
pub open spec fn pair_views(pairs: Seq<(String, String)>) -> Seq<(Seq<char>, Seq<char>)> {
    Seq::new(pairs.len(), |i: int| (pairs[i].0@, pairs[i].1@))
}

/// `serde_json::from_str` into a map of texts: named.
#[verifier::external_body]
pub(crate) fn parse_text_object(content: &str) -> (r: Result<Vec<(String, String)>, String>)
    ensures
        r is Ok <==> text_object(content@) is Ok,
        r is Ok ==> text_object(content@) == Ok::<_, Seq<char>>(pair_views(r->Ok_0@)),
        r is Err ==> text_object(content@) == Err::<Seq<(Seq<char>, Seq<char>)>, _>(r->Err_0@),
{
    match serde_json::from_str::<BTreeMap<String, String>>(content) {
        Ok(map) => Ok(map.into_iter().collect()),
        Err(e) => Err(e.to_string()),
    }
}

/// The ticker id a key stands for, if it is one.
pub open spec fn ticker_id_of(key: Seq<char>) -> Option<u16> {
    match text::unsigned_value(key) {
        Some(value) if value <= u16::MAX => Some(value as u16),
        _ => None,
    }
}

/// Whether pair `i` is the first whose key is no ticker id.
pub open spec fn first_bad_key(pairs: Seq<(Seq<char>, Seq<char>)>, i: int) -> bool {
    &&& 0 <= i < pairs.len()
    &&& ticker_id_of(pairs[i].0) is None
    &&& forall|j: int| 0 <= j < i ==> ticker_id_of((#[trigger] pairs[j]).0) is Some
}

/// Whether every key is a ticker id.
pub open spec fn keys_are_ids(pairs: Seq<(Seq<char>, Seq<char>)>) -> bool {
    forall|i: int| 0 <= i < pairs.len() ==> ticker_id_of((#[trigger] pairs[i]).0) is Some
}

/// The names that pairs give to ids. Of two for one id the later stands.
pub open spec fn named_ids(pairs: Seq<(Seq<char>, Seq<char>)>) -> Map<u16, Seq<char>>
    decreases pairs.len(),
{
    if pairs.len() == 0 {
        Map::empty()
    } else {
        let before = named_ids(pairs.drop_last());
        match ticker_id_of(pairs.last().0) {
            Some(id) => before.insert(id, pairs.last().1),
            None => before,
        }
    }
}

/// The texts of a map.
pub open spec fn text_values(map: Map<u16, String>) -> Map<u16, Seq<char>> {
    map.map_values(|text: String| text@)
}

/// `error` says that `key` is no ticker id.
pub open spec fn reports_key(error: BacktestError, path: Seq<char>, key: Seq<char>) -> bool {
    error matches BacktestError::InvalidTickerKey { path: named, key: bad } && named@ == path
        && bad@ == key
}

/// `error` says that a file's JSON is malformed.
pub open spec fn reports_json(error: BacktestError, path: Seq<char>, message: Seq<char>) -> bool {
    error matches BacktestError::Json { path: named, message: said } && named@ == path && said@
        == message
}

/// `error` says that a file could not be read.
pub open spec fn reports_io(error: BacktestError, path: Seq<char>, message: Seq<char>) -> bool {
    error matches BacktestError::Io { path: named, message: said } && named@ == path && said@
        == message
}

/// The ticker ids and names of the pairs of a ticker map file.
pub fn read_ticker_pairs(path: &str, pairs: &Vec<(String, String)>) -> (r: Result<
    HashMap<u16, String>,
    BacktestError,
>)
    ensures
        r is Ok <==> keys_are_ids(pair_views(pairs@)),
        match r {
            Ok(map) => text_values(map@) == named_ids(pair_views(pairs@)),
            Err(error) => exists|i: int|
                #[trigger] first_bad_key(pair_views(pairs@), i) && reports_key(
                    error,
                    path@,
                    pairs@[i].0@,
                ),
        },
{
    broadcast use vstd::std_specs::hash::group_hash_axioms;

    let mut map: HashMap<u16, String> = HashMap::new();
    let ghost views = pair_views(pairs@);
    proof {
        assert(views.take(0) =~= Seq::empty());
        assert(text_values(map@) =~= Map::<u16, Seq<char>>::empty());
    }
    for i in 0..pairs.len()
        invariant
            views == pair_views(pairs@),
            forall|j: int| 0 <= j < i ==> ticker_id_of((#[trigger] views[j]).0) is Some,
            text_values(map@) == named_ids(views.take(i as int)),
    {
        let key: &String = &pairs[i].0;
        let name: &String = &pairs[i].1;
        assert(views[i as int] == (key@, name@));
        proof {
            assert(views.take(i + 1).drop_last() =~= views.take(i as int));
            assert(views.take(i + 1).last() == views[i as int]);
        }
        match parse_unsigned(&chars_of(key.as_str()), u16::MAX as u32) {
            Some(id) => {
                let id: u16 = id as u16;
                let ghost before = map@;
                let kept: String = name.as_str().to_owned();
                map.insert(id, kept);
                assert(map@ == before.insert(id, kept));
                assert(text_values(map@) =~= text_values(before).insert(id, name@));
            },
            None => {
                assert(first_bad_key(views, i as int));
                return Err(
                    BacktestError::InvalidTickerKey {
                        path: path.to_owned(),
                        key: key.as_str().to_owned(),
                    },
                );
            },
        }
    }
    assert(views.take(views.len() as int) =~= views);
    Ok(map)
}

/// The ticker ids and names a ticker map file lists. `read` is the file's text,
/// or why it could not be read; `path` stands in errors.
pub fn load_ticker_map_from(path: &str, read: Result<String, String>) -> (r: Result<
    HashMap<u16, String>,
    BacktestError,
>)
    ensures
        match read {
            Err(message) => r is Err && reports_io(r->Err_0, path@, message@),
            Ok(content) => match text_object(content@) {
                Err(message) => r is Err && reports_json(r->Err_0, path@, message),
                Ok(pairs) => {
                    &&& r is Ok <==> keys_are_ids(pairs)
                    &&& r is Ok ==> text_values(r->Ok_0@) == named_ids(pairs)
                    &&& r is Err ==> exists|i: int|
                        #[trigger] first_bad_key(pairs, i) && reports_key(
                            r->Err_0,
                            path@,
                            pairs[i].0,
                        )
                },
            },
        },
{
    match read {
        Ok(content) => match parse_text_object(content.as_str()) {
            Ok(pairs) => read_ticker_pairs(path, &pairs),
            Err(message) => Err(BacktestError::Json { path: path.to_owned(), message }),
        },
        Err(message) => Err(BacktestError::Io { path: path.to_owned(), message }),
    }
}

/// A metadata file inside the data root.
pub open spec fn in_root(data_root: Seq<char>, name: Seq<char>) -> Seq<char> {
    data_root + "/"@ + name
}

/// A metadata file inside the data root.
pub fn file_in_root(data_root: &str, name: &str) -> (r: String)
    ensures
        r@ == in_root(data_root@, name@),
{
    let mut path: String = data_root.to_owned();
    path.append("/");
    path.append(name);
    path
}

/// The ticker ids and names the data root's ticker map lists. `read` is the
/// file's text, or why it could not be read.
pub fn load_ticker_map(data_root: &str, read: Result<String, String>) -> (r: Result<
    HashMap<u16, String>,
    BacktestError,
>)
    ensures
        ({
            let path = in_root(data_root@, TICKER_MAP_FILE@);
            match read {
                Err(message) => r is Err && reports_io(r->Err_0, path, message@),
                Ok(content) => match text_object(content@) {
                    Err(message) => r is Err && reports_json(r->Err_0, path, message),
                    Ok(pairs) => {
                        &&& r is Ok <==> keys_are_ids(pairs)
                        &&& r is Ok ==> text_values(r->Ok_0@) == named_ids(pairs)
                        &&& r is Err ==> exists|i: int|
                            #[trigger] first_bad_key(pairs, i) && reports_key(
                                r->Err_0,
                                path,
                                pairs[i].0,
                            )
                    },
                },
            }
        }),
{
    load_ticker_map_from(file_in_root(data_root, TICKER_MAP_FILE).as_str(), read)
}

/// Whether `names` is the naming that `pairs` give.
pub open spec fn names_pairs(
    names: Seq<Option<Seq<char>>>,
    pairs: Seq<(Seq<char>, Seq<char>)>,
) -> bool {
    &&& names.len() > 0 ==> names.last() is Some
    &&& forall|id: u16| #[trigger]
        data::name_of(names, id) == (if named_ids(pairs).contains_key(id) {
            Some(named_ids(pairs)[id])
        } else {
            None
        })
}

impl TickerMap {
    /// The naming a ticker map file gives. `read` is the file's text, or why it
    /// could not be read; `path` stands in errors.
    pub fn load(path: &str, read: Result<String, String>) -> (r: Result<TickerMap, BacktestError>)
        ensures
            match read {
                Err(message) => r is Err && reports_io(r->Err_0, path@, message@),
                Ok(content) => match text_object(content@) {
                    Err(message) => r is Err && reports_json(r->Err_0, path@, message),
                    Ok(pairs) => {
                        &&& r is Ok <==> keys_are_ids(pairs)
                        &&& r is Ok ==> names_pairs(r->Ok_0@, pairs)
                        &&& r is Err ==> exists|i: int|
                            #[trigger] first_bad_key(pairs, i) && reports_key(
                                r->Err_0,
                                path@,
                                pairs[i].0,
                            )
                    },
                },
            },
    {
        match load_ticker_map_from(path, read) {
            Ok(pairs) => {
                let ghost listed = pairs@;
                let r = TickerMap::from_pairs(pairs);
                assert forall|id: u16| #[trigger]
                    data::name_of(r@, id) == (if text_values(listed).contains_key(id) {
                        Some(text_values(listed)[id])
                    } else {
                        None
                    }) by {
                    assert(text_values(listed).contains_key(id) <==> listed.contains_key(id));
                }
                Ok(r)
            },
            Err(error) => Err(error),
        }
    }
}

/// Where a metadata file lies: a configured path, below the data root unless it
/// is absolute, or the default name in the data root. The flag says whether the
/// path was configured: a missing optional file is only tolerated at the
/// default, one that was asked for must exist.
pub fn resolve_data_file(data_root: &str, custom: &Option<String>, default_name: &str) -> (r: (
    String,
    bool,
))
    ensures
        match *custom {
            Some(path) => r.0@ == text::joined(data_root@, path@) && r.1,
            None => r.0@ == text::joined(data_root@, default_name@) && !r.1,
        },
        *custom is Some && text::is_absolute((*custom)->0@) ==> r.0@ == (*custom)->0@,
{
    match custom {
        Some(path) => {
            if absolute(path.as_str()) {
                (path.as_str().to_owned(), true)
            } else {
                (join(data_root, path.as_str()), true)
            }
        },
        None => (join(data_root, default_name), false),
    }
}

/// Where results go: the directory that was set, else the one the environment
/// names, if it names one.
pub fn output_place(set: Option<String>, env: Option<String>) -> (r: Option<String>)
    ensures
        r == if set is Some {
            set
        } else if env is Some && env->0@.len() > 0 {
            env
        } else {
            None
        },
{
    match set {
        Some(dir) => Some(dir),
        None => match env {
            Some(dir) => {
                if dir.as_str().unicode_len() > 0 {
                    Some(dir)
                } else {
                    None
                }
            },
            None => None,
        },
    }
}

/// What came of reading a metadata file.
pub enum Loaded<T> {
    /// Its records.
    Parsed(T),
    /// It is not what it should be, and why.
    Malformed(String),
    /// There is no such file.
    Missing(String),
    /// It could not be read, and why.
    Unreadable(String),
}

/// The error of reading a metadata file, if it is one. A missing file is one
/// only where it is required.
pub open spec fn load_fails<T>(loaded: Loaded<T>, required: bool) -> bool {
    match loaded {
        Loaded::Parsed(_) => false,
        Loaded::Missing(_) => required,
        _ => true,
    }
}

/// `error` reports what came of reading a metadata file that holds `what`.
pub open spec fn reports_load<T>(
    error: BacktestError,
    loaded: Loaded<T>,
    path: Seq<char>,
    what: Seq<char>,
) -> bool {
    match loaded {
        Loaded::Parsed(_) => false,
        Loaded::Malformed(message) => reports_json(
            error,
            path,
            "not valid "@ + what + " JSON: "@ + message@,
        ),
        Loaded::Missing(message) => reports_io(error, path, message@),
        Loaded::Unreadable(message) => reports_io(error, path, message@),
    }
}

/// The records of a metadata file that holds `what`, if there is a file.
pub(crate) fn records_of<T>(
    path: &str,
    loaded: Loaded<Vec<T>>,
    required: bool,
    what: &str,
) -> (r: Result<Vec<T>, BacktestError>)
    ensures
        r is Err <==> load_fails(loaded, required),
        match r {
            Ok(records) => match loaded {
                Loaded::Parsed(all) => records == all,
                _ => records@ == Seq::<T>::empty(),
            },
            Err(error) => reports_load(error, loaded, path@, what@),
        },
{
    match loaded {
        Loaded::Parsed(records) => Ok(records),
        Loaded::Malformed(message) => {
            let mut said: String = "not valid ".to_owned();
            said.append(what);
            said.append(" JSON: ");
            said.append(message.as_str());
            Err(BacktestError::Json { path: path.to_owned(), message: said })
        },
        Loaded::Missing(message) => {
            if required {
                Err(BacktestError::Io { path: path.to_owned(), message })
            } else {
                Ok(Vec::new())
            }
        },
        Loaded::Unreadable(message) => Err(BacktestError::Io { path: path.to_owned(), message }),
    }
}

/// The records a metadata file amounts to, none where it is missing.
pub open spec fn loaded_records<T>(loaded: Loaded<Vec<T>>) -> Seq<T> {
    match loaded {
        Loaded::Parsed(records) => records@,
        _ => Seq::empty(),
    }
}

/// Where a ticker stands in a day's list, or -1.
pub open spec fn place_in<T>(items: Seq<(Seq<char>, T)>, ticker: Seq<char>) -> int
    decreases items.len(),
{
    if items.len() == 0 {
        -1
    } else {
        let place = place_in(items.drop_last(), ticker);
        if place >= 0 {
            place
        } else if items.last().0 == ticker {
            items.len() - 1
        } else {
            -1
        }
    }
}

/// Amounts by day, each day's as a list of tickers.
pub type AmountsView<N> = Map<i32, Seq<(Seq<char>, N)>>;

/// The amounts of a day.
pub open spec fn amounts_on<N>(table: AmountsView<N>, day: i32) -> Seq<(Seq<char>, N)> {
    if table.contains_key(day) {
        table[day]
    } else {
        Seq::empty()
    }
}

/// The amount of a ticker on a day, if there is one.
pub open spec fn amount_on<N>(table: AmountsView<N>, ticker: Seq<char>, day: i32) -> Option<N> {
    let items = amounts_on(table, day);
    let place = place_in(items, ticker);
    if place >= 0 {
        Some(items[place].1)
    } else {
        None
    }
}

/// A table in which a ticker's amount on a day is `amount`.
pub open spec fn with_amount<N>(
    table: AmountsView<N>,
    ticker: Seq<char>,
    day: i32,
    amount: N,
) -> AmountsView<N> {
    let items = amounts_on(table, day);
    let place = place_in(items, ticker);
    table.insert(
        day,
        if place >= 0 {
            items.update(place, (ticker, amount))
        } else {
            items.push((ticker, amount))
        },
    )
}

pub proof fn lemma_place_range<T>(items: Seq<(Seq<char>, T)>, ticker: Seq<char>)
    ensures
        -1 <= place_in(items, ticker) < items.len(),
        place_in(items, ticker) >= 0 ==> items[place_in(items, ticker)].0 == ticker,
        forall|i: int| 0 <= i < items.len() && (#[trigger] items[i]).0 == ticker ==> 0 <= place_in(
            items,
            ticker,
        ) <= i,
    decreases items.len(),
{
    if items.len() > 0 {
        let shorter = items.drop_last();
        lemma_place_range(shorter, ticker);
        assert forall|i: int| 0 <= i < items.len() && (#[trigger] items[i]).0
            == ticker implies 0 <= place_in(items, ticker) <= i by {
            if i < shorter.len() {
                assert(shorter[i].0 == ticker);
            }
        }
    }
}

/// Whether no day of a table lists a ticker twice.
pub open spec fn lists_once<N>(table: AmountsView<N>) -> bool {
    forall|day: i32, i: int, j: int|
        table.contains_key(day) && 0 <= i < j < table[day].len() ==> (
        #[trigger] table[day][i]).0 != (#[trigger] table[day][j]).0
}

/// Setting an amount sets that amount and no other, and keeps a table that
/// lists every ticker once a day so.
pub proof fn setting_sets_one_amount<N>(
    table: AmountsView<N>,
    ticker: Seq<char>,
    day: i32,
    amount: N,
    other: Seq<char>,
    other_day: i32,
)
    ensures
        amount_on(with_amount(table, ticker, day, amount), ticker, day) == Some(amount),
        (other != ticker || other_day != day) ==> amount_on(
            with_amount(table, ticker, day, amount),
            other,
            other_day,
        ) == amount_on(table, other, other_day),
        lists_once(table) ==> lists_once(with_amount(table, ticker, day, amount)),
{
    let items = amounts_on(table, day);
    let after = amounts_on(with_amount(table, ticker, day, amount), day);
    lemma_place_range(items, ticker);
    lemma_place_range(after, ticker);
    let place = place_in(items, ticker);
    if place >= 0 {
        assert(after[place].0 == ticker);
        assert(items[place_in(after, ticker)].0 == ticker);
    } else {
        assert(after[items.len() as int].0 == ticker);
        if place_in(after, ticker) < items.len() {
            assert(items[place_in(after, ticker)].0 == ticker);
        }
    }
    if other_day == day && other != ticker {
        lemma_place_range(items, other);
        lemma_place_range(after, other);
        let was = place_in(items, other);
        let is = place_in(after, other);
        if was >= 0 {
            assert(after[was].0 == other);
        }
        if is >= 0 {
            assert(items[is].0 == other);
        }
    }
    if lists_once(table) {
        let result = with_amount(table, ticker, day, amount);
        assert forall|d: i32, i: int, j: int|
            result.contains_key(d) && 0 <= i < j < result[d].len() implies (
        #[trigger] result[d][i]).0 != (#[trigger] result[d][j]).0 by {
            if d == day {
                if j < items.len() {
                    assert(table[d][i].0 != table[d][j].0);
                } else if result[d][i].0 == ticker {
                    assert(items[i].0 == ticker);
                }
            } else {
                assert(table[d][i].0 != table[d][j].0);
            }
        }
    }
}

/// Amounts of tickers by date.
pub struct Amounts<N> {
    days: Agenda<(String, N)>,
}

/// What a day's list says.
pub open spec fn item_views<N>(items: Seq<(String, N)>) -> Seq<(Seq<char>, N)> {
    Seq::new(items.len(), |i: int| (items[i].0@, items[i].1))
}

/// What an agenda of tickers and amounts says.
pub open spec fn item_agenda<N>(items: Map<i32, Seq<(String, N)>>) -> AmountsView<N> {
    items.map_values(|items: Seq<(String, N)>| item_views(items))
}

impl<N> View for Amounts<N> {
    type V = AmountsView<N>;

    closed spec fn view(&self) -> AmountsView<N> {
        item_agenda(self.days@)
    }
}

fn find_ticker<N: Copy>(items: &Vec<(String, N)>, ticker: &str) -> (r: Option<usize>)
    ensures
        r is Some <==> place_in(item_views(items@), ticker@) >= 0,
        r is Some ==> r->0 == place_in(item_views(items@), ticker@),
{
    let ghost views = item_views(items@);
    let wanted: String = ticker.to_owned();
    proof {
        lemma_place_range(views, ticker@);
    }
    for i in 0..items.len()
        invariant
            wanted@ == ticker@,
            views == item_views(items@),
            -1 <= place_in(views, ticker@) < views.len(),
            place_in(views, ticker@) >= 0 ==> views[place_in(views, ticker@)].0 == ticker@,
            forall|j: int| 0 <= j < i ==> (#[trigger] views[j]).0 != ticker@,
    {
        assert(views[i as int].0 == items@[i as int].0@);
        if items[i].0 == wanted {
            proof {
                lemma_place_range(views, ticker@);
            }
            return Some(i);
        }
    }
    None
}

impl<N: Copy> Amounts<N> {
    pub fn new() -> (r: Amounts<N>)
        ensures
            r@ == AmountsView::<N>::empty(),
    {
        let r = Amounts { days: Agenda::new() };
        assert(r@ =~= AmountsView::<N>::empty());
        r
    }

    /// The amount of a ticker on a date, if there is one.
    pub fn get(&self, ticker: &str, date: Date) -> (r: Option<N>)
        ensures
            r == amount_on(self@, ticker@, date.day() as i32),
    {
        match self.days.get(date.day_number()) {
            Some(items) => {
                proof {
                    lemma_place_range(item_views(items@), ticker@);
                }
                match find_ticker(items, ticker) {
                    Some(place) => {
                        assert(item_views(items@)[place as int].1 == items@[place as int].1);
                        Some(items[place].1)
                    },
                    None => None,
                }
            },
            None => {
                assert(amounts_on(self@, date.day() as i32).len() == 0);
                None
            },
        }
    }

    /// All amounts with their day numbers, oldest day first.
    pub fn listed(&self) -> (r: Vec<(i32, &(String, N))>)
        ensures
            r@.len() == agenda::all_dated(self@).len(),
            forall|i: int|
                0 <= i < r@.len() ==> agenda::all_dated(self@)[i] == (
                    (#[trigger] r@[i]).0,
                    (r@[i].1.0@, r@[i].1.1),
                ),
    {
        let r = self.days.listed();
        proof {
            let says = |item: (String, N)| (item.0@, item.1);
            assert forall|d: i32| #[trigger] self.days@.contains_key(d) implies self@[d]
                == Seq::new(self.days@[d].len(), |i: int| says(self.days@[d][i])) by {
                assert(self@[d] =~= Seq::new(
                    self.days@[d].len(),
                    |i: int| says(self.days@[d][i]),
                ));
            }
            agenda::lemma_dated_maps(self.days@, self@, says, i32::MAX as int);
            assert forall|i: int| 0 <= i < r@.len() implies agenda::all_dated(self@)[i] == (
                (#[trigger] r@[i]).0,
                (r@[i].1.0@, r@[i].1.1),
            ) by {
                assert(agenda::dated_through(self@, i32::MAX as int)[i] == (
                    agenda::dated_through(self.days@, i32::MAX as int)[i].0,
                    says(agenda::dated_through(self.days@, i32::MAX as int)[i].1),
                ));
            }
        }
        r
    }

    /// Set the amount of a ticker on a date.
    pub fn set(&mut self, ticker: &str, date: Date, amount: N)
        ensures
            final(self)@ == with_amount(old(self)@, ticker@, date.day() as i32, amount),
    {
        let day: i32 = date.day_number();
        let ghost before = self@;
        let mut items: Vec<(String, N)> = self.days.take_on(day);
        assert(item_views(items@) =~= amounts_on(before, day));
        proof {
            lemma_place_range(item_views(items@), ticker@);
        }
        let ghost was = items@;
        let entry: (String, N) = (ticker.to_owned(), amount);
        match find_ticker(&items, ticker) {
            Some(place) => {
                items.set(place, entry);
                assert(item_views(items@) =~= item_views(was).update(
                    place as int,
                    (ticker@, amount),
                ));
            },
            None => {
                items.push(entry);
                assert(item_views(items@) =~= item_views(was).push((ticker@, amount)));
            },
        }
        self.days.put_on(day, items);
        assert(self@ =~= with_amount(before, ticker@, day, amount));
    }
}

/// One record of the splits file: `split_from` old shares become `split_to`
/// new ones.
pub struct SplitRecord<N> {
    pub execution_date: String,
    pub ticker: String,
    pub split_from: N,
    pub split_to: N,
}

/// One record of the dividends file.
pub struct DividendRecord<N> {
    pub ex_dividend_date: String,
    pub ticker: String,
    pub cash_amount: N,
}

/// One record of the renames file.
pub struct RenameRecord {
    pub date: String,
    pub old: String,
    pub new: String,
}

/// Whether a split record counts: it is of a ticker asked for, both its counts
/// of shares are positive and its date is one.
pub open spec fn split_counts<N: Number>(record: SplitRecord<N>, names: Set<Seq<char>>) -> bool {
    &&& names.contains(record.ticker@)
    &&& !record.split_from.le(N::zero())
    &&& !record.split_to.le(N::zero())
    &&& calendar::parsed_day(record.execution_date@) is Some
}

/// The ratios with a split record added. Records of one day multiply.
pub open spec fn with_split_record<N: Number>(
    table: AmountsView<N>,
    record: SplitRecord<N>,
    names: Set<Seq<char>>,
) -> AmountsView<N> {
    if split_counts(record, names) {
        let day = calendar::parsed_day(record.execution_date@)->0 as i32;
        let before = match amount_on(table, record.ticker@, day) {
            Some(ratio) => ratio,
            None => number::one::<N>(),
        };
        with_amount(
            table,
            record.ticker@,
            day,
            before.mul(record.split_to.div(record.split_from)),
        )
    } else {
        table
    }
}

/// New shares per old share by date and ticker.
pub open spec fn split_ratios<N: Number>(
    records: Seq<SplitRecord<N>>,
    names: Set<Seq<char>>,
) -> AmountsView<N>
    decreases records.len(),
{
    if records.len() == 0 {
        Map::empty()
    } else {
        with_split_record(split_ratios(records.drop_last(), names), records.last(), names)
    }
}

/// Stock splits by execution date: new shares per old share, so 3 for a 1-for-3
/// forward split. Only splits of `names` are kept. A missing file holds none,
/// unless it is `required`.
pub fn load_splits_from<N: Number>(
    path: &str,
    loaded: Loaded<Vec<SplitRecord<N>>>,
    names: &FxHashSet<String>,
    required: bool,
) -> (r: Result<Amounts<N>, BacktestError>)
    ensures
        r is Err <==> load_fails(loaded, required),
        match r {
            Ok(table) => table@ == split_ratios(loaded_records(loaded), held_names(names)),
            Err(error) => reports_load(error, loaded, path@, "splits"@),
        },
{
    let records: Vec<SplitRecord<N>> = match records_of(path, loaded, required, "splits") {
        Ok(records) => records,
        Err(error) => {
            return Err(error);
        },
    };
    let mut table: Amounts<N> = Amounts::new();
    assert(records@.take(0) =~= Seq::<SplitRecord<N>>::empty());
    for i in 0..records.len()
        invariant
            table@ == split_ratios(records@.take(i as int), held_names(names)),
    {
        let record = &records[i];
        proof {
            assert(records@.take(i + 1).drop_last() =~= records@.take(i as int));
            assert(records@.take(i + 1).last() == record);
        }
        if has_name(names, record.ticker.as_str()) && !record.split_from.le(N::zero())
            && !record.split_to.le(N::zero()) {
            if let Some(date) = Date::parse(record.execution_date.as_str()) {
                let before: N = match table.get(record.ticker.as_str(), date) {
                    Some(ratio) => ratio,
                    None => N::from_u64(1),
                };
                table.set(
                    record.ticker.as_str(),
                    date,
                    before.mul(record.split_to.div(record.split_from)),
                );
            }
        }
    }
    assert(records@.take(records@.len() as int) =~= records@);
    Ok(table)
}

/// Whether a dividend record counts: it is of a ticker asked for, it pays
/// something and its date is one.
pub open spec fn dividend_counts<N: Number>(
    record: DividendRecord<N>,
    names: Set<Seq<char>>,
) -> bool {
    &&& names.contains(record.ticker@)
    &&& !record.cash_amount.equals(N::zero())
    &&& calendar::parsed_day(record.ex_dividend_date@) is Some
}

/// The amounts with a dividend record added. Records of one day sum.
pub open spec fn with_dividend_record<N: Number>(
    table: AmountsView<N>,
    record: DividendRecord<N>,
    names: Set<Seq<char>>,
) -> AmountsView<N> {
    if dividend_counts(record, names) {
        let day = calendar::parsed_day(record.ex_dividend_date@)->0 as i32;
        let before = match amount_on(table, record.ticker@, day) {
            Some(amount) => amount,
            None => N::zero(),
        };
        with_amount(table, record.ticker@, day, before.add(record.cash_amount))
    } else {
        table
    }
}

/// Cash per share by date and ticker.
pub open spec fn dividend_amounts<N: Number>(
    records: Seq<DividendRecord<N>>,
    names: Set<Seq<char>>,
) -> AmountsView<N>
    decreases records.len(),
{
    if records.len() == 0 {
        Map::empty()
    } else {
        with_dividend_record(dividend_amounts(records.drop_last(), names), records.last(), names)
    }
}

/// Whether a dividend record counts, so that a large file can be thinned out as
/// it streams in.
pub fn wants_dividend<N: Number>(record: &DividendRecord<N>, names: &FxHashSet<String>) -> (r: bool)
    ensures
        r == dividend_counts(*record, held_names(names)),
{
    has_name(names, record.ticker.as_str()) && !record.cash_amount.equals(N::zero())
        && Date::parse(record.ex_dividend_date.as_str()).is_some()
}

/// Cash dividends by ex-dividend date: cash per share. Only dividends of
/// `names` are kept. A missing file holds none, unless it is `required`.
pub fn load_dividends_from<N: Number>(
    path: &str,
    loaded: Loaded<Vec<DividendRecord<N>>>,
    names: &FxHashSet<String>,
    required: bool,
) -> (r: Result<Amounts<N>, BacktestError>)
    ensures
        r is Err <==> load_fails(loaded, required),
        match r {
            Ok(table) => table@ == dividend_amounts(loaded_records(loaded), held_names(names)),
            Err(error) => reports_load(error, loaded, path@, "dividends"@),
        },
{
    let records: Vec<DividendRecord<N>> = match records_of(path, loaded, required, "dividends") {
        Ok(records) => records,
        Err(error) => {
            return Err(error);
        },
    };
    let mut table: Amounts<N> = Amounts::new();
    assert(records@.take(0) =~= Seq::<DividendRecord<N>>::empty());
    for i in 0..records.len()
        invariant
            table@ == dividend_amounts(records@.take(i as int), held_names(names)),
    {
        let record = &records[i];
        proof {
            assert(records@.take(i + 1).drop_last() =~= records@.take(i as int));
            assert(records@.take(i + 1).last() == record);
        }
        if has_name(names, record.ticker.as_str()) && !record.cash_amount.equals(N::zero()) {
            if let Some(date) = Date::parse(record.ex_dividend_date.as_str()) {
                let before: N = match table.get(record.ticker.as_str(), date) {
                    Some(amount) => amount,
                    None => N::zero(),
                };
                table.set(record.ticker.as_str(), date, before.add(record.cash_amount));
            }
        }
    }
    assert(records@.take(records@.len() as int) =~= records@);
    Ok(table)
}

/// Dropping the records that do not count changes nothing.
pub proof fn thinning_keeps_dividends<N: Number>(
    records: Seq<DividendRecord<N>>,
    names: Set<Seq<char>>,
)
    ensures
        dividend_amounts(
            records.filter(|record: DividendRecord<N>| dividend_counts(record, names)),
            names,
        ) == dividend_amounts(records, names),
    decreases records.len(),
{
    reveal(Seq::filter);
    if records.len() > 0 {
        let counts = |record: DividendRecord<N>| dividend_counts(record, names);
        thinning_keeps_dividends(records.drop_last(), names);
        let kept = records.drop_last().filter(counts);
        if dividend_counts(records.last(), names) {
            assert(kept.push(records.last()).drop_last() =~= kept);
        }
    }
}

/// Whether a rename record counts: its old ticker is asked for and its date is
/// one.
pub open spec fn rename_counts(record: RenameRecord, names: Set<Seq<char>>) -> bool {
    names.contains(record.old@) && calendar::parsed_day(record.date@) is Some
}

/// Renames by date: the old and the new ticker of each, in file order.
pub open spec fn rename_pairs(records: Seq<RenameRecord>, names: Set<Seq<char>>) -> Map<
    i32,
    Seq<(Seq<char>, Seq<char>)>,
>
    decreases records.len(),
{
    if records.len() == 0 {
        Map::empty()
    } else {
        let before = rename_pairs(records.drop_last(), names);
        let record = records.last();
        if rename_counts(record, names) {
            let day = calendar::parsed_day(record.date@)->0 as i32;
            before.insert(day, agenda::items_on(before, day).push((record.old@, record.new@)))
        } else {
            before
        }
    }
}

/// What an agenda of text pairs says.
pub open spec fn pair_agenda(pairs: Map<i32, Seq<(String, String)>>) -> Map<
    i32,
    Seq<(Seq<char>, Seq<char>)>,
> {
    pairs.map_values(|items: Seq<(String, String)>| pair_views(items))
}

/// Ticker renames by effective date: the old and the new ticker of each. Only
/// renames whose old ticker is in `names` are kept. A missing file holds none,
/// unless it is `required`.
pub fn load_renames_from(
    path: &str,
    loaded: Loaded<Vec<RenameRecord>>,
    names: &FxHashSet<String>,
    required: bool,
) -> (r: Result<Agenda<(String, String)>, BacktestError>)
    ensures
        r is Err <==> load_fails(loaded, required),
        match r {
            Ok(pairs) => pair_agenda(pairs@) == rename_pairs(
                loaded_records(loaded),
                held_names(names),
            ),
            Err(error) => reports_load(error, loaded, path@, "renames"@),
        },
{
    let records: Vec<RenameRecord> = match records_of(path, loaded, required, "renames") {
        Ok(records) => records,
        Err(error) => {
            return Err(error);
        },
    };
    let mut pairs: Agenda<(String, String)> = Agenda::new();
    assert(records@.take(0) =~= Seq::<RenameRecord>::empty());
    assert(pair_agenda(pairs@) =~= Map::<i32, Seq<(Seq<char>, Seq<char>)>>::empty());
    for i in 0..records.len()
        invariant
            pair_agenda(pairs@) == rename_pairs(records@.take(i as int), held_names(names)),
    {
        let record = &records[i];
        proof {
            assert(records@.take(i + 1).drop_last() =~= records@.take(i as int));
            assert(records@.take(i + 1).last() == record);
        }
        if has_name(names, record.old.as_str()) {
            if let Some(date) = Date::parse(record.date.as_str()) {
                let ghost before = pairs@;
                let pair: (String, String) = (
                    record.old.as_str().to_owned(),
                    record.new.as_str().to_owned(),
                );
                pairs.push(date, pair);
                proof {
                    let day = date.day() as i32;
                    assert(pair_views(agenda::items_on(before, day).push(pair)) =~= pair_views(
                        agenda::items_on(before, day),
                    ).push((record.old@, record.new@)));
                    assert(pair_views(agenda::items_on(before, day)) =~= agenda::items_on(
                        pair_agenda(before),
                        day,
                    ));
                    assert(pair_agenda(pairs@) =~= pair_agenda(before).insert(
                        day,
                        agenda::items_on(pair_agenda(before), day).push(
                            (record.old@, record.new@),
                        ),
                    ));
                }
            }
        }
    }
    assert(records@.take(records@.len() as int) =~= records@);
    Ok(pairs)
}

/// [`load_splits_from`] the default file in the data root.
pub fn load_splits<N: Number>(
    data_root: &str,
    loaded: Loaded<Vec<SplitRecord<N>>>,
    names: &FxHashSet<String>,
) -> (r: Result<Amounts<N>, BacktestError>)
    ensures
        r is Err <==> load_fails(loaded, false),
        match r {
            Ok(table) => table@ == split_ratios(loaded_records(loaded), held_names(names)),
            Err(error) => reports_load(
                error,
                loaded,
                in_root(data_root@, SPLITS_FILE@),
                "splits"@,
            ),
        },
{
    load_splits_from(file_in_root(data_root, SPLITS_FILE).as_str(), loaded, names, false)
}

/// [`load_dividends_from`] the default file in the data root.
pub fn load_dividends<N: Number>(
    data_root: &str,
    loaded: Loaded<Vec<DividendRecord<N>>>,
    names: &FxHashSet<String>,
) -> (r: Result<Amounts<N>, BacktestError>)
    ensures
        r is Err <==> load_fails(loaded, false),
        match r {
            Ok(table) => table@ == dividend_amounts(loaded_records(loaded), held_names(names)),
            Err(error) => reports_load(
                error,
                loaded,
                in_root(data_root@, DIVIDENDS_FILE@),
                "dividends"@,
            ),
        },
{
    load_dividends_from(file_in_root(data_root, DIVIDENDS_FILE).as_str(), loaded, names, false)
}

/// [`load_renames_from`] the default file in the data root.
pub fn load_renames(
    data_root: &str,
    loaded: Loaded<Vec<RenameRecord>>,
    names: &FxHashSet<String>,
) -> (r: Result<Agenda<(String, String)>, BacktestError>)
    ensures
        r is Err <==> load_fails(loaded, false),
        match r {
            Ok(pairs) => pair_agenda(pairs@) == rename_pairs(
                loaded_records(loaded),
                held_names(names),
            ),
            Err(error) => reports_load(
                error,
                loaded,
                in_root(data_root@, RENAMES_FILE@),
                "renames"@,
            ),
        },
{
    load_renames_from(file_in_root(data_root, RENAMES_FILE).as_str(), loaded, names, false)
}

proof fn lemma_ratio(before: real, from: real, to: real, part: real, ratio: real, step: real)
    by (nonlinear_arith)
    requires
        from > 0real,
        step >= 0real,
        exact::close(part, to / from, step),
        exact::close(ratio, before * part, step),
    ensures
        exact::close(
            ratio * from,
            before * to,
            (1real + exact::magnitude(before)) * step * from,
        ),
{
    let q = to / from;
    assert(q * from == to);
    let e = part - q;
    let m = exact::magnitude(before);
    assert(before * part == before * q + before * e);
    assert(-(m * step) <= before * e <= m * step);
    let slack = (1real + m) * step;
    assert(slack == step + m * step);
    assert(before * q - slack <= ratio <= before * q + slack);
    assert((before * q - slack) * from <= ratio * from <= (before * q + slack) * from);
    assert(before * q * from == before * to);
}

/// A split record of a ticker asked for, with both counts positive and a date that
/// is one, multiplies the ticker's ratio on that date, one where it had none, by the
/// new shares over the old, but for rounding. It changes no other ratio, and a
/// record that does not count changes none.
pub proof fn split_records_multiply<N: Number>(
    records: Seq<SplitRecord<N>>,
    record: SplitRecord<N>,
    names: Set<Seq<char>>,
    other: Seq<char>,
    other_day: i32,
    val: spec_fn(N) -> real,
    step: real,
)
    requires
        exact::near(val, step),
        N::from_u64(1).is_finite(),
        record.split_to.div(record.split_from).is_finite(),
        ({
            let day = calendar::parsed_day(record.execution_date@)->0 as i32;
            let part = record.split_to.div(record.split_from);
            match amount_on(split_ratios(records, names), record.ticker@, day) {
                Some(ratio) => ratio.mul(part).is_finite(),
                None => number::one::<N>().mul(part).is_finite(),
            }
        }),
    ensures
        ({
            let before = split_ratios(records, names);
            let after = split_ratios(records.push(record), names);
            let parsed = calendar::parsed_day(record.execution_date@);
            let day = parsed->0 as i32;
            let counts = names.contains(record.ticker@) && val(record.split_from) > 0real && val(
                record.split_to,
            ) > 0real && parsed is Some;
            let old = match amount_on(before, record.ticker@, day) {
                Some(ratio) => val(ratio),
                None => 1real,
            };
            &&& !counts ==> after == before
            &&& counts ==> {
                &&& amount_on(after, record.ticker@, day) is Some
                &&& exact::close(
                    val(amount_on(after, record.ticker@, day)->0) * val(record.split_from),
                    old * val(record.split_to),
                    (1real + exact::magnitude(old)) * step * val(record.split_from),
                )
            }
            &&& other != record.ticker@ || other_day != day ==> amount_on(after, other, other_day)
                == amount_on(before, other, other_day)
            &&& split_ratios(Seq::<SplitRecord<N>>::empty(), names) == AmountsView::<N>::empty()
        }),
{
    let before = split_ratios(records, names);
    assert(records.push(record).drop_last() =~= records);
    if split_counts(record, names) {
        let day = calendar::parsed_day(record.execution_date@)->0 as i32;
        let old = match amount_on(before, record.ticker@, day) {
            Some(ratio) => ratio,
            None => number::one::<N>(),
        };
        assert(exact::integer(1) == 1real);
        let part = record.split_to.div(record.split_from);
        let ratio = old.mul(part);
        setting_sets_one_amount(before, record.ticker@, day, ratio, other, other_day);
        assert(exact::short_of(
            val(part),
            val(record.split_to) / val(record.split_from),
            step,
        ));
        assert(exact::short_of(val(ratio), val(old) * val(part), step));
        lemma_ratio(
            val(old),
            val(record.split_from),
            val(record.split_to),
            val(part),
            val(ratio),
            step,
        );
    }
}

/// A dividend record of a ticker asked for, that pays something, with a date that is
/// one, adds its cash to the ticker's amount on that date, nought where it had none.
/// It changes no other amount, and a record that does not count changes none.
pub proof fn dividend_records_add<N: Number>(
    records: Seq<DividendRecord<N>>,
    record: DividendRecord<N>,
    names: Set<Seq<char>>,
    other: Seq<char>,
    other_day: i32,
    val: spec_fn(N) -> real,
    step: real,
)
    requires
        exact::near(val, step),
        ({
            let day = calendar::parsed_day(record.ex_dividend_date@)->0 as i32;
            match amount_on(dividend_amounts(records, names), record.ticker@, day) {
                Some(amount) => amount.add(record.cash_amount).is_finite(),
                None => N::zero().add(record.cash_amount).is_finite(),
            }
        }),
    ensures
        ({
            let before = dividend_amounts(records, names);
            let after = dividend_amounts(records.push(record), names);
            let parsed = calendar::parsed_day(record.ex_dividend_date@);
            let day = parsed->0 as i32;
            let counts = names.contains(record.ticker@) && val(record.cash_amount) != 0real
                && parsed is Some;
            let old = match amount_on(before, record.ticker@, day) {
                Some(amount) => val(amount),
                None => 0real,
            };
            &&& !counts ==> after == before
            &&& counts ==> {
                &&& amount_on(after, record.ticker@, day) is Some
                &&& val(amount_on(after, record.ticker@, day)->0) == old + val(record.cash_amount)
            }
            &&& other != record.ticker@ || other_day != day ==> amount_on(after, other, other_day)
                == amount_on(before, other, other_day)
            &&& dividend_amounts(Seq::<DividendRecord<N>>::empty(), names)
                == AmountsView::<N>::empty()
        }),
{
    let before = dividend_amounts(records, names);
    assert(records.push(record).drop_last() =~= records);
    if dividend_counts(record, names) {
        let day = calendar::parsed_day(record.ex_dividend_date@)->0 as i32;
        let old = match amount_on(before, record.ticker@, day) {
            Some(amount) => amount,
            None => N::zero(),
        };
        setting_sets_one_amount(
            before,
            record.ticker@,
            day,
            old.add(record.cash_amount),
            other,
            other_day,
        );
    }
}

/// The rename records of a day whose old ticker is asked for, in file order, as the
/// old and the new ticker.
pub open spec fn asked_renames(
    records: Seq<RenameRecord>,
    names: Set<Seq<char>>,
    day: i32,
) -> Seq<(Seq<char>, Seq<char>)> {
    records.filter(
        |record: RenameRecord|
            names.contains(record.old@) && calendar::parsed_day(record.date@) is Some
                && calendar::parsed_day(record.date@)->0 as i32 == day,
    ).map_values(|record: RenameRecord| (record.old@, record.new@))
}

/// The renames kept for a day are those of the day whose old ticker is asked for,
/// the old ticker before the new, in file order.
pub proof fn renames_are_kept_for_their_day(
    records: Seq<RenameRecord>,
    names: Set<Seq<char>>,
    day: i32,
)
    ensures
        agenda::items_on(rename_pairs(records, names), day) == asked_renames(records, names, day),
    decreases records.len(),
{
    reveal(Seq::filter);
    if records.len() > 0 {
        renames_are_kept_for_their_day(records.drop_last(), names, day);
        let record = records.last();
        let kept = asked_renames(records.drop_last(), names, day);
        if rename_counts(record, names) && calendar::parsed_day(record.date@)->0 as i32 == day {
            assert(asked_renames(records, names, day) =~= kept.push((record.old@, record.new@)));
        }
    } else {
        assert(asked_renames(records, names, day) =~= Seq::empty());
    }
}

/// A key names the ticker id whose digits it is, where that is at most the largest
/// id there is. Of the names given to an id the last stands, and no other id is
/// named.
pub proof fn keys_name_their_ids(pairs: Seq<(Seq<char>, Seq<char>)>, number: nat, i: int)
    ensures
        number <= 65_535 ==> ticker_id_of(text::decimal(number)) == Some(number as u16),
        number > 65_535 ==> ticker_id_of(text::decimal(number)) is None,
        0 <= i < pairs.len() && pairs[i].0 == text::decimal(number) && number <= 65_535 && (forall|
            j: int,
        | i < j < pairs.len() ==> ticker_id_of((#[trigger] pairs[j]).0) != Some(number as u16))
            ==> named_ids(pairs).contains_key(number as u16) && named_ids(pairs)[number as u16]
            == pairs[i].1,
        number <= 65_535 && (forall|j: int|
            0 <= j < pairs.len() ==> ticker_id_of((#[trigger] pairs[j]).0) != Some(number as u16))
            ==> !named_ids(pairs).contains_key(number as u16),
{
    text::numbers_are_read_back(number, text::decimal(number), 0);
    if number <= 65_535 {
        lemma_last_name(pairs, number as u16, i);
    }
}

proof fn lemma_last_name(pairs: Seq<(Seq<char>, Seq<char>)>, id: u16, i: int)
    ensures
        0 <= i < pairs.len() && ticker_id_of(pairs[i].0) == Some(id) && (forall|j: int|
            i < j < pairs.len() ==> ticker_id_of((#[trigger] pairs[j]).0) != Some(id))
            ==> named_ids(pairs).contains_key(id) && named_ids(pairs)[id] == pairs[i].1,
        (forall|j: int|
            0 <= j < pairs.len() ==> ticker_id_of((#[trigger] pairs[j]).0) != Some(id))
            ==> !named_ids(pairs).contains_key(id),
    decreases pairs.len(),
{
    if pairs.len() > 0 {
        let rest = pairs.drop_last();
        let last = pairs.len() - 1;
        lemma_last_name(rest, id, i);
        assert(pairs[last] == pairs.last());
        assert forall|j: int| 0 <= j < rest.len() implies #[trigger] rest[j] == pairs[j] by {}
        if 0 <= i < last {
            assert(rest[i] == pairs[i]);
        }
    }
}

/// A file that is there and holds what it should never fails to load; one that is
/// missing fails exactly where it is required; one that cannot be read or is
/// malformed always does. Only a file that parsed holds records.
pub proof fn only_optional_files_may_be_missing<T>(loaded: Loaded<Vec<T>>, required: bool)
    ensures
        loaded is Parsed ==> !load_fails(loaded, required),
        loaded is Missing ==> (load_fails(loaded, required) <==> required),
        loaded is Malformed || loaded is Unreadable ==> load_fails(loaded, required),
        loaded matches Loaded::Parsed(records) ==> loaded_records(loaded) == records@,
        loaded !is Parsed ==> loaded_records(loaded).len() == 0,
{
}

} // verus!
