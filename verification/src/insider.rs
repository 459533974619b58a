//! SEC Form 4 insider transactions.
//!
//! This is strategy-side data: the engine never reads it. A strategy that
//! follows insider trades loads them while it initializes and looks them up by
//! date. The filing date is when a transaction became public; acting on it any
//! earlier is lookahead.

use rustc_hash::FxHashSet;
use vstd::prelude::*;
use vstd::string::*;

use crate::agenda;
use crate::agenda::Agenda;
use crate::calendar;
use crate::calendar::Date;
use crate::error::BacktestError;
use crate::exact;
use crate::metadata;
use crate::metadata::{file_in_root, has_name, records_of, Loaded, INSIDER_FILE};
use crate::number::Number;
use crate::text;
use crate::text::not_after;

verus! {

/// Open-market transaction side from Form 4's transaction code.
#[derive(Debug, Clone, Copy, PartialEq, Eq, Structural)]
pub enum TransCode {
    /// Code `P`: open-market or private purchase.
    Purchase,
    /// Code `S`: open-market or private sale.
    Sale,
}

/// One non-derivative open-market transaction from a Form 4 filing.
#[derive(Debug, Clone)]
pub struct InsiderTransaction<N> {
    /// When the filing became public: the earliest date a strategy may act.
    pub filing_date: Date,
    /// When the insider traded.
    pub trans_date: Option<Date>,
    pub ticker: String,
    pub code: TransCode,
    pub shares: N,
    pub price: N,
    /// Shares times price, as the file has it.
    pub value: N,
    pub owner_name: Option<String>,
    pub is_officer: bool,
    pub is_director: bool,
    pub is_ten_pct_owner: bool,
    pub officer_title: Option<String>,
    pub shares_owned_after: Option<N>,
}

/// One record of the insider file. Dates and the code stay texts, so that a
/// malformed record or an unknown code is skipped instead of failing the file.
pub struct InsiderRecord<N> {
    pub filing_date: String,
    pub trans_date: Option<String>,
    pub ticker: String,
    pub code: String,
    pub shares: N,
    pub price: N,
    pub value: N,
    pub owner_name: Option<String>,
    pub is_officer: bool,
    pub is_director: bool,
    pub is_ten_pct_owner: bool,
    pub officer_title: Option<String>,
    pub shares_owned_after: Option<N>,
}

/// What an [`InsiderTransaction`] says.
pub ghost struct InsiderView<N> {
    pub filing_day: int,
    pub trans_day: Option<int>,
    pub ticker: Seq<char>,
    pub code: TransCode,
    pub shares: N,
    pub price: N,
    pub value: N,
    pub owner_name: Option<Seq<char>>,
    pub is_officer: bool,
    pub is_director: bool,
    pub is_ten_pct_owner: bool,
    pub officer_title: Option<Seq<char>>,
    pub shares_owned_after: Option<N>,
}

/// The characters of an optional text.
pub open spec fn optional_text(text: Option<String>) -> Option<Seq<char>> {
    match text {
        Some(text) => Some(text@),
        None => None,
    }
}

impl<N> View for InsiderTransaction<N> {
    type V = InsiderView<N>;

    open spec fn view(&self) -> InsiderView<N> {
        InsiderView {
            filing_day: self.filing_date.day(),
            trans_day: match self.trans_date {
                Some(date) => Some(date.day()),
                None => None,
            },
            ticker: self.ticker@,
            code: self.code,
            shares: self.shares,
            price: self.price,
            value: self.value,
            owner_name: optional_text(self.owner_name),
            is_officer: self.is_officer,
            is_director: self.is_director,
            is_ten_pct_owner: self.is_ten_pct_owner,
            officer_title: optional_text(self.officer_title),
            shares_owned_after: self.shares_owned_after,
        }
    }
}

/// The side a transaction code stands for, if it is an open-market one.
pub open spec fn side_of(code: Seq<char>) -> Option<TransCode> {
    if code == seq!['P'] {
        Some(TransCode::Purchase)
    } else if code == seq!['S'] {
        Some(TransCode::Sale)
    } else {
        None
    }
}

/// Whether a record counts: it is of a ticker asked for, its code is an
/// open-market one, its filing date is one, and shares and price are positive.
pub open spec fn record_counts<N: Number>(record: InsiderRecord<N>, names: Set<Seq<char>>) -> bool {
    &&& names.contains(record.ticker@)
    &&& side_of(record.code@) is Some
    &&& calendar::parsed_day(record.filing_date@) is Some
    &&& !record.shares.le(N::zero())
    &&& !record.price.le(N::zero())
}

/// The transaction of a record that counts.
pub open spec fn transaction_of<N>(record: InsiderRecord<N>) -> InsiderView<N> {
    InsiderView {
        filing_day: calendar::parsed_day(record.filing_date@)->0,
        trans_day: match record.trans_date {
            Some(date) => calendar::parsed_day(date@),
            None => None,
        },
        ticker: record.ticker@,
        code: side_of(record.code@)->0,
        shares: record.shares,
        price: record.price,
        value: record.value,
        owner_name: optional_text(record.owner_name),
        is_officer: record.is_officer,
        is_director: record.is_director,
        is_ten_pct_owner: record.is_ten_pct_owner,
        officer_title: optional_text(record.officer_title),
        shares_owned_after: record.shares_owned_after,
    }
}

/// Transactions per ticker, by filing date.
pub type FilingsView<N> = Map<Seq<char>, Map<i32, Seq<InsiderView<N>>>>;

/// The filings of a ticker, none where it has none.
pub open spec fn filings_of<N>(filings: FilingsView<N>, ticker: Seq<char>) -> Map<
    i32,
    Seq<InsiderView<N>>,
> {
    if filings.contains_key(ticker) {
        filings[ticker]
    } else {
        Map::empty()
    }
}

/// The filings with a transaction behind those of its ticker and date.
pub open spec fn with_filing<N>(
    filings: FilingsView<N>,
    transaction: InsiderView<N>,
) -> FilingsView<N> {
    let own = filings_of(filings, transaction.ticker);
    let day = transaction.filing_day as i32;
    filings.insert(
        transaction.ticker,
        own.insert(day, agenda::items_on(own, day).push(transaction)),
    )
}

/// The transactions of the records that count, per ticker, by filing date, in
/// file order.
pub open spec fn filings<N: Number>(
    records: Seq<InsiderRecord<N>>,
    names: Set<Seq<char>>,
) -> FilingsView<N>
    decreases records.len(),
{
    if records.len() == 0 {
        Map::empty()
    } else {
        let before = filings(records.drop_last(), names);
        if record_counts(records.last(), names) {
            with_filing(before, transaction_of(records.last()))
        } else {
            before
        }
    }
}

/// What an agenda of transactions says.
pub open spec fn filing_views<N>(filings: Map<i32, Seq<InsiderTransaction<N>>>) -> Map<
    i32,
    Seq<InsiderView<N>>,
> {
    filings.map_values(|items: Seq<InsiderTransaction<N>>| transaction_views(items))
}

/// What a list of transactions says.
pub open spec fn transaction_views<N>(items: Seq<InsiderTransaction<N>>) -> Seq<InsiderView<N>> {
    Seq::new(items.len(), |i: int| items[i]@)
}

/// Transactions per ticker, grouped by filing date.
pub struct InsiderMap<N> {
    names: Vec<String>,
    filings: Vec<Agenda<InsiderTransaction<N>>>,
}

/// Whether names are in order and no two are the same.
spec fn ordered_names(names: Seq<String>) -> bool {
    forall|i: int, j: int|
        0 <= i < j < names.len() ==> text::text_le((#[trigger] names[i])@, (#[trigger] names[j])@)
            && names[i]@ != names[j]@
}

/// Whether `ticker` stands at position `i`.
spec fn stands_at(names: Seq<String>, ticker: Seq<char>, i: int) -> bool {
    0 <= i < names.len() && names[i]@ == ticker
}

impl<N> InsiderMap<N> {
    #[verifier::type_invariant]
    spec fn wf(self) -> bool {
        &&& self.names@.len() == self.filings@.len()
        &&& ordered_names(self.names@)
    }
}

impl<N> View for InsiderMap<N> {
    type V = FilingsView<N>;

    closed spec fn view(&self) -> FilingsView<N> {
        Map::new(
            |ticker: Seq<char>| exists|i: int| #[trigger] stands_at(self.names@, ticker, i),
            |ticker: Seq<char>|
                filing_views(
                    self.filings@[choose|i: int| #[trigger] stands_at(self.names@, ticker, i)]@,
                ),
        )
    }
}

proof fn lemma_one_place(names: Seq<String>, ticker: Seq<char>, i: int)
    requires
        ordered_names(names),
        stands_at(names, ticker, i),
    ensures
        (choose|j: int| #[trigger] stands_at(names, ticker, j)) == i,
{
    let j = choose|j: int| #[trigger] stands_at(names, ticker, j);
    assert(stands_at(names, ticker, j));
    if i < j {
        assert(names[i]@ != names[j]@);
    } else if j < i {
        assert(names[j]@ != names[i]@);
    }
}

/// Where a ticker stands among names in order, or else where it belongs.
fn find_name(names: &Vec<String>, ticker: &str) -> (r: (usize, bool))
    requires
        ordered_names(names@),
    ensures
        r.0 <= names@.len(),
        r.1 ==> stands_at(names@, ticker@, r.0 as int),
        !r.1 ==> {
            &&& forall|i: int|
                0 <= i < r.0 ==> text::text_le((#[trigger] names@[i])@, ticker@) && names@[i]@
                    != ticker@
            &&& forall|i: int|
                r.0 <= i < names@.len() ==> text::text_le(ticker@, (#[trigger] names@[i])@)
                    && names@[i]@ != ticker@
        },
{
    let wanted: String = ticker.to_owned();
    let mut low: usize = 0;
    let mut high: usize = names.len();
    while low < high
        invariant
            wanted@ == ticker@,
            ordered_names(names@),
            low <= high <= names@.len(),
            forall|i: int|
                0 <= i < low ==> text::text_le((#[trigger] names@[i])@, ticker@) && names@[i]@
                    != ticker@,
            forall|i: int|
                high <= i < names@.len() ==> text::text_le(ticker@, (#[trigger] names@[i])@)
                    && names@[i]@ != ticker@,
        decreases high - low,
    {
        let mid: usize = low + (high - low) / 2;
        if names[mid] == wanted {
            return (mid, true);
        }
        if not_after(names[mid].as_str(), ticker) {
            proof {
                assert forall|i: int| 0 <= i < mid + 1 implies text::text_le(
                    (#[trigger] names@[i])@,
                    ticker@,
                ) && names@[i]@ != ticker@ by {
                    if i < mid {
                        text::lemma_text_le_transitive(names@[i]@, names@[mid as int]@, ticker@);
                        if names@[i]@ == ticker@ {
                            text::lemma_text_le_antisymmetric(names@[i]@, names@[mid as int]@);
                        }
                    }
                }
            }
            low = mid + 1;
        } else {
            proof {
                text::lemma_text_le_total(names@[mid as int]@, ticker@);
                assert forall|i: int| mid <= i < names@.len() implies text::text_le(
                    ticker@,
                    (#[trigger] names@[i])@,
                ) && names@[i]@ != ticker@ by {
                    if i > mid {
                        text::lemma_text_le_transitive(ticker@, names@[mid as int]@, names@[i]@);
                        if names@[i]@ == ticker@ {
                            text::lemma_text_le_antisymmetric(names@[i]@, names@[mid as int]@);
                        }
                    }
                }
            }
            high = mid;
        }
    }
    (low, false)
}

impl<N: Number> InsiderMap<N> {
    pub fn new() -> (r: InsiderMap<N>)
        ensures
            r@ == FilingsView::<N>::empty(),
    {
        let r = InsiderMap { names: Vec::new(), filings: Vec::new() };
        assert(r@ =~= FilingsView::<N>::empty());
        r
    }

    /// How many tickers have filings.
    pub fn len(&self) -> (r: usize)
        ensures
            self@.dom().finite(),
            r == self@.dom().len(),
    {
        proof {
            use_type_invariant(self);
            let texts = Seq::new(self.names@.len(), |i: int| self.names@[i]@);
            assert(texts.no_duplicates()) by {
                assert forall|i: int, j: int|
                    0 <= i < texts.len() && 0 <= j < texts.len() && i != j implies texts[i]
                    != texts[j] by {
                    if i < j {
                        assert(self.names@[i]@ != self.names@[j]@);
                    } else {
                        assert(self.names@[j]@ != self.names@[i]@);
                    }
                }
            }
            texts.unique_seq_to_set();
            assert forall|ticker: Seq<char>|
                texts.to_set().contains(ticker) <==> self@.dom().contains(ticker) by {
                if texts.contains(ticker) {
                    let i = choose|i: int| 0 <= i < texts.len() && texts[i] == ticker;
                    assert(stands_at(self.names@, ticker, i));
                }
                if self@.dom().contains(ticker) {
                    let i = choose|i: int| #[trigger] stands_at(self.names@, ticker, i);
                    assert(texts[i] == ticker);
                }
            }
            assert(texts.to_set() =~= self@.dom());
            vstd::seq_lib::seq_to_set_is_finite(texts);
        }
        self.names.len()
    }

    /// Whether no ticker has filings.
    pub fn is_empty(&self) -> (r: bool)
        ensures
            r <==> self@.dom() =~= Set::<Seq<char>>::empty(),
    {
        proof {
            if self.names@.len() > 0 {
                assert(stands_at(self.names@, self.names@[0]@, 0));
                assert(self@.dom().contains(self.names@[0]@));
            } else {
                assert(self@.dom() =~= Set::<Seq<char>>::empty());
            }
        }
        self.names.len() == 0
    }

    /// A ticker's filings by date, if it has any.
    pub fn get(&self, ticker: &str) -> (r: Option<&Agenda<InsiderTransaction<N>>>)
        ensures
            r is Some <==> self@.contains_key(ticker@),
            r is Some ==> filing_views(r->0@) == self@[ticker@],
    {
        proof {
            use_type_invariant(self);
        }
        let (place, found) = find_name(&self.names, ticker);
        if found {
            proof {
                lemma_one_place(self.names@, ticker@, place as int);
            }
            Some(&self.filings[place])
        } else {
            None
        }
    }

    /// Add a transaction behind those of its ticker and date.
    pub fn add(&mut self, transaction: InsiderTransaction<N>)
        ensures
            final(self)@ == with_filing(old(self)@, transaction@),
    {
        proof {
            use_type_invariant(&*self);
        }
        let ghost before = self@;
        let ghost said = transaction@;
        let mut taken = InsiderMap::new();
        std::mem::swap(&mut taken, self);
        let mut names: Vec<String> = taken.names;
        let mut filings: Vec<Agenda<InsiderTransaction<N>>> = taken.filings;
        let ghost was_names = names@;
        let ghost was_filings = filings@;
        let ticker: String = transaction.ticker.as_str().to_owned();
        let date: Date = transaction.filing_date;
        let ghost day = date.day() as i32;
        let (place, found) = find_name(&names, ticker.as_str());
        if !found {
            proof {
                lemma_insert_name(was_names, ticker, place as int);
            }
            names.insert(place, ticker);
            filings.insert(place, Agenda::new());
        }
        let ghost mid_filings = filings@;
        let ghost own = filings@[place as int]@;
        proof {
            if found {
                lemma_one_place(was_names, said.ticker, place as int);
                assert(filing_views(own) == filings_of(before, said.ticker));
            } else {
                assert(!before.contains_key(said.ticker)) by {
                    if before.contains_key(said.ticker) {
                        let i = choose|i: int| #[trigger] stands_at(was_names, said.ticker, i);
                        assert(was_names[i]@ == said.ticker);
                    }
                }
                assert(filing_views(own) =~= filings_of(before, said.ticker));
            }
        }
        filings[place].push(date, transaction);
        proof {
            let now = filings@[place as int]@;
            let items = agenda::items_on(own, day);
            assert(transaction_views(items.push(transaction)) =~= transaction_views(items).push(
                said,
            ));
            assert(transaction_views(items) =~= agenda::items_on(filing_views(own), day));
            assert(filing_views(now) =~= filing_views(own).insert(
                day,
                agenda::items_on(filing_views(own), day).push(said),
            ));
        }
        *self = InsiderMap { names, filings };
        proof {
            let after = with_filing(before, said);
            assert(stands_at(names@, said.ticker, place as int));
            lemma_one_place(names@, said.ticker, place as int);
            assert forall|ticker: Seq<char>| self@.contains_key(ticker) <==> after.contains_key(
                ticker,
            ) by {
                lemma_same_tickers(was_names, names@, place as int, found, ticker);
            }
            assert forall|ticker: Seq<char>|
                #![trigger after[ticker]]
                after.contains_key(ticker) implies self@[ticker] == after[ticker] by {
                lemma_same_tickers(was_names, names@, place as int, found, ticker);
                if ticker != said.ticker {
                    let i = choose|i: int| #[trigger] stands_at(was_names, ticker, i);
                    let j = if found || i < place {
                        i
                    } else {
                        i + 1
                    };
                    assert(stands_at(names@, ticker, j));
                    lemma_one_place(was_names, ticker, i);
                    lemma_one_place(names@, ticker, j);
                    assert(filings@[j] == was_filings[i]);
                }
            }
            assert(self@ =~= after);
        }
    }
}

proof fn lemma_insert_name(names: Seq<String>, name: String, place: int)
    requires
        0 <= place <= names.len(),
        ordered_names(names),
        forall|i: int|
            0 <= i < place ==> text::text_le((#[trigger] names[i])@, name@) && names[i]@ != name@,
        forall|i: int|
            place <= i < names.len() ==> text::text_le(name@, (#[trigger] names[i])@) && names[i]@
                != name@,
    ensures
        ordered_names(names.insert(place, name)),
{
    let after = names.insert(place, name);
    assert forall|i: int, j: int| 0 <= i < j < after.len() implies text::text_le(
        (#[trigger] after[i])@,
        (#[trigger] after[j])@,
    ) && after[i]@ != after[j]@ by {
        let a = if i < place {
            i
        } else {
            i - 1
        };
        let b = if j < place {
            j
        } else {
            j - 1
        };
        if i == place {
            assert(after[j] == names[b]);
        } else if j == place {
            assert(after[i] == names[a]);
        } else {
            assert(after[i] == names[a]);
            assert(after[j] == names[b]);
        }
    }
}

proof fn lemma_same_tickers(
    before: Seq<String>,
    after: Seq<String>,
    place: int,
    found: bool,
    ticker: Seq<char>,
)
    requires
        0 <= place < after.len(),
        found ==> after == before,
        !found ==> after == before.insert(place, after[place]),
        !found ==> place <= before.len(),
    ensures
        (exists|i: int| #[trigger] stands_at(after, ticker, i)) <==> (ticker == after[place]@ || (
        exists|i: int| #[trigger] stands_at(before, ticker, i))),
{
    if ticker == after[place]@ {
        assert(stands_at(after, ticker, place));
    }
    if exists|i: int| #[trigger] stands_at(before, ticker, i) {
        let i = choose|i: int| #[trigger] stands_at(before, ticker, i);
        let j = if found || i < place {
            i
        } else {
            i + 1
        };
        assert(stands_at(after, ticker, j));
    }
    if exists|i: int| #[trigger] stands_at(after, ticker, i) {
        let j = choose|j: int| #[trigger] stands_at(after, ticker, j);
        if j != place {
            let i = if found || j < place {
                j
            } else {
                j - 1
            };
            assert(stands_at(before, ticker, i));
        }
    }
}

/// The side a transaction code stands for, if it is an open-market one.
pub fn parse_code(code: &str) -> (r: Option<TransCode>)
    ensures
        r == side_of(code@),
{
    if code.unicode_len() != 1 {
        assert(code@ == seq!['P'] ==> code@.len() == 1);
        assert(code@ == seq!['S'] ==> code@.len() == 1);
        return None;
    }
    let c: char = code.get_char(0);
    assert(code@ =~= seq![c]);
    if c == 'P' {
        Some(TransCode::Purchase)
    } else if c == 'S' {
        assert(seq!['S'][0] != seq!['P'][0]);
        Some(TransCode::Sale)
    } else {
        assert(code@[0] == c);
        assert(code@ == seq!['P'] ==> code@[0] == 'P');
        assert(code@ == seq!['S'] ==> code@[0] == 'S');
        None
    }
}

fn copied(text: &Option<String>) -> (r: Option<String>)
    ensures
        optional_text(r) == optional_text(*text),
{
    match text {
        Some(text) => Some(text.as_str().to_owned()),
        None => None,
    }
}

/// The transaction of a record, if it counts.
pub fn transaction<N: Number>(record: &InsiderRecord<N>, names: &FxHashSet<String>) -> (r: Option<
    InsiderTransaction<N>,
>)
    ensures
        r is Some <==> record_counts(*record, metadata::held_names(names)),
        r is Some ==> r->0@ == transaction_of(*record),
{
    if !has_name(names, record.ticker.as_str()) {
        return None;
    }
    let code: TransCode = match parse_code(record.code.as_str()) {
        Some(code) => code,
        None => {
            return None;
        },
    };
    let filing_date: Date = match Date::parse(record.filing_date.as_str()) {
        Some(date) => date,
        None => {
            return None;
        },
    };
    if record.shares.le(N::zero()) || record.price.le(N::zero()) {
        return None;
    }
    let trans_date: Option<Date> = match &record.trans_date {
        Some(date) => Date::parse(date.as_str()),
        None => None,
    };
    Some(
        InsiderTransaction {
            filing_date,
            trans_date,
            ticker: record.ticker.as_str().to_owned(),
            code,
            shares: record.shares,
            price: record.price,
            value: record.value,
            owner_name: copied(&record.owner_name),
            is_officer: record.is_officer,
            is_director: record.is_director,
            is_ten_pct_owner: record.is_ten_pct_owner,
            officer_title: copied(&record.officer_title),
            shares_owned_after: record.shares_owned_after,
        },
    )
}

/// Insider transactions per ticker, by filing date. Only transactions of
/// `names` are kept. A missing file holds none, unless it is `required`.
pub fn load_insider_transactions_from<N: Number>(
    path: &str,
    loaded: Loaded<Vec<InsiderRecord<N>>>,
    names: &FxHashSet<String>,
    required: bool,
) -> (r: Result<InsiderMap<N>, BacktestError>)
    ensures
        r is Err <==> metadata::load_fails(loaded, required),
        match r {
            Ok(map) => map@ == filings(
                metadata::loaded_records(loaded),
                metadata::held_names(names),
            ),
            Err(error) => metadata::reports_load(
                error,
                loaded,
                path@,
                "insider transactions"@,
            ),
        },
{
    let records: Vec<InsiderRecord<N>> = match records_of(
        path,
        loaded,
        required,
        "insider transactions",
    ) {
        Ok(records) => records,
        Err(error) => {
            return Err(error);
        },
    };
    let mut map: InsiderMap<N> = InsiderMap::new();
    assert(records@.take(0) =~= Seq::<InsiderRecord<N>>::empty());
    for i in 0..records.len()
        invariant
            map@ == filings(records@.take(i as int), metadata::held_names(names)),
    {
        proof {
            assert(records@.take(i + 1).drop_last() =~= records@.take(i as int));
            assert(records@.take(i + 1).last() == records@[i as int]);
        }
        if let Some(kept) = transaction(&records[i], names) {
            map.add(kept);
        }
    }
    assert(records@.take(records@.len() as int) =~= records@);
    Ok(map)
}

/// [`load_insider_transactions_from`] the default file in the data root.
pub fn load_insider_transactions<N: Number>(
    data_root: &str,
    loaded: Loaded<Vec<InsiderRecord<N>>>,
    names: &FxHashSet<String>,
) -> (r: Result<InsiderMap<N>, BacktestError>)
    ensures
        r is Err <==> metadata::load_fails(loaded, false),
        match r {
            Ok(map) => map@ == filings(
                metadata::loaded_records(loaded),
                metadata::held_names(names),
            ),
            Err(error) => metadata::reports_load(
                error,
                loaded,
                metadata::in_root(data_root@, INSIDER_FILE@),
                "insider transactions"@,
            ),
        },
{
    load_insider_transactions_from(
        file_in_root(data_root, INSIDER_FILE).as_str(),
        loaded,
        names,
        false,
    )
}

/// The transactions of a ticker filed on a day, in file order: those of the records
/// of open-market trades of a ticker asked for, of some shares at some price.
pub open spec fn filed<N: Number>(
    records: Seq<InsiderRecord<N>>,
    names: Set<Seq<char>>,
    val: spec_fn(N) -> real,
    ticker: Seq<char>,
    day: i32,
) -> Seq<InsiderView<N>> {
    records.filter(
        |record: InsiderRecord<N>|
            {
                &&& record.ticker@ == ticker
                &&& names.contains(ticker)
                &&& record.code@ == seq!['P'] || record.code@ == seq!['S']
                &&& calendar::parsed_day(record.filing_date@) is Some
                &&& calendar::parsed_day(record.filing_date@)->0 as i32 == day
                &&& val(record.shares) > 0real
                &&& val(record.price) > 0real
            },
    ).map_values(|record: InsiderRecord<N>| transaction_of(record))
}

/// What is kept of a ticker under a day is what was filed of it that day, by its
/// filing date and not by the day it was traded, in file order.
pub proof fn transactions_are_kept_under_their_filing_date<N: Number>(
    records: Seq<InsiderRecord<N>>,
    names: Set<Seq<char>>,
    val: spec_fn(N) -> real,
    ticker: Seq<char>,
    day: i32,
)
    requires
        exact::ordered(val),
    ensures
        agenda::items_on(filings_of(filings(records, names), ticker), day) == filed(
            records,
            names,
            val,
            ticker,
            day,
        ),
    decreases records.len(),
{
    reveal(Seq::filter);
    if records.len() > 0 {
        transactions_are_kept_under_their_filing_date(records.drop_last(), names, val, ticker, day);
        let record = records.last();
        let kept = filed(records.drop_last(), names, val, ticker, day);
        if record_counts(record, names) && record.ticker@ == ticker && calendar::parsed_day(
            record.filing_date@,
        )->0 as i32 == day {
            assert(filed(records, names, val, ticker, day) =~= kept.push(transaction_of(record)));
        } else {
            assert(filed(records, names, val, ticker, day) =~= kept);
        }
    } else {
        assert(filed(records, names, val, ticker, day) =~= Seq::empty());
    }
}

/// A transaction says what its record says: who, in what role, how many shares of
/// what at what price, bought under code `P` and sold under code `S`, and when it was
/// filed and traded.
pub proof fn a_transaction_says_what_its_record_says<N: Number>(record: InsiderRecord<N>)
    ensures
        ({
            let told = transaction_of(record);
            &&& record.code@ == seq!['P'] ==> told.code is Purchase
            &&& record.code@ == seq!['S'] ==> told.code is Sale
            &&& told.ticker == record.ticker@
            &&& told.shares == record.shares
            &&& told.price == record.price
            &&& told.value == record.value
            &&& told.is_officer == record.is_officer
            &&& told.is_director == record.is_director
            &&& told.is_ten_pct_owner == record.is_ten_pct_owner
            &&& told.shares_owned_after == record.shares_owned_after
            &&& calendar::parsed_day(record.filing_date@) == Some(told.filing_day)
                || calendar::parsed_day(record.filing_date@) is None
            &&& told.trans_day is Some <==> record.trans_date is Some && calendar::parsed_day(
                record.trans_date->0@,
            ) is Some
            &&& told.trans_day is Some ==> told.trans_day == calendar::parsed_day(
                record.trans_date->0@,
            )
            &&& told.owner_name is Some <==> record.owner_name is Some
            &&& record.owner_name matches Some(name) ==> told.owner_name == Some(name@)
            &&& told.officer_title is Some <==> record.officer_title is Some
            &&& record.officer_title matches Some(title) ==> told.officer_title == Some(title@)
        }),
{
    assert(seq!['P'][0] != seq!['S'][0]);
}

} // verus!
