//! Queueing the corporate actions of the subscribed symbols, and the mask the
//! bar stream filters on.
//!
//! This is the text boundary of a run: the metadata is matched by ticker name
//! here, once, against the dataset's ticker map. Everything handed back is
//! keyed by [`Symbol`].

use rustc_hash::FxHashSet;
use vstd::prelude::*;

use crate::agenda;
use crate::agenda::Agenda;
use crate::context::Context;
use crate::data;
use crate::data::SubscriptionMask;
use crate::engine::state::PendingActions;
use crate::error::BacktestError;
use crate::metadata;
use crate::metadata::{
    add_name, load_dividends_from, load_renames_from, load_splits_from, no_names,
    resolve_data_file, Amounts, DividendRecord, Loaded, RenameRecord, SplitRecord,
    DIVIDENDS_FILE, RENAMES_FILE, SPLITS_FILE,
};
use crate::number::Number;
use crate::symbol;
use crate::symbol::Symbol;
use crate::text;

verus! {

/// The tickers of a set of ids.
pub open spec fn tickers_of(names: Seq<Option<Seq<char>>>, ids: Set<u16>) -> Set<Seq<char>> {
    Set::new(
        |ticker: Seq<char>|
            exists|id: u16| ids.contains(id) && #[trigger] data::name_of(names, id) == Some(ticker),
    )
}

/// The names of what is subscribed.
pub fn subscribed_names<N: Number>(ctx: &Context<N>) -> (r: FxHashSet<String>)
    ensures
        metadata::held_names(&r) == tickers_of(ctx.names(), ctx.subscriptions()),
{
    let symbols = ctx.subscribed();
    let ghost ids = symbol::ids_of(symbols@);
    let mut names: FxHashSet<String> = no_names();
    proof {
        assert(metadata::held_names(&names) =~= tickers_of(ctx.names(), ids.take(0).to_set()));
    }
    for i in 0..symbols.len()
        invariant
            ids == symbol::ids_of(symbols@),
            metadata::held_names(&names) == tickers_of(
                ctx.names(),
                ids.take(i as int).to_set(),
            ),
    {
        let ghost before = metadata::held_names(&names);
        let ghost id = ids[i as int];
        let ghost seen = ids.take(i as int).to_set();
        let ghost now = ids.take(i + 1).to_set();
        proof {
            assert(ids.take(i + 1) =~= ids.take(i as int).push(id));
            assert(now =~= seen.insert(id)) by {
                assert forall|a: u16| now.contains(a) <==> seen.insert(id).contains(a) by {
                    let shorter = ids.take(i as int);
                    let longer = ids.take(i + 1);
                    if shorter.contains(a) {
                        let k = choose|k: int| 0 <= k < shorter.len() && shorter[k] == a;
                        assert(longer[k] == a);
                    }
                    if longer.contains(a) {
                        let k = choose|k: int| 0 <= k < longer.len() && longer[k] == a;
                        if k < shorter.len() {
                            assert(shorter[k] == a);
                        }
                    }
                    assert(longer[i as int] == id);
                }
            }
        }
        match ctx.tickers.name(symbols[i]) {
            Some(name) => {
                add_name(&mut names, name);
                proof {
                    assert forall|ticker: Seq<char>|
                        before.insert(name@).contains(ticker) <==> tickers_of(
                            ctx.names(),
                            now,
                        ).contains(ticker) by {
                        assert(data::name_of(ctx.names(), id) == Some(name@));
                        if before.contains(ticker) {
                            let a = choose|a: u16|
                                seen.contains(a) && #[trigger] data::name_of(ctx.names(), a)
                                    == Some(ticker);
                            assert(now.contains(a));
                        }
                        if ticker == name@ {
                            assert(now.contains(id));
                        }
                    }
                    assert(metadata::held_names(&names) =~= tickers_of(ctx.names(), now));
                }
            },
            None => {
                assert(tickers_of(ctx.names(), now) =~= tickers_of(ctx.names(), seen));
            },
        }
    }
    proof {
        assert(ids.take(ids.len() as int) =~= ids);
        assert(ids.to_set() =~= ctx.subscriptions());
    }
    names
}

/// An item of an agenda of renames, resolved: `None` where the dataset has no
/// id for one of the two tickers.
pub open spec fn resolved(pair: (Seq<char>, Seq<char>), names: Seq<Option<Seq<char>>>) -> Option<
    (u16, u16),
> {
    match (data::id_named(names, pair.0), data::id_named(names, pair.1)) {
        (Some(old), Some(new)) => Some((old, new)),
        _ => None,
    }
}

/// The renames queued by symbol. One with a ticker the dataset has no id for is
/// left out: there is nothing to transfer a position to.
pub open spec fn queued_renames(
    items: Seq<(i32, (Seq<char>, Seq<char>))>,
    names: Seq<Option<Seq<char>>>,
) -> Map<i32, Seq<(Symbol, Symbol)>>
    decreases items.len(),
{
    if items.len() == 0 {
        Map::empty()
    } else {
        let before = queued_renames(items.drop_last(), names);
        let (day, pair) = items.last();
        match resolved(pair, names) {
            Some((old, new)) => before.insert(
                day,
                agenda::items_on(before, day).push(
                    (symbol::symbol_of(old), symbol::symbol_of(new)),
                ),
            ),
            None => before,
        }
    }
}

/// The ids that renames lead to.
pub open spec fn rename_targets(
    items: Seq<(i32, (Seq<char>, Seq<char>))>,
    names: Seq<Option<Seq<char>>>,
) -> Set<u16>
    decreases items.len(),
{
    if items.len() == 0 {
        Set::empty()
    } else {
        let before = rename_targets(items.drop_last(), names);
        match resolved(items.last().1, names) {
            Some((_, new)) => before.insert(new),
            None => before,
        }
    }
}

/// The tickers that renames lead to.
pub open spec fn target_names(
    items: Seq<(i32, (Seq<char>, Seq<char>))>,
    names: Seq<Option<Seq<char>>>,
) -> Set<Seq<char>>
    decreases items.len(),
{
    if items.len() == 0 {
        Set::empty()
    } else {
        let before = target_names(items.drop_last(), names);
        match resolved(items.last().1, names) {
            Some(_) => before.insert(items.last().1.1),
            None => before,
        }
    }
}

/// Amounts queued by symbol. One of a ticker the dataset has no id for is left
/// out.
pub open spec fn queued_amounts<N>(
    items: Seq<(i32, (Seq<char>, N))>,
    names: Seq<Option<Seq<char>>>,
) -> Map<i32, Seq<(Symbol, N)>>
    decreases items.len(),
{
    if items.len() == 0 {
        Map::empty()
    } else {
        let before = queued_amounts(items.drop_last(), names);
        let (day, item) = items.last();
        match data::id_named(names, item.0) {
            Some(id) => before.insert(
                day,
                agenda::items_on(before, day).push((symbol::symbol_of(id), item.1)),
            ),
            None => before,
        }
    }
}

/// A symbol is the one its id stands for.
proof fn lemma_symbol(symbol: Symbol)
    ensures
        symbol == symbol::symbol_of(symbol.id()),
{
    broadcast use symbol::group_symbol;

}

/// Queue renames by symbol, subscribing what they lead to. A successor is
/// subscribed up front, so its bars stream from the start; the position is only
/// transferred on the effective date.
pub fn queue_renames<N: Number>(
    ctx: &mut Context<N>,
    pairs: &Agenda<(String, String)>,
    names: &mut FxHashSet<String>,
) -> (r: Agenda<(Symbol, Symbol)>)
    ensures
        ({
            let items = agenda::all_dated(metadata::pair_agenda(pairs@));
            let tickers = old(ctx).names();
            &&& r@ == queued_renames(items, tickers)
            &&& final(ctx).moved_subscriptions(*old(ctx))
            &&& final(ctx).subscriptions() == old(ctx).subscriptions() + rename_targets(
                items,
                tickers,
            )
            &&& metadata::held_names(final(names)) == metadata::held_names(old(names))
                + target_names(items, tickers)
        }),
{
    let listed = pairs.listed();
    let ghost items = agenda::all_dated(metadata::pair_agenda(pairs@));
    let ghost tickers = ctx.names();
    proof {
        let says = |pair: (String, String)| (pair.0@, pair.1@);
        let views = metadata::pair_agenda(pairs@);
        assert forall|d: i32| #[trigger] pairs@.contains_key(d) implies views[d] == Seq::new(
            pairs@[d].len(),
            |i: int| says(pairs@[d][i]),
        ) by {
            assert(views[d] =~= Seq::new(pairs@[d].len(), |i: int| says(pairs@[d][i])));
        }
        agenda::lemma_dated_maps(pairs@, views, says, i32::MAX as int);
        assert forall|i: int| 0 <= i < listed@.len() implies items[i] == (
            (#[trigger] listed@[i]).0,
            (listed@[i].1.0@, listed@[i].1.1@),
        ) by {
            assert(agenda::dated_through(views, i32::MAX as int)[i] == (
                agenda::dated_through(pairs@, i32::MAX as int)[i].0,
                says(agenda::dated_through(pairs@, i32::MAX as int)[i].1),
            ));
        }
        assert(items.take(0) =~= Seq::empty());
        assert(ctx.subscriptions() + Set::empty() =~= ctx.subscriptions());
        assert(metadata::held_names(names) + Set::empty() =~= metadata::held_names(names));
    }
    let mut queued: Agenda<(Symbol, Symbol)> = Agenda::new();
    for i in 0..listed.len()
        invariant
            listed@.len() == items.len(),
            forall|j: int|
                0 <= j < listed@.len() ==> items[j] == (
                    (#[trigger] listed@[j]).0,
                    (listed@[j].1.0@, listed@[j].1.1@),
                ),
            tickers == old(ctx).names(),
            ctx.moved_subscriptions(*old(ctx)),
            queued@ == queued_renames(items.take(i as int), tickers),
            ctx.subscriptions() == old(ctx).subscriptions() + rename_targets(
                items.take(i as int),
                tickers,
            ),
            metadata::held_names(names) == metadata::held_names(old(names)) + target_names(
                items.take(i as int),
                tickers,
            ),
    {
        let (day, pair) = listed[i];
        let ghost item = items[i as int];
        proof {
            assert(items.take(i + 1).drop_last() =~= items.take(i as int));
            assert(items.take(i + 1).last() == item);
            assert(ctx.names() == tickers);
        }
        let from = ctx.symbol(pair.0.as_str());
        let to = ctx.symbol(pair.1.as_str());
        if let (Some(old_symbol), Some(new_symbol)) = (from, to) {
            proof {
                data::lemma_id_named(tickers, pair.0@, old_symbol.id());
                data::lemma_id_named(tickers, pair.1@, new_symbol.id());
                lemma_symbol(old_symbol);
                lemma_symbol(new_symbol);
                assert(resolved(item.1, tickers) == Some((old_symbol.id(), new_symbol.id())));
            }
            let ghost targets = rename_targets(items.take(i as int), tickers);
            let ghost known = target_names(items.take(i as int), tickers);
            ctx.subscribe(new_symbol);
            add_name(names, pair.1.as_str());
            queued.push_on(day, (old_symbol, new_symbol));
            proof {
                assert((old(ctx).subscriptions() + targets).insert(new_symbol.id()) =~= old(
                    ctx,
                ).subscriptions() + targets.insert(new_symbol.id()));
                assert((metadata::held_names(old(names)) + known).insert(pair.1@)
                    =~= metadata::held_names(old(names)) + known.insert(pair.1@));
            }
        } else {
            assert(resolved(item.1, tickers) is None);
        }
    }
    assert(items.take(items.len() as int) =~= items);
    queued
}

/// Queue amounts by symbol.
pub fn queue_amounts<N: Number>(ctx: &Context<N>, table: &Amounts<N>) -> (r: Agenda<(Symbol, N)>)
    ensures
        r@ == queued_amounts(agenda::all_dated(table@), ctx.names()),
{
    let listed = table.listed();
    let ghost items = agenda::all_dated(table@);
    let mut queued: Agenda<(Symbol, N)> = Agenda::new();
    assert(items.take(0) =~= Seq::empty());
    for i in 0..listed.len()
        invariant
            items == agenda::all_dated(table@),
            listed@.len() == items.len(),
            forall|j: int|
                0 <= j < listed@.len() ==> agenda::all_dated(table@)[j] == (
                    (#[trigger] listed@[j]).0,
                    (listed@[j].1.0@, listed@[j].1.1),
                ),
            queued@ == queued_amounts(items.take(i as int), ctx.names()),
    {
        let (day, item) = listed[i];
        proof {
            assert(items.take(i + 1).drop_last() =~= items.take(i as int));
            assert(items.take(i + 1).last() == items[i as int]);
            assert(items[i as int] == (listed@[i as int].0, (item.0@, item.1)));
        }
        match ctx.symbol(item.0.as_str()) {
            Some(symbol) => {
                proof {
                    data::lemma_id_named(ctx.names(), item.0@, symbol.id());
                    lemma_symbol(symbol);
                }
                queued.push_on(day, (symbol, item.1));
            },
            None => {},
        }
    }
    assert(items.take(items.len() as int) =~= items);
    queued
}

/// Ids as the mask counts them.
pub open spec fn as_ints(ids: Set<u16>) -> Set<int> {
    Set::new(|id: int| 0 <= id <= u16::MAX && ids.contains(id as u16))
}

/// The mask of what is subscribed, over every id the dataset names.
pub fn subscription_mask<N: Number>(ctx: &Context<N>) -> (r: SubscriptionMask)
    ensures
        r@ == as_ints(ctx.subscriptions()),
        r.space() >= ctx.names().len(),
        (forall|id: u16| #[trigger]
            ctx.subscriptions().contains(id) ==> id < ctx.names().len()) ==> r.space()
            == ctx.names().len(),
{
    let mut mask = SubscriptionMask::with_id_space(ctx.id_space());
    let symbols = ctx.subscribed();
    let ghost ids = symbol::ids_of(symbols@);
    for i in 0..symbols.len()
        invariant
            ids == symbol::ids_of(symbols@),
            mask.space() >= ctx.names().len(),
            (forall|k: int| 0 <= k < i ==> #[trigger] ids[k] < ctx.names().len()) ==> mask.space()
                == ctx.names().len(),
            forall|id: int| #[trigger]
                mask@.contains(id) <==> exists|k: int| 0 <= k < i && #[trigger] ids[k] == id,
    {
        let ghost before = mask@;
        mask.insert(symbols[i]);
        proof {
            if forall|k: int| 0 <= k < i + 1 ==> #[trigger] ids[k] < ctx.names().len() {
                assert(ids[i as int] < ctx.names().len());
                assert forall|k: int| 0 <= k < i implies #[trigger] ids[k]
                    < ctx.names().len() by {};
            }
        }
        assert forall|id: int| #[trigger] mask@.contains(id) <==> exists|k: int|
            0 <= k < i + 1 && #[trigger] ids[k] == id by {
            assert(ids[i as int] == symbols@[i as int].id());
            if before.contains(id) {
                let k = choose|k: int| 0 <= k < i && #[trigger] ids[k] == id;
                assert(ids[k] == id);
            }
            if exists|k: int| 0 <= k < i + 1 && #[trigger] ids[k] == id {
                let k = choose|k: int| 0 <= k < i + 1 && #[trigger] ids[k] == id;
                if k < i {
                    assert(before.contains(id));
                }
            }
        }
    }
    assert forall|k: int| 0 <= k < ids.len() implies ctx.subscriptions().contains(
        #[trigger] ids[k],
    ) by {
        assert(ids.contains(ids[k]));
    }
    assert forall|id: int| mask@.contains(id) <==> as_ints(ctx.subscriptions()).contains(id) by {
        if mask@.contains(id) {
            let k = choose|k: int| 0 <= k < ids.len() && #[trigger] ids[k] == id;
            assert(ids.contains(ids[k]));
        }
        if as_ints(ctx.subscriptions()).contains(id) {
            assert(ids.contains(id as u16));
            let k = choose|k: int| 0 <= k < ids.len() && ids[k] == id as u16;
            assert(ids[k] == id);
        }
    }
    assert(mask@ =~= as_ints(ctx.subscriptions()));
    mask
}

/// Where the renames of a run lie, and whether that was asked for.
pub fn renames_file<N: Number>(ctx: &Context<N>, data_path: &str) -> (r: (String, bool))
    ensures
        r.1 == (ctx.config().renames_file is Some),
        r.0@ == text::joined(
            data_path@,
            match ctx.config().renames_file {
                Some(path) => path@,
                None => RENAMES_FILE@,
            },
        ),
{
    resolve_data_file(data_path, &ctx.settings.renames_file, RENAMES_FILE)
}

/// Where the splits of a run lie, and whether that was asked for.
pub fn splits_file<N: Number>(ctx: &Context<N>, data_path: &str) -> (r: (String, bool))
    ensures
        r.1 == (ctx.config().splits_file is Some),
        r.0@ == text::joined(
            data_path@,
            match ctx.config().splits_file {
                Some(path) => path@,
                None => SPLITS_FILE@,
            },
        ),
{
    resolve_data_file(data_path, &ctx.settings.splits_file, SPLITS_FILE)
}

/// Where the dividends of a run lie, and whether that was asked for.
pub fn dividends_file<N: Number>(ctx: &Context<N>, data_path: &str) -> (r: (String, bool))
    ensures
        r.1 == (ctx.config().dividends_file is Some),
        r.0@ == text::joined(
            data_path@,
            match ctx.config().dividends_file {
                Some(path) => path@,
                None => DIVIDENDS_FILE@,
            },
        ),
{
    resolve_data_file(data_path, &ctx.settings.dividends_file, DIVIDENDS_FILE)
}

/// Corporate actions on their way into a run: the queues so far, and the names
/// the metadata is matched against. Renames come first, since what they lead to
/// joins those names.
pub struct ActionLoader<N> {
    pub(crate) names: FxHashSet<String>,
    pub(crate) pending: PendingActions<N>,
}

impl<N: Number> ActionLoader<N> {
    /// The names the metadata is matched against.
    pub open(crate) spec fn known(&self) -> Set<Seq<char>> {
        metadata::held_names(&self.names)
    }

    /// The queues so far.
    pub open(crate) spec fn queues(&self) -> PendingActions<N> {
        self.pending
    }

    /// Nothing queued yet, and the names of what is subscribed.
    pub fn new(ctx: &Context<N>) -> (r: ActionLoader<N>)
        ensures
            r.known() == tickers_of(ctx.names(), ctx.subscriptions()),
            r.queues().splits@ == Map::<i32, Seq<(Symbol, N)>>::empty(),
            r.queues().dividends@ == Map::<i32, Seq<(Symbol, N)>>::empty(),
            r.queues().renames@ == Map::<i32, Seq<(Symbol, Symbol)>>::empty(),
    {
        ActionLoader { names: subscribed_names(ctx), pending: PendingActions::new() }
    }

    /// The names the metadata is matched against.
    pub fn names(&self) -> (r: &FxHashSet<String>)
        ensures
            metadata::held_names(r) == self.known(),
    {
        &self.names
    }

    /// Queue the renames of what is subscribed, subscribing what they lead to.
    pub fn load_renames(
        &mut self,
        ctx: &mut Context<N>,
        path: &str,
        loaded: Loaded<Vec<RenameRecord>>,
        required: bool,
    ) -> (r: Result<(), BacktestError>)
        ensures
            r is Err <==> metadata::load_fails(loaded, required),
            r is Err ==> {
                &&& metadata::reports_load(r->Err_0, loaded, path@, "renames"@)
                &&& *final(self) == *old(self)
                &&& *final(ctx) == *old(ctx)
            },
            r is Ok ==> {
                let items = agenda::all_dated(
                    metadata::rename_pairs(metadata::loaded_records(loaded), old(self).known()),
                );
                let tickers = old(ctx).names();
                &&& final(self).queues().renames@ == queued_renames(items, tickers)
                &&& final(self).queues().splits == old(self).queues().splits
                &&& final(self).queues().dividends == old(self).queues().dividends
                &&& final(self).known() == old(self).known() + target_names(items, tickers)
                &&& final(ctx).moved_subscriptions(*old(ctx))
                &&& final(ctx).subscriptions() == old(ctx).subscriptions() + rename_targets(
                    items,
                    tickers,
                )
            },
    {
        match load_renames_from(path, loaded, &self.names, required) {
            Ok(pairs) => {
                self.pending.renames = queue_renames(ctx, &pairs, &mut self.names);
                Ok(())
            },
            Err(error) => Err(error),
        }
    }

    /// Queue the splits of what is known.
    pub fn load_splits(
        &mut self,
        ctx: &Context<N>,
        path: &str,
        loaded: Loaded<Vec<SplitRecord<N>>>,
        required: bool,
    ) -> (r: Result<(), BacktestError>)
        ensures
            r is Err <==> metadata::load_fails(loaded, required),
            r is Err ==> {
                &&& metadata::reports_load(r->Err_0, loaded, path@, "splits"@)
                &&& *final(self) == *old(self)
            },
            final(self).known() == old(self).known(),
            final(self).queues().renames == old(self).queues().renames,
            final(self).queues().dividends == old(self).queues().dividends,
            r is Ok ==> final(self).queues().splits@ == queued_amounts(
                agenda::all_dated(
                    metadata::split_ratios(metadata::loaded_records(loaded), old(self).known()),
                ),
                ctx.names(),
            ),
    {
        match load_splits_from(path, loaded, &self.names, required) {
            Ok(table) => {
                self.pending.splits = queue_amounts(ctx, &table);
                Ok(())
            },
            Err(error) => Err(error),
        }
    }

    /// Queue the dividends of what is known.
    pub fn load_dividends(
        &mut self,
        ctx: &Context<N>,
        path: &str,
        loaded: Loaded<Vec<DividendRecord<N>>>,
        required: bool,
    ) -> (r: Result<(), BacktestError>)
        ensures
            r is Err <==> metadata::load_fails(loaded, required),
            r is Err ==> {
                &&& metadata::reports_load(r->Err_0, loaded, path@, "dividends"@)
                &&& *final(self) == *old(self)
            },
            final(self).known() == old(self).known(),
            final(self).queues().renames == old(self).queues().renames,
            final(self).queues().splits == old(self).queues().splits,
            r is Ok ==> final(self).queues().dividends@ == queued_amounts(
                agenda::all_dated(
                    metadata::dividend_amounts(metadata::loaded_records(loaded), old(self).known()),
                ),
                ctx.names(),
            ),
    {
        match load_dividends_from(path, loaded, &self.names, required) {
            Ok(table) => {
                self.pending.dividends = queue_amounts(ctx, &table);
                Ok(())
            },
            Err(error) => Err(error),
        }
    }

    /// The mask of what is subscribed and everything queued.
    pub fn finish(self, ctx: &Context<N>) -> (r: (SubscriptionMask, PendingActions<N>))
        ensures
            r.0@ == as_ints(ctx.subscriptions()),
            r.0.space() >= ctx.names().len(),
            (forall|id: u16| #[trigger]
                ctx.subscriptions().contains(id) ==> id < ctx.names().len()) ==> r.0.space()
                == ctx.names().len(),
            r.1 == self.queues(),
    {
        (subscription_mask(ctx), self.pending)
    }
}

/// The amounts among dated items that fall on a day and whose ticker the dataset
/// names, in order, under their symbols.
pub open spec fn known_amounts<N>(
    items: Seq<(i32, (Seq<char>, N))>,
    names: Seq<Option<Seq<char>>>,
    day: i32,
) -> Seq<(Symbol, N)> {
    items.filter(
        |item: (i32, (Seq<char>, N))| item.0 == day && data::id_named(names, item.1.0) is Some,
    ).map_values(
        |item: (i32, (Seq<char>, N))|
            (symbol::symbol_of(data::id_named(names, item.1.0)->0), item.1.1),
    )
}

/// Each amount of a ticker the dataset names is queued on its own day under the
/// ticker's symbol, behind those of the day listed before it, and no other is.
pub proof fn amounts_are_queued_on_their_day<N>(
    items: Seq<(i32, (Seq<char>, N))>,
    names: Seq<Option<Seq<char>>>,
    day: i32,
)
    ensures
        agenda::items_on(queued_amounts(items, names), day) == known_amounts(items, names, day),
    decreases items.len(),
{
    reveal(Seq::filter);
    if items.len() > 0 {
        amounts_are_queued_on_their_day(items.drop_last(), names, day);
        let known = known_amounts(items.drop_last(), names, day);
        let (on, item) = items.last();
        if on == day && data::id_named(names, item.0) is Some {
            assert(known_amounts(items, names, day) =~= known.push(
                (symbol::symbol_of(data::id_named(names, item.0)->0), item.1),
            ));
        }
    } else {
        assert(known_amounts(items, names, day) =~= Seq::empty());
    }
}

/// The renames among dated items that fall on a day and both of whose tickers the
/// dataset names, in order, as pairs of symbols, the old one first.
pub open spec fn known_renames(
    items: Seq<(i32, (Seq<char>, Seq<char>))>,
    names: Seq<Option<Seq<char>>>,
    day: i32,
) -> Seq<(Symbol, Symbol)> {
    items.filter(
        |item: (i32, (Seq<char>, Seq<char>))|
            item.0 == day && data::id_named(names, item.1.0) is Some && data::id_named(
                names,
                item.1.1,
            ) is Some,
    ).map_values(
        |item: (i32, (Seq<char>, Seq<char>))|
            (
                symbol::symbol_of(data::id_named(names, item.1.0)->0),
                symbol::symbol_of(data::id_named(names, item.1.1)->0),
            ),
    )
}

/// Each rename between tickers the dataset names is queued on its own day, from the
/// old symbol to the new, behind those of the day listed before it, and no other
/// is. What a queued rename leads to, and nothing else, is subscribed for it.
pub proof fn renames_are_queued_on_their_day(
    items: Seq<(i32, (Seq<char>, Seq<char>))>,
    names: Seq<Option<Seq<char>>>,
    day: i32,
)
    ensures
        agenda::items_on(queued_renames(items, names), day) == known_renames(items, names, day),
        forall|id: u16| #[trigger]
            rename_targets(items, names).contains(id) <==> exists|i: int|
                {
                    &&& 0 <= i < items.len()
                    &&& data::id_named(names, (#[trigger] items[i]).1.0) is Some
                    &&& data::id_named(names, items[i].1.1) == Some(id)
                },
    decreases items.len(),
{
    reveal(Seq::filter);
    if items.len() > 0 {
        let rest = items.drop_last();
        renames_are_queued_on_their_day(rest, names, day);
        let known = known_renames(rest, names, day);
        let (on, pair) = items.last();
        let last = items.len() - 1;
        if on == day && resolved(pair, names) is Some {
            assert(known_renames(items, names, day) =~= known.push(
                (
                    symbol::symbol_of(data::id_named(names, pair.0)->0),
                    symbol::symbol_of(data::id_named(names, pair.1)->0),
                ),
            ));
        }
        assert forall|id: u16| #[trigger]
            rename_targets(items, names).contains(id) <==> exists|i: int|
                {
                    &&& 0 <= i < items.len()
                    &&& data::id_named(names, (#[trigger] items[i]).1.0) is Some
                    &&& data::id_named(names, items[i].1.1) == Some(id)
                } by {
            if rename_targets(rest, names).contains(id) {
                let i = choose|i: int|
                    {
                        &&& 0 <= i < rest.len()
                        &&& data::id_named(names, (#[trigger] rest[i]).1.0) is Some
                        &&& data::id_named(names, rest[i].1.1) == Some(id)
                    };
                assert(items[i] == rest[i]);
            }
            assert(items[last] == items.last());
            if exists|i: int|
                {
                    &&& 0 <= i < items.len()
                    &&& data::id_named(names, (#[trigger] items[i]).1.0) is Some
                    &&& data::id_named(names, items[i].1.1) == Some(id)
                } {
                let i = choose|i: int|
                    {
                        &&& 0 <= i < items.len()
                        &&& data::id_named(names, (#[trigger] items[i]).1.0) is Some
                        &&& data::id_named(names, items[i].1.1) == Some(id)
                    };
                if i < last {
                    assert(rest[i] == items[i]);
                }
            }
        }
    } else {
        assert(known_renames(items, names, day) =~= Seq::empty());
    }
}

} // verus!
