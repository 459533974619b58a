//! The strategy a backtest runs.

use vstd::prelude::*;

use crate::bar::Bar;
use crate::calendar::Time;
use crate::context::Context;
use crate::number::Number;
use crate::slice::Slice;
use crate::symbol::Symbol;

verus! {

/// What a strategy is told.
pub ghost enum Notice<N> {
    /// A tick: its instant and its bars, by id.
    Data { time: Time, bars: Map<u16, Bar<N>> },
    EndOfDay,
    Split { symbol: Symbol, ratio: N },
    Delisted { symbol: Symbol },
    Dividend { symbol: Symbol, amount: N },
    Rename { from: Symbol, to: Symbol },
    Scheduled { handle: usize },
    Consolidated { handle: usize, bar: Bar<N> },
}

/// A call of the strategy: what it was told, and the context it was handed and
/// handed back.
#[verifier::reject_recursive_types(N)]
pub ghost struct Call<N: Number> {
    pub notice: Notice<N>,
    pub before: Context<N>,
    pub after: Context<N>,
}

/// The ticks among what a strategy was told: the instant and the bars of each.
pub open spec fn ticks_told<N: Number>(told: Seq<Call<N>>) -> Seq<(Time, Map<u16, Bar<N>>)>
    decreases told.len(),
{
    if told.len() == 0 {
        Seq::empty()
    } else {
        let before = ticks_told(told.drop_last());
        match told.last().notice {
            Notice::Data { time, bars } => before.push((time, bars)),
            _ => before,
        }
    }
}

/// How many days a strategy was told had ended.
pub open spec fn days_told<N: Number>(told: Seq<Call<N>>) -> nat
    decreases told.len(),
{
    if told.len() == 0 {
        0
    } else {
        let before = days_told(told.drop_last());
        if told.last().notice is EndOfDay {
            before + 1
        } else {
            before
        }
    }
}

/// Whether the strategy never left a warm-up behind, whenever it was called.
pub open spec fn never_warms<N: Number>(told: Seq<Call<N>>) -> bool {
    forall|i: int| 0 <= i < told.len() ==> (#[trigger] told[i]).after.warm_up() == 0
}

/// One more call, which may leave a warm-up behind.
pub broadcast proof fn lemma_never_warms<N: Number>(told: Seq<Call<N>>, call: Call<N>)
    ensures
        #[trigger] never_warms(told.push(call)) <==> never_warms(told) && call.after.warm_up() == 0,
{
    let more = told.push(call);
    if never_warms(more) {
        assert forall|i: int| 0 <= i < told.len() implies (
        #[trigger] told[i]).after.warm_up() == 0 by {
            assert(more[i] == told[i]);
        }
        let end = told.len() as int;
        assert(more[end] == call);
    }
}

/// One more tick told, if that is what the strategy was called with.
pub broadcast proof fn lemma_ticks_told<N: Number>(told: Seq<Call<N>>, call: Call<N>)
    ensures
        #[trigger] ticks_told(told.push(call)) == match call.notice {
            Notice::Data { time, bars } => ticks_told(told).push((time, bars)),
            _ => ticks_told(told),
        },
{
    assert(told.push(call).drop_last() =~= told);
}

/// One more day told, if that is what the strategy was called with.
pub broadcast proof fn lemma_days_told<N: Number>(told: Seq<Call<N>>, call: Call<N>)
    ensures
        #[trigger] days_told(told.push(call)) == if call.notice is EndOfDay {
            days_told(told) + 1
        } else {
            days_told(told)
        },
{
    assert(told.push(call).drop_last() =~= told);
}

/// Whether a call can turn a strategy that is `from` into `to`: as the strategy's
/// own relation says, or, for the hooks that a strategy may leave out, by changing
/// nothing.
pub open spec fn heeded<N: Number, A: Algorithm<N>>(from: A, call: Call<N>, to: A) -> bool {
    ||| from.heeds(call, &to)
    ||| call.notice !is Data && to == from && call.after == call.before
}

/// Whether the calls that `told` has beyond `since` lead a strategy from `from`
/// to `to`: one after the other, each heeded once, and nothing else done to the
/// strategy in between. Of a hook that a strategy may leave out this does not say
/// that it ran where it would have changed nothing; that it runs is said where the
/// call is made, in [`CallLog`].
pub open spec fn lives<N: Number, A: Algorithm<N>>(
    from: A,
    since: Seq<Call<N>>,
    to: A,
    told: Seq<Call<N>>,
) -> bool
    decreases told.len(),
{
    if told.len() <= since.len() {
        told == since && to == from
    } else {
        exists|mid: A|
            lives(from, since, mid, told.drop_last()) && #[trigger] heeded(mid, told.last(), to)
    }
}

/// One call more.
pub proof fn lemma_lives_one<N: Number, A: Algorithm<N>>(
    from: A,
    since: Seq<Call<N>>,
    mid: A,
    told: Seq<Call<N>>,
    call: Call<N>,
    to: A,
)
    requires
        lives(from, since, mid, told),
        heeded(mid, call, to),
    ensures
        lives(from, since, to, told.push(call)),
{
    lemma_lives_prefix(from, since, mid, told);
    let more = told.push(call);
    assert(more.drop_last() =~= told);
    assert(lives(from, since, mid, more.drop_last()) && heeded(mid, more.last(), to));
}

/// What a strategy was told before is what it was told at first.
pub proof fn lemma_lives_prefix<N: Number, A: Algorithm<N>>(
    from: A,
    since: Seq<Call<N>>,
    to: A,
    told: Seq<Call<N>>,
)
    requires
        lives(from, since, to, told),
    ensures
        since.is_prefix_of(told),
    decreases told.len(),
{
    if told.len() > since.len() {
        let mid = choose|mid: A|
            lives(from, since, mid, told.drop_last()) && #[trigger] heeded(mid, told.last(), to);
        lemma_lives_prefix(from, since, mid, told.drop_last());
    }
}

/// Two stretches of calls are one.
pub proof fn lemma_lives_on<N: Number, A: Algorithm<N>>(
    from: A,
    since: Seq<Call<N>>,
    mid: A,
    told: Seq<Call<N>>,
    to: A,
    more: Seq<Call<N>>,
)
    requires
        lives(from, since, mid, told),
        lives(mid, told, to, more),
    ensures
        lives(from, since, to, more),
    decreases more.len(),
{
    lemma_lives_prefix(from, since, mid, told);
    if more.len() > told.len() {
        let last = choose|last: A|
            lives(mid, told, last, more.drop_last()) && #[trigger] heeded(last, more.last(), to);
        lemma_lives_on(from, since, mid, told, last, more.drop_last());
        assert(lives(from, since, last, more.drop_last()) && heeded(last, more.last(), to));
    }
}

/// What a strategy was told of a tick, it heeded: the strategy that the calls
/// before led to answered that call, by its own relation, and the calls after it
/// start from what the answer left.
pub proof fn told_ticks_are_heeded<N: Number, A: Algorithm<N>>(
    from: A,
    since: Seq<Call<N>>,
    to: A,
    told: Seq<Call<N>>,
    i: int,
)
    requires
        lives(from, since, to, told),
        since.len() <= i < told.len(),
        told[i].notice is Data,
    ensures
        exists|before: A, after: A|
            {
                &&& lives(from, since, before, told.take(i))
                &&& #[trigger] before.heeds(told[i], &after)
                &&& lives(after, told.take(i + 1), to, told)
            },
    decreases told.len(),
{
    let mid = choose|mid: A|
        lives(from, since, mid, told.drop_last()) && #[trigger] heeded(mid, told.last(), to);
    let rest = told.drop_last();
    if i == told.len() - 1 {
        assert(told.take(i) =~= rest);
        assert(told.take(i + 1) =~= told);
        assert(mid.heeds(told[i], &to));
    } else {
        told_ticks_are_heeded(from, since, mid, rest, i);
        let (before, after) = choose|before: A, after: A|
            {
                &&& lives(from, since, before, rest.take(i))
                &&& #[trigger] before.heeds(rest[i], &after)
                &&& lives(after, rest.take(i + 1), mid, rest)
            };
        assert(rest.take(i) =~= told.take(i));
        assert(rest.take(i + 1) =~= told.take(i + 1));
        assert(before.heeds(told[i], &after));
        assert(lives(after, told.take(i + 1), to, told)) by {
            assert(told.take(i + 1).len() < told.len());
            assert(lives(after, told.take(i + 1), mid, told.drop_last()) && heeded(
                mid,
                told.last(),
                to,
            ));
        }
    }
}

/// The calls a strategy got, in order. Each method makes one call, of the hook it
/// is named after and on what it is handed, and records it; nothing else adds to
/// the list.
#[verifier::reject_recursive_types(N)]
pub struct CallLog<N: Number> {
    calls: Ghost<Seq<Call<N>>>,
}

impl<N: Number> View for CallLog<N> {
    type V = Seq<Call<N>>;

    closed spec fn view(&self) -> Seq<Call<N>> {
        self.calls@
    }
}

impl<N: Number> CallLog<N> {
    /// No call yet.
    pub fn new() -> (r: CallLog<N>)
        ensures
            r@ == Seq::<Call<N>>::empty(),
    {
        CallLog { calls: Ghost(Seq::empty()) }
    }

    /// Call the strategy with a tick.
    pub fn on_data<A: Algorithm<N>>(
        &mut self,
        algo: &mut A,
        ctx: &mut Context<N>,
        data: &Slice<N>,
    )
        ensures
            final(self)@ == old(self)@.push(
                Call { notice: Notice::Data { time: data.time, bars: data.bars@ }, before: *old(ctx), after: *final(ctx) },
            ),
            heeded(*old(algo), final(self)@.last(), *final(algo)),
            lives(*old(algo), old(self)@, *final(algo), final(self)@),
            exists|a: &mut A, c: &mut Context<N>|
                {
                    &&& *a == *old(algo) && *final(a) == *final(algo)
                    &&& *c == *old(ctx) && *final(c) == *final(ctx)
                    &&& #[trigger] call_ensures(A::on_data, (a, c, data), ())
                },
    {
        let ghost strategy = *algo;
        let ghost before = *ctx;
        algo.on_data(ctx, data);
        proof {
            let call = Call { notice: Notice::Data { time: data.time, bars: data.bars@ }, before, after: *ctx };
            lemma_lives_one(strategy, self.calls@, strategy, self.calls@, call, *algo);
            self.calls@ = self.calls@.push(call);
        }
    }

    /// Tell the strategy that a day has ended.
    pub fn on_end_of_day<A: Algorithm<N>>(
        &mut self,
        algo: &mut A,
        ctx: &mut Context<N>,
    )
        ensures
            final(self)@ == old(self)@.push(
                Call { notice: Notice::EndOfDay, before: *old(ctx), after: *final(ctx) },
            ),
            heeded(*old(algo), final(self)@.last(), *final(algo)),
            lives(*old(algo), old(self)@, *final(algo), final(self)@),
            exists|a: &mut A, c: &mut Context<N>|
                {
                    &&& *a == *old(algo) && *final(a) == *final(algo)
                    &&& *c == *old(ctx) && *final(c) == *final(ctx)
                    &&& #[trigger] call_ensures(A::on_end_of_day, (a, c), ())
                },
    {
        let ghost strategy = *algo;
        let ghost before = *ctx;
        algo.on_end_of_day(ctx);
        proof {
            let call = Call { notice: Notice::EndOfDay, before, after: *ctx };
            lemma_lives_one(strategy, self.calls@, strategy, self.calls@, call, *algo);
            self.calls@ = self.calls@.push(call);
        }
    }

    /// Tell the strategy of a split.
    pub fn on_split<A: Algorithm<N>>(
        &mut self,
        algo: &mut A,
        ctx: &mut Context<N>,
        symbol: Symbol,
        ratio: N,
    )
        ensures
            final(self)@ == old(self)@.push(
                Call { notice: Notice::Split { symbol, ratio }, before: *old(ctx), after: *final(ctx) },
            ),
            heeded(*old(algo), final(self)@.last(), *final(algo)),
            lives(*old(algo), old(self)@, *final(algo), final(self)@),
            exists|a: &mut A, c: &mut Context<N>|
                {
                    &&& *a == *old(algo) && *final(a) == *final(algo)
                    &&& *c == *old(ctx) && *final(c) == *final(ctx)
                    &&& #[trigger] call_ensures(A::on_split, (a, c, symbol, ratio), ())
                },
    {
        let ghost strategy = *algo;
        let ghost before = *ctx;
        algo.on_split(ctx, symbol, ratio);
        proof {
            let call = Call { notice: Notice::Split { symbol, ratio }, before, after: *ctx };
            lemma_lives_one(strategy, self.calls@, strategy, self.calls@, call, *algo);
            self.calls@ = self.calls@.push(call);
        }
    }

    /// Tell the strategy of a forced liquidation.
    pub fn on_delisted<A: Algorithm<N>>(
        &mut self,
        algo: &mut A,
        ctx: &mut Context<N>,
        symbol: Symbol,
    )
        ensures
            final(self)@ == old(self)@.push(
                Call { notice: Notice::Delisted { symbol }, before: *old(ctx), after: *final(ctx) },
            ),
            heeded(*old(algo), final(self)@.last(), *final(algo)),
            lives(*old(algo), old(self)@, *final(algo), final(self)@),
            exists|a: &mut A, c: &mut Context<N>|
                {
                    &&& *a == *old(algo) && *final(a) == *final(algo)
                    &&& *c == *old(ctx) && *final(c) == *final(ctx)
                    &&& #[trigger] call_ensures(A::on_delisted, (a, c, symbol), ())
                },
    {
        let ghost strategy = *algo;
        let ghost before = *ctx;
        algo.on_delisted(ctx, symbol);
        proof {
            let call = Call { notice: Notice::Delisted { symbol }, before, after: *ctx };
            lemma_lives_one(strategy, self.calls@, strategy, self.calls@, call, *algo);
            self.calls@ = self.calls@.push(call);
        }
    }

    /// Tell the strategy of a dividend.
    pub fn on_dividend<A: Algorithm<N>>(
        &mut self,
        algo: &mut A,
        ctx: &mut Context<N>,
        symbol: Symbol,
        amount: N,
    )
        ensures
            final(self)@ == old(self)@.push(
                Call { notice: Notice::Dividend { symbol, amount }, before: *old(ctx), after: *final(ctx) },
            ),
            heeded(*old(algo), final(self)@.last(), *final(algo)),
            lives(*old(algo), old(self)@, *final(algo), final(self)@),
            exists|a: &mut A, c: &mut Context<N>|
                {
                    &&& *a == *old(algo) && *final(a) == *final(algo)
                    &&& *c == *old(ctx) && *final(c) == *final(ctx)
                    &&& #[trigger] call_ensures(A::on_dividend, (a, c, symbol, amount), ())
                },
    {
        let ghost strategy = *algo;
        let ghost before = *ctx;
        algo.on_dividend(ctx, symbol, amount);
        proof {
            let call = Call { notice: Notice::Dividend { symbol, amount }, before, after: *ctx };
            lemma_lives_one(strategy, self.calls@, strategy, self.calls@, call, *algo);
            self.calls@ = self.calls@.push(call);
        }
    }

    /// Tell the strategy of a rename.
    pub fn on_rename<A: Algorithm<N>>(
        &mut self,
        algo: &mut A,
        ctx: &mut Context<N>,
        from: Symbol,
        to: Symbol,
    )
        ensures
            final(self)@ == old(self)@.push(
                Call { notice: Notice::Rename { from, to }, before: *old(ctx), after: *final(ctx) },
            ),
            heeded(*old(algo), final(self)@.last(), *final(algo)),
            lives(*old(algo), old(self)@, *final(algo), final(self)@),
            exists|a: &mut A, c: &mut Context<N>|
                {
                    &&& *a == *old(algo) && *final(a) == *final(algo)
                    &&& *c == *old(ctx) && *final(c) == *final(ctx)
                    &&& #[trigger] call_ensures(A::on_rename, (a, c, from, to), ())
                },
    {
        let ghost strategy = *algo;
        let ghost before = *ctx;
        algo.on_rename(ctx, from, to);
        proof {
            let call = Call { notice: Notice::Rename { from, to }, before, after: *ctx };
            lemma_lives_one(strategy, self.calls@, strategy, self.calls@, call, *algo);
            self.calls@ = self.calls@.push(call);
        }
    }

    /// Tell the strategy that a scheduled time is reached.
    pub fn on_scheduled<A: Algorithm<N>>(
        &mut self,
        algo: &mut A,
        ctx: &mut Context<N>,
        handle: usize,
    )
        ensures
            final(self)@ == old(self)@.push(
                Call { notice: Notice::Scheduled { handle }, before: *old(ctx), after: *final(ctx) },
            ),
            heeded(*old(algo), final(self)@.last(), *final(algo)),
            lives(*old(algo), old(self)@, *final(algo), final(self)@),
            exists|a: &mut A, c: &mut Context<N>|
                {
                    &&& *a == *old(algo) && *final(a) == *final(algo)
                    &&& *c == *old(ctx) && *final(c) == *final(ctx)
                    &&& #[trigger] call_ensures(A::on_scheduled, (a, c, handle), ())
                },
    {
        let ghost strategy = *algo;
        let ghost before = *ctx;
        algo.on_scheduled(ctx, handle);
        proof {
            let call = Call { notice: Notice::Scheduled { handle }, before, after: *ctx };
            lemma_lives_one(strategy, self.calls@, strategy, self.calls@, call, *algo);
            self.calls@ = self.calls@.push(call);
        }
    }

    /// Hand the strategy a consolidated bar. It gets no context.
    pub fn on_consolidated<A: Algorithm<N>>(
        &mut self,
        algo: &mut A,
        ctx: &Context<N>,
        handle: usize,
        bar: &Bar<N>,
    )
        ensures
            final(self)@ == old(self)@.push(
                Call {
                    notice: Notice::Consolidated { handle, bar: *bar },
                    before: *ctx,
                    after: *ctx,
                },
            ),
            heeded(*old(algo), final(self)@.last(), *final(algo)),
            lives(*old(algo), old(self)@, *final(algo), final(self)@),
            exists|a: &mut A|
                {
                    &&& *a == *old(algo) && *final(a) == *final(algo)
                    &&& #[trigger] call_ensures(A::on_consolidated, (a, handle, bar), ())
                },
    {
        let ghost strategy = *algo;
        algo.on_consolidated(handle, bar);
        proof {
            let call = Call {
                notice: Notice::Consolidated { handle, bar: *bar },
                before: *ctx,
                after: *ctx,
            };
            lemma_lives_one(strategy, self.calls@, strategy, self.calls@, call, *algo);
            self.calls@ = self.calls@.push(call);
        }
    }
}

/// A trading strategy. The engine calls it as the data streams by; it may do
/// whatever the [`Context`] offers, so nothing is known of the context after a
/// call but what the strategy's own relation says.
pub trait Algorithm<N: Number>: Sized {
    /// Whether a call can take the strategy from `self` to `after`. It is for a
    /// strategy to say how it answers; one that says nothing may answer anyhow.
    open spec fn heeds(&self, call: Call<N>, after: &Self) -> bool {
        true
    }

    /// Called once, before the first bar, to configure the run.
    fn initialize(&mut self, ctx: &mut Context<N>);

    /// Called on every tick after warm-up.
    fn on_data(&mut self, ctx: &mut Context<N>, data: &Slice<N>)
        ensures
            old(self).heeds(
                Call {
                    notice: Notice::Data { time: data.time, bars: data.bars@ },
                    before: *old(ctx),
                    after: *final(ctx),
                },
                final(self),
            ),
    ;

    /// Called once per trading day after its last bar: on the first bar of the
    /// following day (before that bar touches any state), and once at the end
    /// of data for the final day. Orders placed here fill on the next day's
    /// first bar, except on the final call, where no bar remains and they are
    /// dropped.
    fn on_end_of_day(&mut self, ctx: &mut Context<N>)
        ensures
            ({
                let call = Call { notice: Notice::EndOfDay, before: *old(ctx), after: *final(ctx) };
                ||| old(self).heeds(call, final(self))
                ||| *final(self) == *old(self) && *final(ctx) == *old(ctx)
            }),
    {
    }

    /// Called when a stock split executes on a subscribed symbol. The engine
    /// has already adjusted any held position and rescaled the history into
    /// post-split terms. `ratio` is new shares per old share.
    fn on_split(&mut self, ctx: &mut Context<N>, symbol: Symbol, ratio: N)
        ensures
            ({
                let call = Call { notice: Notice::Split { symbol, ratio }, before: *old(ctx), after: *final(ctx) };
                ||| old(self).heeds(call, final(self))
                ||| *final(self) == *old(self) && *final(ctx) == *old(ctx)
            }),
    {
    }

    /// Called after a held symbol produced no bars for the configured number of
    /// trading days and the engine force-liquidated the position.
    fn on_delisted(&mut self, ctx: &mut Context<N>, symbol: Symbol)
        ensures
            ({
                let call = Call { notice: Notice::Delisted { symbol }, before: *old(ctx), after: *final(ctx) };
                ||| old(self).heeds(call, final(self))
                ||| *final(self) == *old(self) && *final(ctx) == *old(ctx)
            }),
    {
    }

    /// Called when a cash dividend goes ex on a subscribed symbol you hold. The
    /// engine has already credited it. `amount` is the cash dividend per share.
    fn on_dividend(&mut self, ctx: &mut Context<N>, symbol: Symbol, amount: N)
        ensures
            ({
                let call = Call { notice: Notice::Dividend { symbol, amount }, before: *old(ctx), after: *final(ctx) };
                ||| old(self).heeds(call, final(self))
                ||| *final(self) == *old(self) && *final(ctx) == *old(ctx)
            }),
    {
    }

    /// Called when a subscribed symbol is renamed. The engine has already
    /// transferred any held position, PnL ledger, and history from `from` to
    /// `to`.
    fn on_rename(&mut self, ctx: &mut Context<N>, from: Symbol, to: Symbol)
        ensures
            ({
                let call = Call { notice: Notice::Rename { from, to }, before: *old(ctx), after: *final(ctx) };
                ||| old(self).heeds(call, final(self))
                ||| *final(self) == *old(self) && *final(ctx) == *old(ctx)
            }),
    {
    }

    /// Called when a scheduled time is reached, with the handle that
    /// [`Context::on_time`] returned.
    fn on_scheduled(&mut self, ctx: &mut Context<N>, handle: usize)
        ensures
            ({
                let call = Call { notice: Notice::Scheduled { handle }, before: *old(ctx), after: *final(ctx) };
                ||| old(self).heeds(call, final(self))
                ||| *final(self) == *old(self) && *final(ctx) == *old(ctx)
            }),
    {
    }

    /// Called with each consolidated bar, with the handle that
    /// [`Context::consolidate`] returned.
    fn on_consolidated(&mut self, handle: usize, bar: &Bar<N>)
        ensures
            *final(self) == *old(self) || forall|ctx: Context<N>|
                old(self).heeds(
                    Call {
                        notice: Notice::Consolidated { handle, bar: *bar },
                        before: ctx,
                        after: ctx,
                    },
                    final(self),
                ),
    {
    }
}

} // verus!
