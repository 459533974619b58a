//! What a finished backtest reports: trades, equity points, open positions,
//! and the figures computed from them.

use vstd::prelude::*;

use crate::exact;
use crate::number;
use crate::number::Number;

verus! {

/// Trading days in a year, for accruing and annualizing.
pub const TRADING_DAYS_PER_YEAR: u64 = 252;

/// One completed round trip: the full lifetime of a position from the fill
/// that opened it from flat to the fill that returned it to flat (or flipped
/// it). Intermediate rebalance fills are netted into the entry and exit
/// averages.
#[derive(Debug, Clone)]
pub struct Trade<N> {
    pub symbol: String,
    /// `"long"` or `"short"`.
    pub direction: String,
    /// Volume-weighted average price of all fills that built the position.
    pub entry_price: N,
    /// Volume-weighted average price of all fills that unwound it.
    pub exit_price: N,
    pub entry_time: String,
    pub exit_time: String,
    /// Total (absolute) quantity that round-tripped.
    pub quantity: N,
    /// Realized PnL over the lifetime, net of commissions.
    pub pnl: N,
    /// What ended the lifetime: `"signal"`, `"split"` or `"delisted"`.
    pub exit_reason: String,
}

/// What a [`Trade`] says.
pub ghost struct TradeView<N> {
    pub symbol: Seq<char>,
    pub direction: Seq<char>,
    pub entry_price: N,
    pub exit_price: N,
    pub entry_time: Seq<char>,
    pub exit_time: Seq<char>,
    pub quantity: N,
    pub pnl: N,
    pub exit_reason: Seq<char>,
}

impl<N> View for Trade<N> {
    type V = TradeView<N>;

    open spec fn view(&self) -> TradeView<N> {
        TradeView {
            symbol: self.symbol@,
            direction: self.direction@,
            entry_price: self.entry_price,
            exit_price: self.exit_price,
            entry_time: self.entry_time@,
            exit_time: self.exit_time@,
            quantity: self.quantity,
            pnl: self.pnl,
            exit_reason: self.exit_reason@,
        }
    }
}

/// Portfolio equity at an instant or at the end of a trading day.
#[derive(Debug, Clone)]
pub struct EquityPoint<N> {
    /// Trading date, or instant for an intraday point.
    pub time: String,
    pub equity: N,
}

impl<N> View for EquityPoint<N> {
    type V = (Seq<char>, N);

    open spec fn view(&self) -> (Seq<char>, N) {
        (self.time@, self.equity)
    }
}

/// A position still open when the backtest ended, marked at the last known
/// market price.
#[derive(Debug, Clone)]
pub struct OpenPositionSummary<N> {
    pub symbol: String,
    pub quantity: N,
    pub avg_price: N,
    pub last_price: N,
    pub market_value: N,
    pub unrealized_pnl: N,
    /// PnL already realized by partial unwinds (and commissions paid) during
    /// this still-open position lifetime. Not part of any completed trade.
    pub realized_pnl: N,
}

/// What an [`OpenPositionSummary`] says.
pub ghost struct OpenPositionView<N> {
    pub symbol: Seq<char>,
    pub quantity: N,
    pub avg_price: N,
    pub last_price: N,
    pub market_value: N,
    pub unrealized_pnl: N,
    pub realized_pnl: N,
}

impl<N> View for OpenPositionSummary<N> {
    type V = OpenPositionView<N>;

    open spec fn view(&self) -> OpenPositionView<N> {
        OpenPositionView {
            symbol: self.symbol@,
            quantity: self.quantity,
            avg_price: self.avg_price,
            last_price: self.last_price,
            market_value: self.market_value,
            unrealized_pnl: self.unrealized_pnl,
            realized_pnl: self.realized_pnl,
        }
    }
}

#[derive(Debug, Clone, Copy)]
pub struct BacktestStats<N> {
    pub trade_count: usize,
    pub win_rate: N,
    /// Sum of realized trade PnL (net of commissions).
    pub total_pnl: N,
    pub profit_factor: N,
    /// Worst peak-to-trough decline of the daily mark-to-market equity curve.
    pub max_drawdown: N,
    /// Annualized from daily equity-curve returns.
    pub sharpe_ratio: N,
}

/// The views of a list.
pub open spec fn trade_views<N>(trades: Seq<Trade<N>>) -> Seq<TradeView<N>> {
    Seq::new(trades.len(), |i: int| trades[i]@)
}

/// The views of a list.
pub open spec fn point_views<N>(points: Seq<EquityPoint<N>>) -> Seq<(Seq<char>, N)> {
    Seq::new(points.len(), |i: int| points[i]@)
}

/// The PnL of each trade.
pub open spec fn pnls<N>(trades: Seq<Trade<N>>) -> Seq<N> {
    Seq::new(trades.len(), |i: int| trades[i].pnl)
}

/// The equity at each point.
pub open spec fn equities<N>(points: Seq<EquityPoint<N>>) -> Seq<N> {
    Seq::new(points.len(), |i: int| points[i].equity)
}

/// Numbers added up in order.
pub open spec fn sum<N: Number>(values: Seq<N>) -> N
    decreases values.len(),
{
    if values.len() == 0 {
        N::zero()
    } else {
        sum(values.drop_last()).add(values.last())
    }
}

/// The positive ones of a list.
pub open spec fn gains<N: Number>(values: Seq<N>) -> Seq<N> {
    values.filter(|value: N| N::zero().lt(value))
}

/// The sizes of the negative ones of a list.
pub open spec fn losses<N: Number>(values: Seq<N>) -> Seq<N> {
    values.filter(|value: N| value.lt(N::zero())).map_values(|value: N| value.abs())
}

/// Winning trades as a fraction of all, nought where there are none.
pub open spec fn win_rate<N: Number>(pnls: Seq<N>) -> N {
    if pnls.len() == 0 {
        N::zero()
    } else {
        N::from_u64(gains(pnls).len() as u64).div(N::from_u64(pnls.len() as u64))
    }
}

/// Gross profit over gross loss. Without losses it has no bound, or is nought
/// where there is no profit either.
pub open spec fn profit_factor<N: Number>(pnls: Seq<N>) -> N {
    let profit = sum(gains(pnls));
    let loss = sum(losses(pnls));
    if loss.equals(N::zero()) {
        if N::zero().lt(profit) {
            N::infinity()
        } else {
            N::zero()
        }
    } else {
        profit.div(loss)
    }
}

/// The highest equity so far.
pub open spec fn peak<N: Number>(curve: Seq<N>) -> N
    decreases curve.len(),
{
    if curve.len() == 0 {
        N::infinity().neg()
    } else {
        let before = peak(curve.drop_last());
        if before.lt(curve.last()) {
            curve.last()
        } else {
            before
        }
    }
}

/// The worst decline from the peak so far, as a fraction of that peak.
pub open spec fn max_drawdown<N: Number>(curve: Seq<N>) -> N
    decreases curve.len(),
{
    if curve.len() == 0 {
        N::zero()
    } else {
        let before = max_drawdown(curve.drop_last());
        let top = peak(curve);
        let decline = top.sub(curve.last()).div(top);
        if N::zero().lt(top) && before.lt(decline) {
            decline
        } else {
            before
        }
    }
}

/// The returns from point to point in excess of a daily rate, where the
/// earlier point is positive.
pub open spec fn excess_returns<N: Number>(curve: Seq<N>, daily_rate: N) -> Seq<N>
    decreases curve.len(),
{
    if curve.len() < 2 {
        Seq::empty()
    } else {
        let before = excess_returns(curve.drop_last(), daily_rate);
        let from = curve[curve.len() - 2];
        if N::zero().lt(from) {
            before.push(curve.last().div(from).sub(number::one()).sub(daily_rate))
        } else {
            before
        }
    }
}

/// The mean of a list.
pub open spec fn mean<N: Number>(values: Seq<N>) -> N {
    sum(values).div(N::from_u64(values.len() as u64))
}

/// The squared distance of each from `center`.
pub open spec fn squares_about<N: Number>(values: Seq<N>, center: N) -> Seq<N> {
    values.map_values(|value: N| value.sub(center).mul(value.sub(center)))
}

/// Mean over standard deviation, annualized. Nought with fewer than two
/// returns, and where they do not vary.
pub open spec fn sharpe<N: Number>(daily: Seq<N>) -> N {
    if daily.len() < 2 {
        N::zero()
    } else {
        let deviation = mean(squares_about(daily, mean(daily))).sqrt();
        if deviation.equals(N::zero()) {
            N::zero()
        } else {
            mean(daily).div(deviation).mul(N::from_u64(TRADING_DAYS_PER_YEAR).sqrt())
        }
    }
}

/// The figures of a run whose trades realized `pnls` and whose equity ran along
/// `curve`, with the Sharpe ratio in excess of an annual rate.
pub open spec fn stats_of<N: Number>(
    pnls: Seq<N>,
    curve: Seq<N>,
    annual_rate: N,
) -> BacktestStats<N> {
    BacktestStats {
        trade_count: pnls.len() as usize,
        win_rate: win_rate(pnls),
        total_pnl: sum(pnls),
        profit_factor: profit_factor(pnls),
        max_drawdown: max_drawdown(curve),
        sharpe_ratio: sharpe(
            excess_returns(curve, annual_rate.div(N::from_u64(TRADING_DAYS_PER_YEAR))),
        ),
    }
}

/// The figures of a run, with the Sharpe ratio over a risk-free rate of
/// nought.
pub fn compute_stats<N: Number>(
    trades: &[Trade<N>],
    equity_curve: &[EquityPoint<N>],
) -> (r: BacktestStats<N>)
    ensures
        r == stats_of(pnls(trades@), equities(equity_curve@), N::zero()),
{
    compute_stats_over(trades, equity_curve, N::zero())
}

/// The figures of a run, with the Sharpe ratio in excess of `annual_rate`.
pub fn compute_stats_over<N: Number>(
    trades: &[Trade<N>],
    equity_curve: &[EquityPoint<N>],
    annual_rate: N,
) -> (r: BacktestStats<N>)
    ensures
        r == stats_of(pnls(trades@), equities(equity_curve@), annual_rate),
{
    let trade_count: usize = trades.len();
    let mut total_pnl = N::zero();
    let mut wins: u64 = 0;
    let mut profit = N::zero();
    let mut loss = N::zero();
    let ghost all = pnls(trades@);
    proof {
        reveal(Seq::filter);
        assert(all.take(0) =~= Seq::<N>::empty());
        assert(losses(all.take(0)) =~= Seq::<N>::empty());
    }
    for i in 0..trades.len()
        invariant
            all == pnls(trades@),
            trades@.len() <= usize::MAX,
            total_pnl == sum(all.take(i as int)),
            wins == gains(all.take(i as int)).len(),
            wins <= i,
            profit == sum(gains(all.take(i as int))),
            loss == sum(losses(all.take(i as int))),
    {
        let pnl = trades[i].pnl;
        proof {
            let next = all.take(i + 1);
            reveal(Seq::filter);
            assert(next.drop_last() =~= all.take(i as int));
            assert(next.last() == pnl);
            let gained = gains(next);
            if N::zero().lt(pnl) {
                assert(gained.drop_last() =~= gains(all.take(i as int)));
            }
            let lost = losses(next);
            if pnl.lt(N::zero()) {
                assert(lost.drop_last() =~= losses(all.take(i as int)));
            } else {
                assert(lost =~= losses(all.take(i as int)));
            }
        }
        total_pnl = total_pnl.add(pnl);
        if N::zero().lt(pnl) {
            wins = wins + 1;
            profit = profit.add(pnl);
        }
        if pnl.lt(N::zero()) {
            loss = loss.add(pnl.abs());
        }
    }
    assert(all.take(all.len() as int) =~= all);

    let win_rate = if trade_count == 0 {
        N::zero()
    } else {
        N::from_u64(wins).div(N::from_u64(trade_count as u64))
    };
    let profit_factor = if loss.equals(N::zero()) {
        if N::zero().lt(profit) {
            N::infinity()
        } else {
            N::zero()
        }
    } else {
        profit.div(loss)
    };

    let max_drawdown = drawdown_of(equity_curve);
    let daily_rate = annual_rate.div(N::from_u64(TRADING_DAYS_PER_YEAR));
    let sharpe_ratio = sharpe_of(&returns_of(equity_curve, daily_rate));

    BacktestStats { trade_count, win_rate, total_pnl, profit_factor, max_drawdown, sharpe_ratio }
}

/// Drawdown over the mark-to-market curve, so it captures pain from open
/// positions, not just realized losses.
fn drawdown_of<N: Number>(equity_curve: &[EquityPoint<N>]) -> (r: N)
    ensures
        r == max_drawdown(equities(equity_curve@)),
{
    let ghost all = equities(equity_curve@);
    let mut top = N::infinity().neg();
    let mut worst = N::zero();
    assert(all.take(0) =~= Seq::<N>::empty());
    for i in 0..equity_curve.len()
        invariant
            all == equities(equity_curve@),
            top == peak(all.take(i as int)),
            worst == max_drawdown(all.take(i as int)),
    {
        let equity = equity_curve[i].equity;
        proof {
            assert(all.take(i + 1).drop_last() =~= all.take(i as int));
        }
        if top.lt(equity) {
            top = equity;
        }
        if N::zero().lt(top) {
            let decline = top.sub(equity).div(top);
            if worst.lt(decline) {
                worst = decline;
            }
        }
    }
    assert(all.take(all.len() as int) =~= all);
    worst
}

fn returns_of<N: Number>(equity_curve: &[EquityPoint<N>], daily_rate: N) -> (r: Vec<N>)
    ensures
        r@ == excess_returns(equities(equity_curve@), daily_rate),
{
    let ghost all = equities(equity_curve@);
    let mut daily: Vec<N> = Vec::new();
    if equity_curve.len() < 2 {
        return daily;
    }
    assert(all.take(1).len() == 1);
    for i in 1..equity_curve.len()
        invariant
            all == equities(equity_curve@),
            2 <= all.len(),
            daily@ == excess_returns(all.take(i as int), daily_rate),
    {
        let from = equity_curve[i - 1].equity;
        let to = equity_curve[i].equity;
        proof {
            assert(all.take(i + 1).drop_last() =~= all.take(i as int));
        }
        if N::zero().lt(from) {
            daily.push(to.div(from).sub(N::from_u64(1)).sub(daily_rate));
        }
    }
    assert(all.take(all.len() as int) =~= all);
    daily
}

fn mean_of<N: Number>(values: &Vec<N>) -> (r: N)
    ensures
        r == mean(values@),
{
    let mut total = N::zero();
    assert(values@.take(0) =~= Seq::<N>::empty());
    for i in 0..values.len()
        invariant
            total == sum(values@.take(i as int)),
    {
        assert(values@.take(i + 1).drop_last() =~= values@.take(i as int));
        total = total.add(values[i]);
    }
    assert(values@.take(values@.len() as int) =~= values@);
    total.div(N::from_u64(values.len() as u64))
}

fn sharpe_of<N: Number>(daily: &Vec<N>) -> (r: N)
    ensures
        r == sharpe(daily@),
{
    if daily.len() < 2 {
        return N::zero();
    }
    let center = mean_of(daily);
    let mut squares: Vec<N> = Vec::new();
    for i in 0..daily.len()
        invariant
            squares@ =~= squares_about(daily@, center).take(i as int),
    {
        let off = daily[i].sub(center);
        squares.push(off.mul(off));
    }
    assert(squares@ =~= squares_about(daily@, center));
    let deviation = mean_of(&squares).sqrt();
    if deviation.equals(N::zero()) {
        N::zero()
    } else {
        center.div(deviation).mul(N::from_u64(TRADING_DAYS_PER_YEAR).sqrt())
    }
}

/// Whether no sum runs out of range as values are added up.
pub open spec fn sum_fits<N: Number>(values: Seq<N>) -> bool
    decreases values.len(),
{
    values.len() > 0 ==> sum_fits(values.drop_last()) && sum(values).is_finite()
}

/// Whether every value has a size.
pub open spec fn sizes_fit<N: Number>(values: Seq<N>) -> bool {
    forall|i: int| 0 <= i < values.len() ==> (#[trigger] values[i]).abs().is_finite()
}

/// The profits less the losses are the total, and neither is below nought.
pub proof fn profits_less_losses_are_the_total<N: Number>(
    pnls: Seq<N>,
    val: spec_fn(N) -> real,
    step: real,
)
    requires
        exact::near(val, step),
        sum_fits(pnls),
        sum_fits(gains(pnls)),
        sum_fits(losses(pnls)),
        sizes_fit(pnls),
    ensures
        val(sum(pnls)) == val(sum(gains(pnls))) - val(sum(losses(pnls))),
        val(sum(gains(pnls))) >= 0real,
        val(sum(losses(pnls))) >= 0real,
    decreases pnls.len(),
{
    let up = |value: N| N::zero().lt(value);
    let down = |value: N| value.lt(N::zero());
    let size = |value: N| value.abs();
    reveal(Seq::filter);
    if pnls.len() > 0 {
        let rest = pnls.drop_last();
        let fallen = rest.filter(down);
        if up(pnls.last()) {
            assert(gains(pnls).drop_last() =~= gains(rest));
        } else {
            assert(gains(pnls) =~= gains(rest));
        }
        if down(pnls.last()) {
            assert(losses(pnls) =~= fallen.map_values(size).push(size(pnls.last())));
            assert(losses(pnls).drop_last() =~= losses(rest));
        } else {
            assert(losses(pnls) =~= losses(rest));
        }
        assert(sizes_fit(rest)) by {
            assert forall|i: int| 0 <= i < rest.len() implies (
            #[trigger] rest[i]).abs().is_finite() by {
                assert(rest[i] == pnls[i]);
            }
        }
        let end = pnls.len() - 1;
        assert(pnls[end].abs().is_finite());
        profits_less_losses_are_the_total(rest, val, step);
    } else {
        assert(losses(pnls) =~= Seq::<N>::empty());
    }
}

proof fn lemma_gains_len<N: Number>(pnls: Seq<N>)
    ensures
        gains(pnls).len() <= pnls.len(),
    decreases pnls.len(),
{
    reveal(Seq::filter);
    if pnls.len() > 0 {
        lemma_gains_len(pnls.drop_last());
    }
}

proof fn lemma_fraction(part: real, all: real)
    by (nonlinear_arith)
    requires
        0real <= part <= all,
        all > 0real,
    ensures
        0real <= part / all <= 1real,
{
}

/// The win rate is a fraction.
pub proof fn win_rate_is_a_fraction<N: Number>(
    pnls: Seq<N>,
    val: spec_fn(N) -> real,
    step: real,
)
    requires
        exact::near(val, step),
        pnls.len() <= u64::MAX,
        N::from_u64(gains(pnls).len() as u64).is_finite(),
        N::from_u64(pnls.len() as u64).is_finite(),
        win_rate(pnls).is_finite(),
    ensures
        0real <= val(win_rate(pnls)) <= 1real,
{
    lemma_gains_len(pnls);
    if pnls.len() > 0 {
        let won = N::from_u64(gains(pnls).len() as u64);
        let all = N::from_u64(pnls.len() as u64);
        assert(val(won) == exact::integer(gains(pnls).len() as int));
        assert(val(all) == exact::integer(pnls.len() as int));
        lemma_fraction(val(won), val(all));
        assert(exact::short_of(val(won.div(all)), val(won) / val(all), step));
    }
}

proof fn lemma_peak<N: Number>(curve: Seq<N>, val: spec_fn(N) -> real, i: int)
    requires
        exact::ordered(val),
        0 <= i < curve.len(),
    ensures
        val(curve[i]) <= val(peak(curve)),
    decreases curve.len(),
{
    if i < curve.len() - 1 {
        assert(curve.drop_last()[i] == curve[i]);
        lemma_peak(curve.drop_last(), val, i);
    }
}

proof fn lemma_decline(high: real, peak: real, low: real)
    by (nonlinear_arith)
    requires
        0real < high <= peak,
        0real <= low <= peak,
    ensures
        (high - low) / high <= (peak - low) / peak,
        0real <= (peak - low) / peak <= 1real,
{
}

proof fn lemma_no_decline(peak: real)
    by (nonlinear_arith)
    requires
        0real < peak,
    ensures
        (peak - peak) / peak == 0real,
{
}

/// Whether nothing runs out of range as declines from a peak are measured.
pub open spec fn declines_fit<N: Number>(curve: Seq<N>) -> bool
    decreases curve.len(),
{
    curve.len() > 0 ==> {
        let top = peak(curve);
        &&& declines_fit(curve.drop_last())
        &&& N::zero().lt(top) ==> {
            &&& top.sub(curve.last()).is_finite()
            &&& top.sub(curve.last()).div(top).is_finite()
        }
    }
}

/// The maximum drawdown covers every decline of an equity curve that does not
/// go below nought: no point lies below an earlier one by a greater fraction of
/// it, but for rounding. It is a fraction.
pub proof fn drawdown_covers_every_decline<N: Number>(
    curve: Seq<N>,
    val: spec_fn(N) -> real,
    step: real,
    i: int,
    j: int,
)
    requires
        exact::near(val, step),
        declines_fit(curve),
        0 <= i <= j < curve.len(),
        val(curve[i]) > 0real,
        forall|k: int| 0 <= k < curve.len() ==> val(#[trigger] curve[k]) >= 0real,
    ensures
        (val(curve[i]) - val(curve[j])) / val(curve[i]) <= val(max_drawdown(curve)) + step,
        0real <= val(max_drawdown(curve)) <= 1real,
    decreases curve.len(),
{
    lemma_drawdown_range(curve, val, step);
    let before = curve.drop_last();
    if j < curve.len() - 1 {
        assert(before[i] == curve[i] && before[j] == curve[j]);
        assert forall|k: int| 0 <= k < before.len() implies val(#[trigger] before[k]) >= 0real by {
            assert(before[k] == curve[k]);
        }
        drawdown_covers_every_decline(before, val, step, i, j);
    } else {
        lemma_peak(curve, val, i);
        lemma_peak(curve, val, j);
        lemma_decline(val(curve[i]), val(peak(curve)), val(curve[j]));
        lemma_cut_decline(curve, val, step);
    }
}

proof fn lemma_cut_decline<N: Number>(curve: Seq<N>, val: spec_fn(N) -> real, step: real)
    requires
        exact::near(val, step),
        curve.len() > 0,
        declines_fit(curve),
        val(peak(curve)) > 0real,
    ensures
        exact::short_of(
            val(peak(curve).sub(curve.last()).div(peak(curve))),
            (val(peak(curve)) - val(curve.last())) / val(peak(curve)),
            step,
        ),
{
}

proof fn lemma_drawdown_range<N: Number>(
    curve: Seq<N>,
    val: spec_fn(N) -> real,
    step: real,
)
    requires
        exact::near(val, step),
        declines_fit(curve),
        forall|k: int| 0 <= k < curve.len() ==> val(#[trigger] curve[k]) >= 0real,
    ensures
        0real <= val(max_drawdown(curve)) <= 1real,
    decreases curve.len(),
{
    if curve.len() > 0 {
        let before = curve.drop_last();
        assert forall|k: int| 0 <= k < before.len() implies val(#[trigger] before[k]) >= 0real by {
            assert(before[k] == curve[k]);
        }
        lemma_drawdown_range(before, val, step);
        let top = val(peak(curve));
        let last = curve.len() - 1;
        assert(val(curve[last]) >= 0real);
        lemma_peak(curve, val, last);
        if top > 0real {
            lemma_decline(top, top, val(curve.last()));
            lemma_cut_decline(curve, val, step);
        }
    }
}

/// A curve that never falls has no drawdown.
pub proof fn a_rising_curve_has_no_drawdown<N: Number>(
    curve: Seq<N>,
    val: spec_fn(N) -> real,
    step: real,
)
    requires
        exact::near(val, step),
        declines_fit(curve),
        forall|i: int, j: int|
            0 <= i <= j < curve.len() ==> val(#[trigger] curve[i]) <= val(#[trigger] curve[j]),
        forall|i: int|
            0 <= i < curve.len() ==> val(N::infinity().neg()) < val(#[trigger] curve[i]),
    ensures
        val(max_drawdown(curve)) == 0real,
    decreases curve.len(),
{
    if curve.len() > 0 {
        let before = curve.drop_last();
        assert forall|i: int, j: int| 0 <= i <= j < before.len() implies val(#[trigger] before[i])
            <= val(#[trigger] before[j]) by {
            assert(before[i] == curve[i] && before[j] == curve[j]);
        }
        assert forall|i: int| 0 <= i < before.len() implies val(N::infinity().neg()) < val(
            #[trigger] before[i],
        ) by {
            assert(before[i] == curve[i]);
        }
        a_rising_curve_has_no_drawdown(before, val, step);
        lemma_rising_peak(curve, val);
        if N::zero().lt(peak(curve)) {
            lemma_no_decline(val(peak(curve)));
            lemma_cut_decline(curve, val, step);
        }
    }
}

proof fn lemma_rising_peak<N: Number>(curve: Seq<N>, val: spec_fn(N) -> real)
    requires
        exact::ordered(val),
        curve.len() > 0,
        forall|i: int, j: int|
            0 <= i <= j < curve.len() ==> val(#[trigger] curve[i]) <= val(#[trigger] curve[j]),
        forall|i: int|
            0 <= i < curve.len() ==> val(N::infinity().neg()) < val(#[trigger] curve[i]),
    ensures
        val(peak(curve)) == val(curve.last()),
    decreases curve.len(),
{
    let before = curve.drop_last();
    let last = curve.len() - 1;
    assert(val(curve[last]) > val(N::infinity().neg()));
    if before.len() > 0 {
        assert forall|i: int, j: int| 0 <= i <= j < before.len() implies val(#[trigger] before[i])
            <= val(#[trigger] before[j]) by {
            assert(before[i] == curve[i] && before[j] == curve[j]);
        }
        assert forall|i: int| 0 <= i < before.len() implies val(N::infinity().neg()) < val(
            #[trigger] before[i],
        ) by {
            assert(before[i] == curve[i]);
        }
        lemma_rising_peak(before, val);
        assert(before.last() == curve[last - 1]);
        assert(val(curve[last - 1]) <= val(curve[last]));
    } else {
        assert(peak(before) == N::infinity().neg());
    }
}

/// How many of the values are above nought.
pub open spec fn winners<N>(values: Seq<N>, val: spec_fn(N) -> real) -> int
    decreases values.len(),
{
    if values.len() == 0 {
        0
    } else {
        winners(values.drop_last(), val) + if val(values.last()) > 0real {
            1int
        } else {
            0int
        }
    }
}

/// What the values come to.
pub open spec fn net<N>(values: Seq<N>, val: spec_fn(N) -> real) -> real
    decreases values.len(),
{
    if values.len() == 0 {
        0real
    } else {
        net(values.drop_last(), val) + val(values.last())
    }
}

/// What the values above nought come to.
pub open spec fn won<N>(values: Seq<N>, val: spec_fn(N) -> real) -> real
    decreases values.len(),
{
    if values.len() == 0 {
        0real
    } else {
        won(values.drop_last(), val) + exact::larger(val(values.last()), 0real)
    }
}

/// What the values below nought come to, as a size.
pub open spec fn lost<N>(values: Seq<N>, val: spec_fn(N) -> real) -> real
    decreases values.len(),
{
    if values.len() == 0 {
        0real
    } else {
        lost(values.drop_last(), val) + exact::larger(-val(values.last()), 0real)
    }
}

proof fn lemma_sum_is_net<N: Number>(values: Seq<N>, val: spec_fn(N) -> real, step: real)
    requires
        exact::near(val, step),
        sum_fits(values),
    ensures
        val(sum(values)) == net(values, val),
    decreases values.len(),
{
    if values.len() > 0 {
        lemma_sum_is_net(values.drop_last(), val, step);
    }
}

proof fn lemma_won_and_lost<N: Number>(pnls: Seq<N>, val: spec_fn(N) -> real, step: real)
    requires
        exact::near(val, step),
        sum_fits(gains(pnls)),
        sum_fits(losses(pnls)),
        sizes_fit(pnls),
    ensures
        gains(pnls).len() == winners(pnls, val),
        val(sum(gains(pnls))) == won(pnls, val),
        val(sum(losses(pnls))) == lost(pnls, val),
        winners(pnls, val) <= pnls.len(),
    decreases pnls.len(),
{
    let up = |value: N| N::zero().lt(value);
    let down = |value: N| value.lt(N::zero());
    let size = |value: N| value.abs();
    reveal(Seq::filter);
    if pnls.len() > 0 {
        let rest = pnls.drop_last();
        let fallen = rest.filter(down);
        if up(pnls.last()) {
            assert(gains(pnls).drop_last() =~= gains(rest));
        } else {
            assert(gains(pnls) =~= gains(rest));
        }
        if down(pnls.last()) {
            assert(losses(pnls) =~= fallen.map_values(size).push(size(pnls.last())));
            assert(losses(pnls).drop_last() =~= losses(rest));
        } else {
            assert(losses(pnls) =~= losses(rest));
        }
        assert(sizes_fit(rest)) by {
            assert forall|i: int| 0 <= i < rest.len() implies (
            #[trigger] rest[i]).abs().is_finite() by {
                assert(rest[i] == pnls[i]);
            }
        }
        let end = pnls.len() - 1;
        assert(pnls[end].abs().is_finite());
        lemma_won_and_lost(rest, val, step);
    } else {
        assert(losses(pnls) =~= Seq::<N>::empty());
        assert(gains(pnls) =~= Seq::<N>::empty());
    }
}

proof fn lemma_times(quotient: real, part: real, all: real, step: real)
    by (nonlinear_arith)
    requires
        all > 0real,
        step >= 0real,
        exact::close(quotient, part / all, step),
    ensures
        exact::close(quotient * all, part, all * step),
{
    let q = part / all;
    assert(q * all == part);
    assert((q - step) * all <= quotient * all <= (q + step) * all);
}

/// What the figures of a run say of its trades: how many there are, what they came
/// to in all, which share of them won, and how many times what the losers lost the
/// winners won; but for the rounding of a quotient. Without losers that has no
/// bound, and without winners either it is nought.
pub proof fn figures_tell_the_trades<N: Number>(
    pnls: Seq<N>,
    curve: Seq<N>,
    annual_rate: N,
    val: spec_fn(N) -> real,
    step: real,
)
    requires
        exact::near(val, step),
        pnls.len() <= usize::MAX,
        pnls.len() <= u64::MAX,
        sum_fits(pnls),
        sum_fits(gains(pnls)),
        sum_fits(losses(pnls)),
        sizes_fit(pnls),
        N::from_u64(gains(pnls).len() as u64).is_finite(),
        N::from_u64(pnls.len() as u64).is_finite(),
        stats_of(pnls, curve, annual_rate).win_rate.is_finite(),
        sum(gains(pnls)).div(sum(losses(pnls))).is_finite(),
    ensures
        ({
            let figures = stats_of(pnls, curve, annual_rate);
            let count = exact::integer(pnls.len() as int);
            &&& figures.trade_count == pnls.len()
            &&& val(figures.total_pnl) == net(pnls, val)
            &&& exact::close(
                val(figures.win_rate) * count,
                exact::integer(winners(pnls, val)),
                count * step,
            )
            &&& pnls.len() == 0 ==> val(figures.win_rate) == 0real
            &&& lost(pnls, val) > 0real ==> exact::close(
                val(figures.profit_factor) * lost(pnls, val),
                won(pnls, val),
                lost(pnls, val) * step,
            )
            &&& lost(pnls, val) == 0real && won(pnls, val) > 0real ==> figures.profit_factor
                == N::infinity()
            &&& lost(pnls, val) == 0real && won(pnls, val) == 0real ==> val(figures.profit_factor)
                == 0real
            &&& lost(pnls, val) >= 0real
            &&& won(pnls, val) >= 0real
        }),
{
    lemma_sum_is_net(pnls, val, step);
    lemma_won_and_lost(pnls, val, step);
    profits_less_losses_are_the_total(pnls, val, step);
    if pnls.len() > 0 {
        let all = exact::integer(pnls.len() as int);
        let part = exact::integer(winners(pnls, val));
        assert(exact::short_of(val(win_rate(pnls)), part / all, step));
        lemma_times(val(win_rate(pnls)), part, all, step);
    } else {
        assert(0real * 0real == 0real && 0real * step == 0real) by (nonlinear_arith);
    }
    if lost(pnls, val) > 0real {
        assert(exact::short_of(
            val(profit_factor(pnls)),
            won(pnls, val) / lost(pnls, val),
            step,
        ));
        lemma_times(val(profit_factor(pnls)), won(pnls, val), lost(pnls, val), step);
    }
}

/// The maximum drawdown is a decline that happened: nought, or how far some point
/// of the curve lies below an earlier one that no point before it tops, as a
/// fraction of that earlier one, but for rounding.
pub proof fn drawdown_happened<N: Number>(
    pnls: Seq<N>,
    curve: Seq<N>,
    annual_rate: N,
    val: spec_fn(N) -> real,
    step: real,
) -> (points: (int, int))
    requires
        exact::near(val, step),
        declines_fit(curve),
        forall|i: int|
            0 <= i < curve.len() ==> val(N::infinity().neg()) < val(#[trigger] curve[i]),
    ensures
        ({
            let drawdown = val(stats_of(pnls, curve, annual_rate).max_drawdown);
            let (high, low) = points;
            drawdown != 0real ==> {
                &&& 0 <= high <= low < curve.len()
                &&& val(curve[high]) > 0real
                &&& forall|k: int| 0 <= k <= low ==> val(#[trigger] curve[k]) <= val(curve[high])
                &&& exact::short_of(
                    drawdown,
                    (val(curve[high]) - val(curve[low])) / val(curve[high]),
                    step,
                )
            }
        }),
    decreases curve.len(),
{
    if curve.len() == 0 {
        (0, 0)
    } else {
        let before = curve.drop_last();
        let last = curve.len() - 1;
        let top = lemma_peak_is_a_point(curve, val);
        if N::zero().lt(peak(curve)) && max_drawdown(before).lt(
            peak(curve).sub(curve.last()).div(peak(curve)),
        ) {
            lemma_cut_decline(curve, val, step);
            assert forall|k: int| 0 <= k <= last implies val(#[trigger] curve[k]) <= val(
                curve[top],
            ) by {
                lemma_peak(curve, val, k);
            }
            (top, last)
        } else {
            assert forall|i: int| 0 <= i < before.len() implies val(N::infinity().neg()) < val(
                #[trigger] before[i],
            ) by {
                assert(before[i] == curve[i]);
            }
            let points = drawdown_happened(pnls, before, annual_rate, val, step);
            if val(max_drawdown(before)) != 0real {
                assert(before[points.0] == curve[points.0]);
                assert(before[points.1] == curve[points.1]);
                assert forall|k: int| 0 <= k <= points.1 implies val(#[trigger] curve[k]) <= val(
                    curve[points.0],
                ) by {
                    assert(before[k] == curve[k]);
                }
            }
            points
        }
    }
}

proof fn lemma_peak_is_a_point<N: Number>(curve: Seq<N>, val: spec_fn(N) -> real) -> (top: int)
    requires
        exact::ordered(val),
        curve.len() > 0,
        forall|i: int|
            0 <= i < curve.len() ==> val(N::infinity().neg()) < val(#[trigger] curve[i]),
    ensures
        0 <= top < curve.len(),
        peak(curve) == curve[top],
    decreases curve.len(),
{
    let before = curve.drop_last();
    let last = curve.len() - 1;
    assert(val(curve[last]) > val(N::infinity().neg()));
    if before.len() > 0 && !peak(before).lt(curve.last()) {
        assert forall|i: int| 0 <= i < before.len() implies val(N::infinity().neg()) < val(
            #[trigger] before[i],
        ) by {
            assert(before[i] == curve[i]);
        }
        let top = lemma_peak_is_a_point(before, val);
        assert(before[top] == curve[top]);
        top
    } else {
        if before.len() == 0 {
            assert(peak(before) == N::infinity().neg());
        }
        last
    }
}

/// Whether nothing runs out of range as returns are measured.
pub open spec fn returns_fit<N: Number>(curve: Seq<N>, daily_rate: N) -> bool {
    &&& number::one::<N>().is_finite()
    &&& forall|i: int|
        0 < i < curve.len() ==> {
            let quotient = (#[trigger] curve[i]).div(curve[i - 1]);
            &&& quotient.is_finite()
            &&& quotient.sub(number::one()).is_finite()
            &&& quotient.sub(number::one()).sub(daily_rate).is_finite()
        }
}

/// On a curve that stays above nought there is one return from each point to the
/// next, by how much of the earlier point it grew, less the daily rate, but for the
/// rounding of a quotient. A point at or below nought is not measured from.
pub proof fn returns_are_relative_growth<N: Number>(
    curve: Seq<N>,
    daily_rate: N,
    val: spec_fn(N) -> real,
    step: real,
)
    requires
        exact::near(val, step),
        returns_fit(curve, daily_rate),
    ensures
        (forall|i: int| 0 <= i < curve.len() ==> val(#[trigger] curve[i]) > 0real) ==> {
            let growth = excess_returns(curve, daily_rate);
            &&& growth.len() == if curve.len() == 0 {
                0
            } else {
                curve.len() - 1
            }
            &&& forall|i: int|
                0 <= i < growth.len() ==> exact::close(
                    val(#[trigger] growth[i]),
                    val(curve[i + 1]) / val(curve[i]) - 1real - val(daily_rate),
                    step,
                )
        },
        curve.len() >= 2 && val(curve[curve.len() - 2]) <= 0real ==> excess_returns(
            curve,
            daily_rate,
        ) == excess_returns(curve.drop_last(), daily_rate),
    decreases curve.len(),
{
    if curve.len() >= 2 {
        let before = curve.drop_last();
        let last = curve.len() - 1;
        assert(curve[last].div(curve[last - 1]).is_finite());
        assert(exact::integer(1) == 1real);
        assert(returns_fit(before, daily_rate)) by {
            assert forall|i: int| 0 < i < before.len() implies {
                let quotient = (#[trigger] before[i]).div(before[i - 1]);
                &&& quotient.is_finite()
                &&& quotient.sub(number::one()).is_finite()
                &&& quotient.sub(number::one()).sub(daily_rate).is_finite()
            } by {
                assert(before[i] == curve[i] && before[i - 1] == curve[i - 1]);
            }
        }
        returns_are_relative_growth(before, daily_rate, val, step);
        if forall|i: int| 0 <= i < curve.len() ==> val(#[trigger] curve[i]) > 0real {
            assert forall|i: int| 0 <= i < before.len() implies val(#[trigger] before[i])
                > 0real by {
                assert(before[i] == curve[i]);
            }
            assert(val(curve[last - 1]) > 0real);
            let growth = excess_returns(curve, daily_rate);
            let earlier = excess_returns(before, daily_rate);
            assert forall|i: int| 0 <= i < growth.len() implies exact::close(
                val(#[trigger] growth[i]),
                val(curve[i + 1]) / val(curve[i]) - 1real - val(daily_rate),
                step,
            ) by {
                if i < earlier.len() {
                    assert(growth[i] == earlier[i]);
                    assert(before[i] == curve[i] && before[i + 1] == curve[i + 1]);
                } else {
                    assert(i == last - 1);
                    assert(exact::short_of(
                        val(curve[last].div(curve[last - 1])),
                        val(curve[last]) / val(curve[last - 1]),
                        step,
                    ));
                }
            }
        }
    }
}

/// What the squared distances of the values from `center` come to.
pub open spec fn spread<N>(values: Seq<N>, center: real, val: spec_fn(N) -> real) -> real
    decreases values.len(),
{
    if values.len() == 0 {
        0real
    } else {
        spread(values.drop_last(), center, val) + (val(values.last()) - center) * (val(
            values.last(),
        ) - center)
    }
}

/// Whether nothing runs out of range as returns are averaged and their deviation
/// taken.
pub open spec fn sharpe_fits<N: Number>(daily: Seq<N>) -> bool {
    let center = mean(daily);
    let squares = squares_about(daily, center);
    let deviation = mean(squares).sqrt();
    &&& sum_fits(daily)
    &&& N::from_u64(daily.len() as u64).is_finite()
    &&& center.is_finite()
    &&& forall|i: int|
        0 <= i < daily.len() ==> (#[trigger] daily[i]).sub(center).is_finite()
    &&& forall|i: int| 0 <= i < squares.len() ==> (#[trigger] squares[i]).is_finite()
    &&& sum_fits(squares)
    &&& mean(squares).is_finite()
    &&& N::from_u64(252).is_finite()
    &&& center.div(deviation).is_finite()
    &&& center.div(deviation).mul(N::from_u64(252).sqrt()).is_finite()
}

proof fn lemma_spread<N: Number>(daily: Seq<N>, center: N, val: spec_fn(N) -> real, step: real)
    requires
        exact::near(val, step),
        forall|i: int|
            0 <= i < daily.len() ==> (#[trigger] daily[i]).sub(center).is_finite(),
        forall|i: int|
            0 <= i < daily.len() ==> (#[trigger] squares_about(daily, center)[i]).is_finite(),
    ensures
        ({
            let all = spread(daily, val(center), val);
            let cut = net(squares_about(daily, center), val);
            &&& all - exact::integer(daily.len() as int) * step <= cut <= all
            &&& cut >= 0real
        }),
    decreases daily.len(),
{
    let squares = squares_about(daily, center);
    if daily.len() > 0 {
        let rest = daily.drop_last();
        let last = daily.len() - 1;
        assert(squares.drop_last() =~= squares_about(rest, center));
        assert forall|i: int| 0 <= i < rest.len() implies (#[trigger] rest[i]).sub(
            center,
        ).is_finite() by {
            assert(rest[i] == daily[i]);
        }
        assert forall|i: int| 0 <= i < rest.len() implies (#[trigger] squares_about(
            rest,
            center,
        )[i]).is_finite() by {
            assert(squares[i] == squares_about(rest, center)[i]);
        }
        lemma_spread(rest, center, val, step);
        let off = daily[last].sub(center);
        assert(squares[last].is_finite());
        assert(squares[last] == off.mul(off));
        let x = val(off);
        assert(x * x >= 0real) by (nonlinear_arith);
        assert(exact::short_of(val(off.mul(off)), x * x, step));
        let n = exact::integer(daily.len() as int);
        let m = exact::integer(rest.len() as int);
        assert(n * step == m * step + step) by (nonlinear_arith)
            requires
                n == m + 1real,
        ;
    } else {
        assert(exact::integer(0) * step == 0real) by (nonlinear_arith)
            requires
                exact::integer(0) == 0real,
        ;
        assert(squares =~= Seq::<N>::empty());
    }
}

proof fn lemma_annualized(
    center: real,
    deviation: real,
    ratio: real,
    year: real,
    sharpe: real,
    step: real,
)
    by (nonlinear_arith)
    requires
        deviation > 0real,
        year >= 0real,
        step >= 0real,
        exact::close(ratio, center / deviation, step),
        exact::close(sharpe, ratio * year, step),
    ensures
        exact::close(sharpe * deviation, center * year, (year + 1real) * step * deviation),
{
    let q = center / deviation;
    assert(q * deviation == center);
    assert((q - step) * year <= ratio * year <= (q + step) * year);
    assert(q * year - (year + 1real) * step <= sharpe <= q * year + (year + 1real) * step);
    let slack = (year + 1real) * step;
    assert((q * year - slack) * deviation <= sharpe * deviation <= (q * year + slack) * deviation);
    assert(q * year * deviation == center * year);
}

/// The Sharpe ratio is the mean of the returns over their standard deviation about
/// that mean, times the square root of the 252 trading days of a year: the mean is
/// what they come to over how many there are, and the square of the deviation what
/// their squared distances from it come to over how many there are; but for
/// rounding. Of fewer than two returns, and of returns that do not vary, it is
/// nought. Gives the mean, the deviation and the root.
pub proof fn sharpe_is_annualized_mean_over_deviation<N: Number>(
    daily: Seq<N>,
    val: spec_fn(N) -> real,
    step: real,
) -> (figures: (real, real, real))
    requires
        exact::near(val, step),
        exact::has_roots(val, step),
        daily.len() <= u64::MAX,
        sharpe_fits(daily),
    ensures
        daily.len() < 2 ==> val(sharpe(daily)) == 0real,
        daily.len() >= 2 ==> {
            let (center, deviation, year) = figures;
            let count = exact::integer(daily.len() as int);
            &&& exact::close(center * count, net(daily, val), count * step)
            &&& deviation >= 0real
            &&& deviation * deviation * count <= spread(daily, center, val)
            &&& spread(daily, center, val) <= ((deviation + step) * (deviation + step) + 2real
                * step) * count
            &&& exact::is_root(252real, year, step)
            &&& deviation == 0real ==> val(sharpe(daily)) == 0real
            &&& deviation > 0real ==> exact::close(
                val(sharpe(daily)) * deviation,
                center * year,
                (year + 1real) * step * deviation,
            )
        },
{
    if daily.len() < 2 {
        (0real, 0real, 0real)
    } else {
        let center = mean(daily);
        let squares = squares_about(daily, center);
        let variance = mean(squares);
        let deviation = variance.sqrt();
        let year = N::from_u64(252).sqrt();
        let count = exact::integer(daily.len() as int);
        lemma_sum_is_net(daily, val, step);
        lemma_sum_is_net(squares, val, step);
        assert(exact::short_of(val(center), net(daily, val) / count, step));
        lemma_times(val(center), net(daily, val), count, step);
        assert forall|i: int| 0 <= i < daily.len() implies (#[trigger] squares_about(
            daily,
            center,
        )[i]).is_finite() by {
            assert(squares[i].is_finite());
        }
        lemma_spread(daily, center, val, step);
        assert(exact::short_of(val(variance), net(squares, val) / count, step));
        assert(net(squares, val) / count >= 0real) by (nonlinear_arith)
            requires
                net(squares, val) >= 0real,
                count > 0real,
        ;
        lemma_times(val(variance), net(squares, val), count, step);
        assert(val(variance) * count <= net(squares, val)) by (nonlinear_arith)
            requires
                val(variance) <= net(squares, val) / count,
                count > 0real,
        ;
        assert(exact::is_root(val(variance), val(deviation), step));
        lemma_root_of_mean(
            spread(daily, val(center), val),
            net(squares, val),
            val(variance),
            val(deviation),
            count,
            step,
        );
        assert(exact::integer(252) == 252real);
        if val(deviation) > 0real {
            let ratio = center.div(deviation);
            assert(exact::short_of(val(ratio), val(center) / val(deviation), step));
            assert(exact::short_of(val(sharpe(daily)), val(ratio) * val(year), step));
            lemma_annualized(
                val(center),
                val(deviation),
                val(ratio),
                val(year),
                val(sharpe(daily)),
                step,
            );
        }
        (val(center), val(deviation), val(year))
    }
}

proof fn lemma_root_of_mean(
    all: real,
    cut: real,
    variance: real,
    deviation: real,
    count: real,
    step: real,
)
    by (nonlinear_arith)
    requires
        count > 0real,
        step >= 0real,
        all - count * step <= cut <= all,
        variance * count <= cut,
        exact::close(variance * count, cut, count * step),
        exact::is_root(variance, deviation, step),
    ensures
        deviation * deviation * count <= all,
        all <= ((deviation + step) * (deviation + step) + 2real * step) * count,
{
    assert(deviation * deviation * count <= variance * count);
    let top = (deviation + step) * (deviation + step);
    assert(variance * count <= top * count);
    assert(all <= variance * count + 2real * (count * step));
    assert((top + 2real * step) * count == top * count + 2real * (count * step));
}

/// The Sharpe ratio of a run is that of the daily growth of its equity in excess of
/// a 252nd of the annual rate.
pub proof fn sharpe_is_of_daily_growth<N: Number>(
    pnls: Seq<N>,
    curve: Seq<N>,
    annual_rate: N,
    val: spec_fn(N) -> real,
    step: real,
) -> (daily: Seq<N>)
    requires
        exact::near(val, step),
        N::from_u64(252).is_finite(),
        annual_rate.div(N::from_u64(252)).is_finite(),
        returns_fit(curve, annual_rate.div(N::from_u64(252))),
        forall|i: int| 0 <= i < curve.len() ==> val(#[trigger] curve[i]) > 0real,
        curve.len() > 0,
    ensures
        stats_of(pnls, curve, annual_rate).sharpe_ratio == sharpe(daily),
        daily.len() == curve.len() - 1,
        forall|i: int|
            0 <= i < daily.len() ==> exact::close(
                val(#[trigger] daily[i]),
                val(curve[i + 1]) / val(curve[i]) - 1real - val(annual_rate) / 252real,
                2real * step,
            ),
{
    let rate = annual_rate.div(N::from_u64(252));
    assert(exact::integer(252) == 252real);
    assert(exact::short_of(val(rate), val(annual_rate) / 252real, step));
    returns_are_relative_growth(curve, rate, val, step);
    excess_returns(curve, rate)
}

} // verus!
