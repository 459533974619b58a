//! Minute bars and the trading session they belong to.

use vstd::prelude::*;

use crate::calendar;
use crate::calendar::Time;
use crate::number::Number;

verus! {

/// One bar of one instrument: what it traded at over a stretch of time, and
/// how much.
#[derive(Debug, Clone, Copy)]
pub struct Bar<N> {
    pub time: Time,
    pub open: N,
    pub high: N,
    pub low: N,
    pub close: N,
    pub volume: u64,
}

#[derive(Debug, Clone, Copy, PartialEq, Eq, Structural)]
pub enum MarketSession {
    PreMarket,
    Main,
    AfterMarket,
}

/// The session a minute of the Eastern day belongs to: before 9:30 is
/// pre-market, before 16:00 the main session, later is after-market.
pub open spec fn session_at(minute: int) -> MarketSession {
    if minute < 9 * 60 + 30 {
        MarketSession::PreMarket
    } else if minute < 16 * 60 {
        MarketSession::Main
    } else {
        MarketSession::AfterMarket
    }
}

impl<N: Number> Bar<N> {
    /// Trading session this bar belongs to, derived from its US Eastern
    /// time of day.
    pub fn session(&self) -> (r: MarketSession)
        ensures
            r == session_at(calendar::eastern_clock(self.time.secs()).1),
    {
        session_of_minute(self.time.eastern_minute())
    }
}

/// The session of a minute of the Eastern day.
pub fn session_of_minute(minute: u32) -> (r: MarketSession)
    ensures
        r == session_at(minute as int),
{
    if minute < 9 * 60 + 30 {
        MarketSession::PreMarket
    } else if minute < 16 * 60 {
        MarketSession::Main
    } else {
        MarketSession::AfterMarket
    }
}

/// The main session runs from half past nine to four in the afternoon, its end left
/// out; pre-market is all that comes before it on the day and after-market all that
/// comes after.
pub proof fn the_main_session_is_half_past_nine_to_four(hour: int, minute: int)
    requires
        0 <= hour < 24,
        0 <= minute < 60,
    ensures
        ({
            let session = session_at(hour * 60 + minute);
            &&& session is PreMarket <==> hour < 9 || (hour == 9 && minute < 30)
            &&& session is Main <==> (hour == 9 && minute >= 30) || 10 <= hour <= 15
            &&& session is AfterMarket <==> hour >= 16
        }),
{
}

} // verus!
