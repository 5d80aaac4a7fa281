//! One price bar.

use crate::decimal::{round_dp, Decimal};
use crate::time_buckets::Timestamp;
use vstd::prelude::*;

verus! {

/// One observation of open, high, low and close prices, with volume, number
/// of trades and volume-weighted average price, over a span of time.
///
/// Nothing is asked of the prices: a bar whose high is below its low is held
/// as it is given.
#[derive(Clone, Copy, Debug, PartialEq, Eq, Structural)]
pub struct Candle {
    /// Start of the bar, in nanoseconds since the Unix epoch.
    pub timestamp: i128,
    /// Nominal length of the bar, in nanoseconds.
    pub duration: i128,
    pub open: Decimal,
    pub high: Decimal,
    pub low: Decimal,
    pub close: Decimal,
    pub volume: Decimal,
    pub trades: Decimal,
    pub vwap: Decimal,
}

/// The length of the bars that are fed in: one minute, in nanoseconds.
pub const MINUTE: i128 = 60_000_000_000;

/// The number of fractional digits that prices are kept to.
pub const PRICE_DIGITS: u32 = 4;

impl Candle {
    /// The one-minute bar that starts at `timestamp`, with the prices
    /// rounded to four fractional digits, halves to the even neighbour, and
    /// with volume and trades as whole numbers.
    pub fn minute_bar(
        timestamp: i128,
        open: Decimal,
        high: Decimal,
        low: Decimal,
        close: Decimal,
        volume: i64,
        trades: i64,
        vwap: Decimal,
    ) -> (bar: Candle)
        ensures
            bar.timestamp == timestamp,
            bar.duration == MINUTE,
            bar.open == open.rounded(PRICE_DIGITS),
            bar.high == high.rounded(PRICE_DIGITS),
            bar.low == low.rounded(PRICE_DIGITS),
            bar.close == close.rounded(PRICE_DIGITS),
            bar.vwap == vwap.rounded(PRICE_DIGITS),
            bar.volume.mantissa() == volume && bar.volume.scale() == 0,
            bar.trades.mantissa() == trades && bar.trades.scale() == 0,
            bar.keeps_digits(),
            open.scale() <= PRICE_DIGITS ==> bar.open == open,
            high.scale() <= PRICE_DIGITS ==> bar.high == high,
            low.scale() <= PRICE_DIGITS ==> bar.low == low,
            close.scale() <= PRICE_DIGITS ==> bar.close == close,
            vwap.scale() <= PRICE_DIGITS ==> bar.vwap == vwap,
    {
        let whole_volume = Decimal::from_i64(volume);
        let whole_trades = Decimal::from_i64(trades);
        proof {
            use_type_invariant(&open);
            use_type_invariant(&high);
            use_type_invariant(&low);
            use_type_invariant(&close);
            use_type_invariant(&vwap);
            use_type_invariant(&whole_volume);
            use_type_invariant(&whole_trades);
        }
        let bar = Candle {
            timestamp,
            duration: MINUTE,
            open: round_dp(open, PRICE_DIGITS),
            high: round_dp(high, PRICE_DIGITS),
            low: round_dp(low, PRICE_DIGITS),
            close: round_dp(close, PRICE_DIGITS),
            volume: round_dp(whole_volume, PRICE_DIGITS),
            trades: round_dp(whole_trades, PRICE_DIGITS),
            vwap: round_dp(vwap, PRICE_DIGITS),
        };
        proof {
            bar.open.lemma_of();
            bar.high.lemma_of();
            bar.low.lemma_of();
            bar.close.lemma_of();
            bar.vwap.lemma_of();
        }
        bar
    }

    /// The low is not above the open, the close or the high, and the high
    /// is not below the open or the close.
    pub open spec fn consistent(&self) -> bool {
        &&& self.low.at_most(self.open)
        &&& self.low.at_most(self.close)
        &&& self.low.at_most(self.high)
        &&& self.open.at_most(self.high)
        &&& self.close.at_most(self.high)
    }

    /// No price, and neither volume nor trades, has more than four
    /// fractional digits.
    pub open spec fn keeps_digits(&self) -> bool {
        &&& self.open.scale() <= PRICE_DIGITS
        &&& self.high.scale() <= PRICE_DIGITS
        &&& self.low.scale() <= PRICE_DIGITS
        &&& self.close.scale() <= PRICE_DIGITS
        &&& self.vwap.scale() <= PRICE_DIGITS
        &&& self.volume.scale() <= PRICE_DIGITS
        &&& self.trades.scale() <= PRICE_DIGITS
    }
}

impl Timestamp for Candle {
    open spec fn instant(&self) -> int {
        self.timestamp as int
    }

    fn timestamp(&self) -> (t: i128) {
        self.timestamp
    }
}

impl Timestamp for (i32, Candle) {
    open spec fn instant(&self) -> int {
        self.1.timestamp as int
    }

    fn timestamp(&self) -> (t: i128) {
        self.1.timestamp
    }
}

} // verus!
