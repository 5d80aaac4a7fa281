//! Re-sampling of price bars: a time-ordered feed of bars is cut into windows
//! of a fixed period, the bars of each instrument within a window are merged
//! into one bar, and per-instrument state follows the merged bars.

pub mod aggregate;
mod arrange;
pub mod backtest;
pub mod candle;
pub mod decimal;
mod runs;
pub mod time_buckets;
