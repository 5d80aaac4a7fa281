use kiditrade::aggregate::{aggregate, merge};
use kiditrade::candle::{Candle, MINUTE};
use kiditrade::decimal::{Decimal, MAX_MANTISSA};
use kiditrade::time_buckets::Timestamp;

fn dec(mantissa: i128, scale: u32) -> Decimal {
    Decimal::new(mantissa, scale).unwrap()
}

fn bar(timestamp: i128, open: Decimal, high: Decimal, low: Decimal, close: Decimal, volume: Decimal) -> Candle {
    Candle {
        timestamp,
        duration: MINUTE,
        open,
        high,
        low,
        close,
        volume,
        trades: dec(1, 0),
        vwap: close,
    }
}

const HALF_HOUR: i128 = 30 * MINUTE;

#[test]
fn single_bar_merges_into_itself() {
    let only = Candle {
        timestamp: 1_000,
        duration: MINUTE,
        open: dec(10_000, 4),
        high: dec(12_500, 4),
        low: dec(9_000, 4),
        close: dec(11_000, 4),
        volume: dec(1_234_500, 4),
        trades: dec(17, 0),
        vwap: dec(10_750, 4),
    };
    let merged = merge(&vec![only], HALF_HOUR).unwrap();
    assert_eq!(merged, Candle { duration: HALF_HOUR, ..only });

    let bars = aggregate(vec![(7, only)], HALF_HOUR).unwrap();
    assert_eq!(bars, vec![(7, Candle { duration: HALF_HOUR, ..only })]);
}

#[test]
fn two_bars_merge() {
    let first = bar(0, dec(1, 0), dec(2, 0), dec(1, 0), dec(15, 1), dec(10, 0));
    let second = bar(MINUTE, dec(15, 1), dec(3, 0), dec(1, 0), dec(2, 0), dec(5, 0));
    let merged = merge(&vec![first, second], HALF_HOUR).unwrap();
    assert_eq!(merged.open, dec(1, 0));
    assert_eq!(merged.high, dec(3, 0));
    assert_eq!(merged.low, dec(1, 0));
    assert_eq!(merged.close, dec(2, 0));
    assert_eq!(merged.volume, dec(15, 0));
    assert_eq!(merged.trades, dec(2, 0));
    assert_eq!(merged.vwap, dec(2, 0));
    assert_eq!(merged.timestamp, 0);
    assert_eq!(merged.duration, HALF_HOUR);
}

#[test]
fn empty_run_has_no_bar() {
    assert_eq!(merge(&Vec::new(), HALF_HOUR), None);
}

#[test]
fn empty_window_has_no_bars() {
    assert_eq!(aggregate(Vec::new(), HALF_HOUR), Some(Vec::new()));
}

#[test]
fn extremes_compare_numbers_across_scales() {
    // 2.5 against 2.45 and 2.455: the mantissas alone would mislead.
    let a = bar(0, dec(2, 0), dec(25, 1), dec(245, 2), dec(2, 0), dec(1, 0));
    let b = bar(1, dec(2, 0), dec(245, 2), dec(25, 1), dec(2, 0), dec(1, 0));
    let c = bar(2, dec(2, 0), dec(2455, 3), dec(2455, 3), dec(2, 0), dec(1, 0));
    let merged = merge(&vec![a, b, c], HALF_HOUR).unwrap();
    assert_eq!(merged.high, dec(25, 1));
    assert_eq!(merged.low, dec(245, 2));
}

#[test]
fn negative_prices_compare_as_numbers() {
    let a = bar(0, dec(0, 0), dec(-5, 1), dec(-5, 1), dec(0, 0), dec(1, 0));
    let b = bar(1, dec(0, 0), dec(-45, 2), dec(-55, 2), dec(0, 0), dec(1, 0));
    let merged = merge(&vec![a, b], HALF_HOUR).unwrap();
    assert_eq!(merged.high, dec(-45, 2));
    assert_eq!(merged.low, dec(-55, 2));
}

#[test]
fn of_equal_highs_the_last_of_equal_lows_the_first() {
    let a = bar(0, dec(1, 0), dec(30, 1), dec(10, 1), dec(1, 0), dec(1, 0));
    let b = bar(1, dec(1, 0), dec(300, 2), dec(100, 2), dec(1, 0), dec(1, 0));
    let merged = merge(&vec![a, b], HALF_HOUR).unwrap();
    assert_eq!(merged.high, dec(300, 2));
    assert_eq!(merged.low, dec(10, 1));
}

#[test]
fn volumes_of_different_scales_add_up() {
    let a = bar(0, dec(1, 0), dec(1, 0), dec(1, 0), dec(1, 0), dec(105, 1));
    let b = bar(1, dec(1, 0), dec(1, 0), dec(1, 0), dec(1, 0), dec(25, 2));
    let merged = merge(&vec![a, b], HALF_HOUR).unwrap();
    assert_eq!(merged.volume, dec(1075, 2));
}

#[test]
fn vwap_is_that_of_the_last_bar() {
    let mut a = bar(0, dec(1, 0), dec(1, 0), dec(1, 0), dec(1, 0), dec(1000, 0));
    a.vwap = dec(10, 0);
    let mut b = bar(1, dec(1, 0), dec(1, 0), dec(1, 0), dec(1, 0), dec(1, 0));
    b.vwap = dec(20, 0);
    let merged = merge(&vec![a, b], HALF_HOUR).unwrap();
    assert_eq!(merged.vwap, dec(20, 0));
}

#[test]
fn overflowing_volume_has_no_bar() {
    let a = bar(0, dec(1, 0), dec(1, 0), dec(1, 0), dec(1, 0), dec(MAX_MANTISSA, 0));
    let b = bar(1, dec(1, 0), dec(1, 0), dec(1, 0), dec(1, 0), dec(MAX_MANTISSA, 0));
    assert_eq!(merge(&vec![a, b], HALF_HOUR), None);
    assert_eq!(aggregate(vec![(1, a), (2, a), (1, b)], HALF_HOUR), None);
    assert!(aggregate(vec![(1, a), (2, b)], HALF_HOUR).is_some());
}

#[test]
fn interleaved_instruments_are_told_apart() {
    let a0 = bar(0, dec(10, 0), dec(12, 0), dec(9, 0), dec(11, 0), dec(100, 0));
    let b0 = bar(0, dec(50, 0), dec(51, 0), dec(49, 0), dec(50, 0), dec(7, 0));
    let a1 = bar(MINUTE, dec(11, 0), dec(15, 0), dec(10, 0), dec(14, 0), dec(50, 0));
    let b1 = bar(MINUTE, dec(50, 0), dec(55, 0), dec(48, 0), dec(54, 0), dec(3, 0));
    let bars = aggregate(vec![(9, a0), (4, b0), (9, a1), (4, b1)], HALF_HOUR).unwrap();
    assert_eq!(bars.len(), 2);
    assert_eq!(bars[0].0, 4);
    assert_eq!(bars[1].0, 9);
    assert_eq!(
        bars[0].1,
        Candle {
            timestamp: 0,
            duration: HALF_HOUR,
            open: dec(50, 0),
            high: dec(55, 0),
            low: dec(48, 0),
            close: dec(54, 0),
            volume: dec(10, 0),
            trades: dec(2, 0),
            vwap: dec(54, 0),
        }
    );
    assert_eq!(
        bars[1].1,
        Candle {
            timestamp: 0,
            duration: HALF_HOUR,
            open: dec(10, 0),
            high: dec(15, 0),
            low: dec(9, 0),
            close: dec(14, 0),
            volume: dec(150, 0),
            trades: dec(2, 0),
            vwap: dec(14, 0),
        }
    );
}

#[test]
fn bars_of_an_instrument_are_taken_in_order_of_time() {
    let late = bar(5 * MINUTE, dec(3, 0), dec(3, 0), dec(3, 0), dec(33, 0), dec(1, 0));
    let early = bar(MINUTE, dec(1, 0), dec(1, 0), dec(1, 0), dec(11, 0), dec(1, 0));
    let middle = bar(2 * MINUTE, dec(2, 0), dec(2, 0), dec(2, 0), dec(22, 0), dec(1, 0));
    let bars = aggregate(vec![(1, late), (1, early), (1, middle)], HALF_HOUR).unwrap();
    assert_eq!(bars.len(), 1);
    assert_eq!(bars[0].1.timestamp, MINUTE);
    assert_eq!(bars[0].1.open, dec(1, 0));
    assert_eq!(bars[0].1.close, dec(33, 0));
}

#[test]
fn bars_of_one_instant_keep_their_order() {
    let first = bar(MINUTE, dec(1, 0), dec(1, 0), dec(1, 0), dec(11, 0), dec(1, 0));
    let second = bar(MINUTE, dec(2, 0), dec(2, 0), dec(2, 0), dec(22, 0), dec(1, 0));
    let bars = aggregate(vec![(1, first), (1, second)], HALF_HOUR).unwrap();
    assert_eq!(bars[0].1.open, dec(1, 0));
    assert_eq!(bars[0].1.close, dec(22, 0));
}

#[test]
fn negative_instruments_come_first() {
    let b = bar(0, dec(1, 0), dec(1, 0), dec(1, 0), dec(1, 0), dec(1, 0));
    let bars = aggregate(vec![(3, b), (-2, b), (0, b), (3, b)], HALF_HOUR).unwrap();
    let keys: Vec<i32> = bars.iter().map(|item| item.0).collect();
    assert_eq!(keys, vec![-2, 0, 3]);
    assert_eq!(bars[2].1.volume, dec(2, 0));
}

#[test]
fn minute_bar_rounds_prices_to_four_digits() {
    let made = Candle::minute_bar(
        42,
        dec(123_456, 5),
        dec(100_005, 5),
        dec(100_015, 5),
        dec(-100_025, 5),
        250,
        3,
        dec(15, 1),
    );
    assert_eq!(made.timestamp, 42);
    assert_eq!(made.duration, MINUTE);
    assert_eq!(made.open, dec(12_346, 4));
    assert_eq!(made.high, dec(10_000, 4));
    assert_eq!(made.low, dec(10_002, 4));
    assert_eq!(made.close, dec(-10_002, 4));
    assert_eq!(made.volume, dec(250, 0));
    assert_eq!(made.trades, dec(3, 0));
    assert_eq!(made.vwap, dec(15, 1));
}

#[test]
fn decimals_out_of_range_are_refused() {
    assert!(Decimal::new(MAX_MANTISSA, 28).is_some());
    assert!(Decimal::new(-MAX_MANTISSA, 0).is_some());
    assert!(Decimal::new(MAX_MANTISSA + 1, 0).is_none());
    assert!(Decimal::new(-MAX_MANTISSA - 1, 0).is_none());
    assert!(Decimal::new(1, 29).is_none());
    let d = dec(-12_345, 3);
    assert_eq!(d.mantissa(), -12_345);
    assert_eq!(d.scale(), 3);
    assert_eq!(Decimal::zero(), dec(0, 0));
    assert_eq!(Decimal::from_i64(-9), dec(-9, 0));
}

#[test]
fn bars_carry_their_instant() {
    let b = bar(77, dec(1, 0), dec(1, 0), dec(1, 0), dec(1, 0), dec(1, 0));
    assert_eq!(b.timestamp(), 77);
    assert_eq!((5i32, b).timestamp(), 77);
}
