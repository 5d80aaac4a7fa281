use kiditrade::backtest::{crossover, Backtest, EmaSignal, Signal, Stock, Trend};
use kiditrade::candle::{Candle, MINUTE};
use kiditrade::decimal::Decimal;
use kiditrade::time_buckets::ConfigError;
use ta::indicators::ExponentialMovingAverage;
use ta::Next;

fn bar(n: i64) -> Candle {
    let price = Decimal::from_i64(n);
    Candle {
        timestamp: n as i128 * MINUTE,
        duration: MINUTE,
        open: price,
        high: price,
        low: price,
        close: price,
        volume: price,
        trades: price,
        vwap: price,
    }
}

#[test]
fn history_keeps_the_newest() {
    let mut history = Stock::new(1, 3).unwrap();
    for n in 1..=4 {
        history.on_bar(&bar(n));
    }
    assert_eq!(history.len(), 3);
    assert_eq!(history.bars(), &vec![bar(4), bar(3), bar(2)]);
    assert_eq!(history.capacity(), 3);
    assert_eq!(history.contract_id(), 1);
}

#[test]
fn history_grows_up_to_its_capacity() {
    let mut history = Stock::new(1, 10).unwrap();
    assert_eq!(history.len(), 0);
    history.on_bar(&bar(1));
    history.on_bar(&bar(2));
    assert_eq!(history.bars(), &vec![bar(2), bar(1)]);
}

#[test]
fn history_of_one_holds_the_last_bar() {
    let mut history = Stock::new(1, 1).unwrap();
    history.on_bar(&bar(1));
    history.on_bar(&bar(2));
    assert_eq!(history.bars(), &vec![bar(2)]);
}

#[test]
fn history_without_room_is_refused() {
    assert!(matches!(Stock::new(1, 0), Err(ConfigError::InvalidArgument)));
    assert!(matches!(Backtest::with_capacity(0), Err(ConfigError::InvalidArgument)));
}

#[test]
fn crossings_give_signals() {
    assert_eq!(crossover(Trend::Below, Trend::Above), Some(Signal::Long));
    assert_eq!(crossover(Trend::Above, Trend::Below), Some(Signal::Short));
    for before in [Trend::Below, Trend::Level, Trend::Above] {
        for after in [Trend::Below, Trend::Level, Trend::Above] {
            let expected = match (before, after) {
                (Trend::Below, Trend::Above) => Some(Signal::Long),
                (Trend::Above, Trend::Below) => Some(Signal::Short),
                _ => None,
            };
            assert_eq!(crossover(before, after), expected);
        }
    }
}

#[test]
fn first_bar_is_silent() {
    for now in [Trend::Below, Trend::Level, Trend::Above] {
        let mut detector = EmaSignal::new();
        assert_eq!(detector.on_bar(Some(now)), None);
        assert_eq!(detector.trend(), now);
    }
}

#[test]
fn detector_follows_the_averages() {
    let mut detector = EmaSignal::new();
    assert_eq!(detector.fast_period(), 10);
    assert_eq!(detector.slow_period(), 50);
    assert_eq!(detector.trend(), Trend::Level);
    assert_eq!(detector.on_bar(Some(Trend::Below)), None);
    assert_eq!(detector.on_bar(Some(Trend::Above)), Some(Signal::Long));
    assert_eq!(detector.on_bar(Some(Trend::Above)), None);
    assert_eq!(detector.on_bar(Some(Trend::Level)), None);
    assert_eq!(detector.on_bar(Some(Trend::Below)), None);
    assert_eq!(detector.on_bar(Some(Trend::Above)), Some(Signal::Long));
    assert_eq!(detector.on_bar(Some(Trend::Below)), Some(Signal::Short));
}

#[test]
fn bar_that_cannot_be_averaged_is_passed_over() {
    let mut detector = EmaSignal::new();
    detector.on_bar(Some(Trend::Below));
    assert_eq!(detector.on_bar(None), None);
    assert_eq!(detector.trend(), Trend::Below);
    assert_eq!(detector.on_bar(Some(Trend::Above)), Some(Signal::Long));
}

#[test]
fn periods_must_be_positive() {
    assert_eq!(EmaSignal::with_periods(0, 50), Err(ConfigError::InvalidArgument));
    assert_eq!(EmaSignal::with_periods(10, 0), Err(ConfigError::InvalidArgument));
    let detector = EmaSignal::with_periods(50, 10).unwrap();
    assert_eq!(detector.fast_period(), 50);
    assert_eq!(detector.slow_period(), 10);
    assert_eq!(detector.trend(), Trend::Level);
}

#[test]
fn backtest_keeps_instruments_apart() {
    let mut backtest = Backtest::with_capacity(2).unwrap();
    assert!(backtest.history(1).is_none());
    assert!(backtest.detector(1).is_none());
    assert_eq!(backtest.on_bar(1, &bar(1), Some(Trend::Below)), None);
    assert_eq!(backtest.on_bar(2, &bar(10), Some(Trend::Above)), None);
    assert_eq!(backtest.on_bar(1, &bar(2), Some(Trend::Above)), Some(Signal::Long));
    assert_eq!(backtest.on_bar(2, &bar(11), Some(Trend::Below)), Some(Signal::Short));
    assert_eq!(backtest.on_bar(1, &bar(3), None), None);
    assert_eq!(backtest.history(1).unwrap().bars(), &vec![bar(3), bar(2)]);
    assert_eq!(backtest.history(2).unwrap().bars(), &vec![bar(11), bar(10)]);
    assert_eq!(backtest.history(1).unwrap().contract_id(), 1);
    assert_eq!(backtest.detector(1).unwrap().trend(), Trend::Above);
    assert_eq!(backtest.detector(2).unwrap().trend(), Trend::Below);
    assert!(backtest.history(3).is_none());
}

#[test]
fn backtest_histories_hold_ten_bars() {
    let mut backtest = Backtest::new();
    for n in 1..=11 {
        backtest.on_bar(5, &bar(n), Some(Trend::Level));
    }
    let history = backtest.history(5).unwrap();
    assert_eq!(history.capacity(), 10);
    assert_eq!(history.len(), 10);
    assert_eq!(history.bars()[0], bar(11));
    assert_eq!(history.bars()[9], bar(2));
}

fn trend_of(fast: f64, slow: f64) -> Trend {
    if fast < slow {
        Trend::Below
    } else if fast > slow {
        Trend::Above
    } else {
        Trend::Level
    }
}

fn signals_of(closes: &[f64], fast_period: usize, slow_period: usize) -> Vec<Option<Signal>> {
    let mut detector = EmaSignal::with_periods(fast_period, slow_period).unwrap();
    let mut fast = ExponentialMovingAverage::new(detector.fast_period()).unwrap();
    let mut slow = ExponentialMovingAverage::new(detector.slow_period()).unwrap();
    closes
        .iter()
        .map(|close| {
            let now = trend_of(fast.next(*close), slow.next(*close));
            detector.on_bar(Some(now))
        })
        .collect()
}

#[test]
fn signals_repeat_from_run_to_run() {
    let closes = [10.0, 9.0, 8.0, 9.5, 12.0, 14.0, 13.0, 9.0, 6.0, 5.0, 8.0, 12.0, 15.0];
    let first = signals_of(&closes, 2, 5);
    let second = signals_of(&closes, 2, 5);
    assert_eq!(first, second);
    assert_eq!(first[0], None);
    assert_eq!(first.iter().filter(|s| **s == Some(Signal::Long)).count(), 2);
    assert_eq!(first.iter().filter(|s| **s == Some(Signal::Short)).count(), 1);
}
