//! What is kept for each instrument while merged bars come in: a bounded
//! history of its bars, and the state of its moving-average crossover.

use crate::candle::Candle;
use crate::time_buckets::ConfigError;
use std::collections::HashMap;
use vstd::prelude::*;

verus! {

/// The length of the windows into which a backtest merges its bars: thirty
/// minutes, in nanoseconds.
pub const BACKTEST_PERIOD: i128 = 1_800_000_000_000;

/// How many bars the history of an instrument holds unless told otherwise.
pub const DEFAULT_CAPACITY: usize = 10;

/// The smoothing period of the fast average unless told otherwise.
pub const DEFAULT_FAST_PERIOD: usize = 10;

/// The smoothing period of the slow average unless told otherwise.
pub const DEFAULT_SLOW_PERIOD: usize = 50;

/// `held`, newest first, after `bar` has been recorded under a limit of
/// `capacity` bars: `bar` in front, and the oldest bar gone where the limit
/// was reached.
pub open spec fn recorded(held: Seq<Candle>, capacity: int, bar: Candle) -> Seq<Candle> {
    if held.len() >= capacity {
        seq![bar] + held.drop_last()
    } else {
        seq![bar] + held
    }
}

/// `held` after each bar of `bars` has been recorded in turn.
pub open spec fn recorded_all(held: Seq<Candle>, capacity: int, bars: Seq<Candle>) -> Seq<Candle>
    decreases bars.len(),
{
    if bars.len() == 0 {
        held
    } else {
        recorded(recorded_all(held, capacity, bars.drop_last()), capacity, bars.last())
    }
}

/// The last bars of one instrument, newest first, up to a fixed number.
pub struct Stock {
    capacity: usize,
    contract_id: i32,
    bars: Vec<Candle>,
}

impl Stock {
    /// The capacity is at least one and is never exceeded.
    pub closed spec fn wf(&self) -> bool {
        1 <= self.capacity && self.bars@.len() <= self.capacity
    }

    /// The bars held, newest first.
    pub closed spec fn held(&self) -> Seq<Candle> {
        self.bars@
    }

    /// The most bars that are held at a time.
    pub closed spec fn limit(&self) -> int {
        self.capacity as int
    }

    /// The instrument.
    pub closed spec fn instrument(&self) -> i32 {
        self.contract_id
    }

    /// An empty history of `contract_id` for up to `capacity` bars; refused
    /// where `capacity` is zero.
    pub fn new(contract_id: i32, capacity: usize) -> (made: Result<Stock, ConfigError>)
        ensures
            capacity == 0 ==> made == Err::<Stock, ConfigError>(ConfigError::InvalidArgument),
            capacity > 0 ==> made is Ok && made->Ok_0.wf() && made->Ok_0.limit() == capacity
                && made->Ok_0.instrument() == contract_id && made->Ok_0.held()
                == Seq::<Candle>::empty(),
    {
        if capacity == 0 {
            return Err(ConfigError::InvalidArgument);
        }
        Ok(Stock { capacity, contract_id, bars: Vec::new() })
    }

    /// Records `bar` as the newest; the oldest bar leaves where the history
    /// is full.
    pub fn on_bar(&mut self, bar: &Candle)
        requires
            old(self).wf(),
        ensures
            final(self).wf(),
            final(self).limit() == old(self).limit(),
            final(self).instrument() == old(self).instrument(),
            final(self).held() == recorded(old(self).held(), old(self).limit(), *bar),
    {
        if self.bars.len() >= self.capacity {
            self.bars.pop();
        }
        self.bars.insert(0, *bar);
        assert(self.bars@ == recorded(old(self).bars@, old(self).capacity as int, *bar));
    }

    /// The number of bars held.
    pub fn len(&self) -> (n: usize)
        ensures
            n == self.held().len(),
    {
        self.bars.len()
    }

    /// The most bars that are held at a time.
    pub fn capacity(&self) -> (n: usize)
        ensures
            n == self.limit(),
    {
        self.capacity
    }

    /// The instrument.
    pub fn contract_id(&self) -> (id: i32)
        ensures
            id == self.instrument(),
    {
        self.contract_id
    }

    /// The bars held, newest first.
    pub fn bars(&self) -> (bars: &Vec<Candle>)
        ensures
            bars@ == self.held(),
    {
        &self.bars
    }
}

/// The `n` newest of `bars`, which are given oldest first, newest first.
pub open spec fn newest(bars: Seq<Candle>, n: int) -> Seq<Candle> {
    Seq::new(
        if bars.len() <= n {
            bars.len()
        } else {
            n as nat
        },
        |i: int| bars[bars.len() - 1 - i],
    )
}

/// A history that starts empty holds, after any bars have been recorded,
/// the newest of them, newest first, up to its capacity.
pub proof fn lemma_history_keeps_newest(capacity: int, bars: Seq<Candle>)
    requires
        capacity >= 1,
    ensures
        recorded_all(Seq::empty(), capacity, bars) == newest(bars, capacity),
    decreases bars.len(),
{
    if bars.len() > 0 {
        let before = bars.drop_last();
        lemma_history_keeps_newest(capacity, before);
        let held = newest(before, capacity);
        let now = recorded(held, capacity, bars.last());
        assert(now.len() == newest(bars, capacity).len());
        assert forall|i: int| 0 <= i < now.len() implies now[i] == newest(bars, capacity)[i] by {
            if i > 0 {
                assert(now[i] == held[i - 1]);
                assert(held[i - 1] == before[before.len() - 1 - (i - 1)]);
            }
        }
        assert(now == newest(bars, capacity));
    } else {
        assert(newest(bars, capacity) == Seq::<Candle>::empty());
    }
}

/// After one bar more than its capacity, a history that started empty is
/// full, and holds the bars recorded last, newest first: all but the very
/// first.
pub proof fn lemma_history_overflow(capacity: int, bars: Seq<Candle>)
    requires
        capacity >= 1,
        bars.len() == capacity + 1,
    ensures
        recorded_all(Seq::empty(), capacity, bars).len() == capacity,
        forall|i: int|
            0 <= i < capacity ==> #[trigger] recorded_all(Seq::empty(), capacity, bars)[i]
                == bars[capacity - i],
{
    lemma_history_keeps_newest(capacity, bars);
}

/// What a crossover of the two averages calls for.
#[derive(Clone, Copy, Debug, PartialEq, Eq, Structural)]
pub enum Signal {
    /// The fast average rose from below the slow one to above it.
    Long,
    /// The fast average fell from above the slow one to below it.
    Short,
}

/// Where the fast average stands against the slow one.
#[derive(Clone, Copy, Debug, PartialEq, Eq, Structural)]
pub enum Trend {
    /// Strictly below.
    Below,
    /// Neither strictly below nor strictly above.
    Level,
    /// Strictly above.
    Above,
}

/// The signal of a bar, from where the fast average stood against the slow
/// one before the bar and where it stands after it.
pub open spec fn crossing(before: Trend, after: Trend) -> Option<Signal> {
    if before == Trend::Below && after == Trend::Above {
        Some(Signal::Long)
    } else if before == Trend::Above && after == Trend::Below {
        Some(Signal::Short)
    } else {
        None
    }
}

/// The signal of a bar, from where the fast average stood against the slow
/// one before the bar and where it stands after it.
pub fn crossover(before: Trend, after: Trend) -> (signal: Option<Signal>)
    ensures
        signal == crossing(before, after),
{
    match (before, after) {
        (Trend::Below, Trend::Above) => Some(Signal::Long),
        (Trend::Above, Trend::Below) => Some(Signal::Short),
        _ => None,
    }
}

/// The crossover detector of one instrument: the smoothing periods of its
/// two averages, and where the fast one stood against the slow one after
/// the last bar.
///
/// The averages themselves are kept by the caller, who tells the detector
/// after each bar how they compare. Both start at zero, so a new detector
/// stands at [`Trend::Level`].
#[derive(Clone, Copy, Debug, PartialEq, Eq, Structural)]
pub struct EmaSignal {
    faster: usize,
    slower: usize,
    current: Trend,
}

impl EmaSignal {
    /// Both periods are at least one.
    pub closed spec fn wf(&self) -> bool {
        self.faster >= 1 && self.slower >= 1
    }

    /// The smoothing period of the fast average.
    pub closed spec fn spec_fast_period(&self) -> usize {
        self.faster
    }

    /// The smoothing period of the slow average.
    pub closed spec fn spec_slow_period(&self) -> usize {
        self.slower
    }

    /// Where the fast average stood against the slow one after the last bar.
    pub closed spec fn spec_trend(&self) -> Trend {
        self.current
    }

    /// A detector that has seen no bar, with periods 10 and 50.
    pub fn new() -> (made: EmaSignal)
        ensures
            made.wf(),
            made.fast_period() == DEFAULT_FAST_PERIOD,
            made.slow_period() == DEFAULT_SLOW_PERIOD,
            made.trend() == Trend::Level,
    {
        EmaSignal {
            faster: DEFAULT_FAST_PERIOD,
            slower: DEFAULT_SLOW_PERIOD,
            current: Trend::Level,
        }
    }

    /// A detector that has seen no bar, with the periods given; refused
    /// where one of them is zero. That the fast period be the shorter one is
    /// not asked.
    pub fn with_periods(fast_period: usize, slow_period: usize) -> (made: Result<
        EmaSignal,
        ConfigError,
    >)
        ensures
            fast_period == 0 || slow_period == 0 ==> made == Err::<EmaSignal, ConfigError>(
                ConfigError::InvalidArgument,
            ),
            fast_period > 0 && slow_period > 0 ==> made is Ok && made->Ok_0.wf()
                && made->Ok_0.fast_period() == fast_period && made->Ok_0.slow_period()
                == slow_period && made->Ok_0.trend() == Trend::Level,
    {
        if fast_period == 0 || slow_period == 0 {
            return Err(ConfigError::InvalidArgument);
        }
        Ok(EmaSignal { faster: fast_period, slower: slow_period, current: Trend::Level })
    }

    /// The smoothing period of the fast average.
    #[verifier::when_used_as_spec(spec_fast_period)]
    pub fn fast_period(&self) -> (p: usize)
        ensures
            p == self.fast_period(),
    {
        self.faster
    }

    /// The smoothing period of the slow average.
    #[verifier::when_used_as_spec(spec_slow_period)]
    pub fn slow_period(&self) -> (p: usize)
        ensures
            p == self.slow_period(),
    {
        self.slower
    }

    /// Where the fast average stood against the slow one after the last bar.
    #[verifier::when_used_as_spec(spec_trend)]
    pub fn trend(&self) -> (t: Trend)
        ensures
            t == self.trend(),
    {
        self.current
    }

    /// Takes where the fast average stands against the slow one after a new
    /// bar, and gives the signal of the bar. `None` for `now` says that the
    /// close of the bar could not be averaged: the bar is passed over, with
    /// no signal, and the detector stays as it is.
    pub fn on_bar(&mut self, now: Option<Trend>) -> (signal: Option<Signal>)
        ensures
            final(self).fast_period() == old(self).fast_period(),
            final(self).slow_period() == old(self).slow_period(),
            final(self).wf() == old(self).wf(),
            match now {
                Some(after) => final(self).trend() == after && signal == crossing(
                    old(self).trend(),
                    after,
                ),
                None => final(self).trend() == old(self).trend() && signal is None,
            },
    {
        match now {
            Some(after) => {
                let before = self.current;
                self.current = after;
                crossover(before, after)
            },
            None => None,
        }
    }
}

/// The first bar of an instrument gives no signal: before it the two
/// averages are level.
pub proof fn lemma_first_bar_is_silent(now: Trend)
    ensures
        crossing(Trend::Level, now) is None,
{
}

/// A bar gives a signal only where the fast average has changed sides, so
/// no two bars in a row give the same signal.
pub proof fn lemma_signals_alternate(first: Trend, second: Trend, third: Trend)
    ensures
        crossing(first, second) is Some ==> crossing(second, third) != crossing(first, second),
{
}

/// The state of a backtest: for each instrument that has had a bar, its
/// history and its crossover detector.
///
/// An instrument gets both at its first bar: an empty history of the
/// capacity of the backtest, and a detector that has seen no bar.
pub struct Backtest {
    capacity: usize,
    contracts: HashMap<i32, (Stock, EmaSignal)>,
}

impl View for Backtest {
    type V = Map<i32, (Seq<Candle>, Trend)>;

    /// For each instrument seen, the bars held, newest first, and where its
    /// fast average stood against the slow one after its last bar.
    closed spec fn view(&self) -> Map<i32, (Seq<Candle>, Trend)> {
        Map::new(
            |id: i32| self.contracts@.contains_key(id),
            |id: i32| (self.contracts@[id].0.held(), self.contracts@[id].1.trend()),
        )
    }
}

impl Backtest {
    /// The capacity is at least one, and every history has it and keeps
    /// to it.
    pub closed spec fn wf(&self) -> bool {
        &&& self.capacity >= 1
        &&& forall|id: i32| #[trigger]
            self.contracts@.contains_key(id) ==> self.contracts@[id].0.wf()
                && self.contracts@[id].0.limit() == self.capacity
    }

    /// The capacity of each history.
    pub closed spec fn limit(&self) -> int {
        self.capacity as int
    }

    /// A backtest that has seen no instrument, with histories of ten bars.
    pub fn new() -> (made: Backtest)
        ensures
            made.wf(),
            made.limit() == DEFAULT_CAPACITY,
            made@ == Map::<i32, (Seq<Candle>, Trend)>::empty(),
    {
        let made = Backtest { capacity: DEFAULT_CAPACITY, contracts: HashMap::new() };
        assert(made@ =~= Map::<i32, (Seq<Candle>, Trend)>::empty());
        made
    }

    /// A backtest that has seen no instrument, with histories of `capacity`
    /// bars; refused where `capacity` is zero.
    pub fn with_capacity(capacity: usize) -> (made: Result<Backtest, ConfigError>)
        ensures
            capacity == 0 ==> made is Err && made->Err_0 == ConfigError::InvalidArgument,
            capacity > 0 ==> made is Ok && made->Ok_0.wf() && made->Ok_0.limit() == capacity
                && made->Ok_0@ == Map::<i32, (Seq<Candle>, Trend)>::empty(),
    {
        if capacity == 0 {
            return Err(ConfigError::InvalidArgument);
        }
        let made = Backtest { capacity, contracts: HashMap::new() };
        assert(made@ =~= Map::<i32, (Seq<Candle>, Trend)>::empty());
        Ok(made)
    }

    /// What the backtest holds of `contract_id` before a bar of it comes:
    /// what it has kept, or the state of an instrument not seen yet.
    pub open spec fn state_of(&self, contract_id: i32) -> (Seq<Candle>, Trend) {
        if self@.contains_key(contract_id) {
            self@[contract_id]
        } else {
            (Seq::empty(), Trend::Level)
        }
    }

    /// Takes a merged bar of `contract_id`, and where the fast average of
    /// the instrument stands against the slow one after it (`None` where
    /// the close could not be averaged). The bar goes into the history of
    /// the instrument, the detector moves on, and the signal of the bar
    /// comes back. Nothing changes for any other instrument.
    pub fn on_bar(&mut self, contract_id: i32, candle: &Candle, now: Option<Trend>) -> (signal:
        Option<Signal>)
        requires
            old(self).wf(),
        ensures
            final(self).wf(),
            final(self).limit() == old(self).limit(),
            final(self)@ == old(self)@.insert(
                contract_id,
                (
                    recorded(old(self).state_of(contract_id).0, old(self).limit(), *candle),
                    match now {
                        Some(after) => after,
                        None => old(self).state_of(contract_id).1,
                    },
                ),
            ),
            signal == match now {
                Some(after) => crossing(old(self).state_of(contract_id).1, after),
                None => None,
            },
    {
        broadcast use vstd::std_specs::hash::group_hash_axioms;

        let (mut stock, mut detector) = match self.contracts.remove(&contract_id) {
            Some(state) => state,
            None => (
                Stock { capacity: self.capacity, contract_id, bars: Vec::new() },
                EmaSignal::new(),
            ),
        };
        stock.on_bar(candle);
        let signal = detector.on_bar(now);
        self.contracts.insert(contract_id, (stock, detector));
        assert(self@ =~= old(self)@.insert(
            contract_id,
            (
                recorded(old(self).state_of(contract_id).0, old(self).limit(), *candle),
                match now {
                    Some(after) => after,
                    None => old(self).state_of(contract_id).1,
                },
            ),
        ));
        signal
    }

    /// The history of `contract_id`, if the instrument has had a bar.
    pub fn history(&self, contract_id: i32) -> (found: Option<&Stock>)
        ensures
            found is Some <==> self@.contains_key(contract_id),
            found matches Some(stock) ==> stock.held() == self@[contract_id].0 && (self.wf()
                ==> stock.wf() && stock.limit() == self.limit()),
    {
        broadcast use vstd::std_specs::hash::group_hash_axioms;

        match self.contracts.get(&contract_id) {
            Some(state) => Some(&state.0),
            None => None,
        }
    }

    /// The crossover detector of `contract_id`, if the instrument has had a
    /// bar.
    pub fn detector(&self, contract_id: i32) -> (found: Option<EmaSignal>)
        ensures
            found is Some <==> self@.contains_key(contract_id),
            found matches Some(detector) ==> detector.trend() == self@[contract_id].1,
    {
        broadcast use vstd::std_specs::hash::group_hash_axioms;

        match self.contracts.get(&contract_id) {
            Some(state) => Some(state.1),
            None => None,
        }
    }
}

} // verus!
