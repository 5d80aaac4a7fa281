//! Merging the bars of one window into one bar for each instrument.

use crate::arrange::{arrange, lemma_arranged, ordered, precedes};
use crate::candle::Candle;
use crate::decimal::{checked_sum, lemma_at_most_transitive, less_than, Decimal};
use crate::runs::{key_ordered, lemma_runs, lemma_runs_absent, runs, spread};
use vstd::prelude::*;

verus! {

/// The bars of `key` in a window, in the order in which they arrived.
pub open spec fn bars_of(window: Seq<(i32, Candle)>, key: i32) -> Seq<Candle>
    decreases window.len(),
{
    if window.len() == 0 {
        Seq::empty()
    } else if window.last().0 == key {
        bars_of(window.drop_last(), key).push(window.last().1)
    } else {
        bars_of(window.drop_last(), key)
    }
}

/// `sorted` with `bar` put behind every bar that is not later than it.
pub open spec fn placed(sorted: Seq<Candle>, bar: Candle) -> Seq<Candle>
    decreases sorted.len(),
{
    if sorted.len() == 0 || sorted.last().timestamp <= bar.timestamp {
        sorted.push(bar)
    } else {
        placed(sorted.drop_last(), bar).push(sorted.last())
    }
}

/// `bars` in order of time; bars of one instant keep their order.
pub open spec fn by_time(bars: Seq<Candle>) -> Seq<Candle>
    decreases bars.len(),
{
    if bars.len() == 0 {
        bars
    } else {
        placed(by_time(bars.drop_last()), bars.last())
    }
}

/// The run of `key` in a window: its bars in order of time, those of one
/// instant in the order in which they arrived.
pub open spec fn run_of(window: Seq<(i32, Candle)>, key: i32) -> Seq<Candle> {
    by_time(bars_of(window, key))
}

/// The greatest high of a run; of several equal ones, the last.
pub open spec fn highest(run: Seq<Candle>) -> Decimal
    decreases run.len(),
{
    if run.len() <= 1 {
        run[0].high
    } else {
        let so_far = highest(run.drop_last());
        if run.last().high.below(so_far) {
            so_far
        } else {
            run.last().high
        }
    }
}

/// The least low of a run; of several equal ones, the first.
pub open spec fn lowest(run: Seq<Candle>) -> Decimal
    decreases run.len(),
{
    if run.len() <= 1 {
        run[0].low
    } else {
        let so_far = lowest(run.drop_last());
        if run.last().low.below(so_far) {
            run.last().low
        } else {
            so_far
        }
    }
}

/// The sum of `values`, added one by one in their order; `None` where one
/// of the additions overflows. The sum of nothing is zero, and the sum of
/// one value is that value as it stands.
pub open spec fn total(values: Seq<Decimal>) -> Option<Decimal>
    decreases values.len(),
{
    if values.len() == 0 {
        Some(Decimal::of(0, 0))
    } else if values.len() == 1 {
        Some(values[0])
    } else {
        match total(values.drop_last()) {
            Some(so_far) => so_far.plus(values.last()),
            None => None,
        }
    }
}

/// The volumes of a run, in its order.
pub open spec fn volumes(run: Seq<Candle>) -> Seq<Decimal> {
    Seq::new(run.len(), |i: int| run[i].volume)
}

/// The numbers of trades of a run, in its order.
pub open spec fn trade_counts(run: Seq<Candle>) -> Seq<Decimal> {
    Seq::new(run.len(), |i: int| run[i].trades)
}

/// The one bar that stands for a run of bars of one instrument, given in
/// order of time, in a window of length `period`.
///
/// It starts where the first bar starts and lasts the period; it opens as
/// the first bar and closes as the last; its high and low are the extremes
/// of the run; volume and trades are summed. Its vwap is that of the last
/// bar, and is not weighted anew. There is none for an empty run, nor where
/// a sum overflows.
pub open spec fn merged_bar(run: Seq<Candle>, period: i128) -> Option<Candle> {
    if run.len() == 0 {
        None
    } else {
        match (total(volumes(run)), total(trade_counts(run))) {
            (Some(volume), Some(trades)) => Some(
                Candle {
                    timestamp: run[0].timestamp,
                    duration: period,
                    open: run[0].open,
                    high: highest(run),
                    low: lowest(run),
                    close: run.last().close,
                    volume,
                    trades,
                    vwap: run.last().vwap,
                },
            ),
            _ => None,
        }
    }
}

/// Whether `bars` holds the merged bars of a window: one for each
/// instrument of the window and for no other, by rising instrument, each
/// the merged bar of the run of its instrument.
pub open spec fn aggregates(
    window: Seq<(i32, Candle)>,
    period: i128,
    bars: Seq<(i32, Candle)>,
) -> bool {
    &&& forall|a: int, b: int|
        0 <= a < b < bars.len() ==> (#[trigger] bars[a]).0 < (#[trigger] bars[b]).0
    &&& forall|a: int|
        0 <= a < bars.len() ==> merged_bar(run_of(window, (#[trigger] bars[a]).0), period) == Some(
            bars[a].1,
        )
    &&& forall|j: int|
        0 <= j < window.len() ==> exists|a: int|
            0 <= a < bars.len() && (#[trigger] bars[a]).0 == (#[trigger] window[j]).0
}

/// Merges a run of bars of one instrument, given in order of time, into one
/// bar of length `period`.
pub fn merge(run: &Vec<Candle>, period: i128) -> (merged: Option<Candle>)
    ensures
        merged == merged_bar(run@, period),
{
    if run.len() == 0 {
        return None;
    }
    let first = run[0];
    let mut high = first.high;
    let mut low = first.low;
    let mut volume = Decimal::zero();
    let mut trades = Decimal::zero();
    proof {
        volume.lemma_of();
        trades.lemma_of();
        assert(volumes(run@).take(0) == Seq::<Decimal>::empty());
        assert(trade_counts(run@).take(0) == Seq::<Decimal>::empty());
        assert(run@.take(1).len() == 1);
    }
    for i in 0..run.len()
        invariant
            run.len() > 0,
            high == highest(run@.take(if i == 0 { 1 } else { i as int })),
            low == lowest(run@.take(if i == 0 { 1 } else { i as int })),
            Some(volume) == total(volumes(run@).take(i as int)),
            Some(trades) == total(trade_counts(run@).take(i as int)),
            i == 0 ==> volume.mantissa() == 0 && trades.mantissa() == 0,
    {
        let bar = run[i];
        proof {
            use_type_invariant(&bar.high);
            use_type_invariant(&bar.low);
            use_type_invariant(&bar.volume);
            use_type_invariant(&bar.trades);
            use_type_invariant(&high);
            use_type_invariant(&low);
            use_type_invariant(&volume);
            use_type_invariant(&trades);
            let upto = run@.take(i + 1);
            assert(upto.drop_last() == run@.take(i as int));
            assert(upto.last() == bar);
            let v = volumes(run@).take(i + 1);
            assert(v.drop_last() == volumes(run@).take(i as int));
            assert(v.last() == bar.volume);
            let t = trade_counts(run@).take(i + 1);
            assert(t.drop_last() == trade_counts(run@).take(i as int));
            assert(t.last() == bar.trades);
        }
        if i > 0 {
            if !less_than(bar.high, high) {
                high = bar.high;
            }
            if less_than(bar.low, low) {
                low = bar.low;
            }
        }
        match checked_sum(volume, bar.volume) {
            Some(sum) => {
                proof {
                    sum.lemma_of();
                }
                volume = sum;
            },
            None => {
                proof {
                    lemma_total_fails(volumes(run@), i + 1);
                }
                return None;
            },
        }
        match checked_sum(trades, bar.trades) {
            Some(sum) => {
                proof {
                    sum.lemma_of();
                }
                trades = sum;
            },
            None => {
                proof {
                    lemma_total_fails(trade_counts(run@), i + 1);
                }
                return None;
            },
        }
    }
    proof {
        assert(run@.take(run.len() as int) == run@);
        assert(volumes(run@).take(run.len() as int) == volumes(run@));
        assert(trade_counts(run@).take(run.len() as int) == trade_counts(run@));
    }
    let last = run[run.len() - 1];
    Some(
        Candle {
            timestamp: first.timestamp,
            duration: period,
            open: first.open,
            high,
            low,
            close: last.close,
            volume,
            trades,
            vwap: last.vwap,
        },
    )
}

/// Reduces a window of bars of many instruments, in any order, to one
/// merged bar of length `period` for each instrument, by rising instrument.
///
/// There is no result where the volumes or the trades of some instrument
/// add up to more than a decimal holds.
pub fn aggregate(window: Vec<(i32, Candle)>, period: i128) -> (merged: Option<Vec<(i32, Candle)>>)
    ensures
        match merged {
            Some(bars) => aggregates(window@, period, bars@),
            None => exists|j: int|
                0 <= j < window.len() && merged_bar(
                    run_of(window@, (#[trigger] window@[j]).0),
                    period,
                ) is None,
        },
{
    let sorted = arrange(&window);
    let groups = runs(sorted);
    proof {
        lemma_arranged(window@, 0);
        assert(key_ordered(spread(groups@))) by {
            assert forall|i: int, j: int| 0 <= i < j < sorted@.len() implies (#[trigger] sorted@[i]).0
                <= (#[trigger] sorted@[j]).0 by {
                assert(!precedes(sorted@[j], sorted@[i]));
            }
        }
        lemma_runs(groups@);
        assert forall|g: int| 0 <= g < groups.len() implies (#[trigger] groups@[g]).1@ == run_of(
            window@,
            groups@[g].0,
        ) by {
            lemma_arranged(window@, groups@[g].0);
        }
    }
    let mut bars: Vec<(i32, Candle)> = Vec::new();
    for g in 0..groups.len()
        invariant
            bars.len() == g,
            forall|a: int| 0 <= a < g ==> (#[trigger] bars[a]).0 == groups[a].0,
            forall|a: int|
                0 <= a < g ==> merged_bar((#[trigger] groups[a]).1@, period) == Some(bars[a].1),
            forall|h: int|
                0 <= h < groups.len() ==> (#[trigger] groups@[h]).1@ == run_of(
                    window@,
                    groups@[h].0,
                ),
            forall|h: int| 0 <= h < groups.len() ==> (#[trigger] groups[h]).1.len() > 0,
    {
        let key = groups[g].0;
        match merge(&groups[g].1, period) {
            Some(bar) => {
                bars.push((key, bar));
            },
            None => {
                proof {
                    let run = run_of(window@, key);
                    lemma_by_time_len(bars_of(window@, key));
                    let at = lemma_bars_of_last(window@, key);
                    assert(merged_bar(run_of(window@, window@[at].0), period) is None);
                }
                return None;
            },
        }
    }
    proof {
        assert forall|a: int, b: int| 0 <= a < b < bars.len() implies (#[trigger] bars[a]).0 < (
        #[trigger] bars[b]).0 by {
            assert(groups@[a].0 < groups@[b].0);
        }
        assert forall|a: int| 0 <= a < bars.len() implies merged_bar(
            run_of(window@, (#[trigger] bars[a]).0),
            period,
        ) == Some(bars[a].1) by {
            assert(groups@[a].1@ == run_of(window@, groups@[a].0));
        }
        assert forall|j: int| 0 <= j < window.len() implies exists|a: int|
            0 <= a < bars.len() && (#[trigger] bars[a]).0 == (#[trigger] window@[j]).0 by {
            let key = window@[j].0;
            lemma_bars_of_has(window@, key, j);
            lemma_by_time_len(bars_of(window@, key));
            lemma_arranged(window@, key);
            if forall|h: int| 0 <= h < groups.len() ==> (#[trigger] groups@[h]).0 != key {
                lemma_runs_absent(groups@, key);
            }
            let h = choose|h: int| 0 <= h < groups.len() && (#[trigger] groups@[h]).0 == key;
            assert(bars[h].0 == key);
        }
    }
    Some(bars)
}

/// A run of a single bar merges into that bar, with the length of the
/// window for its duration: prices, volume, trades and vwap are unchanged.
pub proof fn lemma_merge_single(bar: Candle, period: i128)
    ensures
        merged_bar(seq![bar], period) == Some(Candle { duration: period, ..bar }),
{
    let run = seq![bar];
    assert(volumes(run)[0] == bar.volume);
    assert(trade_counts(run)[0] == bar.trades);
    assert(run.last() == bar);
}

/// A window has one aggregate only: what [`aggregate`] returns is set by
/// the window and the period.
pub proof fn lemma_aggregate_unique(
    window: Seq<(i32, Candle)>,
    period: i128,
    a: Seq<(i32, Candle)>,
    b: Seq<(i32, Candle)>,
)
    requires
        aggregates(window, period, a),
        aggregates(window, period, b),
    ensures
        a == b,
{
    let ka = keys_of(a);
    let kb = keys_of(b);
    assert forall|i: int, j: int| 0 <= i < j < ka.len() implies ka[i] < ka[j] by {
        assert(a[i].0 < a[j].0);
    }
    assert forall|i: int, j: int| 0 <= i < j < kb.len() implies kb[i] < kb[j] by {
        assert(b[i].0 < b[j].0);
    }
    assert forall|i: int| 0 <= i < ka.len() implies kb.contains(#[trigger] ka[i]) by {
        assert(merged_bar(run_of(window, a[i].0), period) == Some(a[i].1));
        let at = lemma_merged_has_bar(window, period, a[i].0);
        let to = choose|to: int| 0 <= to < b.len() && (#[trigger] b[to]).0 == window[at].0;
        assert(kb[to] == ka[i]);
    }
    assert forall|i: int| 0 <= i < kb.len() implies ka.contains(#[trigger] kb[i]) by {
        assert(merged_bar(run_of(window, b[i].0), period) == Some(b[i].1));
        let at = lemma_merged_has_bar(window, period, b[i].0);
        let to = choose|to: int| 0 <= to < a.len() && (#[trigger] a[to]).0 == window[at].0;
        assert(ka[to] == kb[i]);
    }
    lemma_rising_same(ka, kb);
    assert(a.len() == ka.len() && b.len() == kb.len());
    assert forall|i: int| 0 <= i < a.len() implies a[i] == b[i] by {
        assert(ka[i] == kb[i]);
        assert(a[i].0 == b[i].0);
        assert(merged_bar(run_of(window, a[i].0), period) == Some(a[i].1));
        assert(merged_bar(run_of(window, b[i].0), period) == Some(b[i].1));
    }
    assert(a =~= b);
}

/// No high of a run is above the highest.
pub proof fn lemma_highest_is_greatest(run: Seq<Candle>, i: int)
    requires
        0 <= i < run.len(),
    ensures
        run[i].high.at_most(highest(run)),
    decreases run.len(),
{
    if run.len() > 1 {
        let head = run.drop_last();
        if i < head.len() {
            lemma_highest_is_greatest(head, i);
            assert(head[i] == run[i]);
            if !run.last().high.below(highest(head)) {
                lemma_at_most_transitive(run[i].high, highest(head), run.last().high);
            }
        } else {
            lemma_not_below_itself(run.last().high);
        }
    } else {
        lemma_not_below_itself(run[0].high);
    }
}

/// No low of a run is below the lowest.
pub proof fn lemma_lowest_is_least(run: Seq<Candle>, i: int)
    requires
        0 <= i < run.len(),
    ensures
        lowest(run).at_most(run[i].low),
    decreases run.len(),
{
    if run.len() > 1 {
        let head = run.drop_last();
        if i < head.len() {
            lemma_lowest_is_least(head, i);
            assert(head[i] == run[i]);
            if run.last().low.below(lowest(head)) {
                lemma_at_most_transitive(run.last().low, lowest(head), run[i].low);
            }
        } else {
            lemma_not_below_itself(run.last().low);
        }
    } else {
        lemma_not_below_itself(run[0].low);
    }
}

/// Bars that are consistent merge into a consistent bar: its low is not
/// above its open, close or high, and its high not below its open or close.
pub proof fn lemma_merged_consistent(run: Seq<Candle>, period: i128)
    requires
        forall|i: int| 0 <= i < run.len() ==> (#[trigger] run[i]).consistent(),
        merged_bar(run, period) is Some,
    ensures
        merged_bar(run, period)->Some_0.consistent(),
{
    let first = run[0];
    let last = run.last();
    let end = run.len() - 1;
    assert(first.consistent() && run[end].consistent());
    lemma_highest_is_greatest(run, 0);
    lemma_highest_is_greatest(run, end);
    lemma_lowest_is_least(run, 0);
    lemma_lowest_is_least(run, end);
    lemma_at_most_transitive(lowest(run), first.low, first.open);
    lemma_at_most_transitive(lowest(run), last.low, last.close);
    lemma_at_most_transitive(first.open, first.high, highest(run));
    lemma_at_most_transitive(last.close, last.high, highest(run));
    lemma_at_most_transitive(lowest(run), first.open, highest(run));
}

proof fn lemma_not_below_itself(d: Decimal)
    ensures
        d.at_most(d),
{
}

/// Once an addition has overflowed, the sum of the whole is lost.
proof fn lemma_total_fails(values: Seq<Decimal>, n: int)
    requires
        0 <= n <= values.len(),
        total(values.take(n)) is None,
    ensures
        total(values) is None,
    decreases values.len() - n,
{
    if n < values.len() {
        assert(values.take(n + 1).drop_last() == values.take(n));
        lemma_total_fails(values, n + 1);
    } else {
        assert(values.take(n) == values);
    }
}

/// The last bar of `key` in `items` stands somewhere in `items`.
pub(crate) proof fn lemma_bars_of_last(items: Seq<(i32, Candle)>, key: i32) -> (at: int)
    requires
        bars_of(items, key).len() > 0,
    ensures
        0 <= at < items.len(),
        items[at].0 == key,
        items[at].1 == bars_of(items, key).last(),
    decreases items.len(),
{
    if items.last().0 == key {
        items.len() - 1
    } else {
        lemma_bars_of_last(items.drop_last(), key)
    }
}

/// An item of `key` in `items` gives `key` at least one bar.
proof fn lemma_bars_of_has(items: Seq<(i32, Candle)>, key: i32, at: int)
    requires
        0 <= at < items.len(),
        items[at].0 == key,
    ensures
        bars_of(items, key).len() > 0,
    decreases items.len(),
{
    if at < items.len() - 1 {
        lemma_bars_of_has(items.drop_last(), key, at);
    }
}

pub(crate) proof fn lemma_bars_of_concat(a: Seq<(i32, Candle)>, b: Seq<(i32, Candle)>, key: i32)
    ensures
        bars_of(a + b, key) == bars_of(a, key) + bars_of(b, key),
    decreases b.len(),
{
    if b.len() == 0 {
        assert(a + b == a);
    } else {
        lemma_bars_of_concat(a, b.drop_last(), key);
        assert((a + b).drop_last() == a + b.drop_last());
    }
}

proof fn lemma_by_time_len(bars: Seq<Candle>)
    ensures
        by_time(bars).len() == bars.len(),
    decreases bars.len(),
{
    if bars.len() > 0 {
        lemma_by_time_len(bars.drop_last());
        lemma_placed_len(by_time(bars.drop_last()), bars.last());
    }
}

proof fn lemma_placed_len(sorted: Seq<Candle>, bar: Candle)
    ensures
        placed(sorted, bar).len() == sorted.len() + 1,
    decreases sorted.len(),
{
    if !(sorted.len() == 0 || sorted.last().timestamp <= bar.timestamp) {
        lemma_placed_len(sorted.drop_last(), bar);
    }
}

/// The instruments of `bars`, in their order.
spec fn keys_of(bars: Seq<(i32, Candle)>) -> Seq<i32> {
    Seq::new(bars.len(), |i: int| bars[i].0)
}

/// Two strictly rising sequences with the same members are the same.
proof fn lemma_rising_same(a: Seq<i32>, b: Seq<i32>)
    requires
        forall|i: int, j: int| 0 <= i < j < a.len() ==> a[i] < a[j],
        forall|i: int, j: int| 0 <= i < j < b.len() ==> b[i] < b[j],
        forall|i: int| 0 <= i < a.len() ==> b.contains(#[trigger] a[i]),
        forall|i: int| 0 <= i < b.len() ==> a.contains(#[trigger] b[i]),
    ensures
        a == b,
    decreases a.len(),
{
    if a.len() == 0 {
        if b.len() > 0 {
            assert(a.contains(b[0]));
        }
        assert(a =~= b);
    } else {
        let top = a.last();
        assert(b.contains(top));
        let at = choose|at: int| 0 <= at < b.len() && b[at] == top;
        if at < b.len() - 1 {
            assert(a.contains(b[b.len() - 1]));
            let back = choose|back: int| 0 <= back < a.len() && a[back] == b[b.len() - 1];
            assert(a[back] <= a[a.len() - 1]);
        }
        let a0 = a.drop_last();
        let b0 = b.drop_last();
        assert forall|i: int| 0 <= i < a0.len() implies b0.contains(#[trigger] a0[i]) by {
            assert(a0[i] == a[i]);
            assert(b.contains(a[i]));
            let to = choose|to: int| 0 <= to < b.len() && b[to] == a[i];
            assert(a[i] < a[a.len() - 1]);
            assert(b0[to] == a0[i]);
        }
        assert forall|i: int| 0 <= i < b0.len() implies a0.contains(#[trigger] b0[i]) by {
            assert(b0[i] == b[i]);
            assert(a.contains(b[i]));
            let to = choose|to: int| 0 <= to < a.len() && a[to] == b[i];
            assert(b[i] < b[b.len() - 1]);
            assert(a0[to] == b0[i]);
        }
        lemma_rising_same(a0, b0);
        assert(a =~= a0.push(top));
        assert(b =~= b0.push(top));
    }
}

/// An instrument that has a merged bar has a bar in the window.
proof fn lemma_merged_has_bar(window: Seq<(i32, Candle)>, period: i128, key: i32) -> (at: int)
    requires
        merged_bar(run_of(window, key), period) is Some,
    ensures
        0 <= at < window.len(),
        window[at].0 == key,
{
    lemma_by_time_len(bars_of(window, key));
    lemma_bars_of_last(window, key)
}

} // verus!
