//! Sorting a window by instrument and then by time.

use crate::aggregate::{bars_of, lemma_bars_of_last, placed, run_of};
use crate::candle::Candle;
use vstd::prelude::*;

verus! {

/// Whether `a` comes strictly before `b` by instrument and then by time.
pub(crate) open spec fn precedes(a: (i32, Candle), b: (i32, Candle)) -> bool {
    a.0 < b.0 || (a.0 == b.0 && a.1.timestamp < b.1.timestamp)
}

/// `sorted` with `item` put behind everything that does not come after it.
pub(crate) open spec fn slotted(sorted: Seq<(i32, Candle)>, item: (i32, Candle)) -> Seq<(i32, Candle)>
    decreases sorted.len(),
{
    if sorted.len() == 0 || !precedes(item, sorted.last()) {
        sorted.push(item)
    } else {
        slotted(sorted.drop_last(), item).push(sorted.last())
    }
}

/// The items of a window by instrument and then by time; items that agree
/// in both keep the order in which they arrived.
pub(crate) open spec fn arranged(window: Seq<(i32, Candle)>) -> Seq<(i32, Candle)>
    decreases window.len(),
{
    if window.len() == 0 {
        window
    } else {
        slotted(arranged(window.drop_last()), window.last())
    }
}

/// Where `item` goes in `sorted`: behind everything that does not come
/// after it.
fn position(sorted: &Vec<(i32, Candle)>, item: (i32, Candle)) -> (at: usize)
    ensures
        at <= sorted.len(),
        sorted@.insert(at as int, item) == slotted(sorted@, item),
{
    let mut at: usize = sorted.len();
    proof {
        assert(sorted@.take(at as int) == sorted@);
        assert(slotted(sorted@, item) + sorted@.skip(at as int) == slotted(sorted@, item));
    }
    while at > 0 && (item.0 < sorted[at - 1].0 || (item.0 == sorted[at - 1].0 && item.1.timestamp
        < sorted[at - 1].1.timestamp))
        invariant
            at <= sorted.len(),
            slotted(sorted@, item) == slotted(sorted@.take(at as int), item) + sorted@.skip(
                at as int,
            ),
        decreases at,
    {
        proof {
            lemma_slotted_step(sorted@, at as int, item);
        }
        at -= 1;
    }
    proof {
        let head = sorted@.take(at as int);
        assert(slotted(head, item) == head.push(item));
        assert(head.push(item) + sorted@.skip(at as int) == sorted@.insert(at as int, item));
    }
    at
}

/// One step of the search for the place of `item`, from `at` to `at - 1`.
proof fn lemma_slotted_step(sorted: Seq<(i32, Candle)>, at: int, item: (i32, Candle))
    requires
        0 < at <= sorted.len(),
        precedes(item, sorted[at - 1]),
    ensures
        slotted(sorted.take(at), item) + sorted.skip(at) == slotted(sorted.take(at - 1), item)
            + sorted.skip(at - 1),
{
    let head = sorted.take(at);
    assert(head.drop_last() == sorted.take(at - 1));
    assert(head.last() == sorted[at - 1]);
    assert(slotted(head, item) == slotted(head.drop_last(), item).push(head.last()));
    assert(sorted.skip(at - 1) == seq![head.last()] + sorted.skip(at));
    let front = slotted(head.drop_last(), item);
    assert(front.push(head.last()) + sorted.skip(at) == front + (seq![head.last()] + sorted.skip(
        at,
    )));
}

/// Sorts a window by instrument and then by time, keeping the order of
/// arrival among items that agree in both.
pub(crate) fn arrange(window: &Vec<(i32, Candle)>) -> (sorted: Vec<(i32, Candle)>)
    ensures
        sorted@ == arranged(window@),
{
    let mut sorted: Vec<(i32, Candle)> = Vec::new();
    for i in 0..window.len()
        invariant
            sorted@ == arranged(window@.take(i as int)),
    {
        let item = window[i];
        let at = position(&sorted, item);
        proof {
            let upto = window@.take(i + 1);
            assert(upto.drop_last() == window@.take(i as int));
            assert(upto.last() == item);
        }
        sorted.insert(at, item);
    }
    proof {
        assert(window@.take(window.len() as int) == window@);
    }
    sorted
}

/// No item comes strictly before an item that stands ahead of it.
pub(crate) open spec fn ordered(items: Seq<(i32, Candle)>) -> bool {
    forall|i: int, j: int| 0 <= i < j < items.len() ==> !precedes(#[trigger] items[j], #[trigger] items[i])
}

/// Where `slotted` puts `item`.
spec fn slot(sorted: Seq<(i32, Candle)>, item: (i32, Candle)) -> int
    decreases sorted.len(),
{
    if sorted.len() == 0 || !precedes(item, sorted.last()) {
        sorted.len() as int
    } else {
        slot(sorted.drop_last(), item)
    }
}

proof fn lemma_slot(sorted: Seq<(i32, Candle)>, item: (i32, Candle))
    ensures
        0 <= slot(sorted, item) <= sorted.len(),
        slotted(sorted, item) == sorted.insert(slot(sorted, item), item),
        slot(sorted, item) > 0 ==> !precedes(item, sorted[slot(sorted, item) - 1]),
        forall|i: int| slot(sorted, item) <= i < sorted.len() ==> precedes(item, #[trigger] sorted[i]),
    decreases sorted.len(),
{
    if sorted.len() == 0 || !precedes(item, sorted.last()) {
        assert(sorted.push(item) == sorted.insert(sorted.len() as int, item));
    } else {
        let head = sorted.drop_last();
        lemma_slot(head, item);
        let at = slot(head, item);
        assert(head.insert(at, item).push(sorted.last()) == sorted.insert(at, item));
        assert forall|i: int| at <= i < sorted.len() implies precedes(item, #[trigger] sorted[i]) by {
            if i < head.len() {
                assert(sorted[i] == head[i]);
            }
        }
    }
}

proof fn lemma_slotted_ordered(sorted: Seq<(i32, Candle)>, item: (i32, Candle))
    requires
        ordered(sorted),
    ensures
        ordered(slotted(sorted, item)),
{
    lemma_slot(sorted, item);
    let at = slot(sorted, item);
    let after = slotted(sorted, item);
    assert forall|i: int, j: int| 0 <= i < j < after.len() implies !precedes(
        #[trigger] after[j],
        #[trigger] after[i],
    ) by {
        if j < at {
            assert(after[j] == sorted[j] && after[i] == sorted[i]);
        } else if j == at {
            assert(after[i] == sorted[i]);
            if i < at - 1 {
                assert(!precedes(sorted[at - 1], sorted[i]));
            }
        } else if i == at {
            assert(after[j] == sorted[j - 1]);
        } else if i < at {
            assert(after[j] == sorted[j - 1] && after[i] == sorted[i]);
        } else {
            assert(after[j] == sorted[j - 1] && after[i] == sorted[i - 1]);
        }
    }
}

/// Slotting an item into an ordered sequence places its bar among the bars
/// of its instrument, and leaves the bars of the others as they are.
proof fn lemma_slotted_bars(sorted: Seq<(i32, Candle)>, item: (i32, Candle), key: i32)
    requires
        ordered(sorted),
    ensures
        bars_of(slotted(sorted, item), key) == if item.0 == key {
            placed(bars_of(sorted, key), item.1)
        } else {
            bars_of(sorted, key)
        },
    decreases sorted.len(),
{
    if sorted.len() == 0 || !precedes(item, sorted.last()) {
        assert(sorted.push(item).drop_last() == sorted);
        assert(sorted.push(item).last() == item);
        if item.0 == key && bars_of(sorted, key).len() > 0 {
            let at = lemma_bars_of_last(sorted, key);
            if at < sorted.len() - 1 {
                assert(!precedes(sorted[sorted.len() - 1], sorted[at]));
            }
            assert(sorted[at].1.timestamp <= item.1.timestamp);
        }
    } else {
        let head = sorted.drop_last();
        assert(ordered(head)) by {
            assert forall|i: int, j: int| 0 <= i < j < head.len() implies !precedes(
                #[trigger] head[j],
                #[trigger] head[i],
            ) by {
                assert(head[j] == sorted[j] && head[i] == sorted[i]);
            }
        }
        lemma_slotted_bars(head, item, key);
        let last = sorted.last();
        assert(slotted(head, item).push(last).drop_last() == slotted(head, item));
        assert(slotted(head, item).push(last).last() == last);
        if last.0 == key && item.0 == key {
            let among = bars_of(head, key);
            assert(among.push(last.1).drop_last() == among);
            assert(among.push(last.1).last() == last.1);
        }
    }
}

/// The sorted window is ordered, and holds for each instrument its run.
pub(crate) proof fn lemma_arranged(window: Seq<(i32, Candle)>, key: i32)
    ensures
        ordered(arranged(window)),
        bars_of(arranged(window), key) == run_of(window, key),
    decreases window.len(),
{
    if window.len() > 0 {
        lemma_arranged(window.drop_last(), key);
        lemma_slotted_ordered(arranged(window.drop_last()), window.last());
        lemma_slotted_bars(arranged(window.drop_last()), window.last(), key);
        if window.last().0 == key {
            let among = bars_of(window.drop_last(), key);
            assert(among.push(window.last().1).drop_last() == among);
        }
    }
}

} // verus!
