//! Cutting a sorted window into the runs of its instruments.

use crate::aggregate::{bars_of, lemma_bars_of_concat};
use crate::candle::Candle;
use vstd::prelude::*;

verus! {

/// `bars` with `key` put before each.
pub(crate) open spec fn tagged(key: i32, bars: Seq<Candle>) -> Seq<(i32, Candle)> {
    Seq::new(bars.len(), |i: int| (key, bars[i]))
}

/// The groups laid end to end, each bar with the key of its group.
pub(crate) open spec fn spread(groups: Seq<(i32, Vec<Candle>)>) -> Seq<(i32, Candle)>
    decreases groups.len(),
{
    if groups.len() == 0 {
        Seq::empty()
    } else {
        spread(groups.drop_last()) + tagged(groups.last().0, groups.last().1@)
    }
}

/// Cuts `items` into runs of neighbours of one instrument, by `group_by` of
/// the `itertools` crate.
///
/// Taken on trust: laid end to end the groups give back `items`, each bar
/// under the key of its group; no group is empty; and two groups that follow
/// each other have different keys.
#[verifier::external_body]
pub(crate) fn runs(items: Vec<(i32, Candle)>) -> (groups: Vec<(i32, Vec<Candle>)>)
    ensures
        spread(groups@) == items@,
        forall|g: int| 0 <= g < groups.len() ==> (#[trigger] groups[g]).1.len() > 0,
        forall|g: int| 0 < g < groups.len() ==> (#[trigger] groups[g]).0 != groups[g - 1].0,
{
    let grouped = itertools::Itertools::group_by(items.into_iter(), |item| item.0);
    grouped.into_iter().map(|(key, run)| (key, run.map(|item| item.1).collect())).collect()
}

/// Of bars under one key, an instrument has all or none.
proof fn lemma_bars_of_tagged(tag: i32, bars: Seq<Candle>, key: i32)
    ensures
        bars_of(tagged(tag, bars), key) == if tag == key {
            bars
        } else {
            Seq::empty()
        },
    decreases bars.len(),
{
    if bars.len() > 0 {
        lemma_bars_of_tagged(tag, bars.drop_last(), key);
        assert(tagged(tag, bars).drop_last() == tagged(tag, bars.drop_last()));
    }
}

/// The instruments of `items` never go down.
pub(crate) open spec fn key_ordered(items: Seq<(i32, Candle)>) -> bool {
    forall|i: int, j: int| 0 <= i < j < items.len() ==> (#[trigger] items[i]).0 <= (#[trigger] items[j]).0
}

/// An instrument that heads no group has no bar among the groups.
pub(crate) proof fn lemma_runs_absent(groups: Seq<(i32, Vec<Candle>)>, key: i32)
    requires
        forall|g: int| 0 <= g < groups.len() ==> (#[trigger] groups[g]).0 != key,
    ensures
        bars_of(spread(groups), key).len() == 0,
    decreases groups.len(),
{
    if groups.len() > 0 {
        let head = groups.drop_last();
        assert forall|g: int| 0 <= g < head.len() implies (#[trigger] head[g]).0 != key by {
            assert(head[g] == groups[g]);
        }
        lemma_runs_absent(head, key);
        lemma_bars_of_concat(spread(head), tagged(groups.last().0, groups.last().1@), key);
        lemma_bars_of_tagged(groups.last().0, groups.last().1@, key);
    }
}

/// Where the instruments of the items never go down, the groups of
/// neighbours of one instrument are headed by rising instruments, and each
/// holds all the bars of its instrument.
pub(crate) proof fn lemma_runs(groups: Seq<(i32, Vec<Candle>)>)
    requires
        key_ordered(spread(groups)),
        forall|g: int| 0 <= g < groups.len() ==> (#[trigger] groups[g]).1.len() > 0,
        forall|g: int| 0 < g < groups.len() ==> (#[trigger] groups[g]).0 != groups[g - 1].0,
    ensures
        forall|a: int, b: int|
            0 <= a < b < groups.len() ==> (#[trigger] groups[a]).0 < (#[trigger] groups[b]).0,
        forall|g: int|
            0 <= g < groups.len() ==> bars_of(spread(groups), (#[trigger] groups[g]).0)
                == groups[g].1@,
        groups.len() > 0 ==> spread(groups).len() > 0 && spread(groups).last().0
            == groups.last().0,
    decreases groups.len(),
{
    if groups.len() > 0 {
        let head = groups.drop_last();
        let last = groups.last();
        let tail = tagged(last.0, last.1@);
        let all = spread(groups);
        assert(all == spread(head) + tail);
        assert(tail.len() == last.1@.len());
        assert(all.last() == tail.last());
        assert forall|i: int, j: int| 0 <= i < j < spread(head).len() implies (#[trigger] spread(
            head,
        )[i]).0 <= (#[trigger] spread(head)[j]).0 by {
            assert(spread(head)[i] == all[i] && spread(head)[j] == all[j]);
        }
        assert forall|g: int| 0 <= g < head.len() implies (#[trigger] head[g]).1.len() > 0 by {
            assert(head[g] == groups[g]);
        }
        assert forall|g: int| 0 < g < head.len() implies (#[trigger] head[g]).0 != head[g - 1].0 by {
            assert(head[g] == groups[g] && head[g - 1] == groups[g - 1]);
        }
        lemma_runs(head);
        if head.len() > 0 {
            let before = spread(head).len() - 1;
            assert(all[before] == spread(head)[before]);
            assert(all[before + 1] == tail[0]);
            assert(all[before].0 <= all[before + 1].0);
            assert(head.last() == groups[groups.len() - 2]);
            assert(groups[groups.len() - 1].0 != groups[groups.len() - 2].0);
            assert(head.last().0 < last.0);
        }
        assert forall|a: int, b: int| 0 <= a < b < groups.len() implies (#[trigger] groups[a]).0 < (
        #[trigger] groups[b]).0 by {
            assert(groups[a] == head[a]);
            if b < head.len() {
                assert(groups[b] == head[b]);
            } else if a < head.len() - 1 {
                assert(head[a].0 < head[head.len() - 1].0);
            }
        }
        assert forall|g: int| 0 <= g < groups.len() implies bars_of(all, (#[trigger] groups[g]).0)
            == groups[g].1@ by {
            let key = groups[g].0;
            lemma_bars_of_concat(spread(head), tail, key);
            lemma_bars_of_tagged(last.0, last.1@, key);
            if g < head.len() {
                assert(groups[g] == head[g]);
                assert(bars_of(all, key) == head[g].1@ + Seq::<Candle>::empty());
            } else {
                assert forall|h: int| 0 <= h < head.len() implies (#[trigger] head[h]).0 != key by {
                    assert(head[h] == groups[h]);
                }
                lemma_runs_absent(head, key);
                assert(bars_of(all, key) == bars_of(spread(head), key) + last.1@);
            }
        }
    }
}

} // verus!
