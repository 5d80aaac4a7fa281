//! Cutting a time-ordered sequence into windows of a fixed period.

use vstd::prelude::*;

verus! {

/// Why a component refused its configuration.
#[derive(Clone, Copy, Debug, PartialEq, Eq, Structural)]
pub enum ConfigError {
    /// A period or a capacity that is not strictly positive.
    InvalidArgument,
}

/// Anything that happened at a known instant.
pub trait Timestamp {
    /// The instant of the item, in nanoseconds since the Unix epoch.
    spec fn instant(&self) -> int;

    /// The instant of the item, in nanoseconds since the Unix epoch.
    fn timestamp(&self) -> (t: i128)
        ensures
            t == self.instant(),
    ;
}

impl Timestamp for i128 {
    open spec fn instant(&self) -> int {
        *self as int
    }

    fn timestamp(&self) -> (t: i128) {
        *self
    }
}

impl<A> Timestamp for (i128, A) {
    open spec fn instant(&self) -> int {
        self.0 as int
    }

    fn timestamp(&self) -> (t: i128) {
        self.0
    }
}

impl<A, B> Timestamp for (i128, A, B) {
    open spec fn instant(&self) -> int {
        self.0 as int
    }

    fn timestamp(&self) -> (t: i128) {
        self.0
    }
}

/// Whether `item` lies at or beyond the right edge of the window that
/// `pending` holds, so that the window is complete.
pub open spec fn closes<T: Timestamp>(pending: Seq<T>, period: int, item: T) -> bool {
    pending.len() > 0 && item.instant() >= pending[0].instant() + period
}

/// What one call of [`TimeBuckets::poll_next`] asks of its caller.
#[derive(Debug)]
pub enum Step<T> {
    /// The item went into the open window; more input is needed.
    Pending,
    /// A window is complete.
    Window(Vec<T>),
    /// The input has ended and no window is open.
    Done,
}

/// The open window of a bucketing run, and the period of its windows.
///
/// A window spans `[first, first + period)`, where `first` is the instant of
/// its first item. The input is taken to arrive in non-decreasing order of
/// time; this is not checked, and an item that comes too early simply joins
/// the open window.
pub struct TimeBuckets<T: Timestamp> {
    bucket: Vec<T>,
    period: i128,
}

impl<T: Timestamp> TimeBuckets<T> {
    /// The period is strictly positive.
    pub closed spec fn wf(&self) -> bool {
        self.period > 0
    }

    /// The items of the open window, in order of arrival.
    pub closed spec fn pending(&self) -> Seq<T> {
        self.bucket@
    }

    /// The length of a window, in nanoseconds.
    pub closed spec fn span(&self) -> int {
        self.period as int
    }

    /// A bucketing run with no window open; `period` is in nanoseconds and
    /// must be strictly positive.
    pub fn new(period: i128) -> (made: Result<Self, ConfigError>)
        ensures
            period <= 0 ==> made == Err::<Self, ConfigError>(ConfigError::InvalidArgument),
            period > 0 ==> made is Ok && made->Ok_0.wf() && made->Ok_0.pending()
                == Seq::<T>::empty() && made->Ok_0.span() == period,
    {
        if period <= 0 {
            return Err(ConfigError::InvalidArgument);
        }
        Ok(TimeBuckets { bucket: Vec::new(), period })
    }

    /// The length of a window, in nanoseconds.
    pub fn period(&self) -> (p: i128)
        ensures
            p == self.span(),
            self.wf() ==> p > 0,
    {
        self.period
    }

    /// Starts a new window that holds `item` alone and hands out the window
    /// that was open.
    fn replace(&mut self, item: T) -> (closed: Vec<T>)
        ensures
            closed@ == old(self).pending(),
            final(self).pending() == seq![item],
            final(self).span() == old(self).span(),
            final(self).wf() == old(self).wf(),
    {
        let mut fresh: Vec<T> = Vec::new();
        fresh.push(item);
        core::mem::swap(&mut self.bucket, &mut fresh);
        fresh
    }

    /// Takes what the source yielded, `Some(item)` or `None` at its end, and
    /// says what follows: a complete window, the end, or the need for more.
    pub fn poll_next(&mut self, polled: Option<T>) -> (step: Step<T>)
        requires
            old(self).wf(),
        ensures
            final(self).wf(),
            final(self).span() == old(self).span(),
            match polled {
                Some(item) => if closes(old(self).pending(), old(self).span(), item) {
                    &&& step matches Step::Window(w)
                    &&& w@ == old(self).pending()
                    &&& final(self).pending() == seq![item]
                } else {
                    &&& step is Pending
                    &&& final(self).pending() == old(self).pending().push(item)
                },
                None => {
                    &&& final(self).pending() == Seq::<T>::empty()
                    &&& if old(self).pending().len() == 0 {
                        step is Done
                    } else {
                        step matches Step::Window(w) && w@ == old(self).pending()
                    }
                },
            },
    {
        match polled {
            Some(item) => {
                if self.bucket.len() > 0 {
                    let first: i128 = self.bucket[0].timestamp();
                    let at: i128 = item.timestamp();
                    let beyond = match first.checked_add(self.period) {
                        Some(edge) => edge <= at,
                        None => false,
                    };
                    if beyond {
                        return Step::Window(self.replace(item));
                    }
                }
                self.bucket.push(item);
                Step::Pending
            },
            None => {
                if self.bucket.len() == 0 {
                    Step::Done
                } else {
                    let mut last: Vec<T> = Vec::new();
                    core::mem::swap(&mut self.bucket, &mut last);
                    Step::Window(last)
                }
            },
        }
    }
}

/// The state of a bucketing run once `items` have arrived in order: the
/// windows completed so far, and the open window.
pub open spec fn fed<T: Timestamp>(items: Seq<T>, period: int) -> (Seq<Seq<T>>, Seq<T>)
    decreases items.len(),
{
    if items.len() == 0 {
        (Seq::empty(), Seq::empty())
    } else {
        let (done, open) = fed(items.drop_last(), period);
        let item = items.last();
        if closes(open, period, item) {
            (done.push(open), seq![item])
        } else {
            (done, open.push(item))
        }
    }
}

/// The windows of `items`: those completed while the items arrived, and
/// then the window still open at the end, if it holds anything.
pub open spec fn windows_of<T: Timestamp>(items: Seq<T>, period: int) -> Seq<Seq<T>> {
    let (done, open) = fed(items, period);
    if open.len() == 0 {
        done
    } else {
        done.push(open)
    }
}

/// No window of `windows` is empty, every item of a window lies before the
/// window's right edge, and every window but the first starts at or beyond
/// the right edge of the window before it.
pub open spec fn well_bucketed<T: Timestamp>(windows: Seq<Seq<T>>, period: int) -> bool {
    &&& forall|w: int| 0 <= w < windows.len() ==> (#[trigger] windows[w]).len() > 0
    &&& forall|w: int, i: int|
        0 <= w < windows.len() && 0 <= i < windows[w].len() ==> (#[trigger] windows[w][i]).instant()
            < windows[w][0].instant() + period
    &&& forall|w: int|
        0 < w < windows.len() ==> (#[trigger] windows[w])[0].instant() >= windows[w - 1][0].instant()
            + period
}

proof fn lemma_fed<T: Timestamp>(items: Seq<T>, period: int)
    requires
        period > 0,
    ensures
        fed(items, period).0.flatten() + fed(items, period).1 == items,
        items.len() > 0 ==> fed(items, period).1.len() > 0,
        well_bucketed(windows_of(items, period), period),
    decreases items.len(),
{
    if items.len() > 0 {
        let before = items.drop_last();
        let item = items.last();
        lemma_fed(before, period);
        let (done, open) = fed(before, period);
        let earlier = windows_of(before, period);
        let now = windows_of(items, period);
        assert(before.push(item) == items);
        if open.len() == 0 {
            assert(before.len() == 0);
            assert(done == Seq::<Seq<T>>::empty());
            assert(now == done.push(seq![item]));
        } else if closes(open, period, item) {
            done.lemma_flatten_push(open);
            assert(earlier == done.push(open));
            assert(now == earlier.push(seq![item]));
            assert forall|w: int| 0 <= w < now.len() implies (#[trigger] now[w]).len() > 0 by {
                if w < earlier.len() {
                    assert(now[w] == earlier[w]);
                }
            }
            assert forall|w: int, i: int| 0 <= w < now.len() && 0 <= i < now[w].len() implies (
            #[trigger] now[w][i]).instant() < now[w][0].instant() + period by {
                if w < earlier.len() {
                    assert(now[w] == earlier[w]);
                }
            }
            assert forall|w: int| 0 < w < now.len() implies (#[trigger] now[w])[0].instant()
                >= now[w - 1][0].instant() + period by {
                if w < earlier.len() {
                    assert(now[w] == earlier[w]);
                    assert(now[w - 1] == earlier[w - 1]);
                } else {
                    assert(now[w - 1] == open);
                }
            }
        } else {
            assert(earlier == done.push(open));
            assert(now == done.push(open.push(item)));
            assert forall|w: int| 0 <= w < now.len() implies (#[trigger] now[w]).len() > 0 by {
                if w < done.len() {
                    assert(now[w] == earlier[w]);
                }
            }
            assert forall|w: int, i: int| 0 <= w < now.len() && 0 <= i < now[w].len() implies (
            #[trigger] now[w][i]).instant() < now[w][0].instant() + period by {
                if w < done.len() {
                    assert(now[w] == earlier[w]);
                } else if i < open.len() {
                    assert(earlier[w] == open);
                    assert(now[w][i] == earlier[w][i]);
                    assert(now[w][0] == earlier[w][0]);
                }
            }
            assert forall|w: int| 0 < w < now.len() implies (#[trigger] now[w])[0].instant()
                >= now[w - 1][0].instant() + period by {
                assert(now[w - 1] == earlier[w - 1]);
                if w < done.len() {
                    assert(now[w] == earlier[w]);
                } else {
                    assert(earlier[w] == open);
                    assert(now[w][0] == earlier[w][0]);
                }
            }
        }
    } else {
        assert(fed(items, period).0.flatten() == Seq::<T>::empty());
    }
}

/// Joined end to end in order, the windows of a sequence give back the
/// sequence: no item is lost, repeated or moved.
pub proof fn lemma_windows_concat<T: Timestamp>(items: Seq<T>, period: int)
    requires
        period > 0,
    ensures
        windows_of(items, period).flatten() == items,
{
    lemma_fed(items, period);
    let (done, open) = fed(items, period);
    if open.len() == 0 {
        assert(done.flatten() + open == done.flatten());
    } else {
        done.lemma_flatten_push(open);
    }
}

/// Every item of a window lies before the window's right edge, which is one
/// period after its first item, and each window starts at or beyond the
/// right edge of the window before it. No window is empty.
pub proof fn lemma_windows_edges<T: Timestamp>(items: Seq<T>, period: int)
    requires
        period > 0,
    ensures
        well_bucketed(windows_of(items, period), period),
{
    lemma_fed(items, period);
}

/// The instants of `items` never go back.
pub open spec fn time_ordered<T: Timestamp>(items: Seq<T>) -> bool {
    forall|i: int, j: int|
        0 <= i <= j < items.len() ==> (#[trigger] items[i]).instant() <= (
        #[trigger] items[j]).instant()
}

/// No item of a window of `windows` lies before the first item of its
/// window.
pub open spec fn starts_first<T: Timestamp>(windows: Seq<Seq<T>>) -> bool {
    forall|w: int, i: int|
        0 <= w < windows.len() && 0 <= i < windows[w].len() ==> windows[w][0].instant() <= (
        #[trigger] windows[w][i]).instant()
}

/// Where the input is in order of time, every window spans from its first
/// item to one period after it: with [`lemma_windows_edges`], each item of
/// a window lies in `[first, first + period)`.
pub proof fn lemma_windows_in_order<T: Timestamp>(items: Seq<T>, period: int)
    requires
        period > 0,
        time_ordered(items),
    ensures
        starts_first(windows_of(items, period)),
    decreases items.len(),
{
    if items.len() > 0 {
        let before = items.drop_last();
        let item = items.last();
        assert(time_ordered(before)) by {
            assert forall|i: int, j: int| 0 <= i <= j < before.len() implies (#[trigger] before[i]).instant()
                <= (#[trigger] before[j]).instant() by {
                assert(before[i] == items[i] && before[j] == items[j]);
            }
        }
        lemma_windows_in_order(before, period);
        lemma_fed(before, period);
        let (done, open) = fed(before, period);
        let earlier = windows_of(before, period);
        let now = windows_of(items, period);
        if open.len() == 0 {
            assert(now == done.push(seq![item]));
            assert(done.len() == 0);
        } else if closes(open, period, item) {
            assert(earlier == done.push(open));
            assert(now == earlier.push(seq![item]));
            assert forall|w: int, i: int| 0 <= w < now.len() && 0 <= i < now[w].len() implies now[w][0].instant()
                <= (#[trigger] now[w][i]).instant() by {
                if w < earlier.len() {
                    assert(now[w] == earlier[w]);
                    assert(earlier[w][0].instant() <= earlier[w][i].instant());
                }
            }
        } else {
            assert(earlier == done.push(open));
            assert(now == done.push(open.push(item)));
            let at = done.flatten().len() as int;
            assert(before == done.flatten() + open);
            assert(before[at] == open[0]);
            assert(items[at] == before[at]);
            assert(items[at].instant() <= items[items.len() - 1].instant());
            assert forall|w: int, i: int| 0 <= w < now.len() && 0 <= i < now[w].len() implies now[w][0].instant()
                <= (#[trigger] now[w][i]).instant() by {
                if w < done.len() {
                    assert(now[w] == earlier[w]);
                    assert(earlier[w][0].instant() <= earlier[w][i].instant());
                } else if i < open.len() {
                    assert(earlier[w] == open);
                    assert(now[w][i] == open[i] && now[w][0] == open[0]);
                    assert(earlier[w][0].instant() <= earlier[w][i].instant());
                } else {
                    assert(now[w][0] == open[0]);
                    assert(now[w][i] == item);
                }
            }
        }
    }
}

/// The contents of each window of `windows`.
pub open spec fn window_views<T>(windows: Seq<Vec<T>>) -> Seq<Seq<T>> {
    Seq::new(windows.len(), |w: int| windows[w]@)
}

/// Splitting a whole sequence into windows at once.
pub trait TimeStreamExt<T: Timestamp>: Sized + View<V = Seq<T>> {
    /// The windows of `self` for windows of `period` nanoseconds, in order.
    /// No item is looked at when the period is not strictly positive.
    fn time_buckets(self, period: i128) -> (made: Result<Vec<Vec<T>>, ConfigError>)
        ensures
            period <= 0 ==> made == Err::<Vec<Vec<T>>, ConfigError>(
                ConfigError::InvalidArgument,
            ),
            period > 0 ==> made is Ok && window_views(made->Ok_0@) == windows_of(
                self@,
                period as int,
            ),
    ;
}

impl<T: Timestamp> TimeStreamExt<T> for Vec<T> {
    fn time_buckets(self, period: i128) -> (made: Result<Vec<Vec<T>>, ConfigError>) {
        let mut buckets: TimeBuckets<T> = match TimeBuckets::new(period) {
            Ok(buckets) => buckets,
            Err(e) => {
                return Err(e);
            },
        };
        let mut windows: Vec<Vec<T>> = Vec::new();
        let ghost items = self@;
        for item in it: self.into_iter()
            invariant
                it.seq() == items,
                buckets.wf(),
                buckets.span() == period,
                (window_views(windows@), buckets.pending()) == fed(
                    items.take(it.index() as int),
                    period as int,
                ),
        {
            proof {
                let before = items.take(it.index() as int);
                let now = items.take(it.index() + 1);
                assert(now.drop_last() == before);
                assert(now.last() == item);
            }
            let ghost earlier = window_views(windows@);
            match buckets.poll_next(Some(item)) {
                Step::Window(w) => {
                    windows.push(w);
                    assert(window_views(windows@) == earlier.push(w@));
                },
                _ => {},
            }
        }
        assert(items.take(items.len() as int) == items);
        let ghost earlier = window_views(windows@);
        match buckets.poll_next(None) {
            Step::Window(w) => {
                windows.push(w);
                assert(window_views(windows@) == earlier.push(w@));
            },
            _ => {},
        }
        Ok(windows)
    }
}

} // verus!
