use vstd::prelude::*;
use vstd::multiset::Multiset;
use crate::interval::Metric;
use hdrhistogram::serialization::Deserializer;
use hdrhistogram::Histogram;
use std::io::Read;

verus! {

/// A latency histogram of microsecond samples. Verus sees only the names below.
#[verifier::external_body]
pub struct Hist {
    pub inner: Histogram<u64>,
}

/// The samples a histogram holds, each counted at the bucket it was recorded in.
pub uninterp spec fn hist_samples(h: Hist) -> Multiset<u64>;

/// A histogram's configuration: lowest discernible value, highest trackable value,
/// significant figures, and whether it grows to take larger values.
pub uninterp spec fn hist_config(h: Hist) -> (u64, u64, u8, bool);

/// Largest count a histogram reports.
pub const COUNT_MAX: u64 = 0xffff_ffff_ffff_ffff;

/// Relies on `Histogram::new_with_bounds`: with a lowest value of 1, a highest value of at
/// least 2 and at most 5 significant figures it succeeds, with no samples and no
/// auto-resizing.
#[verifier::external_body]
pub(crate) fn new_histogram(high: u64, sigfig: u8) -> (r: Hist)
    requires
        2 <= high,
        sigfig <= 5,
    ensures
        hist_samples(r) == Multiset::<u64>::empty(),
        hist_config(r) == (1u64, high, sigfig, false),
{
    Hist { inner: Histogram::new_with_bounds(1, high, sigfig).unwrap() }
}

/// Relies on the derived `Clone` of `Histogram`: a field-by-field copy.
#[verifier::external_body]
pub(crate) fn hist_clone(h: &Hist) -> (r: Hist)
    ensures
        hist_samples(r) == hist_samples(*h),
        hist_config(r) == hist_config(*h),
{
    Hist { inner: h.inner.clone() }
}

/// Relies on `Histogram::len`: the total count, which adds up with saturation.
#[verifier::external_body]
pub(crate) fn hist_len(h: &Hist) -> (r: u64)
    ensures
        r as int == if hist_samples(*h).len() < COUNT_MAX {
            hist_samples(*h).len() as int
        } else {
            COUNT_MAX as int
        },
{
    h.inner.len()
}

/// Relies on `Histogram::add`: it fails, changing nothing, only where the other histogram
/// holds values beyond this one's range; a histogram that does not auto-resize keeps its
/// configuration; with equal configurations the counts are added bucket by bucket, and
/// counts only saturate past the largest count.
#[verifier::external_body]
pub(crate) fn hist_add(a: &mut Hist, b: &Hist) -> (ok: bool)
    ensures
        !ok ==> *final(a) == *old(a),
        !hist_config(*old(a)).3 ==> hist_config(*final(a)) == hist_config(*old(a)),
        hist_config(*old(a)) == hist_config(*b) ==> ok,
        ok && hist_samples(*old(a)).len() + hist_samples(*b).len() <= COUNT_MAX ==> hist_samples(
            *final(a),
        ).len() == hist_samples(*old(a)).len() + hist_samples(*b).len(),
        hist_config(*old(a)) == hist_config(*b) && hist_samples(*old(a)).len() + hist_samples(
            *b,
        ).len() <= COUNT_MAX ==> hist_samples(*final(a)) == hist_samples(*old(a)).add(
            hist_samples(*b),
        ),
{
    a.inner.add(&b.inner).is_ok()
}


/// Highest latency, in microseconds, that a timeline histogram tracks.
pub const HIGHEST_TRACKABLE: u64 = 60_000_000;

/// Significant figures kept by a timeline histogram.
pub const SIGNIFICANT_FIGURES: u8 = 3;

/// The samples of one window: processing times and sojourn times.
pub type WindowSamples = (Multiset<u64>, Multiset<u64>);

/// Whether `h` has the configuration of every timeline histogram.
pub open spec fn standard(h: Hist) -> bool {
    hist_config(h) == (1u64, HIGHEST_TRACKABLE, SIGNIFICANT_FIGURES, false)
}

/// Two windows added sample by sample.
pub open spec fn window_add(a: WindowSamples, b: WindowSamples) -> WindowSamples {
    (a.0.add(b.0), a.1.add(b.1))
}

/// Whether the counts of two windows can be added without reaching the largest count.
pub open spec fn window_fits(a: WindowSamples, b: WindowSamples) -> bool {
    a.0.len() + b.0.len() < COUNT_MAX && a.1.len() + b.1.len() < COUNT_MAX
}

/// The processing and sojourn histograms of one window.
pub struct Histograms {
    pub processing: Hist,
    pub sojourn: Hist,
}

impl View for Histograms {
    type V = WindowSamples;

    open spec fn view(&self) -> WindowSamples {
        (hist_samples(self.processing), hist_samples(self.sojourn))
    }
}

impl Default for Histograms {
    /// Two empty histograms with the timeline configuration.
    fn default() -> (r: Self)
        ensures
            r.wf(),
            r@ == (Multiset::<u64>::empty(), Multiset::<u64>::empty()),
    {
        Histograms {
            processing: new_histogram(HIGHEST_TRACKABLE, SIGNIFICANT_FIGURES),
            sojourn: new_histogram(HIGHEST_TRACKABLE, SIGNIFICANT_FIGURES),
        }
    }
}

impl Histograms {
    /// Both histograms have the timeline configuration.
    pub open spec fn wf(&self) -> bool {
        standard(self.processing) && standard(self.sojourn)
    }

    /// A copy holding the same samples.
    pub fn duplicate(&self) -> (r: Self)
        ensures
            r@ == self@,
            self.wf() ==> r.wf(),
    {
        Histograms { processing: hist_clone(&self.processing), sojourn: hist_clone(&self.sojourn) }
    }

    /// Whether `other` can be merged into `self` without reaching the largest count.
    pub fn can_merge(&self, other: &Self) -> (r: bool)
        ensures
            r == window_fits(self@, other@),
    {
        let a = hist_len(&self.processing) as u128;
        let b = hist_len(&other.processing) as u128;
        let c = hist_len(&self.sojourn) as u128;
        let d = hist_len(&other.sojourn) as u128;
        a + b < COUNT_MAX as u128 && c + d < COUNT_MAX as u128
    }

    /// Adds the samples of `other` to `self`, bucket by bucket.
    pub fn merge(&mut self, other: &Self)
        requires
            old(self).wf(),
            other.wf(),
            window_fits(old(self)@, other@),
        ensures
            final(self).wf(),
            final(self)@ == window_add(old(self)@, other@),
    {
        hist_add(&mut self.processing, &other.processing);
        hist_add(&mut self.sojourn, &other.sojourn);
    }
}

/// A latency timeline: one pair of histograms per doubling window (`[0s, 1s)`, `[1s, 2s)`,
/// `[2s, 4s)`, ...), and the latest window end observed, in nanoseconds.
pub struct Timeline {
    pub histograms: Vec<Histograms>,
    pub last_end: u128,
}

/// A timeline as plain values: the samples of each window, and the latest window end.
pub struct TimelineView {
    pub windows: Seq<WindowSamples>,
    pub last_end: int,
}

impl View for Timeline {
    type V = TimelineView;

    open spec fn view(&self) -> TimelineView {
        TimelineView {
            windows: self.histograms@.map_values(|h: Histograms| h@),
            last_end: self.last_end as int,
        }
    }
}

/// The timeline with no windows.
pub open spec fn empty_view() -> TimelineView {
    TimelineView { windows: Seq::empty(), last_end: 0 }
}

/// Two timelines merged window by window; a window present on one side only is kept as
/// it is, and the later of the two ends is kept.
pub open spec fn merge_views(a: TimelineView, b: TimelineView) -> TimelineView {
    TimelineView {
        windows: Seq::new(
            if a.windows.len() >= b.windows.len() {
                a.windows.len()
            } else {
                b.windows.len()
            },
            |i: int|
                if i < a.windows.len() && i < b.windows.len() {
                    window_add(a.windows[i], b.windows[i])
                } else if i < a.windows.len() {
                    a.windows[i]
                } else {
                    b.windows[i]
                },
        ),
        last_end: if a.last_end >= b.last_end {
            a.last_end
        } else {
            b.last_end
        },
    }
}

/// Whether two timelines can be merged without reaching the largest count in any window.
pub open spec fn merge_fits(a: TimelineView, b: TimelineView) -> bool {
    forall|i: int|
        0 <= i < a.windows.len() && i < b.windows.len() ==> window_fits(
            #[trigger] a.windows[i],
            b.windows[i],
        )
}


/// All windows of a timeline added together.
pub open spec fn collapse_view(ws: Seq<WindowSamples>) -> WindowSamples
    decreases ws.len(),
{
    if ws.len() == 0 {
        (Multiset::empty(), Multiset::empty())
    } else {
        window_add(collapse_view(ws.drop_last()), ws.last())
    }
}

/// Whether all windows can be added together without reaching the largest count.
pub open spec fn collapse_fits(ws: Seq<WindowSamples>) -> bool {
    collapse_view(ws).0.len() < COUNT_MAX && collapse_view(ws).1.len() < COUNT_MAX
}

proof fn lemma_collapse_prefix_len(ws: Seq<WindowSamples>, i: int)
    requires
        0 <= i <= ws.len(),
    ensures
        collapse_view(ws.subrange(0, i)).0.len() <= collapse_view(ws).0.len(),
        collapse_view(ws.subrange(0, i)).1.len() <= collapse_view(ws).1.len(),
    decreases ws.len() - i,
{
    if i < ws.len() {
        lemma_collapse_prefix_len(ws, i + 1);
        assert(ws.subrange(0, i + 1).drop_last() == ws.subrange(0, i));
    } else {
        assert(ws.subrange(0, i) == ws);
    }
}


/// A window with `m` added to the samples of `metric`.
pub open spec fn window_with(w: WindowSamples, metric: Metric, m: Multiset<u64>) -> WindowSamples {
    match metric {
        Metric::Processing => (w.0.add(m), w.1),
        Metric::Sojourn => (w.0, w.1.add(m)),
    }
}

/// The samples of `metric` in a window.
pub open spec fn metric_samples(w: WindowSamples, metric: Metric) -> Multiset<u64> {
    match metric {
        Metric::Processing => w.0,
        Metric::Sojourn => w.1,
    }
}

/// The samples of window `window` of `t`; a window past the last one is empty.
pub open spec fn window_or_empty(t: TimelineView, window: int) -> WindowSamples {
    if 0 <= window < t.windows.len() {
        t.windows[window]
    } else {
        (Multiset::empty(), Multiset::empty())
    }
}

/// A timeline with `m` recorded in window `window` for `metric`, the windows before it
/// created empty where missing, and `end` taken as the end when it is later.
pub open spec fn record_view(
    t: TimelineView,
    window: nat,
    metric: Metric,
    m: Multiset<u64>,
    end: int,
) -> TimelineView {
    TimelineView {
        windows: Seq::new(
            if t.windows.len() > window {
                t.windows.len()
            } else {
                window + 1
            },
            |i: int|
                if i == window {
                    window_with(window_or_empty(t, i), metric, m)
                } else {
                    window_or_empty(t, i)
                },
        ),
        last_end: if t.last_end >= end {
            t.last_end
        } else {
            end
        },
    }
}

/// Whether `m` can be recorded in window `window` for `metric` without reaching the
/// largest count.
pub open spec fn record_fits(t: TimelineView, window: nat, metric: Metric, m: Multiset<u64>) -> bool {
    metric_samples(window_or_empty(t, window as int), metric).len() + m.len() < COUNT_MAX
}

impl Timeline {
    /// Every histogram has the timeline configuration.
    pub open spec fn wf(&self) -> bool {
        forall|i: int| 0 <= i < self.histograms.len() ==> (#[trigger] self.histograms@[i]).wf()
    }

    /// A timeline with no windows.
    pub fn new() -> (r: Self)
        ensures
            r.wf(),
            r@ == empty_view(),
    {
        let r = Timeline { histograms: Vec::new(), last_end: 0 };
        proof {
            assert(r@.windows =~= Seq::<WindowSamples>::empty());
        }
        r
    }

    /// A copy holding the same samples.
    pub fn duplicate(&self) -> (r: Self)
        requires
            self.wf(),
        ensures
            r.wf(),
            r@ == self@,
    {
        let mut hs: Vec<Histograms> = Vec::new();
        let mut i: usize = 0;
        while i < self.histograms.len()
            invariant
                self.wf(),
                0 <= i <= self.histograms.len(),
                hs.len() == i,
                forall|k: int| 0 <= k < i ==> (#[trigger] hs@[k]).wf() && hs@[k]@ == self.histograms@[k]@,
            decreases self.histograms.len() - i,
        {
            hs.push(self.histograms[i].duplicate());
            i = i + 1;
        }
        let r = Timeline { histograms: hs, last_end: self.last_end };
        proof {
            assert(r@.windows =~= self@.windows);
        }
        r
    }

    /// Whether `other` can be merged into `self` without reaching the largest count.
    pub fn can_merge(&self, other: &Self) -> (r: bool)
        ensures
            r == merge_fits(self@, other@),
    {
        let mut i: usize = 0;
        while i < self.histograms.len() && i < other.histograms.len()
            invariant
                0 <= i <= self.histograms.len(),
                forall|k: int|
                    0 <= k < i && k < other.histograms.len() ==> window_fits(
                        #[trigger] self@.windows[k],
                        other@.windows[k],
                    ),
            decreases self.histograms.len() - i,
        {
            if !self.histograms[i].can_merge(&other.histograms[i]) {
                proof {
                    assert(self@.windows[i as int] == self.histograms@[i as int]@);
                    assert(other@.windows[i as int] == other.histograms@[i as int]@);
                }
                return false;
            }
            i = i + 1;
        }
        true
    }

    /// Merges `other` into `self` window by window, and keeps the later end.
    pub fn merge(&mut self, other: &Self)
        requires
            old(self).wf(),
            other.wf(),
            merge_fits(old(self)@, other@),
        ensures
            final(self).wf(),
            final(self)@ == merge_views(old(self)@, other@),
    {
        let n = self.histograms.len();
        let mut i: usize = 0;
        while i < other.histograms.len()
            invariant
                other.wf(),
                self.wf(),
                n == old(self).histograms.len(),
                self.last_end == old(self).last_end,
                0 <= i <= other.histograms.len(),
                self.histograms.len() == if n >= i {
                    n
                } else {
                    i
                },
                merge_fits(old(self)@, other@),
                forall|k: int|
                    0 <= k < self.histograms.len() ==> (#[trigger] self.histograms@[k])@ == if k < i
                        && k < n {
                        window_add(old(self).histograms@[k]@, other.histograms@[k]@)
                    } else if k < n {
                        old(self).histograms@[k]@
                    } else {
                        other.histograms@[k]@
                    },
            decreases other.histograms.len() - i,
        {
            if i < self.histograms.len() {
                let mut h = self.histograms[i].duplicate();
                proof {
                    assert(old(self)@.windows[i as int] == old(self).histograms@[i as int]@);
                    assert(other@.windows[i as int] == other.histograms@[i as int]@);
                    assert(window_fits(old(self)@.windows[i as int], other@.windows[i as int]));
                }
                h.merge(&other.histograms[i]);
                self.histograms.set(i, h);
            } else {
                self.histograms.push(other.histograms[i].duplicate());
            }
            proof {
                assert forall|k: int| 0 <= k < self.histograms.len() implies (
                #[trigger] self.histograms@[k]).wf() by {}
            }
            i = i + 1;
        }
        if other.last_end > self.last_end {
            self.last_end = other.last_end;
        }
        proof {
            let m = merge_views(old(self)@, other@).windows;
            assert forall|k: int| 0 <= k < m.len() implies self@.windows[k] == m[k] by {
                assert(self@.windows[k] == self.histograms@[k]@);
                if k < n {
                    assert(old(self)@.windows[k] == old(self).histograms@[k]@);
                }
                if k < other.histograms.len() {
                    assert(other@.windows[k] == other.histograms@[k]@);
                }
            }
            assert(self@.windows =~= m);
        }
    }

    /// Records the samples of `h` in window `window` for `metric`, and takes `end` as the
    /// end when it is later. Returns `false`, changing nothing, when the count would reach
    /// the largest count.
    pub fn record(&mut self, window: usize, metric: Metric, h: &Hist, end: u128) -> (ok: bool)
        requires
            old(self).wf(),
            standard(*h),
        ensures
            final(self).wf(),
            ok == record_fits(old(self)@, window as nat, metric, hist_samples(*h)),
            ok ==> final(self)@ == record_view(old(self)@, window as nat, metric, hist_samples(*h), end as int),
            !ok ==> *final(self) == *old(self),
    {
        let ghost t = self@;
        let incoming = hist_len(h) as u128;
        let present: u128 = if window < self.histograms.len() {
            proof {
                assert(t.windows[window as int] == self.histograms@[window as int]@);
            }
            match metric {
                Metric::Processing => hist_len(&self.histograms[window].processing) as u128,
                Metric::Sojourn => hist_len(&self.histograms[window].sojourn) as u128,
            }
        } else {
            0
        };
        if present + incoming >= COUNT_MAX as u128 {
            return false;
        }
        proof {
            assert forall|i: int| 0 <= i < self.histograms.len() implies (
            #[trigger] self.histograms@[i])@ == window_or_empty(t, i) by {
                assert(t.windows[i] == self.histograms@[i]@);
            }
        }
        while self.histograms.len() <= window
            invariant
                self.wf(),
                self.last_end == old(self).last_end,
                old(self).histograms.len() <= self.histograms.len(),
                self.histograms.len() <= old(self).histograms.len() || self.histograms.len()
                    <= window + 1,
                t == old(self)@,
                forall|i: int| 0 <= i < self.histograms.len() ==> (#[trigger] self.histograms@[i])@
                    == window_or_empty(t, i),
            decreases window + 1 - self.histograms.len(),
        {
            proof {
                assert(window_or_empty(t, self.histograms.len() as int) == (
                Multiset::<u64>::empty(), Multiset::<u64>::empty()));
            }
            self.histograms.push(Histograms::default());
        }
        let mut hs = self.histograms.remove(window);
        match metric {
            Metric::Processing => {
                hist_add(&mut hs.processing, h);
            },
            Metric::Sojourn => {
                hist_add(&mut hs.sojourn, h);
            },
        }
        self.histograms.insert(window, hs);
        if end > self.last_end {
            self.last_end = end;
        }
        proof {
            let r = record_view(t, window as nat, metric, hist_samples(*h), end as int);
            assert forall|i: int| 0 <= i < r.windows.len() implies self@.windows[i] == r.windows[i] by {
                assert(self@.windows[i] == self.histograms@[i]@);
            }
            assert(self@.windows =~= r.windows);
        }
        true
    }

    /// Whether all windows can be collapsed into one without reaching the largest count.
    pub fn can_collapse(&self) -> (r: bool)
        ensures
            r == collapse_fits(self@.windows),
    {
        let ghost ws = self@.windows;
        let mut p: u128 = 0;
        let mut q: u128 = 0;
        let mut i: usize = 0;
        while i < self.histograms.len()
            invariant
                ws == self@.windows,
                0 <= i <= self.histograms.len(),
                p as int == collapse_view(ws.subrange(0, i as int)).0.len(),
                q as int == collapse_view(ws.subrange(0, i as int)).1.len(),
                p < COUNT_MAX,
                q < COUNT_MAX,
            decreases self.histograms.len() - i,
        {
            proof {
                assert(ws.subrange(0, i + 1).drop_last() == ws.subrange(0, i as int));
                assert(ws[i as int] == self.histograms@[i as int]@);
                lemma_collapse_prefix_len(ws, i + 1);
            }
            p = p + hist_len(&self.histograms[i].processing) as u128;
            q = q + hist_len(&self.histograms[i].sojourn) as u128;
            if p >= COUNT_MAX as u128 || q >= COUNT_MAX as u128 {
                return false;
            }
            i = i + 1;
        }
        proof {
            assert(ws.subrange(0, i as int) == ws);
        }
        true
    }

    /// All windows added together into one pair of histograms.
    pub fn collapse(&self) -> (r: Histograms)
        requires
            self.wf(),
            collapse_fits(self@.windows),
        ensures
            r.wf(),
            r@ == collapse_view(self@.windows),
    {
        let ghost ws = self@.windows;
        let mut acc = Histograms::default();
        let mut i: usize = 0;
        proof {
            assert(ws.subrange(0, 0) == Seq::<WindowSamples>::empty());
        }
        while i < self.histograms.len()
            invariant
                self.wf(),
                ws == self@.windows,
                collapse_fits(ws),
                0 <= i <= self.histograms.len(),
                acc.wf(),
                acc@ == collapse_view(ws.subrange(0, i as int)),
            decreases self.histograms.len() - i,
        {
            proof {
                assert(ws.subrange(0, i + 1).drop_last() == ws.subrange(0, i as int));
                assert(ws[i as int] == self.histograms@[i as int]@);
                lemma_collapse_prefix_len(ws, i + 1);
            }
            acc.merge(&self.histograms[i]);
            i = i + 1;
        }
        proof {
            assert(ws.subrange(0, i as int) == ws);
        }
        acc
    }
}


/// Merging timelines does not depend on the order of the two sides: the same samples in
/// every window, the same end, and the same condition on the counts.
pub proof fn lemma_merge_commutative(a: TimelineView, b: TimelineView)
    ensures
        merge_views(a, b) == merge_views(b, a),
        merge_fits(a, b) == merge_fits(b, a),
{
    let l = merge_views(a, b);
    let r = merge_views(b, a);
    assert forall|i: int| 0 <= i < l.windows.len() implies l.windows[i] == r.windows[i] by {
        if i < a.windows.len() && i < b.windows.len() {
            assert(a.windows[i].0.add(b.windows[i].0) =~= b.windows[i].0.add(a.windows[i].0));
            assert(a.windows[i].1.add(b.windows[i].1) =~= b.windows[i].1.add(a.windows[i].1));
        }
    }
    assert(l.windows =~= r.windows);
}

/// Merging timelines does not depend on the grouping: `(a + b) + c` and `a + (b + c)` hold
/// the same samples in every window and the same end, and the counts fit in one order
/// exactly when they fit in the other.
pub proof fn lemma_merge_associative(a: TimelineView, b: TimelineView, c: TimelineView)
    ensures
        merge_views(merge_views(a, b), c) == merge_views(a, merge_views(b, c)),
        (merge_fits(a, b) && merge_fits(merge_views(a, b), c)) == (merge_fits(b, c) && merge_fits(
            a,
            merge_views(b, c),
        )),
{
    let ab = merge_views(a, b);
    let bc = merge_views(b, c);
    let l = merge_views(ab, c);
    let r = merge_views(a, bc);
    assert forall|i: int| 0 <= i < l.windows.len() implies l.windows[i] == r.windows[i] by {
        let x = if i < a.windows.len() { a.windows[i] } else { (Multiset::empty(), Multiset::empty()) };
        let y = if i < b.windows.len() { b.windows[i] } else { (Multiset::empty(), Multiset::empty()) };
        let z = if i < c.windows.len() { c.windows[i] } else { (Multiset::empty(), Multiset::empty()) };
        assert(l.windows[i].0 =~= x.0.add(y.0).add(z.0));
        assert(l.windows[i].1 =~= x.1.add(y.1).add(z.1));
        assert(r.windows[i].0 =~= x.0.add(y.0).add(z.0));
        assert(r.windows[i].1 =~= x.1.add(y.1).add(z.1));
    }
    assert(l.windows =~= r.windows);
    if merge_fits(a, b) && merge_fits(ab, c) {
        assert forall|i: int| 0 <= i < b.windows.len() && i < c.windows.len() implies window_fits(
            #[trigger] b.windows[i],
            c.windows[i],
        ) by {
            assert(ab.windows[i] == if i < a.windows.len() { window_add(a.windows[i], b.windows[i]) } else { b.windows[i] });
            assert(window_fits(ab.windows[i], c.windows[i]));
        }
        assert forall|i: int| 0 <= i < a.windows.len() && i < bc.windows.len() implies window_fits(
            #[trigger] a.windows[i],
            bc.windows[i],
        ) by {
            assert(window_fits(ab.windows[i], c.windows[i]) || i >= c.windows.len());
        }
    }
    if merge_fits(b, c) && merge_fits(a, bc) {
        assert forall|i: int| 0 <= i < a.windows.len() && i < b.windows.len() implies window_fits(
            #[trigger] a.windows[i],
            b.windows[i],
        ) by {
            assert(bc.windows[i] == if i < c.windows.len() { window_add(b.windows[i], c.windows[i]) } else { b.windows[i] });
            assert(window_fits(a.windows[i], bc.windows[i]));
        }
        assert forall|i: int| 0 <= i < ab.windows.len() && i < c.windows.len() implies window_fits(
            #[trigger] ab.windows[i],
            c.windows[i],
        ) by {
            assert(window_fits(a.windows[i], bc.windows[i]) || i >= a.windows.len());
        }
    }
}

/// Merging a timeline with the empty timeline, on either side, changes nothing.
pub proof fn lemma_merge_empty(a: TimelineView)
    requires
        a.last_end >= 0,
    ensures
        merge_views(a, empty_view()) == a,
        merge_views(empty_view(), a) == a,
        merge_fits(a, empty_view()),
{
    assert(merge_views(a, empty_view()).windows =~= a.windows);
    assert(merge_views(empty_view(), a).windows =~= a.windows);
}


/// What hdrhistogram's deserializer makes of serialized bytes: the samples and the
/// configuration of the histogram, or `None` when the bytes hold none.
pub uninterp spec fn histogram_decoded(b: Seq<u8>) -> Option<(Multiset<u64>, (u64, u64, u8, bool))>;

/// Relies on `Deserializer::deserialize`: the histogram it reads depends on the bytes
/// alone. The deserializer negates a decoded count, which overflows (and so panics where
/// overflow is checked) only for a varint of nine `0xff` bytes; `requires` leaves out
/// every stream holding such a run. It also leaves out compressed streams, whose inflated
/// contents the run check could not see: the library inflates them itself.
#[verifier::external_body]
pub(crate) fn deserialize_histogram(b: &Vec<u8>) -> (r: Option<Hist>)
    requires
        plain_serialization(b@),
    ensures
        r is Some <==> histogram_decoded(b@) is Some,
        r matches Some(h) ==> histogram_decoded(b@) == Some((hist_samples(h), hist_config(h))),
{
    match Deserializer::new().deserialize(&mut b.as_slice()) {
        Ok(inner) => Some(Hist { inner }),
        Err(_) => None,
    }
}

/// The bytes that zlib decompression makes of one stream, or `None` when it fails.
pub uninterp spec fn zlib_inflated(b: Seq<u8>) -> Option<Seq<u8>>;

/// Relies on flate2's `ZlibDecoder`, read to the end of the stream: the result depends on
/// the bytes alone.
#[verifier::external_body]
pub(crate) fn inflate(b: &[u8]) -> (r: Option<Vec<u8>>)
    ensures
        r is Some <==> zlib_inflated(b@) is Some,
        r matches Some(v) ==> zlib_inflated(b@) == Some(v@),
{
    let mut out = Vec::new();
    match flate2::read::ZlibDecoder::new(b).read_to_end(&mut out) {
        Ok(_) => Some(out),
        Err(_) => None,
    }
}

/// Cookie of an uncompressed serialized histogram.
pub const PLAIN_COOKIE: u64 = 0x1c84_9313;

/// Cookie of a compressed serialized histogram.
pub const COMPRESSED_COOKIE: u64 = 0x1c84_9314;

/// The big-endian 32-bit number at `i`.
pub open spec fn be_u32(b: Seq<u8>, i: int) -> int {
    ((b[i] as int * 256 + b[i + 1] as int) * 256 + b[i + 2] as int) * 256 + b[i + 3] as int
}

/// Whether the nine bytes from `i` are all `0xff`.
pub open spec fn ff_run_at(b: Seq<u8>, i: int) -> bool {
    forall|k: int| i <= k < i + 9 ==> b[k] == 0xff
}

/// Whether `b` holds nine `0xff` bytes in a row.
pub open spec fn has_ff_run(b: Seq<u8>) -> bool {
    exists|i: int| 0 <= i && i + 9 <= b.len() && #[trigger] ff_run_at(b, i)
}

/// An uncompressed serialization with no run of nine `0xff` bytes.
pub open spec fn plain_serialization(b: Seq<u8>) -> bool {
    b.len() >= 4 && be_u32(b, 0) == PLAIN_COOKIE && !has_ff_run(b)
}

/// The uncompressed serialization that a payload holds: a compressed one (cookie, length,
/// zlib stream of at most that length) inflated, any other taken as it is.
pub open spec fn plain_bytes(raw: Seq<u8>) -> Option<Seq<u8>> {
    if raw.len() >= 8 && be_u32(raw, 0) == COMPRESSED_COOKIE {
        let end = if 8 + be_u32(raw, 4) <= raw.len() {
            8 + be_u32(raw, 4)
        } else {
            raw.len() as int
        };
        zlib_inflated(raw.subrange(8, end))
    } else {
        Some(raw)
    }
}

/// The histogram, samples and configuration, that a payload holds; `None` when it holds
/// none, or when its uncompressed form is not a plain serialization.
pub open spec fn payload_histogram(raw: Seq<u8>) -> Option<(Multiset<u64>, (u64, u64, u8, bool))> {
    match plain_bytes(raw) {
        Some(p) => if plain_serialization(p) {
            histogram_decoded(p)
        } else {
            None
        },
        None => None,
    }
}

fn read_be_u32(b: &Vec<u8>, i: usize) -> (r: u64)
    requires
        i + 4 <= b.len(),
    ensures
        r == be_u32(b@, i as int),
{
    ((b[i] as u64 * 256 + b[i + 1] as u64) * 256 + b[i + 2] as u64) * 256 + b[i + 3] as u64
}

/// Whether `b` holds nine `0xff` bytes in a row.
pub fn contains_ff_run(b: &Vec<u8>) -> (r: bool)
    ensures
        r == has_ff_run(b@),
{
    let mut run: usize = 0;
    let mut j: usize = 0;
    while j < b.len()
        invariant
            0 <= j <= b.len(),
            run <= j,
            run < 9,
            forall|k: int| j - run <= k < j ==> b@[k] == 0xff,
            j - run > 0 ==> b@[j - run - 1] != 0xff,
            forall|i: int| 0 <= i && i + 9 <= j ==> !#[trigger] ff_run_at(b@, i),
        decreases b.len() - j,
    {
        if b[j] == 0xff {
            if run == 8 {
                proof {
                    assert(ff_run_at(b@, j - 8));
                }
                return true;
            }
            proof {
                assert forall|i: int| 0 <= i && i + 9 <= j + 1 implies !#[trigger] ff_run_at(b@, i) by {
                    if i + 9 == j + 1 {
                        assert(b@[j - run - 1] != 0xff);
                    }
                }
            }
            run = run + 1;
        } else {
            proof {
                assert forall|i: int| 0 <= i && i + 9 <= j + 1 implies !#[trigger] ff_run_at(b@, i) by {
                    if i + 9 == j + 1 {
                        assert(b@[j as int] != 0xff);
                    }
                }
            }
            run = 0;
        }
        j = j + 1;
    }
    false
}

/// Decodes the histogram that a payload holds, inflating a compressed one first.
pub fn decode_histogram(raw: &Vec<u8>) -> (r: Option<Hist>)
    ensures
        r is Some <==> payload_histogram(raw@) is Some,
        r matches Some(h) ==> payload_histogram(raw@) == Some((hist_samples(h), hist_config(h))),
{
    let plain = if raw.len() >= 8 && read_be_u32(raw, 0) == COMPRESSED_COOKIE {
        let len = read_be_u32(raw, 4);
        let end: usize = if len <= (raw.len() - 8) as u64 {
            8 + len as usize
        } else {
            raw.len()
        };
        let compressed = vstd::slice::slice_subrange(raw.as_slice(), 8, end);
        match inflate(compressed) {
            Some(p) => p,
            None => {
                return None;
            },
        }
    } else {
        raw.clone()
    };
    proof {
        assert(plain_bytes(raw@) == Some(plain@));
    }
    if plain.len() < 4 || read_be_u32(&plain, 0) != PLAIN_COOKIE || contains_ff_run(&plain) {
        return None;
    }
    deserialize_histogram(&plain)
}

/// Relies on `Histogram::low`: the lowest discernible value of the configuration.
#[verifier::external_body]
pub(crate) fn hist_low(h: &Hist) -> (r: u64)
    ensures
        r == hist_config(*h).0,
{
    h.inner.low()
}

/// Relies on `Histogram::high`: the highest trackable value of the configuration.
#[verifier::external_body]
pub(crate) fn hist_high(h: &Hist) -> (r: u64)
    ensures
        r == hist_config(*h).1,
{
    h.inner.high()
}

/// Relies on `Histogram::sigfig`: the significant figures of the configuration.
#[verifier::external_body]
pub(crate) fn hist_sigfig(h: &Hist) -> (r: u8)
    ensures
        r == hist_config(*h).2,
{
    h.inner.sigfig()
}

/// Relies on `Histogram::is_auto_resize`: whether the histogram grows to take larger
/// values.
#[verifier::external_body]
pub(crate) fn hist_auto_resize(h: &Hist) -> (r: bool)
    ensures
        r == hist_config(*h).3,
{
    h.inner.is_auto_resize()
}

/// Whether `h` has the configuration of every timeline histogram.
pub fn is_standard(h: &Hist) -> (r: bool)
    ensures
        r == standard(*h),
{
    hist_low(h) == 1 && hist_high(h) == HIGHEST_TRACKABLE && hist_sigfig(h) == SIGNIFICANT_FIGURES
        && !hist_auto_resize(h)
}

} // verus!
