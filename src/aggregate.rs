use vstd::prelude::*;
use vstd::multiset::Multiset;
use crate::hist::{
    empty_view, merge_fits, merge_views, Histograms, metric_samples, COUNT_MAX, hist_samples, payload_histogram, record_fits, record_view, standard, Hist,
    Timeline, TimelineView,
};
use crate::interval::{
    aligned_upto, base64_decoded, decode_base64, interval_log_entries, op_start, placed, plan,
    read_interval_log, tagged_before, DecodeError, LogLine, Metric, Placement,
};
use crate::hist::{decode_histogram, is_standard, HIGHEST_TRACKABLE, SIGNIFICANT_FIGURES};

verus! {

/// The timelines of all operations, by name.
pub type AggView = Seq<(Seq<char>, TimelineView)>;

/// Whether some timeline is named `name`.
pub open spec fn has_name(v: AggView, name: Seq<char>) -> bool {
    exists|i: int| 0 <= i < v.len() && (#[trigger] v[i]).0 == name
}

/// The position of the timeline named `name`, if there is one.
pub open spec fn name_index(v: AggView, name: Seq<char>) -> int {
    choose|i: int| 0 <= i < v.len() && (#[trigger] v[i]).0 == name
}

/// The timeline named `name`, or the empty timeline.
pub open spec fn timeline_of(v: AggView, name: Seq<char>) -> TimelineView {
    if has_name(v, name) {
        v[name_index(v, name)].1
    } else {
        empty_view()
    }
}

/// The timelines with `m` recorded for operation `name` in window `window` for `metric`,
/// ending at `end`; a new timeline is added at the end when none has that name.
pub open spec fn agg_record(
    v: AggView,
    name: Seq<char>,
    window: nat,
    metric: Metric,
    m: Multiset<u64>,
    end: int,
) -> AggView {
    if has_name(v, name) {
        v.update(name_index(v, name), (name, record_view(v[name_index(v, name)].1, window, metric, m, end)))
    } else {
        v.push((name, record_view(empty_view(), window, metric, m, end)))
    }
}

/// Nanoseconds from the start of the log to the end of an entry's interval.
pub open spec fn entry_end(l: LogLine) -> int {
    match l {
        LogLine::Interval(h) => (h.start_secs + h.duration_secs) * 1_000_000_000 + h.start_nanos
            + h.duration_nanos,
        _ => 0,
    }
}

/// The histogram, samples and configuration, that an entry's payload holds, if any.
pub open spec fn entry_histogram(l: LogLine) -> Option<(Multiset<u64>, (u64, u64, u8, bool))> {
    match l {
        LogLine::Interval(h) => match base64_decoded(h.payload@) {
            Some(b) => payload_histogram(b),
            None => None,
        },
        _ => None,
    }
}

/// The timelines after recording the first `n` entries where `ps` places them, the
/// operations being named by `ops`.
pub open spec fn apply_entries(
    v: AggView,
    es: Seq<LogLine>,
    ps: Seq<Placement>,
    ops: Seq<Seq<char>>,
    n: nat,
) -> AggView
    decreases n,
{
    if n == 0 {
        v
    } else {
        let j = n - 1;
        agg_record(
            apply_entries(v, es, ps, ops, (n - 1) as nat),
            ops[ps[j].op as int],
            ps[j].window as nat,
            ps[j].metric,
            entry_histogram(es[j]).unwrap().0,
            entry_end(es[j]),
        )
    }
}

/// The configuration of every timeline histogram.
pub open spec fn standard_config() -> (u64, u64, u8, bool) {
    (1u64, HIGHEST_TRACKABLE, SIGNIFICANT_FIGURES, false)
}

/// The names of the operations, as text.
pub open spec fn op_names(ops: Seq<String>) -> Seq<Seq<char>> {
    ops.map_values(|o: String| o@)
}

/// The entries of a log after its first one.
pub open spec fn log_body(b: Seq<u8>) -> Seq<LogLine> {
    interval_log_entries(b).drop_first()
}

/// Whether the log begins with a base time.
pub open spec fn starts_with_base_time(b: Seq<u8>) -> bool {
    interval_log_entries(b).len() > 0 && interval_log_entries(b)[0] is BaseTime
}

/// Whether the entries can be assigned to `n_ops` operations.
pub open spec fn plannable(es: Seq<LogLine>, n_ops: nat) -> bool {
    tagged_before(es, es.len() as int) && aligned_upto(es, n_ops) && op_start(es, n_ops) == es.len()
}

/// Where each entry belongs among `n_ops` operations (meaningful when `plannable`).
pub open spec fn placements(es: Seq<LogLine>, n_ops: nat) -> Seq<Placement> {
    choose|ps: Seq<Placement>|
        ps.len() == es.len() && forall|j: int| 0 <= j < es.len() ==> placed(es, n_ops, j, #[trigger] ps[j])
}

/// Whether entry `j` holds a histogram with the timeline configuration.
pub open spec fn entry_usable(es: Seq<LogLine>, j: int) -> bool {
    entry_histogram(es[j]) matches Some(x) && x.1 == standard_config()
}

/// Whether entry `j` can be recorded after the entries before it without reaching the
/// largest count.
pub open spec fn entry_fits(v: AggView, es: Seq<LogLine>, ops: Seq<Seq<char>>, n_ops: nat, j: int) -> bool {
    let ps = placements(es, n_ops);
    record_fits(
        timeline_of(apply_entries(v, es, ps, ops, j as nat), ops[ps[j].op as int]),
        ps[j].window as nat,
        ps[j].metric,
        entry_histogram(es[j]).unwrap().0,
    )
}

/// Whether every entry before `n` is usable and fits.
pub open spec fn entries_ok(v: AggView, es: Seq<LogLine>, ops: Seq<Seq<char>>, n_ops: nat, n: int) -> bool {
    &&& forall|j: int| 0 <= j < n ==> #[trigger] entry_usable(es, j)
    &&& forall|j: int| 0 <= j < n ==> #[trigger] entry_fits(v, es, ops, n_ops, j)
}

proof fn lemma_placements(es: Seq<LogLine>, n_ops: nat, ps: Seq<Placement>)
    requires
        ps.len() == es.len(),
        forall|j: int| 0 <= j < es.len() ==> placed(es, n_ops, j, #[trigger] ps[j]),
    ensures
        placements(es, n_ops) == ps,
{
    let qs = placements(es, n_ops);
    assert(exists|x: Seq<Placement>| x.len() == es.len() && forall|j: int| 0 <= j < es.len() ==> placed(es, n_ops, j, #[trigger] x[j]));
    assert forall|j: int| 0 <= j < es.len() implies qs[j] == ps[j] by {
        let p = ps[j];
        let q = qs[j];
        assert(placed(es, n_ops, j, p));
        assert(placed(es, n_ops, j, q));
        if p.op < q.op {
            crate::interval::lemma_op_start_monotone(es, (p.op + 1) as nat, q.op as nat);
        } else if q.op < p.op {
            crate::interval::lemma_op_start_monotone(es, (q.op + 1) as nat, p.op as nat);
        }
    }
    assert(qs =~= ps);
}

/// Why the timelines could not be merged into one.
#[derive(PartialEq, Eq, Structural, Clone, Copy, Debug)]
pub enum MergeError {
    /// There is no timeline.
    Empty,
    /// Merging the timeline at `index` would reach the largest count.
    CountOverflow { index: usize },
}

/// The first `n` timelines merged in order (`n` at least 1).
pub open spec fn merge_prefix(v: AggView, n: nat) -> TimelineView
    decreases n,
{
    if n <= 1 {
        v[0].1
    } else {
        merge_views(merge_prefix(v, (n - 1) as nat), v[n - 1].1)
    }
}

/// Whether the first `n` timelines can be merged in order without reaching the largest
/// count.
pub open spec fn merge_prefix_fits(v: AggView, n: nat) -> bool {
    forall|k: nat| 1 <= k < n ==> merge_fits(#[trigger] merge_prefix(v, k), v[k as int].1)
}

/// The timelines with `t` under `name`: in place of the timeline of that name, or added at
/// the end.
pub open spec fn agg_insert(v: AggView, name: Seq<char>, t: TimelineView) -> AggView {
    if has_name(v, name) {
        v.update(name_index(v, name), (name, t))
    } else {
        v.push((name, t))
    }
}

/// The end of window `i` (`2^i` seconds) in nanoseconds.
pub open spec fn window_end_nanos(i: nat) -> int {
    crate::search::pow2(i) as int * 1_000_000_000
}


/// Per-operation latency timelines, gathered from any number of interval logs.
pub struct Aggregator {
    pub names: Vec<String>,
    pub timelines: Vec<Timeline>,
}

impl View for Aggregator {
    type V = AggView;

    open spec fn view(&self) -> AggView {
        Seq::new(self.names.len() as nat, |i: int| (self.names@[i]@, self.timelines@[i]@))
    }
}

impl Aggregator {
    /// Names and timelines correspond, names are distinct, and every histogram has the
    /// timeline configuration.
    pub open spec fn wf(&self) -> bool {
        &&& self.names.len() == self.timelines.len()
        &&& forall|i: int, j: int|
            0 <= i < j < self.names.len() ==> (#[trigger] self.names@[i])@ != (
            #[trigger] self.names@[j])@
        &&& forall|i: int| 0 <= i < self.timelines.len() ==> (#[trigger] self.timelines@[i]).wf()
    }

    /// No timelines.
    pub fn new() -> (r: Self)
        ensures
            r.wf(),
            r@ == Seq::<(Seq<char>, TimelineView)>::empty(),
    {
        let r = Aggregator { names: Vec::new(), timelines: Vec::new() };
        proof {
            assert(r@ =~= Seq::<(Seq<char>, TimelineView)>::empty());
        }
        r
    }

    /// The position of the timeline named `name`, if there is one.
    pub fn find(&self, name: &String) -> (r: Option<usize>)
        requires
            self.wf(),
        ensures
            r is Some <==> has_name(self@, name@),
            r matches Some(i) ==> i == name_index(self@, name@) && i < self.names.len(),
    {
        let mut i: usize = 0;
        while i < self.names.len()
            invariant
                self.wf(),
                0 <= i <= self.names.len(),
                forall|k: int| 0 <= k < i ==> self.names@[k]@ != name@,
            decreases self.names.len() - i,
        {
            if self.names[i] == *name {
                proof {
                    assert(self@[i as int].0 == name@);
                    let c = name_index(self@, name@);
                    assert(self@[c].0 == name@);
                    if c != i {
                        if c < i {
                            assert(self.names@[c]@ != self.names@[i as int]@);
                        } else {
                            assert(self.names@[i as int]@ != self.names@[c]@);
                        }
                    }
                }
                return Some(i);
            }
            i = i + 1;
        }
        proof {
            assert forall|k: int| 0 <= k < self@.len() implies (#[trigger] self@[k]).0 != name@ by {
                assert(self@[k].0 == self.names@[k]@);
            }
        }
        None
    }

    /// Records the samples of `h` for operation `name` in window `window` for `metric`,
    /// ending at `end`. Returns `false`, changing nothing, when the count would reach the
    /// largest count.
    pub fn record(&mut self, name: &String, window: usize, metric: Metric, h: &Hist, end: u128) -> (ok: bool)
        requires
            old(self).wf(),
            standard(*h),
        ensures
            final(self).wf(),
            ok == record_fits(timeline_of(old(self)@, name@), window as nat, metric, hist_samples(*h)),
            ok ==> final(self)@ == agg_record(old(self)@, name@, window as nat, metric, hist_samples(*h), end as int),
            !ok ==> final(self)@ == old(self)@,
    {
        let ghost v = self@;
        match self.find(name) {
            Some(i) => {
                let mut t = self.timelines.remove(i);
                proof {
                    assert(v[i as int].1 == t@);
                }
                let ok = t.record(window, metric, h, end);
                self.timelines.insert(i, t);
                proof {
                    if ok {
                        assert(self@ =~= agg_record(v, name@, window as nat, metric, hist_samples(*h), end as int));
                    } else {
                        assert(self@ =~= v);
                    }
                }
                ok
            },
            None => {
                let mut t = Timeline::new();
                let ok = t.record(window, metric, h, end);
                if ok {
                    self.names.push(name.clone());
                    self.timelines.push(t);
                    proof {
                        assert(self@ =~= agg_record(v, name@, window as nat, metric, hist_samples(*h), end as int));
                        assert forall|a: int, b: int|
                            0 <= a < b < self.names.len() implies (#[trigger] self.names@[a])@ != (
                            #[trigger] self.names@[b])@ by {
                            if b == self.names.len() - 1 {
                                assert(v[a].0 == self.names@[a]@);
                            }
                        }
                    }
                }
                ok
            },
        }
    }
    /// Takes in the bytes of one interval log whose operations are named, in order, by
    /// `ops`. After the base time, each operation holds a processing and a sojourn
    /// histogram per doubling window; an operation ends at the first histogram that starts
    /// at 0 after one that did not. Each histogram is decoded and added to the timeline of
    /// its operation.
    pub fn decode_log(&mut self, bytes: &[u8], ops: &Vec<String>) -> (r: Result<(), DecodeError>)
        requires
            old(self).wf(),
        ensures
            final(self).wf(),
            ({
                let es = log_body(bytes@);
                let names = op_names(ops@);
                let n = ops.len() as nat;
                &&& (r == Err::<(), DecodeError>(DecodeError::MissingBaseTime)) <==> !starts_with_base_time(bytes@)
                &&& r is Ok <==> starts_with_base_time(bytes@) && plannable(es, n) && entries_ok(
                    old(self)@,
                    es,
                    names,
                    n,
                    es.len() as int,
                )
                &&& r is Ok ==> final(self)@ == apply_entries(old(self)@, es, placements(es, n), names, es.len() as nat)
                &&& (r matches Err(DecodeError::MissingBaseTime) || r matches Err(DecodeError::NotInterval { .. })
                    || r matches Err(DecodeError::UnknownTag { .. }) || r matches Err(DecodeError::WindowStart { .. })
                    || r matches Err(DecodeError::TrailingHistograms { .. })) ==> final(self)@ == old(self)@
                &&& r matches Err(DecodeError::BadPayload { entry }) ==> final(self)@ == apply_entries(old(self)@, es, placements(es, n), names, entry as nat)
                &&& r matches Err(DecodeError::ConfigMismatch { entry }) ==> final(self)@ == apply_entries(old(self)@, es, placements(es, n), names, entry as nat)
                &&& r matches Err(DecodeError::CountOverflow { entry }) ==> final(self)@ == apply_entries(old(self)@, es, placements(es, n), names, entry as nat)
                &&& r matches Err(DecodeError::NotInterval { entry }) ==> starts_with_base_time(bytes@) && entry < es.len() && !(es[entry as int] is Interval)
                &&& r matches Err(DecodeError::UnknownTag { entry }) ==> starts_with_base_time(bytes@) && entry < es.len() && !tagged_before(es, entry + 1)
                &&& r matches Err(DecodeError::WindowStart { op, entry }) ==> starts_with_base_time(bytes@) && !plannable(es, n)
                &&& r matches Err(DecodeError::TrailingHistograms { entry }) ==> starts_with_base_time(bytes@) && !plannable(es, n)
                &&& r matches Err(DecodeError::BadPayload { entry }) ==> starts_with_base_time(bytes@) && plannable(es, n) && entries_ok(old(self)@, es, names, n, entry as int) && entry < es.len() && entry_histogram(es[entry as int]) is None
                &&& r matches Err(DecodeError::ConfigMismatch { entry }) ==> starts_with_base_time(bytes@) && plannable(es, n) && entries_ok(old(self)@, es, names, n, entry as int) && entry < es.len() && (entry_histogram(es[entry as int]) matches Some(x) && x.1 != standard_config())
                &&& r matches Err(DecodeError::CountOverflow { entry }) ==> starts_with_base_time(bytes@) && plannable(es, n) && entries_ok(old(self)@, es, names, n, entry as int) && entry < es.len() && entry_usable(es, entry as int) && !entry_fits(old(self)@, es, names, n, entry as int)
            }),
    {
        let ghost v0 = self@;
        let ghost names = op_names(ops@);
        let mut es = read_interval_log(bytes);
        if es.len() == 0 {
            return Err(DecodeError::MissingBaseTime);
        }
        let first = es.remove(0);
        match first {
            LogLine::BaseTime => {},
            _ => {
                return Err(DecodeError::MissingBaseTime);
            },
        }
        proof {
            assert(es@ == log_body(bytes@));
        }
        let ps = match plan(&es, ops.len()) {
            Ok(ps) => ps,
            Err(e) => {
                return Err(e);
            },
        };
        proof {
            lemma_placements(es@, ops.len() as nat, ps@);
        }
        let mut j: usize = 0;
        while j < es.len()
            invariant
                self.wf(),
                v0 == old(self)@,
                es@ == log_body(bytes@),
                starts_with_base_time(bytes@),
                plannable(es@, ops.len() as nat),
                ps@ == placements(es@, ops.len() as nat),
                ps.len() == es.len(),
                forall|x: int| 0 <= x < es.len() ==> placed(es@, ops.len() as nat, x, #[trigger] ps@[x]),
                names == op_names(ops@),
                0 <= j <= es.len(),
                self@ == apply_entries(v0, es@, ps@, names, j as nat),
                entries_ok(v0, es@, names, ops.len() as nat, j as int),
            decreases es.len() - j,
        {
            let p = ps[j];
            proof {
                assert(placed(es@, ops.len() as nat, j as int, ps@[j as int]));
            }
            let (payload, end) = match &es[j] {
                LogLine::Interval(h) => (
                    &h.payload,
                    (h.start_secs as u128 + h.duration_secs as u128) * 1_000_000_000 + h.start_nanos as u128
                        + h.duration_nanos as u128,
                ),
                _ => {
                    return Err(DecodeError::NotInterval { entry: j });
                },
            };
            let raw = match decode_base64(payload) {
                Some(b) => b,
                None => {
                    proof {
                        assert(entry_histogram(es@[j as int]) is None);
                        assert(!entry_usable(es@, j as int));
                        if entries_ok(v0, es@, names, ops.len() as nat, es.len() as int) {
                            assert(entry_fits(v0, es@, names, ops.len() as nat, j as int));
                            assert(false);
                        }
                        assert(!entries_ok(v0, es@, names, ops.len() as nat, es.len() as int));
                    }
                    return Err(DecodeError::BadPayload { entry: j });
                },
            };
            let h = match decode_histogram(&raw) {
                Some(h) => h,
                None => {
                    proof {
                        assert(entry_histogram(es@[j as int]) is None);
                        assert(!entry_usable(es@, j as int));
                        if entries_ok(v0, es@, names, ops.len() as nat, es.len() as int) {
                            assert(entry_fits(v0, es@, names, ops.len() as nat, j as int));
                            assert(false);
                        }
                        assert(!entries_ok(v0, es@, names, ops.len() as nat, es.len() as int));
                    }
                    return Err(DecodeError::BadPayload { entry: j });
                },
            };
            proof {
                assert(entry_histogram(es@[j as int]) == Some((hist_samples(h), crate::hist::hist_config(h))));
            }
            if !is_standard(&h) {
                proof {
                    assert(!entry_usable(es@, j as int));
                    if entries_ok(v0, es@, names, ops.len() as nat, es.len() as int) {
                        assert(entry_fits(v0, es@, names, ops.len() as nat, j as int));
                        assert(entry_usable(es@, j as int));
                        assert(false);
                    }
                }
                return Err(DecodeError::ConfigMismatch { entry: j });
            }
            proof {
                assert(names[p.op as int] == ops@[p.op as int]@);
                assert(standard(h));
                assert(crate::hist::hist_config(h) == standard_config());
                assert(entry_usable(es@, j as int));
            }
            if !self.record(&ops[p.op], p.window, p.metric, &h, end) {
                proof {
                    assert(entry_usable(es@, j as int));
                    assert(!entry_fits(v0, es@, names, ops.len() as nat, j as int));
                    if entries_ok(v0, es@, names, ops.len() as nat, es.len() as int) {
                        assert(entry_fits(v0, es@, names, ops.len() as nat, j as int));
                        assert(entry_usable(es@, j as int));
                        assert(false);
                    }
                }
                return Err(DecodeError::CountOverflow { entry: j });
            }
            proof {
                assert(entry_fits(v0, es@, names, ops.len() as nat, j as int));
                assert forall|x: int| 0 <= x < j + 1 implies #[trigger] entry_usable(es@, x) by {
                    if x < j {
                        assert(entry_usable(es@, x));
                    }
                }
                assert forall|x: int| 0 <= x < j + 1 implies #[trigger] entry_fits(v0, es@, names, ops.len() as nat, x) by {
                    if x < j {
                        assert(entry_fits(v0, es@, names, ops.len() as nat, x));
                    }
                }
                assert(entries_ok(v0, es@, names, ops.len() as nat, j + 1));
            }
            j = j + 1;
        }
        Ok(())
    }
    /// All timelines merged, in order, into one.
    pub fn merge_all(&self) -> (r: Result<Timeline, MergeError>)
        requires
            self.wf(),
        ensures
            r == Err::<Timeline, MergeError>(MergeError::Empty) <==> self.names.len() == 0,
            r is Ok <==> self.names.len() > 0 && merge_prefix_fits(self@, self.names.len() as nat),
            r matches Ok(t) ==> t.wf() && t@ == merge_prefix(self@, self.names.len() as nat),
            r matches Err(MergeError::CountOverflow { index }) ==> 1 <= index < self.names.len()
                && merge_prefix_fits(self@, index as nat) && !merge_fits(
                merge_prefix(self@, index as nat),
                self@[index as int].1,
            ),
    {
        if self.timelines.len() == 0 {
            return Err(MergeError::Empty);
        }
        let mut all = self.timelines[0].duplicate();
        let mut i: usize = 1;
        proof {
            assert(self@[0].1 == self.timelines@[0]@);
        }
        while i < self.timelines.len()
            invariant
                self.wf(),
                1 <= i <= self.timelines.len(),
                all.wf(),
                all@ == merge_prefix(self@, i as nat),
                merge_prefix_fits(self@, i as nat),
            decreases self.timelines.len() - i,
        {
            proof {
                assert(self@[i as int].1 == self.timelines@[i as int]@);
            }
            if !all.can_merge(&self.timelines[i]) {
                proof {
                    if merge_prefix_fits(self@, self.names.len() as nat) {
                        assert(merge_fits(merge_prefix(self@, i as nat), self@[i as int].1));
                    }
                }
                return Err(MergeError::CountOverflow { index: i });
            }
            all.merge(&self.timelines[i]);
            proof {
                assert forall|k: nat| 1 <= k < i + 1 implies merge_fits(
                    #[trigger] merge_prefix(self@, k),
                    self@[k as int].1,
                ) by {
                    if k < i {
                        assert(merge_fits(merge_prefix(self@, k), self@[k as int].1));
                    }
                }
            }
            i = i + 1;
        }
        Ok(all)
    }

    /// Puts `t` under `name`: in place of the timeline of that name, or added at the end.
    pub fn insert(&mut self, name: String, t: Timeline)
        requires
            old(self).wf(),
            t.wf(),
        ensures
            final(self).wf(),
            final(self)@ == agg_insert(old(self)@, name@, t@),
    {
        let ghost v = self@;
        match self.find(&name) {
            Some(i) => {
                self.timelines.set(i, t);
                self.names.set(i, name);
                proof {
                    assert(self@ =~= agg_insert(v, name@, t@));
                    assert forall|a: int, b: int|
                        0 <= a < b < self.names.len() implies (#[trigger] self.names@[a])@ != (
                        #[trigger] self.names@[b])@ by {
                        assert(v[a].0 == old(self).names@[a]@);
                        assert(v[b].0 == old(self).names@[b]@);
                    }
                }
            },
            None => {
                let ghost nm = name@;
                self.names.push(name);
                self.timelines.push(t);
                proof {
                    assert(self@ =~= agg_insert(v, nm, t@));
                    assert forall|a: int, b: int|
                        0 <= a < b < self.names.len() implies (#[trigger] self.names@[a])@ != (
                        #[trigger] self.names@[b])@ by {
                        if b == self.names.len() - 1 {
                            assert(v[a].0 == self.names@[a]@);
                        }
                    }
                }
            },
        }
    }
}

/// The end, in whole seconds, of window `i` of a timeline that ended at `last_end`
/// nanoseconds: the earlier of the window's own end, `2^i` seconds, and `last_end`.
pub fn window_end_secs(last_end: u128, i: usize) -> (r: u128)
    ensures
        r == (if last_end < window_end_nanos(i as nat) {
            last_end as int
        } else {
            window_end_nanos(i as nat)
        }) / 1_000_000_000,
{
    let mut p: u128 = 1;
    let mut k: usize = 0;
    while k < i
        invariant
            0 <= k <= i,
            p == crate::search::pow2(k as nat),
            p <= 0x2_0000_0000_0000_0000_0000_0000_0000,
        decreases i - k,
    {
        if p > 0x1_0000_0000_0000_0000_0000_0000_0000 {
            proof {
                crate::search::lemma_pow2_monotone(k as nat, i as nat);
                let a = crate::search::pow2(i as nat) as int;
                assert(a * 1_000_000_000 >= a * 256) by (nonlinear_arith)
                    requires
                        a >= 0,
                ;
            }
            return last_end / 1_000_000_000;
        }
        p = p * 2;
        k = k + 1;
    }
    if p > 0xffff_ffff_ffff_ffff_ffff_ffff_ffff_ffff / 1_000_000_000 {
        return last_end / 1_000_000_000;
    }
    let end = p * 1_000_000_000;
    if last_end < end {
        last_end / 1_000_000_000
    } else {
        end / 1_000_000_000
    }
}

impl Histograms {
    /// Whether the histogram of `metric` holds no sample.
    pub fn is_empty(&self, metric: Metric) -> (r: bool)
        ensures
            r == (metric_samples(self@, metric).len() == 0),
    {
        match metric {
            Metric::Processing => crate::hist::hist_len(&self.processing) == 0,
            Metric::Sojourn => crate::hist::hist_len(&self.sojourn) == 0,
        }
    }
}

} // verus!
