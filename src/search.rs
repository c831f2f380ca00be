use vstd::prelude::*;

verus! {

/// Largest probe value.
pub const PROBE_MAX: u64 = 0xffff_ffff_ffff_ffff;

/// Where a search stands.
#[derive(PartialEq, Eq, Structural, Clone, Copy, Debug)]
pub enum Phase {
    /// Probing ever larger values until one is overloaded.
    Growing,
    /// Halving the bracket between the last good and the first bad value.
    Narrowing,
    /// Emitting the multiples of the resolution below the cliff.
    Filling,
    /// Exhausted: no more probes.
    Done,
}

/// A search was configured with degenerate bounds.
#[derive(PartialEq, Eq, Structural, Clone, Copy, Debug)]
pub enum ConfigError {
    /// The growth step (and so the resolution) is zero.
    ZeroStep,
    /// The upper bound is not above the lower bound of zero.
    EmptyRange,
    /// The resolution is zero.
    ZeroResolution,
}

/// The state of an exponential search, as plain values.
pub struct ExpView {
    pub start: u64,
    /// The initial step: the precision of the narrowing, and the spacing of the fill.
    pub resolution: u64,
    pub phase: Phase,
    /// The next growth increment.
    pub step: int,
    /// The last probe handed out (in `Filling`, the last fill value).
    pub last: Option<u64>,
    /// Whether the last probe was reported overloaded.
    pub failed: bool,
    /// The last probe of the growing phase that was not overloaded.
    pub good: Option<u64>,
    /// Known-good end of the bracket.
    pub low: u64,
    /// Known-bad end of the bracket.
    pub high: u64,
    /// Whether the values below the cliff are emitted once narrowing ends.
    pub fill: bool,
}

/// The view of a fresh exponential search.
pub open spec fn exp_initial(start: u64, step: u64) -> ExpView {
    ExpView {
        start,
        resolution: step,
        phase: Phase::Growing,
        step: step as int,
        last: None,
        failed: false,
        good: None,
        low: 0,
        high: 0,
        fill: false,
    }
}

/// The state and result once the bracket `(low, high)` is known.
pub open spec fn exp_bracket(v: ExpView, low: u64, high: u64) -> (ExpView, Option<u64>) {
    if high - low <= v.resolution {
        if v.fill && v.resolution < low {
            (
                ExpView {
                    phase: Phase::Filling,
                    last: Some(v.resolution),
                    failed: false,
                    low,
                    high,
                    ..v
                },
                Some(v.resolution),
            )
        } else {
            (ExpView { phase: Phase::Done, last: None, failed: false, low, high, ..v }, None)
        }
    } else {
        let mid = (low + (high - low) / 2) as u64;
        (
            ExpView { phase: Phase::Narrowing, last: Some(mid), failed: false, low, high, ..v },
            Some(mid),
        )
    }
}

/// One call of `next` on an exponential search: the state after it and the probe returned.
pub open spec fn exp_next(v: ExpView) -> (ExpView, Option<u64>) {
    match v.phase {
        Phase::Growing => match v.last {
            None => (ExpView { last: Some(v.start), failed: false, ..v }, Some(v.start)),
            Some(p) => if v.failed {
                exp_bracket(v, if let Some(g) = v.good { g } else { 0 }, p)
            } else if p + v.step > PROBE_MAX {
                (ExpView { phase: Phase::Done, last: None, good: Some(p), ..v }, None)
            } else {
                let q = (p + v.step) as u64;
                (
                    ExpView { last: Some(q), step: 2 * v.step, good: Some(p), failed: false, ..v },
                    Some(q),
                )
            },
        },
        Phase::Narrowing => {
            let p = v.last.unwrap();
            if v.failed {
                exp_bracket(v, v.low, p)
            } else {
                exp_bracket(v, p, v.high)
            }
        },
        Phase::Filling => {
            let c = v.last.unwrap() + v.resolution;
            if c < v.low {
                (ExpView { last: Some(c as u64), ..v }, Some(c as u64))
            } else {
                (ExpView { phase: Phase::Done, last: None, ..v }, None)
            }
        },
        Phase::Done => (v, None),
    }
}

/// `overloaded` on an exponential search: the last probe is marked as failed.
pub open spec fn exp_overloaded(v: ExpView) -> ExpView {
    ExpView { failed: true, ..v }
}

/// Finds the largest value the system tolerates: it grows the probe by a doubling step
/// until a probe is overloaded, then halves the bracket between the last good and the
/// first bad probe down to the initial step.
pub struct ExponentialCliffSearcher {
    start: u64,
    resolution: u64,
    phase: Phase,
    step: u128,
    last: Option<u64>,
    failed: bool,
    good: Option<u64>,
    low: u64,
    high: u64,
    fill: bool,
}

impl View for ExponentialCliffSearcher {
    type V = ExpView;

    closed spec fn view(&self) -> ExpView {
        ExpView {
            start: self.start,
            resolution: self.resolution,
            phase: self.phase,
            step: self.step as int,
            last: self.last,
            failed: self.failed,
            good: self.good,
            low: self.low,
            high: self.high,
            fill: self.fill,
        }
    }
}

/// What holds of every reachable state of an exponential search.
pub open spec fn exp_valid(v: ExpView) -> bool {
    &&& v.resolution > 0
    &&& v.resolution <= v.step <= 0x2_0000_0000_0000_0000
    &&& match v.phase {
        Phase::Growing => match v.last {
            None => v.good is None && v.step == v.resolution,
            Some(p) => v.step <= 2 * PROBE_MAX && (v.good matches Some(g) ==> g < p),
        },
        Phase::Narrowing => v.last matches Some(m) && v.low < m < v.high,
        Phase::Filling => v.last matches Some(c) && 0 < c < v.low,
        Phase::Done => true,
    }
}

impl ExponentialCliffSearcher {
    #[verifier::type_invariant]
    closed spec fn inv(self) -> bool {
        exp_valid(self@)
    }

    /// A search that starts at `start` and grows by `step`, doubling the step after each
    /// good probe. `step` is also the resolution of the narrowing.
    pub fn until(start: u64, step: u64) -> (r: Result<Self, ConfigError>)
        ensures
            step == 0 <==> r is Err,
            step == 0 ==> r == Err::<Self, ConfigError>(ConfigError::ZeroStep),
            r matches Ok(s) ==> s@ == exp_initial(start, step),
    {
        if step == 0 {
            return Err(ConfigError::ZeroStep);
        }
        Ok(ExponentialCliffSearcher {
            start,
            resolution: step,
            phase: Phase::Growing,
            step: step as u128,
            last: None,
            failed: false,
            good: None,
            low: 0,
            high: 0,
            fill: false,
        })
    }

    /// Once narrowing ends, also emit every positive multiple of the resolution below the
    /// last good value, in increasing order.
    pub fn fill_left(&mut self)
        ensures
            final(self)@ == (ExpView { fill: true, ..old(self)@ }),
    {
        proof {
            use_type_invariant(&*self);
        }
        self.fill = true;
    }

    /// The phase the search is in.
    pub fn phase(&self) -> (r: Phase)
        ensures
            r == self@.phase,
    {
        self.phase
    }

    /// Records that the most recent probe was overloaded.
    pub fn overloaded(&mut self)
        ensures
            final(self)@ == exp_overloaded(old(self)@),
    {
        proof {
            use_type_invariant(&*self);
        }
        self.failed = true;
    }

    /// The next value to probe, or `None` once the search is exhausted.
    pub fn next(&mut self) -> (r: Option<u64>)
        ensures
            (final(self)@, r) == exp_next(old(self)@),
            old(self)@.phase == Phase::Narrowing && final(self)@.phase == Phase::Narrowing ==> (r
                matches Some(p) && old(self)@.low < p < old(self)@.high),
    {
        proof {
            use_type_invariant(&*self);
        }
        match self.phase {
            Phase::Growing => match self.last {
                None => {
                    let first = self.start;
                    *self = Self { last: Some(first), failed: false, ..*self };
                    Some(first)
                },
                Some(p) => {
                    if self.failed {
                        let low = match self.good {
                            Some(g) => g,
                            None => 0,
                        };
                        self.bracket(low, p)
                    } else if p as u128 + self.step > PROBE_MAX as u128 {
                        *self = Self { phase: Phase::Done, last: None, good: Some(p), ..*self };
                        None
                    } else {
                        let q = (p as u128 + self.step) as u64;
                        let step = 2 * self.step;
                        *self = Self { last: Some(q), step, good: Some(p), failed: false, ..*self };
                        Some(q)
                    }
                },
            },
            Phase::Narrowing => {
                let p = self.last.unwrap();
                if self.failed {
                    let low = self.low;
                    self.bracket(low, p)
                } else {
                    let high = self.high;
                    self.bracket(p, high)
                }
            },
            Phase::Filling => {
                let c = self.last.unwrap();
                if (c as u128) + (self.resolution as u128) < self.low as u128 {
                    let n = c + self.resolution;
                    *self = Self { last: Some(n), ..*self };
                    Some(n)
                } else {
                    *self = Self { phase: Phase::Done, last: None, ..*self };
                    None
                }
            },
            Phase::Done => None,
        }
    }

    fn bracket(&mut self, low: u64, high: u64) -> (r: Option<u64>)
        requires
            exp_valid(old(self)@),
            old(self)@.phase != Phase::Filling,
            old(self)@.phase != Phase::Done,
            low < high || high - low <= old(self).resolution,
        ensures
            (final(self)@, r) == exp_bracket(old(self)@, low, high),
            exp_valid(final(self)@),
    {
        proof {
            use_type_invariant(&*self);
        }
        if high <= low || high - low <= self.resolution {
            if self.fill && self.resolution < low {
                let first = self.resolution;
                *self = Self { phase: Phase::Filling, last: Some(first), failed: false, low, high, ..*self };
                Some(first)
            } else {
                *self = Self { phase: Phase::Done, last: None, failed: false, low, high, ..*self };
                None
            }
        } else {
            let mid = low + (high - low) / 2;
            *self = Self { phase: Phase::Narrowing, last: Some(mid), failed: false, low, high, ..*self };
            Some(mid)
        }
    }
}


/// The state of a binary search for the smallest sufficient budget, as plain values.
pub struct MinView {
    /// Largest budget known to be too small (0 at first).
    pub low: u64,
    /// Smallest budget known to be enough (the upper bound at first).
    pub high: u64,
    pub resolution: u64,
    /// The probe awaiting a verdict.
    pub last: Option<u64>,
    /// Whether that probe was reported overloaded.
    pub failed: bool,
}

/// The view of a fresh budget search over `[0, hi]`.
pub open spec fn min_initial(hi: u64, resolution: u64) -> MinView {
    MinView { low: 0, high: hi, resolution, last: None, failed: false }
}

/// The bracket once the verdict on the last probe is applied.
pub open spec fn min_bracket(v: MinView) -> (u64, u64) {
    match v.last {
        Some(m) => if v.failed {
            (m, v.high)
        } else {
            (v.low, m)
        },
        None => (v.low, v.high),
    }
}

/// One call of `next` on a budget search: the state after it and the probe returned.
pub open spec fn min_next(v: MinView) -> (MinView, Option<u64>) {
    let (low, high) = min_bracket(v);
    if high - low <= v.resolution {
        (MinView { low, high, last: None, failed: false, ..v }, None)
    } else {
        let mid = (low + (high - low) / 2) as u64;
        (MinView { low, high, last: Some(mid), failed: false, ..v }, Some(mid))
    }
}

/// `overloaded` on a budget search: the last probe needs more budget.
pub open spec fn min_overloaded(v: MinView) -> MinView {
    MinView { failed: true, ..v }
}

/// What holds of every reachable state of a budget search.
pub open spec fn min_valid(v: MinView) -> bool {
    &&& v.resolution > 0
    &&& v.low <= v.high
    &&& (v.last matches Some(m) ==> v.low < m < v.high)
}

/// Finds the smallest budget at which the system still behaves: an overloaded probe
/// means the budget must grow, a good one that it may shrink.
pub struct BinaryMinSearcher {
    low: u64,
    high: u64,
    resolution: u64,
    last: Option<u64>,
    failed: bool,
}

impl View for BinaryMinSearcher {
    type V = MinView;

    closed spec fn view(&self) -> MinView {
        MinView {
            low: self.low,
            high: self.high,
            resolution: self.resolution,
            last: self.last,
            failed: self.failed,
        }
    }
}

impl BinaryMinSearcher {
    #[verifier::type_invariant]
    closed spec fn inv(self) -> bool {
        min_valid(self@)
    }

    /// A search over `[0, hi]` that stops once the bracket is no wider than `lo_resolution`.
    pub fn until(hi: u64, lo_resolution: u64) -> (r: Result<Self, ConfigError>)
        ensures
            r is Ok <==> hi > 0 && lo_resolution > 0,
            hi == 0 ==> r == Err::<Self, ConfigError>(ConfigError::EmptyRange),
            hi > 0 && lo_resolution == 0 ==> r == Err::<Self, ConfigError>(
                ConfigError::ZeroResolution,
            ),
            r matches Ok(s) ==> s@ == min_initial(hi, lo_resolution),
    {
        if hi == 0 {
            return Err(ConfigError::EmptyRange);
        }
        if lo_resolution == 0 {
            return Err(ConfigError::ZeroResolution);
        }
        Ok(BinaryMinSearcher { low: 0, high: hi, resolution: lo_resolution, last: None, failed: false })
    }

    /// Records that the most recent probe was overloaded.
    pub fn overloaded(&mut self)
        ensures
            final(self)@ == min_overloaded(old(self)@),
    {
        proof {
            use_type_invariant(&*self);
        }
        self.failed = true;
    }

    /// The next budget to probe, or `None` once the bracket is narrow enough.
    pub fn next(&mut self) -> (r: Option<u64>)
        ensures
            (final(self)@, r) == min_next(old(self)@),
            r matches Some(p) ==> final(self)@.low < p < final(self)@.high,
    {
        proof {
            use_type_invariant(&*self);
        }
        let (low, high) = match self.last {
            Some(m) => if self.failed {
                (m, self.high)
            } else {
                (self.low, m)
            },
            None => (self.low, self.high),
        };
        if high - low <= self.resolution {
            *self = Self { low, high, last: None, failed: false, ..*self };
            None
        } else {
            let mid = low + (high - low) / 2;
            *self = Self { low, high, last: Some(mid), failed: false, ..*self };
            Some(mid)
        }
    }
}

/// Replays a fixed list of values, whatever the verdicts.
pub struct LoadIterator {
    pub values: Vec<u64>,
    /// Index of the next value to hand out.
    pub pos: usize,
}

impl From<Vec<u64>> for LoadIterator {
    fn from(values: Vec<u64>) -> (r: LoadIterator) {
        LoadIterator { values, pos: 0 }
    }
}

impl vstd::std_specs::convert::FromSpecImpl<Vec<u64>> for LoadIterator {
    open spec fn obeys_from_spec() -> bool {
        true
    }

    open spec fn from_spec(v: Vec<u64>) -> LoadIterator {
        LoadIterator { values: v, pos: 0 }
    }
}

impl LoadIterator {
    /// The next value of the list, or `None` after the last one.
    pub fn next(&mut self) -> (r: Option<u64>)
        ensures
            final(self).values == old(self).values,
            old(self).pos < old(self).values.len() ==> r == Some(old(self).values@[old(
                self,
            ).pos as int]) && final(self).pos == old(self).pos + 1,
            old(self).pos >= old(self).values.len() ==> r is None && final(self).pos == old(
                self,
            ).pos,
    {
        if self.pos < self.values.len() {
            let v = self.values[self.pos];
            self.pos = self.pos + 1;
            Some(v)
        } else {
            None
        }
    }

    /// Replay ignores verdicts: nothing changes.
    pub fn overloaded(&mut self)
        ensures
            *final(self) == *old(self),
    {
    }
}

/// One of the three searches, behind one interface.
pub enum CliffSearch {
    Exponential(ExponentialCliffSearcher),
    BinaryMin(BinaryMinSearcher),
    Replay(LoadIterator),
}

impl CliffSearch {
    /// The next value to probe, or `None` when the search is exhausted.
    pub fn next(&mut self) -> (r: Option<u64>)
        ensures
            search_next(*old(self), *final(self), r),
    {
        match self {
            CliffSearch::Exponential(s) => s.next(),
            CliffSearch::BinaryMin(s) => s.next(),
            CliffSearch::Replay(s) => s.next(),
        }
    }

    /// Records that the most recent probe was overloaded.
    pub fn overloaded(&mut self)
        ensures
            search_overloaded(*old(self), *final(self)),
    {
        match self {
            CliffSearch::Exponential(s) => s.overloaded(),
            CliffSearch::BinaryMin(s) => s.overloaded(),
            CliffSearch::Replay(s) => s.overloaded(),
        }
    }
}


/// The result of `next` on a search of either kind, as its contract states it.
pub open spec fn search_next(a: CliffSearch, b: CliffSearch, r: Option<u64>) -> bool {
    match (a, b) {
        (CliffSearch::Exponential(x), CliffSearch::Exponential(y)) => (y@, r) == exp_next(x@),
        (CliffSearch::BinaryMin(x), CliffSearch::BinaryMin(y)) => (y@, r) == min_next(x@),
        (CliffSearch::Replay(x), CliffSearch::Replay(y)) => y.values == x.values && (x.pos
            < x.values.len() ==> r == Some(x.values@[x.pos as int]) && y.pos == x.pos + 1) && (
        x.pos >= x.values.len() ==> r is None && y.pos == x.pos),
        _ => false,
    }
}

/// The result of `overloaded` on a search of either kind, as its contract states it.
pub open spec fn search_overloaded(a: CliffSearch, b: CliffSearch) -> bool {
    match (a, b) {
        (CliffSearch::Exponential(x), CliffSearch::Exponential(y)) => y@ == exp_overloaded(x@),
        (CliffSearch::BinaryMin(x), CliffSearch::BinaryMin(y)) => y@ == min_overloaded(x@),
        (CliffSearch::Replay(x), CliffSearch::Replay(y)) => x == y,
        _ => false,
    }
}

/// The probes of one experiment group: a search, and the last probe that was not reported
/// overloaded. A probe counts as good until `overloaded` is called for it.
pub struct ProbeSession {
    pub search: CliffSearch,
    /// The last good probe before the current one (0 if none).
    pub last_good: u64,
    /// The probe being measured, while no overload was reported for it.
    pub pending: Option<u64>,
}

impl ProbeSession {
    /// A session over `search`, with no probe yet.
    pub fn new(search: CliffSearch) -> (r: Self)
        ensures
            r.search == search,
            r.last_good == 0,
            r.pending is None,
    {
        ProbeSession { search, last_good: 0, pending: None }
    }

    /// The next value to probe, or `None` when the search is exhausted. The previous
    /// probe, unless reported overloaded, becomes the last good one.
    pub fn next(&mut self) -> (r: Option<u64>)
        ensures
            search_next(old(self).search, final(self).search, r),
            final(self).last_good == match old(self).pending {
                Some(t) => t,
                None => old(self).last_good,
            },
            final(self).pending == r,
    {
        if let Some(t) = self.pending {
            self.last_good = t;
        }
        let r = self.search.next();
        self.pending = r;
        r
    }

    /// Records that the current probe was overloaded: it will not count as good.
    pub fn overloaded(&mut self)
        ensures
            search_overloaded(old(self).search, final(self).search),
            final(self).last_good == old(self).last_good,
            final(self).pending is None,
    {
        self.search.overloaded();
        self.pending = None;
    }

    /// The last probe that was not reported overloaded, or 0 if every probe was.
    pub fn last_good(&self) -> (r: u64)
        ensures
            r == match self.pending {
                Some(t) => t,
                None => self.last_good,
            },
    {
        match self.pending {
            Some(t) => t,
            None => self.last_good,
        }
    }
}

/// Two to the power `k`.
pub open spec fn pow2(k: nat) -> nat
    decreases k,
{
    if k == 0 {
        1
    } else {
        2 * pow2((k - 1) as nat)
    }
}

/// The state and the probe of the `(n + 1)`-th call of `next`, when no probe was reported
/// overloaded.
pub open spec fn exp_quiet(v: ExpView, n: nat) -> (ExpView, Option<u64>)
    decreases n,
{
    if n == 0 {
        exp_next(v)
    } else {
        exp_next(exp_quiet(v, (n - 1) as nat).0)
    }
}

/// The probes of successive calls of `next` on an exponential search, where the probe of
/// call `i` is reported overloaded exactly when `verdicts[i]` holds.
pub open spec fn exp_run(v: ExpView, verdicts: Seq<bool>) -> Seq<Option<u64>>
    decreases verdicts.len(),
{
    if verdicts.len() == 0 {
        Seq::empty()
    } else {
        let (w, r) = exp_next(v);
        let w2 = if verdicts[0] {
            exp_overloaded(w)
        } else {
            w
        };
        seq![r] + exp_run(w2, verdicts.drop_first())
    }
}

/// The probes of successive calls of `next` on a budget search, where the probe of call
/// `i` is reported overloaded exactly when `verdicts[i]` holds.
pub open spec fn min_run(v: MinView, verdicts: Seq<bool>) -> Seq<Option<u64>>
    decreases verdicts.len(),
{
    if verdicts.len() == 0 {
        Seq::empty()
    } else {
        let (w, r) = min_next(v);
        let w2 = if verdicts[0] {
            min_overloaded(w)
        } else {
            w
        };
        seq![r] + min_run(w2, verdicts.drop_first())
    }
}

/// Powers of two grow with the exponent.
pub(crate) proof fn lemma_pow2_monotone(a: nat, b: nat)
    requires
        a <= b,
    ensures
        pow2(a) <= pow2(b),
    decreases b - a,
{
    if a < b {
        lemma_pow2_monotone(a, (b - 1) as nat);
    }
}

proof fn lemma_pow2_pos(k: nat)
    ensures
        pow2(k) >= 1,
    decreases k,
{
    if k > 0 {
        lemma_pow2_pos((k - 1) as nat);
    }
}

proof fn lemma_quiet_state(start: u64, step: u64, k: nat)
    requires
        step > 0,
        start + step * (pow2(k) - 1) <= PROBE_MAX,
    ensures
        exp_quiet(exp_initial(start, step), k).0 == (ExpView {
            last: Some((start + step * (pow2(k) - 1)) as u64),
            step: step * pow2(k),
            good: if k == 0 {
                None
            } else {
                Some((start + step * (pow2((k - 1) as nat) - 1)) as u64)
            },
            ..exp_initial(start, step)
        }),
        exp_quiet(exp_initial(start, step), k).1 == Some((start + step * (pow2(k) - 1)) as u64),
    decreases k,
{
    lemma_pow2_pos(k);
    let init = exp_initial(start, step);
    if k == 0 {
        assert(pow2(k) == 1);
        let p = pow2(k) as int;
        assert(step * (p - 1) == 0 && step * p == step) by (nonlinear_arith)
            requires
                p == 1,
        ;
    } else {
        let j = (k - 1) as nat;
        lemma_pow2_pos(j);
        let a = pow2(j) as int;
        let s = step as int;
        assert(pow2(k) == 2 * a);
        assert(s * (2 * a - 1) == s * (a - 1) + s * a) by (nonlinear_arith);
        assert(s * (2 * a) == 2 * (s * a)) by (nonlinear_arith);
        assert(s * a >= 0) by (nonlinear_arith)
            requires
                s > 0,
                a >= 1,
        ;
        lemma_quiet_state(start, step, j);
        let prev = exp_quiet(init, j).0;
        assert(exp_quiet(init, k) == exp_next(prev));
        assert(prev.last == Some((start + s * (a - 1)) as u64));
        assert(prev.step == s * a);
        assert(prev.last.unwrap() + prev.step == start + s * (2 * a - 1));
    }
}

/// With no probe ever reported overloaded, an exponential search from `start` with step
/// `step` hands out `start + step * (2^k - 1)` at call `k` (counting from 0), as long as
/// that value is a probe value: the probes increase strictly, by `step` at first, and each
/// increment is twice the one before.
pub proof fn lemma_growing_doubles(start: u64, step: u64, k: nat)
    requires
        step > 0,
        start + step * (pow2(k) - 1) <= PROBE_MAX,
    ensures
        exp_quiet(exp_initial(start, step), k).1 == Some((start + step * (pow2(k) - 1)) as u64),
        k > 0 ==> exp_quiet(exp_initial(start, step), k).1.unwrap() - exp_quiet(
            exp_initial(start, step),
            (k - 1) as nat,
        ).1.unwrap() == step * pow2((k - 1) as nat),
{
    lemma_quiet_state(start, step, k);
    if k > 0 {
        let j = (k - 1) as nat;
        lemma_pow2_pos(j);
        let a = pow2(j) as int;
        let s = step as int;
        assert(s * (2 * a - 1) == s * (a - 1) + s * a) by (nonlinear_arith);
        assert(s * a >= 0) by (nonlinear_arith)
            requires
                s > 0,
                a >= 1,
        ;
        lemma_quiet_state(start, step, j);
    }
}

/// A narrowing (or finished) search without fill, whose bracket lies within `[lo, hi]`.
spec fn exp_inside(w: ExpView, lo: int, hi: int) -> bool {
    &&& exp_valid(w)
    &&& !w.fill
    &&& w.phase == Phase::Done || (w.phase == Phase::Narrowing && lo <= w.low && w.high <= hi)
}

proof fn lemma_exp_done_run(w: ExpView, verdicts: Seq<bool>)
    requires
        w.phase == Phase::Done,
    ensures
        forall|i: int| 0 <= i < exp_run(w, verdicts).len() ==> exp_run(w, verdicts)[i] is None,
        exp_run(w, verdicts).len() == verdicts.len(),
    decreases verdicts.len(),
{
    if verdicts.len() > 0 {
        let w2 = if verdicts[0] {
            exp_overloaded(w)
        } else {
            w
        };
        lemma_exp_done_run(w2, verdicts.drop_first());
    }
}

proof fn lemma_exp_inside_run(w: ExpView, lo: int, hi: int, verdicts: Seq<bool>)
    requires
        exp_inside(w, lo, hi),
    ensures
        exp_run(w, verdicts).len() == verdicts.len(),
        forall|i: int|
            0 <= i < exp_run(w, verdicts).len() ==> (#[trigger] exp_run(w, verdicts)[i] matches Some(p) ==> lo
                < p < hi),
        forall|i: int, j: int|
            0 <= i < j < exp_run(w, verdicts).len() && exp_run(w, verdicts)[i] is None ==> exp_run(
                w,
                verdicts,
            )[j] is None,
    decreases verdicts.len(),
{
    if verdicts.len() > 0 {
        let (w1, r) = exp_next(w);
        let w2 = if verdicts[0] {
            exp_overloaded(w1)
        } else {
            w1
        };
        assert(exp_inside(w2, lo, hi));
        lemma_exp_inside_run(w2, lo, hi, verdicts.drop_first());
        if r is None {
            assert(w1.phase == Phase::Done);
            lemma_exp_done_run(w2, verdicts.drop_first());
        }
        let rs = exp_run(w, verdicts);
        let tail = exp_run(w2, verdicts.drop_first());
        assert(rs == seq![r] + tail);
        assert forall|i: int, j: int| 0 <= i < j < rs.len() && rs[i] is None implies rs[j] is None by {
            if i > 0 {
                assert(rs[i] == tail[i - 1]);
                assert(rs[j] == tail[j - 1]);
            } else {
                assert(rs[j] == tail[j - 1]);
            }
        }
    }
}

/// The largest value known to be good: the low end of the bracket while narrowing, else
/// the last good probe of the growing phase, or 0 if there was none.
pub open spec fn last_good(s: ExpView) -> int {
    if s.phase == Phase::Narrowing {
        s.low as int
    } else {
        match s.good {
            Some(g) => g as int,
            None => 0,
        }
    }
}

/// Once a probe `v` is reported overloaded (and no fill was asked for), every later probe
/// lies strictly between the largest value known to be good (0 if none) and `v`;
/// once the bracket is no wider than the initial step `next` returns `None`, and after a
/// `None` only `None` follows.
pub proof fn lemma_overload_brackets(s: ExpView, verdicts: Seq<bool>)
    requires
        exp_valid(s),
        s.phase == Phase::Growing || s.phase == Phase::Narrowing,
        s.last is Some,
        s.failed,
        !s.fill,
    ensures
        exp_run(s, verdicts).len() == verdicts.len(),
        forall|i: int|
            0 <= i < exp_run(s, verdicts).len() ==> (#[trigger] exp_run(s, verdicts)[i] matches Some(p) ==> last_good(
                s,
            ) < p < s.last.unwrap()),
        forall|i: int, j: int|
            0 <= i < j < exp_run(s, verdicts).len() && exp_run(s, verdicts)[i] is None ==> exp_run(
                s,
                verdicts,
            )[j] is None,
        exp_next(s).0.phase == Phase::Narrowing ==> exp_next(s).0.high - exp_next(s).0.low
            > s.resolution,
        exp_next(s).0.phase != Phase::Narrowing ==> exp_next(s).1 is None,
{
    let lo = last_good(s);
    let hi = s.last.unwrap() as int;
    if verdicts.len() > 0 {
        let (w1, r) = exp_next(s);
        let w2 = if verdicts[0] {
            exp_overloaded(w1)
        } else {
            w1
        };
        assert(exp_inside(w2, lo, hi));
        lemma_exp_inside_run(w2, lo, hi, verdicts.drop_first());
        if r is None {
            lemma_exp_done_run(w2, verdicts.drop_first());
        }
        let rs = exp_run(s, verdicts);
        let tail = exp_run(w2, verdicts.drop_first());
        assert(rs == seq![r] + tail);
        assert forall|i: int, j: int| 0 <= i < j < rs.len() && rs[i] is None implies rs[j] is None by {
            if i > 0 {
                assert(rs[i] == tail[i - 1]);
            }
            assert(rs[j] == tail[j - 1]);
        }
        assert forall|i: int| 0 <= i < rs.len() implies (#[trigger] rs[i] matches Some(p) ==> lo < p < hi) by {
            if i > 0 {
                assert(rs[i] == tail[i - 1]);
            }
        }
    }
}

spec fn min_inside(w: MinView, hi: int) -> bool {
    min_valid(w) && w.high <= hi
}

proof fn lemma_min_run(w: MinView, hi: int, verdicts: Seq<bool>)
    requires
        min_inside(w, hi),
    ensures
        min_run(w, verdicts).len() == verdicts.len(),
        forall|i: int|
            0 <= i < min_run(w, verdicts).len() ==> (#[trigger] min_run(w, verdicts)[i] matches Some(p) ==> 0
                < p < hi),
        forall|i: int, j: int|
            0 <= i < j < min_run(w, verdicts).len() && min_run(w, verdicts)[i] is None ==> min_run(
                w,
                verdicts,
            )[j] is None,
    decreases verdicts.len(),
{
    if verdicts.len() > 0 {
        let (w1, r) = min_next(w);
        let w2 = if verdicts[0] {
            min_overloaded(w1)
        } else {
            w1
        };
        assert(min_inside(w2, hi));
        lemma_min_run(w2, hi, verdicts.drop_first());
        let rs = min_run(w, verdicts);
        let tail = min_run(w2, verdicts.drop_first());
        assert(rs == seq![r] + tail);
        if r is None {
            assert(w2.last is None);
            assert(min_next(w2).1 is None);
            assert forall|j: int| 0 <= j < tail.len() implies tail[j] is None by {
                lemma_min_settled(w2, verdicts.drop_first());
            }
        }
        assert forall|i: int, j: int| 0 <= i < j < rs.len() && rs[i] is None implies rs[j] is None by {
            if i > 0 {
                assert(rs[i] == tail[i - 1]);
            }
            assert(rs[j] == tail[j - 1]);
        }
        assert forall|i: int| 0 <= i < rs.len() implies (#[trigger] rs[i] matches Some(p) ==> 0 < p < hi) by {
            if i > 0 {
                assert(rs[i] == tail[i - 1]);
            }
        }
    }
}

proof fn lemma_min_settled(w: MinView, verdicts: Seq<bool>)
    requires
        w.last is None,
        w.high - w.low <= w.resolution,
    ensures
        forall|j: int| 0 <= j < min_run(w, verdicts).len() ==> min_run(w, verdicts)[j] is None,
        min_run(w, verdicts).len() == verdicts.len(),
    decreases verdicts.len(),
{
    if verdicts.len() > 0 {
        let (w1, r) = min_next(w);
        let w2 = if verdicts[0] {
            min_overloaded(w1)
        } else {
            w1
        };
        lemma_min_settled(w2, verdicts.drop_first());
    }
}

/// Whatever the verdicts, a budget search over `[0, hi]` only probes values strictly
/// between 0 and `hi`, returns `None` as soon as the bracket is no wider than its
/// resolution, and after a `None` only `None` follows.
pub proof fn lemma_binary_min_bounded(hi: u64, lo_resolution: u64, verdicts: Seq<bool>)
    requires
        hi > 0,
        lo_resolution > 0,
    ensures
        min_run(min_initial(hi, lo_resolution), verdicts).len() == verdicts.len(),
        forall|i: int|
            0 <= i < verdicts.len() ==> (#[trigger] min_run(min_initial(hi, lo_resolution), verdicts)[i] matches Some(
                p,
            ) ==> 0 < p < hi),
        forall|i: int, j: int|
            0 <= i < j < verdicts.len() && min_run(min_initial(hi, lo_resolution), verdicts)[i] is None
                ==> min_run(min_initial(hi, lo_resolution), verdicts)[j] is None,
        forall|v: MinView|
            #![trigger min_next(v)]
            min_valid(v) && min_bracket(v).1 - min_bracket(v).0 <= v.resolution ==> min_next(v).1 is None,
{
    lemma_min_run(min_initial(hi, lo_resolution), hi as int, verdicts);
}

} // verus!
