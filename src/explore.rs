use vstd::prelude::*;

verus! {

/// Whether `s` is strictly increasing.
pub open spec fn strictly_increasing(s: Seq<u64>) -> bool {
    forall|a: int, b: int| 0 <= a < b < s.len() ==> s[a] < s[b]
}

/// Whether group `i` must be re-probed at `v`: some other group got as far as `v`, which
/// lies beyond what group `i` reached (above it, or below it when smaller is harder).
/// Groups that never succeeded neither ask for nor receive a backfill.
pub open spec fn backfill_wanted(results: Seq<u64>, min: bool, i: int, v: u64) -> bool {
    &&& results[i] != 0
    &&& v != 0
    &&& exists|j: int| 0 <= j < results.len() && #[trigger] results[j] == v
    &&& if min {
        v < results[i]
    } else {
        v > results[i]
    }
}

fn insert_sorted(v: &mut Vec<u64>, x: u64)
    requires
        strictly_increasing(old(v)@),
    ensures
        strictly_increasing(final(v)@),
        forall|y: u64| final(v)@.contains(y) <==> (old(v)@.contains(y) || y == x),
{
    let mut k: usize = 0;
    while k < v.len() && v[k] < x
        invariant
            0 <= k <= v.len(),
            forall|a: int| 0 <= a < k ==> v@[a] < x,
        decreases v.len() - k,
    {
        k = k + 1;
    }
    if k < v.len() && v[k] == x {
        return;
    }
    proof {
        assert(k < v.len() ==> v@[k as int] > x);
    }
    v.insert(k, x);
    proof {
        let o = old(v)@;
        let n = v@;
        assert(n == o.subrange(0, k as int).push(x) + o.subrange(k as int, o.len() as int));
        assert forall|y: u64| n.contains(y) <==> (o.contains(y) || y == x) by {
            if n.contains(y) {
                let a = choose|a: int| 0 <= a < n.len() && n[a] == y;
                if a < k {
                    assert(o[a] == y);
                } else if a > k {
                    assert(o[a - 1] == y);
                }
            }
            if o.contains(y) {
                let a = choose|a: int| 0 <= a < o.len() && o[a] == y;
                if a < k {
                    assert(n[a] == y);
                } else {
                    assert(n[a + 1] == y);
                }
            }
            if y == x {
                assert(n[k as int] == y);
            }
        }
    }
}

/// For each group, the sorted values of the other groups at which it must be re-probed so
/// that every group is measured at every other group's boundary. `min` says that smaller
/// values are harder.
pub fn backfill(results: &Vec<u64>, min: bool) -> (r: Vec<Vec<u64>>)
    ensures
        r.len() == results.len(),
        forall|i: int| 0 <= i < r.len() ==> strictly_increasing(#[trigger] r[i]@),
        forall|i: int, v: u64|
            0 <= i < r.len() ==> (#[trigger] r[i]@.contains(v) <==> backfill_wanted(
                results@,
                min,
                i,
                v,
            )),
{
    let n = results.len();
    let mut r: Vec<Vec<u64>> = Vec::new();
    let mut i: usize = 0;
    while i < n
        invariant
            n == results.len(),
            0 <= i <= n,
            r.len() == i,
            forall|a: int| 0 <= a < i ==> strictly_increasing(#[trigger] r[a]@),
            forall|a: int, v: u64|
                0 <= a < i ==> (#[trigger] r[a]@.contains(v) <==> backfill_wanted(
                    results@,
                    min,
                    a,
                    v,
                )),
        decreases n - i,
    {
        let mine = results[i];
        let mut list: Vec<u64> = Vec::new();
        let mut j: usize = 0;
        while j < n
            invariant
                n == results.len(),
                0 <= i < n,
                0 <= j <= n,
                mine == results@[i as int],
                strictly_increasing(list@),
                forall|v: u64|
                    list@.contains(v) <==> (mine != 0 && v != 0 && (exists|b: int|
                        0 <= b < j && #[trigger] results@[b] == v) && if min {
                        v < mine
                    } else {
                        v > mine
                    }),
            decreases n - j,
        {
            let other = results[j];
            let beyond = if min {
                other < mine
            } else {
                other > mine
            };
            if mine != 0 && other != 0 && beyond {
                insert_sorted(&mut list, other);
            }
            proof {
                assert forall|v: u64|
                    list@.contains(v) <==> (mine != 0 && v != 0 && (exists|b: int|
                        0 <= b < j + 1 && #[trigger] results@[b] == v) && if min {
                        v < mine
                    } else {
                        v > mine
                    }) by {
                    if v == other {
                        assert(results@[j as int] == v);
                    }
                }
            }
            j = j + 1;
        }
        r.push(list);
        proof {
            assert forall|a: int, v: u64| 0 <= a < i + 1 implies (#[trigger] r[a]@.contains(v)
                <==> backfill_wanted(results@, min, a, v)) by {
                if a < i {
                } else {
                    assert(r[a]@ == list@);
                }
            }
        }
        i = i + 1;
    }
    r
}


/// Most experiment groups that may run at once.
pub const MAX_IN_FLIGHT: usize = 3;

/// Where a campaign stands.
#[derive(PartialEq, Eq, Structural, Clone, Copy, Debug)]
pub enum Wave {
    /// Adaptive searches, one per group.
    Primary,
    /// Replays of the backfill lists.
    Secondary,
    /// No more admissions: waiting for the groups still running.
    Draining,
    /// Over.
    Finished,
}

/// What the runner of a campaign is to do next.
#[derive(PartialEq, Eq, Clone, Debug)]
pub enum Action {
    /// Start the experiment of `group`: adaptively when `loads` is `None`, else replaying
    /// exactly `loads`.
    Start { group: usize, loads: Option<Vec<u64>> },
    /// Wait until a running experiment completes and report it.
    Wait,
    /// The campaign is over; `failed` is the lowest group whose experiment failed, if any.
    Finish { failed: Option<usize> },
}

/// The decisions of a campaign over a list of experiment groups: a primary wave of
/// adaptive searches, then a secondary wave that replays the backfill lists, never more
/// than `MAX_IN_FLIGHT` experiments at once.
pub struct Scheduler {
    wave: Wave,
    min: bool,
    queue: Vec<usize>,
    next: usize,
    running: Vec<bool>,
    in_flight: usize,
    results: Vec<u64>,
    failed: Vec<bool>,
    loads: Vec<Vec<u64>>,
    replaying: bool,
}

/// The number of `true` entries of `s`.
pub open spec fn count_true(s: Seq<bool>) -> nat
    decreases s.len(),
{
    if s.len() == 0 {
        0
    } else {
        count_true(s.drop_last()) + if s.last() {
            1nat
        } else {
            0nat
        }
    }
}

/// The lowest index whose entry is `true`, if any.
pub open spec fn first_true(s: Seq<bool>) -> Option<usize> {
    if exists|i: int| 0 <= i < s.len() && s[i] {
        Some(
            (choose|i: int| 0 <= i < s.len() && s[i] && forall|k: int| 0 <= k < i ==> !s[k]) as usize,
        )
    } else {
        None
    }
}

proof fn lemma_count_true_update(s: Seq<bool>, i: int, b: bool)
    requires
        0 <= i < s.len(),
    ensures
        count_true(s.update(i, b)) == count_true(s) - (if s[i] {
            1int
        } else {
            0int
        }) + (if b {
            1int
        } else {
            0int
        }),
    decreases s.len(),
{
    if i < s.len() - 1 {
        assert(s.update(i, b).drop_last() == s.drop_last().update(i, b));
        lemma_count_true_update(s.drop_last(), i, b);
    } else {
        assert(s.update(i, b).drop_last() == s.drop_last());
    }
}

proof fn lemma_count_true_zero(s: Seq<bool>)
    requires
        count_true(s) == 0,
    ensures
        forall|i: int| 0 <= i < s.len() ==> !s[i],
    decreases s.len(),
{
    if s.len() > 0 {
        lemma_count_true_zero(s.drop_last());
        assert forall|i: int| 0 <= i < s.len() implies !s[i] by {
            if i < s.len() - 1 {
                assert(s[i] == s.drop_last()[i]);
            }
        }
    }
}

proof fn lemma_count_true_none(n: nat)
    ensures
        count_true(Seq::new(n, |i: int| false)) == 0,
    decreases n,
{
    if n > 0 {
        assert(Seq::new(n, |i: int| false).drop_last() == Seq::new((n - 1) as nat, |i: int| false));
        lemma_count_true_none((n - 1) as nat);
    }
}

impl Scheduler {
    /// The current wave.
    pub closed spec fn wave_spec(&self) -> Wave {
        self.wave
    }

    /// Number of experiments started and not yet reported.
    pub closed spec fn in_flight_spec(&self) -> nat {
        self.in_flight as nat
    }

    /// Last good probe of each group in the primary wave.
    pub closed spec fn results_spec(&self) -> Seq<u64> {
        self.results@
    }

    /// Which groups have failed so far.
    pub closed spec fn failed_spec(&self) -> Seq<bool> {
        self.failed@
    }

    /// Which groups are running.
    pub closed spec fn running_spec(&self) -> Seq<bool> {
        self.running@
    }

    /// The backfill lists (empty before the secondary wave).
    pub closed spec fn loads_spec(&self) -> Seq<Vec<u64>> {
        self.loads@
    }

    /// Whether smaller values are harder.
    pub closed spec fn min_spec(&self) -> bool {
        self.min
    }

    /// The groups of the current wave, in the order they start.
    pub closed spec fn queue_spec(&self) -> Seq<usize> {
        self.queue@
    }

    /// How many groups of the current wave have started.
    pub closed spec fn started_spec(&self) -> nat {
        self.next as nat
    }

    /// What holds of every state reached from `new`.
    pub closed spec fn wf(self) -> bool {
        let n = self.results.len();
        &&& self.running.len() == n
        &&& self.failed.len() == n
        &&& self.in_flight == count_true(self.running@)
        &&& self.in_flight <= MAX_IN_FLIGHT
        &&& self.next <= self.queue.len()
        &&& forall|k: int| 0 <= k < self.queue.len() ==> self.queue@[k] < n
        &&& forall|a: int, b: int|
            0 <= a < b < self.queue.len() ==> self.queue@[a] < self.queue@[b]
        &&& forall|k: int|
            self.next <= k < self.queue.len() ==> !self.running@[#[trigger] self.queue@[k] as int]
        &&& (self.wave == Wave::Finished ==> self.in_flight == 0)
        &&& (self.wave == Wave::Primary ==> !self.replaying)
        &&& (self.wave == Wave::Primary ==> self.queue.len() == n && forall|k: int|
            0 <= k < self.queue.len() ==> #[trigger] self.queue@[k] == k)
        &&& (self.wave == Wave::Secondary ==> self.replaying)
        &&& (self.wave == Wave::Primary || self.wave == Wave::Secondary) ==> forall|g: int|
            0 <= g < n ==> !self.failed@[g]
        &&& self.replaying ==> self.replay_lists_ok()
    }

    /// The backfill lists are those of the primary results, and the queue of the
    /// secondary wave holds only groups with something to replay.
    closed spec fn replay_lists_ok(self) -> bool {
        &&& self.loads.len() == self.results.len()
        &&& forall|g: int|
            0 <= g < self.loads.len() ==> strictly_increasing(#[trigger] self.loads@[g]@)
        &&& forall|g: int, v: u64|
            0 <= g < self.loads.len() ==> (#[trigger] self.loads@[g]@.contains(v)
                <==> backfill_wanted(self.results@, self.min, g, v))
        &&& forall|k: int|
            0 <= k < self.queue.len() ==> #[trigger] self.loads@[self.queue@[k] as int].len() > 0
    }

    /// A campaign over `groups` experiment groups; `min` says that smaller values are
    /// harder.
    pub fn new(groups: usize, min: bool) -> (r: Self)
        ensures
            r.wf(),
            r.wave_spec() == Wave::Primary,
            r.in_flight_spec() == 0,
            r.results_spec() == Seq::new(groups as nat, |i: int| 0u64),
            r.failed_spec() == Seq::new(groups as nat, |i: int| false),
            r.running_spec() == Seq::new(groups as nat, |i: int| false),
            r.min_spec() == min,
            r.queue_spec() == Seq::new(groups as nat, |k: int| k as usize),
            r.started_spec() == 0,
    {
        let mut queue: Vec<usize> = Vec::new();
        let mut running: Vec<bool> = Vec::new();
        let mut failed: Vec<bool> = Vec::new();
        let mut results: Vec<u64> = Vec::new();
        let mut i: usize = 0;
        while i < groups
            invariant
                0 <= i <= groups,
                queue.len() == i,
                forall|k: int| 0 <= k < i ==> queue@[k] == k,
                running@ == Seq::new(i as nat, |k: int| false),
                failed@ == Seq::new(i as nat, |k: int| false),
                results@ == Seq::new(i as nat, |k: int| 0u64),
            decreases groups - i,
        {
            queue.push(i);
            running.push(false);
            failed.push(false);
            results.push(0);
            proof {
                assert(running@ =~= Seq::new((i + 1) as nat, |k: int| false));
                assert(failed@ =~= Seq::new((i + 1) as nat, |k: int| false));
                assert(results@ =~= Seq::new((i + 1) as nat, |k: int| 0u64));
            }
            i = i + 1;
        }
        proof {
            lemma_count_true_none(groups as nat);
            assert(queue@ =~= Seq::new(groups as nat, |k: int| k as usize));
        }
        Scheduler {
            wave: Wave::Primary,
            min,
            queue,
            next: 0,
            running,
            in_flight: 0,
            results,
            failed,
            loads: Vec::new(),
            replaying: false,
        }
    }

    fn first_failed(&self) -> (r: Option<usize>)
        ensures
            r == first_true(self.failed_spec()),
    {
        let mut i: usize = 0;
        while i < self.failed.len()
            invariant
                0 <= i <= self.failed.len(),
                forall|k: int| 0 <= k < i ==> !self.failed@[k],
            decreases self.failed.len() - i,
        {
            if self.failed[i] {
                proof {
                    let s = self.failed@;
                    assert(exists|j: int| 0 <= j < s.len() && s[j]);
                    let c = choose|j: int| 0 <= j < s.len() && s[j] && forall|k: int| 0 <= k < j ==> !s[k];
                    assert(0 <= i < s.len() && s[i as int] && forall|k: int| 0 <= k < i ==> !s[k]);
                    if c < i {
                    } else if c > i {
                        assert(!s[i as int]);
                    }
                }
                return Some(i);
            }
            i = i + 1;
        }
        None
    }

    fn finish(&mut self) -> (r: Action)
        requires
            old(self).wf(),
            old(self).in_flight == 0,
        ensures
            final(self).wf(),
            r == (Action::Finish { failed: first_true(final(self).failed_spec()) }),
            final(self).wave_spec() == Wave::Finished,
            final(self).failed_spec() == old(self).failed_spec(),
            final(self).results_spec() == old(self).results_spec(),
            final(self).running_spec() == old(self).running_spec(),
            final(self).in_flight_spec() == 0,
            final(self).loads_spec() == old(self).loads_spec(),
            final(self).min_spec() == old(self).min_spec(),
            final(self).queue_spec() == old(self).queue_spec(),
            final(self).started_spec() == old(self).started_spec(),
    {
        self.wave = Wave::Finished;
        let failed = self.first_failed();
        Action::Finish { failed }
    }

    fn start_next(&mut self) -> (r: Action)
        requires
            old(self).wf(),
            old(self).wave == Wave::Primary || old(self).wave == Wave::Secondary,
            old(self).next < old(self).queue.len(),
            old(self).in_flight < MAX_IN_FLIGHT,
        ensures
            final(self).wf(),
            final(self).wave_spec() == old(self).wave_spec(),
            final(self).failed_spec() == old(self).failed_spec(),
            final(self).results_spec() == old(self).results_spec(),
            final(self).loads_spec() == old(self).loads_spec(),
            final(self).min_spec() == old(self).min_spec(),
            final(self).queue_spec() == old(self).queue_spec(),
            final(self).started_spec() == old(self).started_spec() + 1,
            r matches Action::Start { group, loads } && {
                &&& group == old(self).queue_spec()[old(self).started_spec() as int]
                &&& group < old(self).running_spec().len()
                &&& !old(self).running_spec()[group as int]
                &&& final(self).running_spec() == old(self).running_spec().update(group as int, true)
                &&& final(self).in_flight_spec() == old(self).in_flight_spec() + 1
                &&& (old(self).wave == Wave::Primary <==> loads is None)
                &&& (loads matches Some(l) ==> l@ == old(self).loads_spec()[group as int]@ && l@.len() > 0)
            },
    {
        let group = self.queue[self.next];
        proof {
            assert(!self.running@[self.queue@[self.next as int] as int]);
            lemma_count_true_update(self.running@, group as int, true);
        }
        self.next = self.next + 1;
        self.running.set(group, true);
        self.in_flight = self.in_flight + 1;
        let loads = if self.wave == Wave::Primary {
            None
        } else {
            proof {
                assert(self.loads@[self.queue@[(self.next - 1) as int] as int].len() > 0);
            }
            Some(self.loads[group].clone())
        };
        proof {
            assert forall|k: int| self.next <= k < self.queue.len() implies !self.running@[
                #[trigger] self.queue@[k] as int] by {
                assert(self.queue@[(self.next - 1) as int] < self.queue@[k]);
            }
        }
        Action::Start { group, loads }
    }

    /// Decides the next step of the campaign; `cancelled` is the current value of the
    /// cancellation signal. No experiment starts once the signal is seen or a failure was
    /// reported; never more than `MAX_IN_FLIGHT` run at once; the secondary wave starts
    /// only when every primary experiment has completed without failure, and replays for
    /// each group exactly its backfill list of the primary results.
    pub fn poll(&mut self, cancelled: bool) -> (r: Action)
        requires
            old(self).wf(),
        ensures
            final(self).wf(),
            final(self).in_flight_spec() <= MAX_IN_FLIGHT,
            final(self).failed_spec() == old(self).failed_spec(),
            final(self).min_spec() == old(self).min_spec(),
            r is Wait ==> old(self).in_flight_spec() > 0 && final(self).running_spec() == old(
                self,
            ).running_spec() && final(self).in_flight_spec() == old(self).in_flight_spec()
                && final(self).results_spec() == old(self).results_spec(),
            r matches Action::Finish { failed } ==> {
                &&& old(self).in_flight_spec() == 0
                &&& final(self).wave_spec() == Wave::Finished
                &&& failed == first_true(old(self).failed_spec())
            },
            r matches Action::Start { group, loads } ==> {
                &&& !cancelled
                &&& old(self).wave_spec() == Wave::Primary || old(self).wave_spec() == Wave::Secondary
                &&& forall|g: int| 0 <= g < old(self).failed_spec().len() ==> !old(self).failed_spec()[g]
                &&& old(self).in_flight_spec() < MAX_IN_FLIGHT
                &&& group < old(self).running_spec().len()
                &&& !old(self).running_spec()[group as int]
                &&& final(self).running_spec() == old(self).running_spec().update(group as int, true)
                &&& final(self).in_flight_spec() == old(self).in_flight_spec() + 1
                &&& final(self).results_spec() == old(self).results_spec()
                &&& loads is None <==> final(self).wave_spec() == Wave::Primary
                &&& loads matches Some(l) ==> {
                    &&& l@.len() > 0
                    &&& strictly_increasing(l@)
                    &&& forall|v: u64| l@.contains(v) <==> backfill_wanted(
                        final(self).results_spec(),
                        final(self).min_spec(),
                        group as int,
                        v,
                    )
                }
            },
            old(self).wave_spec() == Wave::Finished ==> r == (Action::Finish {
                failed: first_true(old(self).failed_spec()),
            }),
            old(self).wave_spec() == Wave::Draining ==> if old(self).in_flight_spec() > 0 {
                r is Wait
            } else {
                r is Finish
            },
            (old(self).wave_spec() == Wave::Primary || old(self).wave_spec() == Wave::Secondary)
                && old(self).started_spec() < old(self).queue_spec().len() ==> if old(
                self,
            ).in_flight_spec() >= MAX_IN_FLIGHT {
                r is Wait
            } else if cancelled {
                (final(self).wave_spec() == Wave::Draining || final(self).wave_spec()
                    == Wave::Finished) && if old(self).in_flight_spec() > 0 {
                    r is Wait
                } else {
                    r is Finish
                }
            } else {
                &&& r matches Action::Start { group, .. } && group == old(self).queue_spec()[old(
                    self,
                ).started_spec() as int]
                &&& final(self).queue_spec() == old(self).queue_spec()
                &&& final(self).started_spec() == old(self).started_spec() + 1
                &&& final(self).wave_spec() == old(self).wave_spec()
            },
            old(self).wave_spec() == Wave::Primary ==> forall|k: int|
                0 <= k < old(self).queue_spec().len() ==> #[trigger] old(self).queue_spec()[k] == k,
            (old(self).wave_spec() == Wave::Primary || old(self).wave_spec() == Wave::Secondary)
                && old(self).started_spec() >= old(self).queue_spec().len() ==> if old(
                self,
            ).in_flight_spec() > 0 {
                r is Wait
            } else if old(self).wave_spec() == Wave::Secondary || cancelled {
                r is Finish
            } else {
                &&& final(self).loads_spec().len() == old(self).results_spec().len()
                &&& forall|g: int|
                    0 <= g < final(self).loads_spec().len() ==> strictly_increasing(
                        #[trigger] final(self).loads_spec()[g]@,
                    )
                &&& forall|g: int, v: u64|
                    0 <= g < final(self).loads_spec().len() ==> (
                    #[trigger] final(self).loads_spec()[g]@.contains(v) <==> backfill_wanted(
                        old(self).results_spec(),
                        old(self).min_spec(),
                        g,
                        v,
                    ))
                &&& forall|a: int, b: int|
                    0 <= a < b < final(self).queue_spec().len() ==> final(self).queue_spec()[a]
                        < final(self).queue_spec()[b]
                &&& forall|g: usize|
                    final(self).queue_spec().contains(g) <==> g < old(self).results_spec().len()
                        && final(self).loads_spec()[g as int].len() > 0
                &&& final(self).queue_spec().len() == 0 ==> r == (Action::Finish { failed: None })
                &&& final(self).queue_spec().len() > 0 ==> {
                    &&& r matches Action::Start { group, .. } && group == final(self).queue_spec()[0]
                    &&& final(self).started_spec() == 1
                    &&& final(self).wave_spec() == Wave::Secondary
                }
            },
    {
        if self.wave == Wave::Finished {
            return self.finish();
        }
        if self.wave == Wave::Draining {
            if self.in_flight > 0 {
                return Action::Wait;
            }
            return self.finish();
        }
        if self.next < self.queue.len() {
            if self.in_flight >= MAX_IN_FLIGHT {
                return Action::Wait;
            }
            if cancelled {
                self.wave = Wave::Draining;
                if self.in_flight > 0 {
                    return Action::Wait;
                }
                return self.finish();
            }
            return self.start_next();
        }
        if self.in_flight > 0 {
            return Action::Wait;
        }
        if self.wave == Wave::Secondary || cancelled {
            return self.finish();
        }
        // Every primary experiment has completed, none failed: set up the backfill wave.
        proof {
            lemma_count_true_zero(self.running@);
        }
        let loads = backfill(&self.results, self.min);
        let mut queue: Vec<usize> = Vec::new();
        let mut g: usize = 0;
        while g < loads.len()
            invariant
                0 <= g <= loads.len(),
                loads.len() == self.results.len(),
                forall|k: int| 0 <= k < queue.len() ==> queue@[k] < g,
                forall|a: int, b: int| 0 <= a < b < queue.len() ==> queue@[a] < queue@[b],
                forall|k: int| 0 <= k < queue.len() ==> #[trigger] loads@[queue@[k] as int].len() > 0,
                forall|x: usize| queue@.contains(x) <==> x < g && loads@[x as int].len() > 0,
            decreases loads.len() - g,
        {
            if loads[g].len() > 0 {
                let ghost q0 = queue@;
                queue.push(g);
                proof {
                    assert(queue@ == q0.push(g));
                    assert forall|x: usize| queue@.contains(x) <==> x < g + 1 && loads@[x as int].len() > 0 by {
                        if x == g {
                            assert(queue@[queue.len() - 1] == x);
                        }
                        if queue@.contains(x) && x != g {
                            let k = choose|k: int| 0 <= k < queue.len() && queue@[k] == x;
                            assert(k < q0.len());
                            assert(q0[k] == x);
                        }
                        if x < g && loads@[x as int].len() > 0 {
                            assert(q0.contains(x));
                            let k = choose|k: int| 0 <= k < q0.len() && q0[k] == x;
                            assert(queue@[k] == x);
                        }
                    }
                }
            } else {
                proof {
                    assert forall|x: usize| queue@.contains(x) <==> x < g + 1 && loads@[x as int].len() > 0 by {
                        if x == g && queue@.contains(x) {
                            let k = choose|k: int| 0 <= k < queue.len() && queue@[k] == x;
                        }
                    }
                }
            }
            g = g + 1;
        }
        self.loads = loads;
        self.queue = queue;
        self.next = 0;
        self.replaying = true;
        self.wave = Wave::Secondary;
        if self.queue.len() == 0 {
            proof {
                assert(!exists|i: int| 0 <= i < self.failed@.len() && self.failed@[i]);
            }
            return self.finish();
        }
        self.start_next()
    }

    /// Reports that the experiment of `group` completed: with its last good probe, or
    /// `None` if it failed. A report on a group that is not running changes nothing.
    pub fn complete(&mut self, group: usize, outcome: Option<u64>)
        requires
            old(self).wf(),
        ensures
            final(self).wf(),
            !(group < old(self).running_spec().len() && old(self).running_spec()[group as int])
                ==> *final(self) == *old(self),
            group < old(self).running_spec().len() && old(self).running_spec()[group as int] ==> {
                &&& final(self).running_spec() == old(self).running_spec().update(group as int, false)
                &&& final(self).in_flight_spec() == old(self).in_flight_spec() - 1
                &&& final(self).min_spec() == old(self).min_spec()
                &&& final(self).loads_spec() == old(self).loads_spec()
                &&& outcome matches Some(v) ==> {
                    &&& final(self).failed_spec() == old(self).failed_spec()
                    &&& final(self).wave_spec() == old(self).wave_spec()
                    &&& final(self).results_spec() == if old(self).wave_spec() == Wave::Primary {
                        old(self).results_spec().update(group as int, v)
                    } else {
                        old(self).results_spec()
                    }
                }
                &&& outcome is None ==> {
                    &&& final(self).failed_spec() == old(self).failed_spec().update(group as int, true)
                    &&& final(self).wave_spec() == Wave::Draining
                    &&& final(self).results_spec() == old(self).results_spec()
                }
            },
    {
        if group >= self.running.len() || !self.running[group] {
            return;
        }
        proof {
            lemma_count_true_update(self.running@, group as int, false);
        }
        self.running.set(group, false);
        self.in_flight = self.in_flight - 1;
        match outcome {
            Some(v) => {
                if self.wave == Wave::Primary {
                    self.results.set(group, v);
                }
            },
            None => {
                self.failed.set(group, true);
                if self.wave != Wave::Finished {
                    self.wave = Wave::Draining;
                }
            },
        }
    }
}


} // verus!
