use vstd::prelude::*;
use crate::search::pow2;
use hdrhistogram::serialization::interval_log;

verus! {

/// One interval histogram of an interval log: its tag, the start of its window and its
/// length (whole seconds and nanoseconds), and its base64-encoded payload.
#[derive(PartialEq, Eq, Clone, Debug)]
pub struct IntervalLine {
    pub tag: Option<String>,
    pub start_secs: u64,
    pub start_nanos: u32,
    pub duration_secs: u64,
    pub duration_nanos: u32,
    pub payload: String,
}

/// One entry of an interval log.
#[derive(PartialEq, Eq, Clone, Debug)]
pub enum LogLine {
    /// A base-time marker.
    BaseTime,
    /// A start-time marker.
    StartTime,
    /// An interval histogram.
    Interval(IntervalLine),
    /// Text that does not parse; nothing after it is read.
    Malformed,
}

/// Which latency a histogram records.
#[derive(PartialEq, Eq, Structural, Clone, Copy, Debug)]
pub enum Metric {
    /// Service time only.
    Processing,
    /// Time from submission to completion.
    Sojourn,
}

/// Why an interval log could not be taken in. `entry` counts the entries after the base
/// time, from 0.
#[derive(PartialEq, Eq, Structural, Clone, Copy, Debug)]
pub enum DecodeError {
    /// The log does not begin with a base time.
    MissingBaseTime,
    /// The entry is not an interval histogram.
    NotInterval { entry: usize },
    /// The interval histogram is untagged, or tagged neither "processing" nor "sojourn".
    UnknownTag { entry: usize },
    /// Entries remain after the last operation.
    TrailingHistograms { entry: usize },
    /// The interval, of operation `op`, does not start where its window starts.
    WindowStart { op: usize, entry: usize },
    /// The payload is not a base64-encoded histogram.
    BadPayload { entry: usize },
    /// The histogram's bucket configuration differs from the timeline's.
    ConfigMismatch { entry: usize },
    /// Adding the histogram would reach the largest count.
    CountOverflow { entry: usize },
}

/// Where an interval histogram belongs: an operation, a window and a metric.
#[derive(PartialEq, Eq, Structural, Clone, Copy, Debug)]
pub struct Placement {
    pub op: usize,
    pub window: usize,
    pub metric: Metric,
}

/// Whether the entry is an interval histogram starting at time 0.
pub open spec fn zero_start(l: LogLine) -> bool {
    l matches LogLine::Interval(h) && h.start_secs == 0 && h.start_nanos == 0
}

/// The metric named by an entry's tag, if it is a tagged interval histogram.
pub open spec fn metric_of(l: LogLine) -> Option<Metric> {
    match l {
        LogLine::Interval(h) => match h.tag {
            Some(t) => if t@ == "processing"@ {
                Some(Metric::Processing)
            } else if t@ == "sojourn"@ {
                Some(Metric::Sojourn)
            } else {
                None
            },
            None => None,
        },
        _ => None,
    }
}

/// Whether entry `j` starts the operation after the one that starts at entry `p`: it
/// starts at 0, and some entry of the operation before it did not.
pub open spec fn ends_operation(es: Seq<LogLine>, p: int, j: int) -> bool {
    &&& p < j < es.len()
    &&& zero_start(es[j])
    &&& exists|k: int| p <= k < j && !zero_start(#[trigger] es[k])
}

/// Scanning from entry `j`, where `seen` says whether an entry of the operation so far
/// did not start at 0: the first entry that ends the operation, or the end of the log.
pub open spec fn scan_end(es: Seq<LogLine>, j: int, seen: bool) -> int
    decreases es.len() - j,
{
    if j >= es.len() {
        es.len() as int
    } else if zero_start(es[j]) && seen {
        j
    } else {
        scan_end(es, j + 1, seen || !zero_start(es[j]))
    }
}

/// The entry after the last one of the operation that starts at entry `p`.
pub open spec fn op_end(es: Seq<LogLine>, p: int) -> int {
    scan_end(es, p, false)
}

/// The first entry of operation `k`.
pub open spec fn op_start(es: Seq<LogLine>, k: nat) -> int
    decreases k,
{
    if k == 0 {
        0
    } else {
        let b = op_start(es, (k - 1) as nat);
        if b < es.len() {
            op_end(es, b)
        } else {
            b
        }
    }
}

/// The second at which window `w` starts: 0, then 1, 2, 4, ...
pub open spec fn window_start(w: nat) -> int {
    if w == 0 {
        0
    } else {
        pow2((w - 1) as nat) as int
    }
}

/// Whether entry `j` of operation `k` starts where its window does.
pub open spec fn starts_in_window(es: Seq<LogLine>, k: nat, j: int) -> bool {
    es[j] matches LogLine::Interval(h) && h.start_nanos == 0 && h.start_secs == window_start(
        ((j - op_start(es, k)) / 2) as nat,
    )
}

/// Whether `p` is where entry `j` belongs among `n_ops` operations.
pub open spec fn placed(es: Seq<LogLine>, n_ops: nat, j: int, p: Placement) -> bool {
    &&& p.op < n_ops
    &&& op_start(es, p.op as nat) <= j < op_start(es, (p.op + 1) as nat)
    &&& p.window == (j - op_start(es, p.op as nat)) / 2
    &&& Some(p.metric) == metric_of(es[j])
}

proof fn lemma_scan_end(es: Seq<LogLine>, p: int, j: int, seen: bool)
    requires
        p <= j <= es.len(),
        seen <==> exists|k: int| p <= k < j && !zero_start(#[trigger] es[k]),
        forall|k: int| p < k < j ==> !ends_operation(es, p, k),
        j > p || !seen,
    ensures
        j < scan_end(es, j, seen) || (j == scan_end(es, j, seen) && (j == es.len() || seen)),
        scan_end(es, j, seen) <= es.len(),
        forall|k: int| p < k < scan_end(es, j, seen) ==> !ends_operation(es, p, k),
        scan_end(es, j, seen) < es.len() ==> ends_operation(es, p, scan_end(es, j, seen)),
    decreases es.len() - j,
{
    if j < es.len() {
        if zero_start(es[j]) && seen {
            assert(ends_operation(es, p, j));
        } else {
            let s2 = seen || !zero_start(es[j]);
            assert(s2 <==> exists|k: int| p <= k < j + 1 && !zero_start(#[trigger] es[k])) by {
                if !zero_start(es[j]) {
                    assert(p <= j < j + 1 && !zero_start(es[j]));
                }
                if s2 && zero_start(es[j]) {
                    let k = choose|k: int| p <= k < j && !zero_start(#[trigger] es[k]);
                    assert(p <= k < j + 1);
                }
                if exists|k: int| p <= k < j + 1 && !zero_start(#[trigger] es[k]) {
                    let k = choose|k: int| p <= k < j + 1 && !zero_start(#[trigger] es[k]);
                    if k < j {
                        assert(seen);
                    }
                }
            }
            assert(!ends_operation(es, p, j) || j == p);
            lemma_scan_end(es, p, j + 1, s2);
        }
    }
}

/// The end of the operation that starts at entry `p`: the first later entry that starts at
/// 0 after an entry of the operation that did not, or the end of the log.
pub fn operation_end(es: &Vec<LogLine>, p: usize) -> (r: usize)
    requires
        p < es.len(),
    ensures
        r == op_end(es@, p as int),
        p < r <= es.len(),
        forall|j: int| p < j < r ==> !ends_operation(es@, p as int, j),
        r < es.len() ==> ends_operation(es@, p as int, r as int),
{
    let mut seen_non_zero = false;
    let mut j: usize = p;
    proof {
        lemma_scan_end(es@, p as int, p as int, false);
    }
    while j < es.len()
        invariant
            p <= j <= es.len(),
            scan_end(es@, p as int, false) == scan_end(es@, j as int, seen_non_zero),
            j > p || !seen_non_zero,
        decreases es.len() - j,
    {
        let zero = match &es[j] {
            LogLine::Interval(h) => h.start_secs == 0 && h.start_nanos == 0,
            _ => false,
        };
        if zero && seen_non_zero {
            proof {
                assert(j as int == scan_end(es@, p as int, false));
                lemma_scan_end(es@, p as int, p as int, false);
            }
            return j;
        }
        if !zero {
            seen_non_zero = true;
        }
        j = j + 1;
    }
    es.len()
}

/// The second at which window `w` starts, or `None` when that is past the largest `u64`.
pub fn window_start_secs(w: usize) -> (r: Option<u64>)
    ensures
        r matches Some(v) ==> v == window_start(w as nat),
        r is None ==> window_start(w as nat) > 0xffff_ffff_ffff_ffff,
{
    if w == 0 {
        return Some(0);
    }
    let target = w - 1;
    let mut v: u64 = 1;
    let mut i: usize = 0;
    while i < target
        invariant
            0 <= i <= target,
            target == w - 1,
            v == pow2(i as nat),
        decreases target - i,
    {
        if v > 0x7fff_ffff_ffff_ffff {
            proof {
                crate::search::lemma_pow2_monotone((i + 1) as nat, target as nat);
            }
            return None;
        }
        v = v * 2;
        i = i + 1;
    }
    Some(v)
}

/// The metric that an entry's tag names, if it is a tagged interval histogram.
pub fn entry_metric(l: &LogLine) -> (r: Option<Metric>)
    ensures
        r == metric_of(*l),
{
    match l {
        LogLine::Interval(h) => match &h.tag {
            Some(t) => {
                let processing = "processing".to_owned();
                let sojourn = "sojourn".to_owned();
                proof {
                    reveal_strlit("processing");
                    reveal_strlit("sojourn");
                }
                if *t == processing {
                    Some(Metric::Processing)
                } else if *t == sojourn {
                    Some(Metric::Sojourn)
                } else {
                    None
                }
            },
            None => None,
        },
        _ => None,
    }
}

/// Whether every entry before `j` is a tagged interval histogram.
pub open spec fn tagged_before(es: Seq<LogLine>, j: int) -> bool {
    forall|i: int| 0 <= i < j ==> #[trigger] metric_of(es[i]) is Some
}

/// Whether every entry of operation `k` starts where its window does.
pub open spec fn op_aligned(es: Seq<LogLine>, k: nat) -> bool {
    forall|i: int| op_start(es, k) <= i < op_start(es, k + 1) ==> starts_in_window(es, k, i)
}

/// Whether every entry of the first `n` operations starts where its window does.
pub open spec fn aligned_upto(es: Seq<LogLine>, n: nat) -> bool {
    forall|k: nat| k < n ==> #[trigger] op_aligned(es, k)
}

proof fn lemma_op_start_step(es: Seq<LogLine>, k: nat)
    ensures
        op_start(es, k) <= op_start(es, k + 1),
        op_start(es, k) <= es.len() ==> op_start(es, k + 1) <= es.len(),
{
    let b = op_start(es, k);
    if b < es.len() {
        lemma_scan_end(es, b, b, false);
    }
}

/// Operations start in increasing order.
pub(crate) proof fn lemma_op_start_monotone(es: Seq<LogLine>, a: nat, b: nat)
    requires
        a <= b,
    ensures
        op_start(es, a) <= op_start(es, b),
    decreases b - a,
{
    if a < b {
        lemma_op_start_monotone(es, a, (b - 1) as nat);
        lemma_op_start_step(es, (b - 1) as nat);
    }
}

/// Assigns each entry (after the base time) of an interval log to one of `n_ops`
/// operations, a window and a metric. An operation runs until the first entry that starts
/// at 0 after one that did not; the `i`-th entry of an operation belongs to window `i / 2`.
pub fn plan(es: &Vec<LogLine>, n_ops: usize) -> (r: Result<Vec<Placement>, DecodeError>)
    ensures
        r is Ok <==> tagged_before(es@, es.len() as int) && aligned_upto(es@, n_ops as nat)
            && op_start(es@, n_ops as nat) == es.len(),
        r matches Ok(ps) ==> ps.len() == es.len() && forall|j: int|
            0 <= j < es.len() ==> placed(es@, n_ops as nat, j, #[trigger] ps@[j]),
        r matches Err(DecodeError::NotInterval { entry }) ==> entry < es.len() && tagged_before(
            es@,
            entry as int,
        ) && !(es@[entry as int] is Interval),
        r matches Err(DecodeError::UnknownTag { entry }) ==> entry < es.len() && tagged_before(
            es@,
            entry as int,
        ) && es@[entry as int] is Interval && metric_of(es@[entry as int]) is None,
        r matches Err(DecodeError::WindowStart { op, entry }) ==> {
            &&& tagged_before(es@, es.len() as int)
            &&& op < n_ops
            &&& aligned_upto(es@, op as nat)
            &&& op_start(es@, op as nat) <= entry < op_start(es@, (op + 1) as nat)
            &&& entry < es.len()
            &&& forall|i: int|
                op_start(es@, op as nat) <= i < entry ==> starts_in_window(es@, op as nat, i)
            &&& !starts_in_window(es@, op as nat, entry as int)
        },
        r matches Err(DecodeError::TrailingHistograms { entry }) ==> tagged_before(
            es@,
            es.len() as int,
        ) && aligned_upto(es@, n_ops as nat) && entry == op_start(es@, n_ops as nat) && entry
            < es.len(),
        r is Err ==> (r matches Err(DecodeError::NotInterval { .. })) || (r matches Err(
            DecodeError::UnknownTag { .. },
        )) || (r matches Err(DecodeError::WindowStart { .. })) || (r matches Err(
            DecodeError::TrailingHistograms { .. },
        )),
{
    let n = es.len();
    let mut metrics: Vec<Metric> = Vec::new();
    let mut j: usize = 0;
    while j < n
        invariant
            n == es.len(),
            0 <= j <= n,
            metrics.len() == j,
            forall|i: int| 0 <= i < j ==> Some(#[trigger] metrics@[i]) == metric_of(es@[i]),
        decreases n - j,
    {
        match entry_metric(&es[j]) {
            Some(m) => metrics.push(m),
            None => {
                proof {
                    assert forall|i: int| 0 <= i < j implies #[trigger] metric_of(es@[i]) is Some by {
                        assert(Some(metrics@[i]) == metric_of(es@[i]));
                    }
                }
                if let LogLine::Interval(_) = &es[j] {
                    return Err(DecodeError::UnknownTag { entry: j });
                }
                return Err(DecodeError::NotInterval { entry: j });
            },
        }
        j = j + 1;
    }
    proof {
        assert forall|i: int| 0 <= i < n implies #[trigger] metric_of(es@[i]) is Some by {
            assert(Some(metrics@[i]) == metric_of(es@[i]));
        }
    }
    let mut ps: Vec<Placement> = Vec::new();
    let mut p: usize = 0;
    let mut k: usize = 0;
    while k < n_ops
        invariant
            n == es.len(),
            metrics.len() == n,
            forall|i: int| 0 <= i < n ==> Some(#[trigger] metrics@[i]) == metric_of(es@[i]),
            tagged_before(es@, n as int),
            0 <= k <= n_ops,
            p as int == op_start(es@, k as nat),
            p <= n,
            ps.len() == p,
            forall|i: int| 0 <= i < p ==> placed(es@, n_ops as nat, i, #[trigger] ps@[i]),
            aligned_upto(es@, k as nat),
        decreases n_ops - k,
    {
        proof {
            lemma_op_start_step(es@, k as nat);
        }
        if p < n {
            let e = operation_end(es, p);
            let mut i: usize = p;
            while i < e
                invariant
                    n == es.len(),
                    metrics.len() == n,
                    forall|x: int| 0 <= x < n ==> Some(#[trigger] metrics@[x]) == metric_of(es@[x]),
                    tagged_before(es@, n as int),
                    k < n_ops,
                    p as int == op_start(es@, k as nat),
                    e as int == op_start(es@, (k + 1) as nat),
                    p <= i <= e,
                    e <= n,
                    ps.len() == i,
                    forall|x: int| 0 <= x < i ==> placed(es@, n_ops as nat, x, #[trigger] ps@[x]),
                    aligned_upto(es@, k as nat),
                    forall|x: int| p <= x < i ==> starts_in_window(es@, k as nat, x),
                decreases e - i,
            {
                let w = (i - p) / 2;
                let start = window_start_secs(w);
                let ok = match (&es[i], start) {
                    (LogLine::Interval(h), Some(s)) => h.start_nanos == 0 && h.start_secs == s,
                    _ => false,
                };
                if !ok {
                    proof {
                        assert(!starts_in_window(es@, k as nat, i as int));
                        assert(!op_aligned(es@, k as nat));
                        assert(!aligned_upto(es@, n_ops as nat));
                    }
                    return Err(DecodeError::WindowStart { op: k, entry: i });
                }
                ps.push(Placement { op: k, window: w, metric: metrics[i] });
                proof {
                    assert(placed(es@, n_ops as nat, i as int, ps@[i as int]));
                }
                i = i + 1;
            }
            p = e;
        }
        proof {
            assert(op_aligned(es@, k as nat));
            assert forall|kk: nat| kk < k + 1 implies #[trigger] op_aligned(es@, kk) by {
                if kk < k {
                    assert(op_aligned(es@, kk));
                }
            }
        }
        k = k + 1;
    }
    if p < n {
        return Err(DecodeError::TrailingHistograms { entry: p });
    }
    Ok(ps)
}


/// The entries that hdrhistogram's interval-log parser reads from the bytes of a log,
/// ending with `Malformed` where it meets text it cannot parse.
pub uninterp spec fn interval_log_entries(b: Seq<u8>) -> Seq<LogLine>;

/// Relies on `IntervalLogIterator`: the entries it yields depend on the bytes alone.
#[verifier::external_body]
pub(crate) fn read_interval_log(bytes: &[u8]) -> (r: Vec<LogLine>)
    ensures
        r@ == interval_log_entries(bytes@),
{
    let mut out = Vec::new();
    for e in interval_log::IntervalLogIterator::new(bytes) {
        out.push(match e {
            Ok(interval_log::LogEntry::Interval(h)) => LogLine::Interval(IntervalLine {
                tag: h.tag().map(|t| t.as_str().to_string()),
                start_secs: h.start_timestamp().as_secs(), start_nanos: h.start_timestamp().subsec_nanos(),
                duration_secs: h.duration().as_secs(), duration_nanos: h.duration().subsec_nanos(),
                payload: h.encoded_histogram().to_string(),
            }),
            Ok(interval_log::LogEntry::BaseTime(_)) => LogLine::BaseTime,
            Ok(_) => LogLine::StartTime,
            Err(_) => LogLine::Malformed,
        });
    }
    out
}

/// The bytes that standard, padded base64 decodes the text to, or `None` when it is not
/// valid base64.
pub uninterp spec fn base64_decoded(s: Seq<char>) -> Option<Seq<u8>>;

/// Relies on `base64::decode`: standard alphabet with padding; the result depends on the
/// text alone.
#[verifier::external_body]
pub(crate) fn decode_base64(s: &String) -> (r: Option<Vec<u8>>)
    ensures
        r is Some <==> base64_decoded(s@) is Some,
        r matches Some(b) ==> base64_decoded(s@) == Some(b@),
{
    match base64::decode(s) {
        Ok(b) => Some(b),
        Err(_) => None,
    }
}

} // verus!
