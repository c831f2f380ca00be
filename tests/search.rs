use orchestration::search::{
    BinaryMinSearcher, CliffSearch, ConfigError, ExponentialCliffSearcher, LoadIterator, Phase,
    ProbeSession,
};

fn drain_exponential(s: &mut ExponentialCliffSearcher, bad_from: u64) -> Vec<u64> {
    let mut out = Vec::new();
    while let Some(v) = s.next() {
        out.push(v);
        if v >= bad_from {
            s.overloaded();
        }
        assert!(out.len() < 1000);
    }
    out
}

#[test]
fn growing_probes_double_their_increment() {
    let mut s = ExponentialCliffSearcher::until(10, 5).unwrap();
    let got: Vec<u64> = (0..6).map(|_| s.next().unwrap()).collect();
    assert_eq!(got, vec![10, 15, 25, 45, 85, 165]);
    for w in got.windows(3) {
        assert_eq!(w[2] - w[1], 2 * (w[1] - w[0]));
    }
    assert_eq!(s.phase(), Phase::Growing);
}

#[test]
fn growing_stops_before_overflow() {
    let mut s = ExponentialCliffSearcher::until(u64::MAX - 1, 1).unwrap();
    assert_eq!(s.next(), Some(u64::MAX - 1));
    assert_eq!(s.next(), Some(u64::MAX));
    assert_eq!(s.next(), None);
    assert_eq!(s.next(), None);
}

#[test]
fn zero_step_is_rejected() {
    assert_eq!(ExponentialCliffSearcher::until(5, 0).err(), Some(ConfigError::ZeroStep));
}

#[test]
fn overload_narrows_between_last_good_and_failed() {
    let mut s = ExponentialCliffSearcher::until(100, 100).unwrap();
    let got = drain_exponential(&mut s, 350);
    // 100, 200, 400 (bad), then halving (200, 400) down to the step
    assert_eq!(got, vec![100, 200, 400, 300]);
    for &v in &got[3..] {
        assert!(v > 200 && v < 400);
    }
    assert_eq!(s.phase(), Phase::Done);
}

#[test]
fn narrowing_probes_stay_inside_bracket() {
    let mut s = ExponentialCliffSearcher::until(1, 1).unwrap();
    let got = drain_exponential(&mut s, 1000);
    // growing: 1, 2, 4, ..., 512, 1024 (bad)
    let k = got.iter().position(|&v| v == 1024).unwrap();
    let mut low = 512;
    let mut high = 1024;
    for &v in &got[k + 1..] {
        assert!(v > low && v < high);
        if v >= 1000 {
            high = v;
        } else {
            low = v;
        }
    }
    assert!(high - low <= 1);
    assert_eq!((low, high), (999, 1000));
}

#[test]
fn first_probe_overloaded_brackets_from_zero() {
    let mut s = ExponentialCliffSearcher::until(1000, 100).unwrap();
    assert_eq!(s.next(), Some(1000));
    s.overloaded();
    s.overloaded();
    assert_eq!(s.next(), Some(500));
    s.overloaded();
    assert_eq!(s.next(), Some(250));
    assert_eq!(s.next(), Some(375));
    s.overloaded();
    assert_eq!(s.next(), Some(312));
    assert_eq!(s.next(), None);
}

#[test]
fn fill_left_emits_multiples_below_cliff() {
    let mut s = ExponentialCliffSearcher::until(100, 100).unwrap();
    s.fill_left();
    let mut got = Vec::new();
    while let Some(v) = s.next() {
        got.push(v);
        if v == 400 {
            s.overloaded();
        }
        if s.phase() == Phase::Filling {
            // ignored while filling
            s.overloaded();
        }
    }
    assert_eq!(got, vec![100, 200, 400, 300, 100, 200]);
}

#[test]
fn binary_min_halves_towards_smallest_budget() {
    let mut s = BinaryMinSearcher::until(1024, 32).unwrap();
    let mut got = Vec::new();
    while let Some(v) = s.next() {
        assert!(v <= 1024);
        got.push(v);
        if v < 300 {
            s.overloaded();
        }
    }
    assert_eq!(got, vec![512, 256, 384, 320, 288]);
    assert_eq!(s.next(), None);
    s.overloaded();
    assert_eq!(s.next(), None);
}

#[test]
fn binary_min_narrow_range_is_done_at_once() {
    let mut s = BinaryMinSearcher::until(32, 32).unwrap();
    assert_eq!(s.next(), None);
}

#[test]
fn binary_min_rejects_degenerate_bounds() {
    assert_eq!(BinaryMinSearcher::until(0, 4).err(), Some(ConfigError::EmptyRange));
    assert_eq!(BinaryMinSearcher::until(8, 0).err(), Some(ConfigError::ZeroResolution));
}

#[test]
fn load_iterator_replays_whatever_the_verdicts() {
    let mut it = LoadIterator::from(vec![5, 10, 15]);
    assert_eq!(it.next(), Some(5));
    it.overloaded();
    assert_eq!(it.next(), Some(10));
    it.overloaded();
    it.overloaded();
    assert_eq!(it.next(), Some(15));
    assert_eq!(it.next(), None);
    it.overloaded();
    assert_eq!(it.next(), None);
}

#[test]
fn cliff_search_dispatches_to_each_variant() {
    let mut a = CliffSearch::Replay(LoadIterator::from(vec![7]));
    assert_eq!(a.next(), Some(7));
    a.overloaded();
    assert_eq!(a.next(), None);
    let mut b = CliffSearch::Exponential(ExponentialCliffSearcher::until(3, 2).unwrap());
    assert_eq!(b.next(), Some(3));
    assert_eq!(b.next(), Some(5));
    assert_eq!(b.next(), Some(9));
    b.overloaded();
    assert_eq!(b.next(), Some(7));
    let mut c = CliffSearch::BinaryMin(BinaryMinSearcher::until(100, 10).unwrap());
    assert_eq!(c.next(), Some(50));
    c.overloaded();
    assert_eq!(c.next(), Some(75));
}

#[test]
fn probe_session_tracks_last_good_probe() {
    let mut s = ProbeSession::new(CliffSearch::Exponential(
        ExponentialCliffSearcher::until(100, 100).unwrap(),
    ));
    assert_eq!(s.last_good(), 0);
    assert_eq!(s.next(), Some(100));
    assert_eq!(s.last_good(), 100);
    assert_eq!(s.next(), Some(200));
    assert_eq!(s.next(), Some(400));
    s.overloaded();
    assert_eq!(s.last_good(), 200);
    assert_eq!(s.next(), Some(300));
    assert_eq!(s.next(), None);
    assert_eq!(s.last_good(), 300);
}

#[test]
fn probe_session_first_probe_failing_reports_zero() {
    let mut s = ProbeSession::new(CliffSearch::Replay(LoadIterator::from(vec![5])));
    assert_eq!(s.next(), Some(5));
    s.overloaded();
    assert_eq!(s.next(), None);
    assert_eq!(s.last_good(), 0);
}
