use orchestration::explore::{backfill, Action, Scheduler, MAX_IN_FLIGHT};

#[test]
fn backfill_two_groups_max_is_harder() {
    // A reached 100, B reached 300: A is re-probed at 300, B gets nothing.
    assert_eq!(backfill(&vec![100, 300], false), vec![vec![300], vec![]]);
}

#[test]
fn backfill_min_is_harder_reverses_direction() {
    assert_eq!(backfill(&vec![100, 300], true), vec![vec![], vec![100]]);
}

#[test]
fn backfill_ignores_groups_that_never_succeeded() {
    assert_eq!(backfill(&vec![0, 100], false), vec![vec![], vec![]]);
    assert_eq!(backfill(&vec![0, 100], true), vec![vec![], vec![]]);
}

#[test]
fn backfill_sorts_and_dedups() {
    assert_eq!(
        backfill(&vec![100, 300, 300, 200], false),
        vec![vec![200, 300], vec![], vec![], vec![300]]
    );
}

fn start_of(a: &Action) -> (usize, Option<Vec<u64>>) {
    match a {
        Action::Start { group, loads } => (*group, loads.clone()),
        other => panic!("expected a start, got {:?}", other),
    }
}

#[test]
fn scheduler_caps_concurrency_and_runs_backfill() {
    let mut s = Scheduler::new(4, false);
    assert_eq!(MAX_IN_FLIGHT, 3);
    assert_eq!(start_of(&s.poll(false)), (0, None));
    assert_eq!(start_of(&s.poll(false)), (1, None));
    assert_eq!(start_of(&s.poll(false)), (2, None));
    assert_eq!(s.poll(false), Action::Wait);
    s.complete(1, Some(300));
    assert_eq!(start_of(&s.poll(false)), (3, None));
    assert_eq!(s.poll(false), Action::Wait);
    s.complete(0, Some(100));
    s.complete(2, Some(0));
    assert_eq!(s.poll(false), Action::Wait);
    s.complete(3, Some(200));
    // backfill: group 0 at 200 and 300, group 3 at 300
    assert_eq!(start_of(&s.poll(false)), (0, Some(vec![200, 300])));
    assert_eq!(start_of(&s.poll(false)), (3, Some(vec![300])));
    assert_eq!(s.poll(false), Action::Wait);
    s.complete(3, Some(300));
    s.complete(0, Some(300));
    assert_eq!(s.poll(false), Action::Finish { failed: None });
}

#[test]
fn scheduler_stops_admitting_on_cancel() {
    let mut s = Scheduler::new(5, false);
    assert_eq!(start_of(&s.poll(false)), (0, None));
    assert_eq!(s.poll(true), Action::Wait);
    assert_eq!(s.poll(false), Action::Wait);
    s.complete(0, Some(10));
    assert_eq!(s.poll(false), Action::Finish { failed: None });
}

#[test]
fn scheduler_reports_first_failure_after_siblings_finish() {
    let mut s = Scheduler::new(5, false);
    assert_eq!(start_of(&s.poll(false)), (0, None));
    assert_eq!(start_of(&s.poll(false)), (1, None));
    s.complete(1, None);
    assert_eq!(s.poll(false), Action::Wait);
    s.complete(0, None);
    assert_eq!(s.poll(false), Action::Finish { failed: Some(0) });
    assert_eq!(s.poll(false), Action::Finish { failed: Some(0) });
}

#[test]
fn scheduler_skips_backfill_when_nothing_to_compare() {
    let mut s = Scheduler::new(1, true);
    assert_eq!(start_of(&s.poll(false)), (0, None));
    s.complete(0, Some(64));
    assert_eq!(s.poll(false), Action::Finish { failed: None });
}

#[test]
fn scheduler_ignores_unknown_completions() {
    let mut s = Scheduler::new(2, false);
    s.complete(1, Some(5));
    s.complete(9, None);
    assert_eq!(start_of(&s.poll(false)), (0, None));
}
