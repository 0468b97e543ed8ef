use residual_risk::campaign::{Campaign, Case, Outcome, Step};

fn case(outcome: Outcome, measured: bool, counters: Vec<u32>, regions: Vec<u32>) -> Case {
    Case { outcome, nanos: 10, measured, counters, regions }
}

#[test]
fn replays_pass_through_then_every_kth_is_measured() {
    let mut c = Campaign::new(String::from("t::x"), 2);
    assert_eq!(c.test(), "t::x");
    assert_eq!(c.observe(2), Step::PassThrough);
    assert_eq!(c.observe(2), Step::PassThrough);
    assert_eq!(c.observe(2), Step::Record { measured: true });
    c.record(case(Outcome::Pass, true, vec![1], vec![0]));
    assert_eq!(c.observe(2), Step::Record { measured: false });
    c.record(case(Outcome::Pass, false, vec![], vec![]));
    assert_eq!(c.observe(2), Step::Record { measured: true });
}

#[test]
fn a_failure_ends_recording() {
    let mut c = Campaign::new(String::from("t::y"), 0);
    assert_eq!(c.observe(1), Step::Record { measured: true });
    c.record(case(Outcome::Fail, true, vec![], vec![]));
    assert_eq!(c.observe(1), Step::PassThrough);
    assert_eq!(c.observe(1), Step::PassThrough);
    let s = c.summary(Some(0), false);
    assert_eq!(s.n, 0);
    assert_eq!(s.consistent, Some(true));
}

#[test]
fn summary_counts_passes_rejects_and_measured_sets() {
    let mut c = Campaign::new(String::from("t::z"), 0);
    c.observe(1);
    c.record(case(Outcome::Pass, true, vec![1, 2], vec![7]));
    c.observe(1);
    c.record(case(Outcome::Reject, true, vec![3], vec![8]));
    c.observe(1);
    c.record(case(Outcome::Pass, false, vec![4], vec![9]));
    c.observe(1);
    c.record(case(Outcome::Pass, true, vec![5], vec![]));
    let s = c.summary(Some(3), false);
    assert_eq!(s.n, 3);
    assert_eq!(s.rejects, 1);
    assert_eq!(s.consistent, Some(true));
    assert_eq!(s.sets, vec![vec![1, 2], vec![5]]);
    assert_eq!(s.region_sets, vec![vec![7], vec![]]);
    assert_eq!(s.body_nanos, 40);
    assert_eq!(c.summary(Some(2), false).consistent, Some(false));
    assert_eq!(c.summary(None, false).consistent, Some(false));
}

#[test]
fn shrinking_a_failing_replay_is_not_counted() {
    let mut c = Campaign::new(String::from("replay_fails::below_100"), 1);
    assert_eq!(c.observe(1), Step::PassThrough);
    c.passed_through(Outcome::Fail);
    // The runner now shrinks; passing shrink calls are not new test cases.
    assert_eq!(c.observe(1), Step::PassThrough);
    c.passed_through(Outcome::Pass);
    assert_eq!(c.observe(1), Step::PassThrough);
    let s = c.summary(Some(0), false);
    assert_eq!(s.n, 0);
    assert_eq!(s.consistent, Some(true));
}

#[test]
fn a_replay_that_passes_does_not_count() {
    let mut c = Campaign::new(String::from("counting::x"), 1);
    assert_eq!(c.observe(1), Step::PassThrough);
    c.passed_through(Outcome::Pass);
    assert_eq!(c.observe(1), Step::Record { measured: true });
    c.record(case(Outcome::Pass, true, vec![], vec![]));
    assert_eq!(c.summary(Some(1), false).n, 1);
}

#[test]
fn a_failing_test_counts_what_the_runner_counts() {
    // No persisted seed: some new test cases pass, then one fails and is shrunk.
    let mut c = Campaign::new(String::from("replay_fails::below_900"), 0);
    for _ in 0..7 {
        assert_eq!(c.observe(1), Step::Record { measured: true });
        c.record(case(Outcome::Pass, true, vec![], vec![]));
    }
    assert_eq!(c.observe(1), Step::Record { measured: true });
    c.record(case(Outcome::Fail, true, vec![], vec![]));
    for _ in 0..5 {
        assert_eq!(c.observe(1), Step::PassThrough);
        c.passed_through(Outcome::Pass);
    }
    let s = c.summary(Some(7), false);
    assert!(s.n > 0);
    assert_eq!(s.n, 7);
    assert_eq!(s.consistent, Some(true));
}

#[test]
fn check_counts() {
    // Three persisted seeds that now pass are replayed first; a third of the new test cases
    // are rejected; 40 pass.
    let mut c = Campaign::new(String::from("counting::counts_replays_and_rejects"), 3);
    let mut calls = 0;
    for _ in 0..3 {
        assert_eq!(c.observe(1), Step::PassThrough);
        c.passed_through(Outcome::Pass);
        calls += 1;
    }
    let mut x: u32 = 0;
    let mut passes = 0;
    while passes < 40 {
        assert_eq!(c.observe(1), Step::Record { measured: true });
        calls += 1;
        let o = if x % 3 == 0 { Outcome::Reject } else { Outcome::Pass };
        if o == Outcome::Pass {
            passes += 1;
        }
        c.record(case(o, true, vec![], vec![]));
        x += 1;
    }
    let s = c.summary(Some(40), false);
    let n = s.n as usize;
    let rejects = s.rejects as usize;
    assert_eq!(n, 40);
    assert_eq!(s.consistent, Some(true));
    // Every call is a replay, a recorded pass or a recorded rejection.
    assert_eq!(calls, 3 + n + rejects);
    assert_eq!(c.calls(), calls);
    let bound = 1.0 - 0.05f64.powf(1.0 / s.n as f64);
    assert!((bound - (1.0 - 0.05f64.powf(1.0 / 40.0))).abs() < 1e-8);
}

#[test]
fn fork_mode_uses_the_runner_count() {
    // The test cases ran in child processes: none was seen here.
    let c = Campaign::new(String::from("fork::forked"), 0);
    let s = c.summary(Some(20), true);
    assert_eq!(s.n, 20);
    assert_eq!(s.consistent, None);
    assert!(s.sets.is_empty() && s.region_sets.is_empty());
    assert_eq!(c.summary(None, true).n, 0);
}
