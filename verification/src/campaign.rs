//! One run of one test function: which calls of the test body are recorded, and what is counted
//! once the runner has returned.
//!
//! Calls that replay persisted failures come first and are not draws from the strategy, so they
//! are not recorded; after the first failing test case the runner is shrinking, and those calls
//! are passed through unrecorded. Of the recorded test cases, only those that passed are counted
//! in `n`.
use vstd::prelude::*;

verus! {

/// How a recorded test case ended.
#[derive(Clone, Copy, PartialEq, Eq, Debug, Structural)]
pub enum Outcome {
    Pass,
    /// Rejected by `prop_assume!`.
    Reject,
    Fail,
}

/// One recorded test case.
pub struct Case {
    pub outcome: Outcome,
    /// How long its body took, in nanoseconds.
    pub nanos: u64,
    /// Whether coverage was taken for this test case.
    pub measured: bool,
    pub counters: Vec<u32>,
    pub regions: Vec<u32>,
}

/// What a `Case` holds, as plain values.
pub struct CaseModel {
    pub outcome: Outcome,
    pub nanos: u64,
    pub measured: bool,
    pub counters: Seq<u32>,
    pub regions: Seq<u32>,
}

impl View for Case {
    type V = CaseModel;

    open spec fn view(&self) -> CaseModel {
        CaseModel {
            outcome: self.outcome,
            nanos: self.nanos,
            measured: self.measured,
            counters: self.counters@,
            regions: self.regions@,
        }
    }
}

/// One run of one test function.
pub struct Campaign {
    test: String,
    /// Calls of the test body that replay persisted failures; they come first.
    replays: usize,
    calls: usize,
    failed: bool,
    cases: Vec<Case>,
}

/// What a `Campaign` holds, as plain values.
pub struct CampaignModel {
    pub test: Seq<char>,
    pub replays: usize,
    pub calls: usize,
    pub failed: bool,
    pub cases: Seq<CaseModel>,
}

impl View for Campaign {
    type V = CampaignModel;

    closed spec fn view(&self) -> CampaignModel {
        CampaignModel {
            test: self.test@,
            replays: self.replays,
            calls: self.calls,
            failed: self.failed,
            cases: self.cases@.map_values(|c: Case| c@),
        }
    }
}

/// What to do with one call of the test body.
#[derive(Clone, Copy, PartialEq, Eq, Debug, Structural)]
pub enum Step {
    /// Run it unrecorded: a replay of a persisted failure, or shrinking after a failure.
    PassThrough,
    /// Run it and record it, taking coverage when `measured`.
    Record { measured: bool },
}

/// What `observe` decides for the next call of a campaign in state `c`.
pub open spec fn step_of(c: CampaignModel, every: usize) -> Step {
    if c.calls + 1 <= c.replays || c.failed {
        Step::PassThrough
    } else {
        Step::Record { measured: c.cases.len() % (every as nat) == 0 }
    }
}

/// The campaign `c` after one more call.
pub open spec fn called(c: CampaignModel) -> CampaignModel {
    CampaignModel { calls: (c.calls + 1) as usize, ..c }
}

/// The campaign `c` after a call passed through unrecorded ended with `outcome`: a replay that
/// fails again starts the shrinking too.
pub open spec fn passed(c: CampaignModel, outcome: Outcome) -> CampaignModel {
    CampaignModel { failed: c.failed || outcome == Outcome::Fail, ..c }
}

/// The campaign `c` after recording `case`.
pub open spec fn recorded(c: CampaignModel, case: CaseModel) -> CampaignModel {
    CampaignModel {
        failed: c.failed || case.outcome == Outcome::Fail,
        cases: c.cases.push(case),
        ..c
    }
}

impl Campaign {
    /// A campaign of the test `test` whose runner first replays `replays` persisted failures.
    pub fn new(test: String, replays: usize) -> (c: Campaign)
        ensures
            c@.test == test@,
            c@.replays == replays,
            c@.calls == 0,
            !c@.failed,
            c@.cases.len() == 0,
    {
        let c = Campaign { test, replays, calls: 0, failed: false, cases: Vec::new() };
        assert(c@.cases =~= Seq::<CaseModel>::empty());
        c
    }

    /// The test's name.
    pub fn test(&self) -> (t: &String)
        ensures
            t@ == self@.test,
    {
        &self.test
    }

    /// How many calls of the test body there have been.
    pub fn calls(&self) -> (n: usize)
        ensures
            n == self@.calls,
    {
        self.calls
    }

    /// What to do with the next call of the test body: pass replays and calls after a failure
    /// through; record the others, taking coverage for every `every`-th recorded test case.
    pub fn observe(&mut self, every: usize) -> (s: Step)
        requires
            every >= 1,
            old(self)@.calls < usize::MAX,
        ensures
            final(self)@ == called(old(self)@),
            s == step_of(old(self)@, every),
    {
        self.calls = self.calls + 1;
        if self.calls <= self.replays || self.failed {
            return Step::PassThrough;
        }
        Step::Record { measured: self.cases.len() % every == 0 }
    }

    /// Notes how a call passed through unrecorded ended; a failing replay ends the recording.
    pub fn passed_through(&mut self, outcome: Outcome)
        ensures
            final(self)@ == passed(old(self)@, outcome),
    {
        self.failed = self.failed || outcome == Outcome::Fail;
    }

    /// Records a test case; a failing one ends the recording.
    pub fn record(&mut self, case: Case)
        ensures
            final(self)@ == recorded(old(self)@, case@),
    {
        self.failed = self.failed || case.outcome == Outcome::Fail;
        let ghost c = case@;
        let ghost before = self.cases@.map_values(|c: Case| c@);
        self.cases.push(case);
        assert(self.cases@.map_values(|c: Case| c@) =~= before.push(c));
    }
}

/// The number of `cases` with outcome `o`.
pub open spec fn count_outcome(cases: Seq<CaseModel>, o: Outcome) -> int
    decreases cases.len(),
{
    if cases.len() == 0 {
        0
    } else {
        count_outcome(cases.drop_last(), o) + if cases.last().outcome == o {
            1int
        } else {
            0int
        }
    }
}

/// The passing `cases` whose coverage was taken, in order.
pub open spec fn measured_passes(cases: Seq<CaseModel>) -> Seq<CaseModel>
    decreases cases.len(),
{
    if cases.len() == 0 {
        Seq::empty()
    } else if cases.last().outcome == Outcome::Pass && cases.last().measured {
        measured_passes(cases.drop_last()).push(cases.last())
    } else {
        measured_passes(cases.drop_last())
    }
}

/// The time all test bodies took, in nanoseconds.
pub open spec fn body_nanos(cases: Seq<CaseModel>) -> int
    decreases cases.len(),
{
    if cases.len() == 0 {
        0
    } else {
        body_nanos(cases.drop_last()) + cases.last().nanos
    }
}

/// What is counted once the runner has returned.
pub struct Summary {
    /// Passing test cases (in fork mode, the runner's count).
    pub n: u64,
    /// Test cases rejected by `prop_assume!`.
    pub rejects: u64,
    /// Whether `n` agrees with the runner's count of successes; unknown in fork mode, where the
    /// test cases run in child processes.
    pub consistent: Option<bool>,
    /// The counters of each passing test case whose coverage was taken.
    pub sets: Vec<Vec<u32>>,
    /// The regions of each passing test case whose coverage was taken.
    pub region_sets: Vec<Vec<u32>>,
    /// The time all test bodies took, in nanoseconds.
    pub body_nanos: u128,
}

proof fn lemma_counts_bounded(cases: Seq<CaseModel>)
    ensures
        0 <= count_outcome(cases, Outcome::Pass) <= cases.len(),
        0 <= count_outcome(cases, Outcome::Reject) <= cases.len(),
        0 <= body_nanos(cases) <= cases.len() * 0x1_0000_0000_0000_0000,
        measured_passes(cases).len() <= cases.len(),
    decreases cases.len(),
{
    if cases.len() > 0 {
        lemma_counts_bounded(cases.drop_last());
    }
}

impl Campaign {
    /// The counts once the runner has returned: `n`, the rejects, whether `n` agrees with the
    /// runner's `successes`, the counters and regions of the passing test cases whose coverage
    /// was taken, and the time all bodies took. In `fork` mode the test cases ran in child
    /// processes: `n` is the runner's count (0 when it gave none) and agreement is unknown.
    pub fn summary(&self, successes: Option<u64>, fork: bool) -> (s: Summary)
        ensures
            s.n == (if fork {
                match successes {
                    Some(k) => k as int,
                    None => 0,
                }
            } else {
                count_outcome(self@.cases, Outcome::Pass)
            }),
            s.rejects == count_outcome(self@.cases, Outcome::Reject),
            s.consistent == (if fork {
                None
            } else {
                Some(successes == Some(s.n))
            }),
            s.sets@.map_values(|v: Vec<u32>| v@) == measured_passes(self@.cases).map_values(
                |c: CaseModel| c.counters,
            ),
            s.region_sets@.map_values(|v: Vec<u32>| v@) == measured_passes(self@.cases).map_values(
                |c: CaseModel| c.regions,
            ),
            s.body_nanos == body_nanos(self@.cases),
    {
        let ghost cs = self@.cases;
        let mut n: u64 = 0;
        let mut rejects: u64 = 0;
        let mut nanos: u128 = 0;
        let mut sets: Vec<Vec<u32>> = Vec::new();
        let mut region_sets: Vec<Vec<u32>> = Vec::new();
        let mut i: usize = 0;
        while i < self.cases.len()
            invariant
                i <= self.cases.len(),
                cs == self@.cases,
                cs.len() == self.cases@.len(),
                n == count_outcome(cs.take(i as int), Outcome::Pass),
                rejects == count_outcome(cs.take(i as int), Outcome::Reject),
                nanos == body_nanos(cs.take(i as int)),
                sets@.map_values(|v: Vec<u32>| v@) == measured_passes(cs.take(i as int)).map_values(
                    |c: CaseModel| c.counters,
                ),
                region_sets@.map_values(|v: Vec<u32>| v@) == measured_passes(
                    cs.take(i as int),
                ).map_values(|c: CaseModel| c.regions),
            decreases self.cases.len() - i,
        {
            let c = &self.cases[i];
            proof {
                assert(cs[i as int] == c@);
                assert(cs.take(i + 1).drop_last() =~= cs.take(i as int));
                lemma_counts_bounded(cs.take(i as int));
            }
            if c.outcome == Outcome::Pass {
                n = n + 1;
            }
            if c.outcome == Outcome::Reject {
                rejects = rejects + 1;
            }
            nanos = nanos + c.nanos as u128;
            if c.outcome == Outcome::Pass && c.measured {
                let ghost before = sets@.map_values(|v: Vec<u32>| v@);
                let ghost before_r = region_sets@.map_values(|v: Vec<u32>| v@);
                let cv = copy_u32s(&c.counters);
                let rv = copy_u32s(&c.regions);
                sets.push(cv);
                region_sets.push(rv);
                proof {
                    assert(sets@.map_values(|v: Vec<u32>| v@) =~= before.push(c@.counters));
                    assert(region_sets@.map_values(|v: Vec<u32>| v@) =~= before_r.push(
                        c@.regions,
                    ));
                    assert(measured_passes(cs.take(i + 1)) == measured_passes(
                        cs.take(i as int),
                    ).push(c@));
                    assert(measured_passes(cs.take(i + 1)).map_values(|c: CaseModel| c.counters)
                        =~= measured_passes(cs.take(i as int)).map_values(
                        |c: CaseModel| c.counters,
                    ).push(c@.counters));
                    assert(measured_passes(cs.take(i + 1)).map_values(|c: CaseModel| c.regions)
                        =~= measured_passes(cs.take(i as int)).map_values(
                        |c: CaseModel| c.regions,
                    ).push(c@.regions));
                }
            }
            i += 1;
        }
        assert(cs.take(i as int) =~= cs);
        if fork {
            let n = match successes {
                Some(k) => k,
                None => 0,
            };
            return Summary { n, rejects, consistent: None, sets, region_sets, body_nanos: nanos };
        }
        let consistent = Some(successes == Some(n));
        Summary { n, rejects, consistent, sets, region_sets, body_nanos: nanos }
    }
}

/// A copy of `v`.
fn copy_u32s(v: &Vec<u32>) -> (r: Vec<u32>)
    ensures
        r@ == v@,
{
    let mut r: Vec<u32> = Vec::new();
    let mut i: usize = 0;
    while i < v.len()
        invariant
            i <= v.len(),
            r@ == v@.take(i as int),
        decreases v.len() - i,
    {
        r.push(v[i]);
        i += 1;
        assert(r@ =~= v@.take(i as int));
    }
    assert(v@.take(i as int) =~= v@);
    r
}

/// After a failing test case is recorded, or a replay passed through fails again, the runner is
/// shrinking: from then on every call is passed through, and calls, recordings and calls passed
/// through leave the campaign failed.
pub proof fn law_failure_ends_recording(c: CampaignModel, case: CaseModel, every: usize)
    requires
        case.outcome == Outcome::Fail,
    ensures
        recorded(c, case).failed,
        step_of(recorded(c, case), every) == Step::PassThrough,
        passed(c, Outcome::Fail).failed,
        step_of(passed(c, Outcome::Fail), every) == Step::PassThrough,
        called(recorded(c, case)).failed,
        step_of(called(recorded(c, case)), every) == Step::PassThrough,
        forall|d: CampaignModel, x: CaseModel| d.failed ==> (#[trigger] recorded(d, x)).failed,
        forall|d: CampaignModel, o: Outcome| d.failed ==> (#[trigger] passed(d, o)).failed,
        forall|d: CampaignModel| d.failed ==> (#[trigger] called(d)).failed,
        forall|d: CampaignModel| d.failed ==> #[trigger] step_of(d, every) == Step::PassThrough,
{
}

/// Only recorded test cases count: calls, and calls passed through, leave the recorded test
/// cases as they were, and recording one adds it at the end.
pub proof fn law_only_recorded_cases_count(c: CampaignModel, case: CaseModel, o: Outcome)
    ensures
        called(c).cases == c.cases,
        passed(c, o).cases == c.cases,
        recorded(c, case).cases == c.cases.push(case),
        count_outcome(recorded(c, case).cases, Outcome::Pass) == count_outcome(c.cases, Outcome::Pass)
            + if case.outcome == Outcome::Pass {
            1int
        } else {
            0int
        },
{
    assert(c.cases.push(case).drop_last() =~= c.cases);
}

/// The first `replays` calls of a campaign replay persisted failures: they are passed through,
/// and only calls are counted while they last.
pub proof fn law_replays_pass_through(c: CampaignModel, every: usize)
    requires
        c.calls < c.replays,
    ensures
        step_of(c, every) == Step::PassThrough,
{
}

} // verus!
