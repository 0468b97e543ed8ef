use residual_risk::coverage::Measured;
use residual_risk::estimators::new_code;
use residual_risk::record::{
    basis_chance, coverage_counts, record_line, report_block, report_coverage, report_of, trace_line, CoverageCounts,
    Record, RegionCounts, Report, ReportCoverage, Target,
};

fn stats() -> String {
    "\tsuccesses: 256\n\tlocal rejects: 0\n\tglobal rejects: 268\n\t\t268 times at src/lib.rs:28:13: lo <= hi\n"
        .to_string()
}

fn demo_coverage() -> ReportCoverage {
    ReportCoverage {
        total_regions: Some(12),
        distinct_regions: 9,
        percent: "75".to_string(),
        distinct_counters: 3,
        chance: "0.0039".to_string(),
        next_after: 258,
        next_time: "0.017 s".to_string(),
        regions_basis: true,
        coverage_every: 1,
        n_coverage: 256,
    }
}

fn demo_report() -> Report {
    Report {
        passed: true,
        n: 256,
        stats: stats(),
        error: None,
        coverage: Some(demo_coverage()),
        failure: "0.012".to_string(),
        target: Target::After {
            target: "0.001".to_string(),
            more: 2739,
            time: "0.181 s".to_string(),
            needed: 2995,
        },
        consistent: Some(true),
        successes: Some(256),
    }
}

#[test]
fn the_block_of_the_readme() {
    let expected = "proptest: 256 passing test cases\n\
\tsuccesses: 256\n\
\tlocal rejects: 0\n\
\tglobal rejects: 268\n\
\t\t268 times at src/lib.rs:28:13: lo <= hi\n\
\tcoverage: 9 of 12 regions (75%) in the code under test, 3 counters\n\
\tnew code: about 0.0039 chance per test case (next new code after ~258 more, ~0.017 s)\n\
\tfailure: at most 0.012 chance per test case (95% confidence)\n\
\t         below 0.001 after 2,739 more (~0.181 s): PROPTEST_CASES=2995\n";
    assert_eq!(report_block(&demo_report()), expected);
}

#[test]
fn a_failed_test_has_nothing_to_estimate() {
    let mut r = demo_report();
    r.passed = false;
    assert_eq!(report_block(&r), "proptest: counterexample found, nothing to estimate\n");
}

#[test]
fn the_block_says_when_regions_are_unavailable() {
    let mut r = demo_report();
    r.error = Some("fork mode".to_string());
    let mut c = demo_coverage();
    c.total_regions = None;
    c.regions_basis = false;
    c.coverage_every = 4;
    c.n_coverage = 64;
    r.coverage = Some(c);
    r.target = Target::Below { target: "0.01".to_string() };
    r.consistent = Some(false);
    r.successes = None;
    let text = report_block(&r);
    assert!(text.contains("\tcoverage: not measured: fork mode\n"));
    assert!(text.contains("\tcoverage: 3 counters raised\n"));
    assert!(text.contains("~0.017 s) (counted in counters: regions unavailable)\n"));
    assert!(text.contains("\t          coverage taken for every 4th test case: 64 of 256\n"));
    assert!(text.contains("\t         already below 0.01\n"));
    assert!(text.ends_with("\tnote: counted 256 passing test cases, the runner counted None\n"));
}

fn record() -> Record {
    Record {
        test: "demo::tests::clamp_in_range".to_string(),
        unix_time: 1790000000,
        passed: true,
        fork: false,
        n: 256,
        runner_successes: Some(256),
        counts_agree: Some(true),
        rejects: 268,
        wall_s: "0.016900".to_string(),
        body_s: "0.004000".to_string(),
        t_s: "0.000066016".to_string(),
        failure_bound: "0.011634042".to_string(),
        target: "0.001".to_string(),
        cases_for_target: 2995,
        coverage: Some(CoverageCounts {
            distinct_counters: 3,
            singletons: 0,
            k: 0,
            p_new: "0.003875969".to_string(),
            error: None,
            window_counters: 6,
            coverage_every: 1,
            n_coverage: 256,
            mapping_s: "0.009000".to_string(),
            regions_basis: true,
            regions: Some(RegionCounts {
                total_regions: 12,
                distinct: 9,
                singletons: 0,
                k: 0,
                p_new: "0.003875969".to_string(),
                code_files: vec!["/w/demo/src/lib.rs".to_string(), "/w/a \"b\".rs".to_string()],
            }),
        }),
        compute_s: "0.000100".to_string(),
    }
}

#[test]
fn the_record_line_has_every_field() {
    let expected = [
        "{\"test\":\"demo::tests::clamp_in_range\",\"unix_time\":1790000000,\"passed\":true,",
        "\"fork\":false,\"n\":256,\"runner_successes\":256,\"counts_agree\":true,\"rejects\":268,",
        "\"wall_s\":0.016900,\"body_s\":0.004000,\"t_s\":0.000066016,\"failure_bound\":0.011634042,",
        "\"target\":0.001,\"cases_for_target\":2995,\"coverage\":true,\"distinct_counters\":3,",
        "\"singletons\":0,\"k\":0,\"p_new\":0.003875969,\"window_counters\":6,\"coverage_every\":1,",
        "\"n_coverage\":256,\"mapping_s\":0.009000,\"p_new_basis\":\"regions\",\"total_regions\":12,",
        "\"distinct_regions\":9,\"region_singletons\":0,\"k_regions\":0,\"p_new_regions\":0.003875969,",
        "\"code_files\":[\"/w/demo/src/lib.rs\",\"/w/a \\\"b\\\".rs\"],\"compute_s\":0.000100}",
    ]
    .join("");
    assert_eq!(record_line(&record()), expected);
}

#[test]
fn a_forked_run_records_no_agreement_and_why_coverage_is_missing() {
    let mut r = record();
    r.fork = true;
    r.counts_agree = None;
    r.runner_successes = None;
    if let Some(c) = r.coverage.as_mut() {
        c.error = Some("fork mode".to_string());
        c.regions = None;
        c.regions_basis = false;
    }
    let line = record_line(&r);
    assert!(line.contains("\"fork\":true"));
    assert!(line.contains("\"runner_successes\":null,\"counts_agree\":null"));
    assert!(line.contains("\"coverage_error\":\"fork mode\""));
    assert!(line.contains("\"p_new_basis\":\"counters\""));
    assert!(!line.contains("\"distinct_regions\""));
    r.coverage = None;
    let line = record_line(&r);
    assert!(line.contains("\"coverage\":false,\"compute_s\":0.000100}"));
}

#[test]
fn the_trace_lists_each_test_case() {
    let sets = vec![vec![1, 2], vec![], vec![30]];
    let regions = vec![vec![4]];
    assert_eq!(
        trace_line("t", 5, &sets, &regions),
        "{\"test\":\"t\",\"unix_time\":5,\"sets\":[[1, 2],[],[30]],\"region_sets\":[[4]]}"
    );
    assert_eq!(
        trace_line("t", 5, &Vec::new(), &Vec::new()),
        "{\"test\":\"t\",\"unix_time\":5,\"sets\":[],\"region_sets\":[]}"
    );
}

#[test]
fn what_is_written_follows_what_was_measured() {
    let counters = new_code(&[vec![0], vec![0]]);
    let regions = new_code(&[vec![0, 1], vec![0]]);
    let unusable = Measured { total_regions: None, error: Some("why".to_string()), regions: false };
    let usable = Measured { total_regions: Some(4), error: None, regions: true };
    assert_eq!(basis_chance(&unusable, &counters, &regions), (1, 4));
    assert_eq!(basis_chance(&usable, &counters, &regions), (1, 2));
    let c = coverage_counts(&unusable, &counters, &regions, "p".into(), "q".into(), 3, 1, 2, "m".into(), vec![]);
    assert!(c.regions.is_none() && !c.regions_basis && c.error.as_deref() == Some("why"));
    let mut r = record();
    r.coverage = Some(c);
    let line = record_line(&r);
    assert!(line.contains("\"coverage_error\":\"why\""));
    assert!(line.contains("\"p_new_basis\":\"counters\""));
    assert!(!line.contains("\"total_regions\""));
    let c = coverage_counts(&usable, &counters, &regions, "p".into(), "q".into(), 3, 1, 2, "m".into(), vec!["/a.rs".into()]);
    let g = c.regions.as_ref().unwrap();
    assert_eq!((g.total_regions, g.distinct, g.k), (4, 2, 1));
    r.coverage = Some(c);
    let line = record_line(&r);
    assert!(line.contains("\"p_new_basis\":\"regions\",\"total_regions\":4,\"distinct_regions\":2"));
    assert!(line.contains("\"p_new_regions\":q,\"code_files\":[\"/a.rs\"]"));
    let rc = report_coverage(&unusable, &counters, &regions, String::new(), "0.25".into(), 4, "1 s".into(), 1, 2);
    let rep = report_of(true, 2, String::new(), &unusable, Some(rc), "0.7".into(), Target::Below { target: "0.9".into() }, Some(true), Some(2));
    let text = report_block(&rep);
    assert!(text.contains("\tcoverage: not measured: why\n"));
    assert!(text.contains("\tcoverage: 1 counters raised\n"));
    assert!(text.contains("(counted in counters: regions unavailable)\n"));
}
