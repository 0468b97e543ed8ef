use residual_risk::coverage::{
    begin, code_prefixes, data_records, end, error, files, fits, in_code_under_test, index, measured, ran, regions_usable,
    snapshot, total_regions, window_size, Records,
};
use residual_risk::campaign::{Campaign, Case, Outcome, Step};
use residual_risk::estimators::new_code;
use residual_risk::mapping::{Function, Mapping, Region, Term};
use std::sync::atomic::{AtomicU64, Ordering};

fn record(out: &mut Vec<u8>, name: u64, hash: u64, rel: i64, n: u32) {
    let mut r = [0u8; 64];
    r[0..8].copy_from_slice(&name.to_le_bytes());
    r[8..16].copy_from_slice(&hash.to_le_bytes());
    r[16..24].copy_from_slice(&rel.to_le_bytes());
    r[48..52].copy_from_slice(&n.to_le_bytes());
    out.extend_from_slice(&r);
}

/// Two records at address 1000: (11, 22) with counters 0..3 and (33, 44) with counters 3..5 of
/// an array at 5000.
fn data() -> Vec<u8> {
    let mut d = Vec::new();
    record(&mut d, 11, 22, 4000, 3);
    record(&mut d, 33, 44, 5000 + 24 - 1064, 2);
    d
}

fn region(term: Term, file: u32) -> Region {
    Region { term, file, line_start: 1, col_start: 1, line_end: 1, col_end: 2 }
}

/// The code under test is `/work/src/lib.rs`; `/work/tests/t.rs` is a test file.
fn mapping() -> Mapping {
    Mapping {
        files: vec!["/work/src/lib.rs".to_string(), "/work/tests/t.rs".to_string()],
        functions: vec![
            Function {
                name_ref: 11,
                func_hash: 22,
                files: vec![0],
                exprs: vec![(Term::Counter(0), Term::Counter(1))],
                regions: vec![region(Term::Counter(0), 0), region(Term::Sub(0), 0)],
            },
            Function {
                name_ref: 33,
                func_hash: 44,
                files: vec![1],
                exprs: vec![],
                regions: vec![region(Term::Counter(0), 1)],
            },
            // The same function listed by a second unit: counted once.
            Function {
                name_ref: 11,
                func_hash: 22,
                files: vec![0],
                exprs: vec![],
                regions: vec![region(Term::Counter(0), 0)],
            },
        ],
    }
}

/// Reads counter `i` of `all`.
fn reader(all: &[AtomicU64]) -> impl Fn(usize) -> u64 + '_ {
    move |i: usize| all[i].load(Ordering::Relaxed)
}

fn records() -> Records {
    data_records(&data(), 1000, 5000, 5).ok().unwrap()
}

#[test]
fn code_under_test_by_default() {
    assert!(in_code_under_test("/work/src/lib.rs", &None, "/own"));
    assert!(!in_code_under_test("/home/u/.cargo/registry/src/x/lib.rs", &None, "/own"));
    assert!(!in_code_under_test("/home/u/.cargo/git/checkouts/x/lib.rs", &None, "/own"));
    assert!(!in_code_under_test("/rustc/abc/library/core/src/lib.rs", &None, "/own"));
    assert!(!in_code_under_test("/own/src/lib.rs", &None, "/own"));
    assert!(!in_code_under_test("/work/tests/t.rs", &None, "/own"));
    assert!(!in_code_under_test("/work/benches/b.rs", &None, "/own"));
    assert!(!in_code_under_test("examples/e.rs", &None, "/own"));
    assert!(in_code_under_test("/work/src/testsuite.rs", &None, "/own"));
}

#[test]
fn code_under_test_by_prefixes() {
    let ps = Some(vec!["/work/".to_string(), "!/work/gen".to_string()]);
    assert!(in_code_under_test("/work/src/lib.rs", &ps, "/own"));
    assert!(in_code_under_test("/work/tests/t.rs", &ps, "/own"));
    assert!(!in_code_under_test("/work/gen/out.rs", &ps, "/own"));
    assert!(!in_code_under_test("/other/lib.rs", &ps, "/own"));
    assert!(!in_code_under_test("/work/src/lib.rs", &Some(vec![]), "/own"));
}

#[test]
fn data_records_read_the_counters_of_each_function() {
    let r = records();
    assert_eq!(r.get(11, 22), Some((0, 3)));
    assert_eq!(r.get(33, 44), Some((3, 2)));
    assert_eq!(r.get(11, 44), None);
}

#[test]
fn data_records_refuse_another_layout() {
    let e = data_records(&data(), 1000, 5000, 6).err().unwrap();
    assert_eq!(
        e,
        "the LLVM profile data layout is not the one this crate reads (LLVM 19-22): records cover 5 of 6 counters"
    );
    let mut d = data();
    d.push(0);
    assert!(data_records(&d, 1000, 5000, 5).is_err());
    // A record with no counters, or counters below the array, is left out.
    let mut d = Vec::new();
    record(&mut d, 1, 2, 4000, 0);
    record(&mut d, 3, 4, 100, 4);
    let r = data_records(&d, 1000, 5000, 0).ok().unwrap();
    assert_eq!(r.get(1, 2), None);
    assert_eq!(r.get(3, 4), None);
}

#[test]
fn the_index_keeps_the_code_under_test() {
    let m = mapping();
    let r = records();
    assert!(fits(&m, &r));
    let idx = index(Some(m), Ok(r), &None, "/own", 5);
    assert_eq!(total_regions(&idx), Some(2));
    assert_eq!(files(&idx), vec!["/work/src/lib.rs".to_string()]);
    assert_eq!(error(&idx), None);
    assert_eq!(window_size(&idx), 3);
}

#[test]
fn the_index_without_functions_with_counters_says_why() {
    let m = mapping();
    let r = data_records(&[], 1000, 5000, 0).ok().unwrap();
    let idx = index(Some(m), Ok(r), &None, "/own", 0);
    assert_eq!(total_regions(&idx), Some(2));
    assert_eq!(
        error(&idx),
        Some("no function of the code under test has counters (check RESIDUAL_RISK_CODE)".to_string())
    );
    assert_eq!(window_size(&idx), 0);
}

#[test]
fn an_unusable_index_counts_every_counter() {
    let idx = index(None, Ok(records()), &None, "/own", 7);
    assert_eq!(total_regions(&idx), None);
    assert_eq!(error(&idx), Some("the coverage mapping could not be read from the test binary".to_string()));
    assert_eq!(window_size(&idx), 7);
    assert!(files(&idx).is_empty());
    let idx = index(Some(mapping()), Err("why".to_string()), &None, "/own", 4);
    assert_eq!(error(&idx), Some("why".to_string()));
    assert_eq!(window_size(&idx), 4);
}

#[test]
fn a_region_outside_the_files_does_not_fit() {
    let mut m = mapping();
    m.functions[0].regions.push(region(Term::Zero, 9));
    assert!(!fits(&m, &records()));
}

#[test]
fn regions_that_ran_follow_from_the_counters() {
    let idx = index(Some(mapping()), Ok(records()), &None, "/own", 5);
    // Entry only: both the entry region and entry - c1 ran.
    assert_eq!(ran(&idx, &[0, 0, 0], &[1, 0, 0]), (vec![0], vec![0, 1]));
    // Entry and c1: entry - c1 did not go up.
    assert_eq!(ran(&idx, &[0, 0, 0], &[1, 1, 0]), (vec![0, 1], vec![0]));
    // Nothing moved.
    assert_eq!(ran(&idx, &[4, 4, 4], &[4, 4, 4]), (vec![], vec![]));
}

#[test]
fn snapshots_copy_the_window() {
    let all: Vec<AtomicU64> = (1..=5).map(AtomicU64::new).collect();
    assert_eq!(snapshot(&reader(&all), all.len(), &[(0, 3)]), vec![1, 2, 3]);
    assert_eq!(snapshot(&reader(&all), all.len(), &[(3, 4), (1, 1)]), vec![4, 5, 2]);
    assert_eq!(snapshot(&reader(&all), all.len(), &[(9, 2)]), Vec::<u64>::new());
}

#[test]
fn begin_and_end_report_what_a_test_case_ran() {
    let all: Vec<AtomicU64> = (0..5).map(|_| AtomicU64::new(0)).collect();
    let idx = index(Some(mapping()), Ok(records()), &None, "/own", 5);
    let s = begin(&idx, &reader(&all), all.len());
    all[0].fetch_add(1, Ordering::Relaxed);
    all[4].fetch_add(1, Ordering::Relaxed);
    assert_eq!(end(&idx, s, &reader(&all), all.len()), (vec![0], vec![0, 1]));
}

#[test]
fn prefixes_are_taken_against_the_working_directory() {
    assert_eq!(
        code_prefixes("src/,!src/bin/,/abs/x,,", "/work"),
        vec!["/work/src/".to_string(), "!/work/src/bin/".to_string(), "/abs/x".to_string()]
    );
    assert_eq!(code_prefixes("a", "/work/"), vec!["/work/a".to_string()]);
    assert_eq!(code_prefixes("a,!/b", ""), vec!["a".to_string(), "!/b".to_string()]);
    assert_eq!(code_prefixes("!", "/w"), vec!["!/w/".to_string()]);
    assert!(code_prefixes("", "/w").is_empty());
    assert!(code_prefixes(",,", "/w").is_empty());
}

#[test]
fn regions_are_usable_only_with_a_clean_index() {
    let idx = index(Some(mapping()), Ok(records()), &None, "/own", 5);
    assert!(regions_usable(&idx));
    let idx = index(None, Ok(records()), &None, "/own", 5);
    assert!(!regions_usable(&idx));
    let r = data_records(&[], 1000, 5000, 0).ok().unwrap();
    let idx = index(Some(mapping()), Ok(r), &None, "/own", 0);
    assert!(!regions_usable(&idx));
    // No region in the code under test.
    let ps = Some(vec!["/elsewhere/".to_string()]);
    let idx = index(Some(mapping()), Ok(records()), &ps, "/own", 5);
    assert_eq!(total_regions(&idx), Some(0));
    assert!(!regions_usable(&idx));
}

#[test]
fn fork_mode_measures_nothing() {
    let idx = index(Some(mapping()), Ok(records()), &None, "/own", 5);
    let m = measured(&idx, true);
    assert_eq!(m.total_regions, None);
    assert_eq!(m.error, Some("fork mode".to_string()));
    assert!(!m.regions);
    let m = measured(&idx, false);
    assert_eq!(m.total_regions, Some(2));
    assert_eq!(m.error, None);
    assert!(m.regions);
}

#[test]
fn counters_are_copied_in_address_order() {
    // The function whose counters come later in the array is listed first.
    let m = Mapping {
        files: vec!["/work/src/lib.rs".to_string()],
        functions: vec![
            Function {
                name_ref: 33,
                func_hash: 44,
                files: vec![0],
                exprs: vec![],
                regions: vec![region(Term::Counter(0), 0)],
            },
            Function {
                name_ref: 11,
                func_hash: 22,
                files: vec![0],
                exprs: vec![(Term::Counter(0), Term::Counter(1))],
                regions: vec![region(Term::Counter(0), 0), region(Term::Sub(0), 0)],
            },
        ],
    };
    let idx = index(Some(m), Ok(records()), &None, "/own", 5);
    assert_eq!(total_regions(&idx), Some(3));
    assert_eq!(window_size(&idx), 5);
    let all: Vec<AtomicU64> = (0..5).map(|_| AtomicU64::new(0)).collect();
    let s = begin(&idx, &reader(&all), all.len());
    all[3].fetch_add(1, Ordering::Relaxed);
    all[0].fetch_add(1, Ordering::Relaxed);
    let (raised, regions) = end(&idx, s, &reader(&all), all.len());
    assert_eq!(raised, vec![0, 3]);
    assert_eq!(regions, vec![1, 2, 0]);
    // Every region reported is below the total, and none twice.
    let mut seen = regions.clone();
    seen.sort();
    seen.dedup();
    assert_eq!(seen.len(), regions.len());
    assert!(regions.iter().all(|&r| r < 3));
}

/// `clamp` as LLVM maps it: counter 0 counts the entry, 1 "below", 2 "above"; "inside" is
/// entry - below - above (expression 1, of expression 0 = entry - below).
fn clamp_mapping() -> Mapping {
    Mapping {
        files: vec!["/work/tests/coverage.rs".to_string()],
        functions: vec![Function {
            name_ref: 11,
            func_hash: 22,
            files: vec![0],
            exprs: vec![(Term::Counter(0), Term::Counter(1)), (Term::Sub(0), Term::Counter(2))],
            regions: vec![
                region(Term::Counter(0), 0),
                region(Term::Counter(1), 0),
                region(Term::Counter(2), 0),
                region(Term::Sub(1), 0),
            ],
        }],
    }
}

/// One call of the mapped `clamp` with the range 0..=9, as its counters record it.
fn run_clamp(all: &[AtomicU64], x: i64) {
    all[0].fetch_add(1, Ordering::Relaxed);
    if x < 0 {
        all[1].fetch_add(1, Ordering::Relaxed);
    } else if x > 9 {
        all[2].fetch_add(1, Ordering::Relaxed);
    }
}

fn clamp_index() -> residual_risk::coverage::Index {
    let mut d = Vec::new();
    record(&mut d, 11, 22, 4000, 3);
    let recs = data_records(&d, 1000, 5000, 3).ok().unwrap();
    let ps = Some(vec!["/work/tests/coverage.rs".to_string()]);
    index(Some(clamp_mapping()), Ok(recs), &ps, "/own", 3)
}

#[test]
fn inside_is_new_only_in_regions() {
    let idx = clamp_index();
    let all: Vec<AtomicU64> = (0..3).map(|_| AtomicU64::new(0)).collect();
    let run = |x: i64| {
        let s = begin(&idx, &reader(&all), all.len());
        run_clamp(&all, x);
        end(&idx, s, &reader(&all), all.len())
    };
    let (below_c, below_r) = run(-5);
    let (above_c, above_r) = run(50);
    let (inside_c, inside_r) = run(5);
    let seen_c: std::collections::HashSet<_> = below_c.iter().chain(&above_c).collect();
    let seen_r: std::collections::HashSet<_> = below_r.iter().chain(&above_r).collect();
    let new_c: Vec<_> = inside_c.iter().filter(|c| !seen_c.contains(c)).collect();
    let new_r: Vec<_> = inside_r.iter().filter(|r| !seen_r.contains(r)).collect();
    assert!(new_c.is_empty(), "inside raised a counter of its own");
    assert!(!new_r.is_empty(), "inside ran no region of its own");
    assert_eq!(new_r, vec![&3]);
}

#[test]
fn clamp_numbers() {
    let idx = clamp_index();
    let all: Vec<AtomicU64> = (0..3).map(|_| AtomicU64::new(0)).collect();
    let mut c = Campaign::new(String::from("coverage::clamp_in_range"), 0);
    for i in 0..256i64 {
        let x = [-7, 4, 31][(i % 3) as usize];
        assert_eq!(c.observe(1), Step::Record { measured: true });
        let s = begin(&idx, &reader(&all), all.len());
        run_clamp(&all, x);
        let (counters, regions) = end(&idx, s, &reader(&all), all.len());
        c.record(Case { outcome: Outcome::Pass, nanos: 1, measured: true, counters, regions });
    }
    let s = c.summary(Some(256), false);
    assert_eq!(s.n, 256);
    let counters = new_code(&s.sets);
    let regions = new_code(&s.region_sets);
    // Every branch is run by many test cases, so no counter is a singleton.
    assert_eq!(counters.k, 0);
    assert_eq!((counters.chance_num, counters.chance_den), (1, 258));
    assert!(counters.distinct >= 3);
    // Regions: clamp's three branches and its entry.
    assert!(regions.distinct >= 4);
    assert_eq!(regions.k, 0);
}

#[test]
fn own_sources_are_the_crates_src() {
    assert_eq!(residual_risk::coverage::own_dir("/w/crate"), "/w/crate/src/");
    assert!(!in_code_under_test("/w/crate/src/lib.rs", &None, &residual_risk::coverage::own_dir("/w/crate")));
    assert!(in_code_under_test("/w/crate/demo/src/lib.rs", &None, &residual_risk::coverage::own_dir("/w/crate")));
}

#[test]
fn index_laws_on_a_small_mapping() {
    // Mapping order: the function with counters 3..5 first; its region is numbered 0.
    let m = Mapping {
        files: vec!["/work/src/lib.rs".to_string(), "/work/tests/t.rs".to_string()],
        functions: vec![
            Function { name_ref: 33, func_hash: 44, files: vec![0], exprs: vec![], regions: vec![region(Term::Counter(0), 0)] },
            Function { name_ref: 11, func_hash: 22, files: vec![0], exprs: vec![], regions: vec![region(Term::Counter(0), 0), region(Term::Counter(1), 1), region(Term::Counter(2), 0)] },
            // Listed again: not counted again.
            Function { name_ref: 33, func_hash: 44, files: vec![0], exprs: vec![], regions: vec![region(Term::Counter(0), 0)] },
            // No record: its regions count, but it gets no window entry.
            Function { name_ref: 55, func_hash: 66, files: vec![0], exprs: vec![], regions: vec![region(Term::Zero, 0)] },
        ],
    };
    let idx = index(Some(m), Ok(records()), &None, "/own", 5);
    // Kept regions: 1 + 2 + 1.
    assert_eq!(total_regions(&idx), Some(4));
    assert_eq!(files(&idx), vec!["/work/src/lib.rs".to_string()]);
    // Two disjoint entries, 3 + 2 counters: the snapshot copies as many.
    assert_eq!(window_size(&idx), 5);
    let all: Vec<AtomicU64> = (0..5).map(|_| AtomicU64::new(0)).collect();
    assert_eq!(snapshot(&reader(&all), all.len(), &[(0, 3), (3, 2)]).len(), window_size(&idx));
    let s = begin(&idx, &reader(&all), all.len());
    for c in &all {
        c.fetch_add(1, Ordering::Relaxed);
    }
    let (raised, regions) = end(&idx, s, &reader(&all), all.len());
    assert_eq!(raised, vec![0, 1, 2, 3, 4]);
    // In counter order: 11/22 (ids 1, 2), then 33/44 (id 0); 55/66 has no counters.
    assert_eq!(regions, vec![1, 2, 0]);
    // Nothing in the code under test: no files, no regions.
    let ps = Some(vec!["/elsewhere/".to_string()]);
    let idx = index(Some(mapping()), Ok(records()), &ps, "/own", 5);
    assert_eq!(total_regions(&idx), Some(0));
    assert!(files(&idx).is_empty());
    // Unreadable: no regions known, no files, the whole array.
    let idx = index(Some(mapping()), Err("why".to_string()), &None, "/own", 9);
    assert_eq!(total_regions(&idx), None);
    assert!(files(&idx).is_empty());
    assert_eq!(window_size(&idx), 9);
}

#[test]
fn a_snapshot_reads_each_counter_of_the_window_once() {
    let asked = std::cell::RefCell::new(Vec::new());
    let read = |i: usize| {
        asked.borrow_mut().push(i);
        10 * i as u64
    };
    assert_eq!(snapshot(&read, 5, &[(3, 4), (1, 1), (7, 2)]), vec![30, 40, 10]);
    assert_eq!(*asked.borrow(), vec![3, 4, 1]);
}
