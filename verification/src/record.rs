//! The record of one test run (one JSON line with what was counted) and the report printed when
//! asked for. The real numbers in them (times, the failure bound, the chances) come already
//! written; everything else is written here.
use vstd::prelude::*;
use crate::report::{escaped_all, group, grouped, quote};
use crate::text::{decimal, decimal_string};
use crate::coverage::Measured;
use crate::estimators::NewCode;

verus! {

broadcast use vstd::string::group_string_axioms;

/// Coverage counted in regions of the code under test.
pub struct RegionCounts {
    pub total_regions: u32,
    pub distinct: u64,
    pub singletons: u64,
    pub k: u64,
    /// The chance of new code counted in regions, written.
    pub p_new: String,
    /// The source files of the code under test.
    pub code_files: Vec<String>,
}

/// What the record says of coverage.
pub struct CoverageCounts {
    pub distinct_counters: u64,
    pub singletons: u64,
    pub k: u64,
    /// The chance of new code counted in counters, written.
    pub p_new: String,
    /// Why coverage was not measured, if so.
    pub error: Option<String>,
    pub window_counters: usize,
    pub coverage_every: usize,
    pub n_coverage: usize,
    /// How long reading the coverage mapping took, written.
    pub mapping_s: String,
    /// Whether the chance of new code is counted in regions (else in counters).
    pub regions_basis: bool,
    /// The counts in regions, when the number of regions is known.
    pub regions: Option<RegionCounts>,
}

/// One test run.
pub struct Record {
    pub test: String,
    pub unix_time: u64,
    pub passed: bool,
    pub fork: bool,
    pub n: u64,
    pub runner_successes: Option<u64>,
    pub counts_agree: Option<bool>,
    pub rejects: u64,
    pub wall_s: String,
    pub body_s: String,
    pub t_s: String,
    pub failure_bound: String,
    pub target: String,
    pub cases_for_target: u64,
    /// What was counted of coverage; none when coverage is not built in.
    pub coverage: Option<CoverageCounts>,
    /// How long computing the numbers took, written.
    pub compute_s: String,
}

/// `s` as a JSON string.
pub open spec fn quoted(s: Seq<char>) -> Seq<char> {
    seq!['"'] + escaped_all(s) + seq!['"']
}

/// `b` in JSON.
pub open spec fn bool_text(b: bool) -> Seq<char> {
    if b {
        "true"@
    } else {
        "false"@
    }
}

/// A count that may be missing, in JSON.
pub open spec fn count_text(n: Option<u64>) -> Seq<char> {
    match n {
        Some(v) => decimal(v as nat),
        None => "null"@,
    }
}

/// A truth that may be unknown, in JSON.
pub open spec fn flag_text(b: Option<bool>) -> Seq<char> {
    match b {
        Some(v) => bool_text(v),
        None => "null"@,
    }
}

/// The names `files`, each as a JSON string, separated by commas.
pub open spec fn quoted_list(files: Seq<Seq<char>>) -> Seq<char>
    decreases files.len(),
{
    if files.len() == 0 {
        Seq::empty()
    } else if files.len() == 1 {
        quoted(files[0])
    } else {
        quoted_list(files.drop_last()) + ","@ + quoted(files.last())
    }
}

/// The fields of the counts in regions.
pub open spec fn regions_text(g: RegionCounts) -> Seq<char> {
    ",\"total_regions\":"@ + decimal(g.total_regions as nat) + ",\"distinct_regions\":"@ + decimal(
        g.distinct as nat,
    ) + ",\"region_singletons\":"@ + decimal(g.singletons as nat) + ",\"k_regions\":"@ + decimal(
        g.k as nat,
    ) + ",\"p_new_regions\":"@ + g.p_new@ + ",\"code_files\":["@ + quoted_list(
        g.code_files@.map_values(|f: String| f@),
    ) + "]"@
}

/// The fields of what was counted of coverage.
pub open spec fn coverage_text(c: CoverageCounts) -> Seq<char> {
    ",\"distinct_counters\":"@ + decimal(c.distinct_counters as nat) + ",\"singletons\":"@
        + decimal(c.singletons as nat) + ",\"k\":"@ + decimal(c.k as nat) + ",\"p_new\":"@
        + c.p_new@ + match c.error {
        Some(e) => ",\"coverage_error\":"@ + quoted(e@),
        None => Seq::empty(),
    } + ",\"window_counters\":"@ + decimal(c.window_counters as nat) + ",\"coverage_every\":"@
        + decimal(c.coverage_every as nat) + ",\"n_coverage\":"@ + decimal(c.n_coverage as nat)
        + ",\"mapping_s\":"@ + c.mapping_s@ + ",\"p_new_basis\":\""@ + (if c.regions_basis {
        "regions"@
    } else {
        "counters"@
    }) + "\""@ + match c.regions {
        Some(g) => regions_text(g),
        None => Seq::empty(),
    }
}

/// The record of the run `r` as one JSON line (without the line end): its fields in order, the
/// coverage fields only when coverage is built in, the counts in regions only when the number of
/// regions is known, and the reason coverage was not measured only when there is one.
pub open spec fn record_text(r: Record) -> Seq<char> {
    "{\"test\":"@ + quoted(r.test@) + ",\"unix_time\":"@ + decimal(r.unix_time as nat)
        + ",\"passed\":"@ + bool_text(r.passed) + ",\"fork\":"@ + bool_text(r.fork) + ",\"n\":"@
        + decimal(r.n as nat) + ",\"runner_successes\":"@ + count_text(r.runner_successes)
        + ",\"counts_agree\":"@ + flag_text(r.counts_agree) + ",\"rejects\":"@ + decimal(
        r.rejects as nat,
    ) + ",\"wall_s\":"@ + r.wall_s@ + ",\"body_s\":"@ + r.body_s@ + ",\"t_s\":"@ + r.t_s@
        + ",\"failure_bound\":"@ + r.failure_bound@ + ",\"target\":"@ + r.target@
        + ",\"cases_for_target\":"@ + decimal(r.cases_for_target as nat) + ",\"coverage\":"@
        + bool_text(r.coverage is Some) + match r.coverage {
        Some(c) => coverage_text(c),
        None => Seq::empty(),
    } + ",\"compute_s\":"@ + r.compute_s@ + "}"@
}

fn put_decimal(out: &mut String, n: u64)
    ensures
        final(out)@ == old(out)@ + decimal(n as nat),
{
    let d = decimal_string(n as u128);
    out.append(d.as_str());
}

fn put_bool(out: &mut String, b: bool)
    ensures
        final(out)@ == old(out)@ + bool_text(b),
{
    if b {
        out.append("true");
    } else {
        out.append("false");
    }
}

fn put_quoted(out: &mut String, s: &str)
    ensures
        final(out)@ == old(out)@ + quoted(s@),
{
    let q = quote(s);
    out.append(q.as_str());
}

fn quoted_list_exec(files: &Vec<String>) -> (r: String)
    ensures
        r@ == quoted_list(files@.map_values(|f: String| f@)),
{
    let ghost fs = files@.map_values(|f: String| f@);
    let mut out = String::new();
    let mut i: usize = 0;
    assert(fs.take(0) =~= Seq::<Seq<char>>::empty());
    while i < files.len()
        invariant
            i <= files.len(),
            fs == files@.map_values(|f: String| f@),
            out@ == quoted_list(fs.take(i as int)),
        decreases files.len() - i,
    {
        let ghost before = out@;
        assert(fs.take(i + 1).drop_last() =~= fs.take(i as int));
        assert(fs[i as int] == files@[i as int]@);
        if i > 0 {
            out.append(",");
        }
        put_quoted(&mut out, files[i].as_str());
        proof {
            if i == 0 {
                assert(before =~= Seq::<char>::empty());
                assert(out@ =~= quoted(fs[0]));
            }
            assert(fs.take(i + 1).last() == fs[i as int]);
        }
        i += 1;
    }
    assert(fs.take(i as int) =~= fs);
    out
}

fn regions_exec(g: &RegionCounts) -> (r: String)
    ensures
        r@ == regions_text(*g),
{
    let mut out = String::from_str(",\"total_regions\":");
    put_decimal(&mut out, g.total_regions as u64);
    out.append(",\"distinct_regions\":");
    put_decimal(&mut out, g.distinct);
    out.append(",\"region_singletons\":");
    put_decimal(&mut out, g.singletons);
    out.append(",\"k_regions\":");
    put_decimal(&mut out, g.k);
    out.append(",\"p_new_regions\":");
    out.append(g.p_new.as_str());
    out.append(",\"code_files\":[");
    let list = quoted_list_exec(&g.code_files);
    out.append(list.as_str());
    out.append("]");
    out
}

fn coverage_exec(c: &CoverageCounts) -> (r: String)
    ensures
        r@ == coverage_text(*c),
{
    let mut out = String::from_str(",\"distinct_counters\":");
    put_decimal(&mut out, c.distinct_counters);
    out.append(",\"singletons\":");
    put_decimal(&mut out, c.singletons);
    out.append(",\"k\":");
    put_decimal(&mut out, c.k);
    out.append(",\"p_new\":");
    out.append(c.p_new.as_str());
    let ghost before = out@;
    match &c.error {
        Some(e) => {
            out.append(",\"coverage_error\":");
            put_quoted(&mut out, e.as_str());
        },
        None => {
            assert(before + Seq::<char>::empty() =~= before);
        },
    }
    out.append(",\"window_counters\":");
    put_decimal(&mut out, c.window_counters as u64);
    out.append(",\"coverage_every\":");
    put_decimal(&mut out, c.coverage_every as u64);
    out.append(",\"n_coverage\":");
    put_decimal(&mut out, c.n_coverage as u64);
    out.append(",\"mapping_s\":");
    out.append(c.mapping_s.as_str());
    out.append(",\"p_new_basis\":\"");
    if c.regions_basis {
        out.append("regions");
    } else {
        out.append("counters");
    }
    out.append("\"");
    let ghost before = out@;
    match &c.regions {
        Some(g) => {
            let t = regions_exec(g);
            out.append(t.as_str());
        },
        None => {
            assert(before + Seq::<char>::empty() =~= before);
        },
    }
    out
}

/// The record of the run `r`, as one JSON line (see `record_text`).
pub fn record_line(r: &Record) -> (s: String)
    ensures
        s@ == record_text(*r),
{
    let mut out = String::from_str("{\"test\":");
    put_quoted(&mut out, r.test.as_str());
    out.append(",\"unix_time\":");
    put_decimal(&mut out, r.unix_time);
    out.append(",\"passed\":");
    put_bool(&mut out, r.passed);
    out.append(",\"fork\":");
    put_bool(&mut out, r.fork);
    out.append(",\"n\":");
    put_decimal(&mut out, r.n);
    out.append(",\"runner_successes\":");
    match r.runner_successes {
        Some(v) => put_decimal(&mut out, v),
        None => out.append("null"),
    }
    out.append(",\"counts_agree\":");
    match r.counts_agree {
        Some(v) => put_bool(&mut out, v),
        None => out.append("null"),
    }
    out.append(",\"rejects\":");
    put_decimal(&mut out, r.rejects);
    out.append(",\"wall_s\":");
    out.append(r.wall_s.as_str());
    out.append(",\"body_s\":");
    out.append(r.body_s.as_str());
    out.append(",\"t_s\":");
    out.append(r.t_s.as_str());
    out.append(",\"failure_bound\":");
    out.append(r.failure_bound.as_str());
    out.append(",\"target\":");
    out.append(r.target.as_str());
    out.append(",\"cases_for_target\":");
    put_decimal(&mut out, r.cases_for_target);
    out.append(",\"coverage\":");
    put_bool(&mut out, r.coverage.is_some());
    let ghost before = out@;
    match &r.coverage {
        Some(c) => {
            let t = coverage_exec(c);
            out.append(t.as_str());
        },
        None => {
            assert(before + Seq::<char>::empty() =~= before);
        },
    }
    out.append(",\"compute_s\":");
    out.append(r.compute_s.as_str());
    out.append("}");
    out
}

// ---------------------------------------------------------------------------------------------
// The report.
/// What the report says of coverage.
pub struct ReportCoverage {
    /// The number of regions of the code under test, when it is known.
    pub total_regions: Option<u32>,
    pub distinct_regions: u64,
    /// The share of the regions that ran, in percent, written.
    pub percent: String,
    pub distinct_counters: u64,
    /// The chance of new code, written.
    pub chance: String,
    /// After how many more test cases new code is expected.
    pub next_after: u64,
    /// How long those test cases take, written.
    pub next_time: String,
    /// Whether the chance of new code is counted in regions (else in counters).
    pub regions_basis: bool,
    pub coverage_every: usize,
    pub n_coverage: u64,
}

/// How far the failure bound is from the target.
pub enum Target {
    /// Below the target `target` after `more` more test cases, which take `time`, `needed` in all.
    After { target: String, more: u64, time: String, needed: u64 },
    /// Already below the target `target`.
    Below { target: String },
}

/// What the report of one test run says.
pub struct Report {
    pub passed: bool,
    pub n: u64,
    /// The runner's statistics, as it writes them.
    pub stats: String,
    /// Why coverage was not measured, if so.
    pub error: Option<String>,
    /// What was counted of coverage; none when coverage is not built in.
    pub coverage: Option<ReportCoverage>,
    /// The failure bound, written.
    pub failure: String,
    pub target: Target,
    /// Whether `n` agrees with the runner's count, when known.
    pub consistent: Option<bool>,
    pub successes: Option<u64>,
}

/// `n` with thousands separators.
pub open spec fn grouped_number(n: u64) -> Seq<char> {
    grouped(decimal(n as nat))
}

/// A count that may be missing, as Rust's `Debug` writes an `Option`.
pub open spec fn debug_count(n: Option<u64>) -> Seq<char> {
    match n {
        Some(v) => "Some("@ + decimal(v as nat) + ")"@,
        None => "None"@,
    }
}

/// The report's line on how much ran.
pub open spec fn ran_line(c: ReportCoverage) -> Seq<char> {
    match c.total_regions {
        Some(total) if total > 0 => "\tcoverage: "@ + grouped_number(c.distinct_regions) + " of "@
            + grouped_number(total as u64) + " regions ("@ + c.percent@
            + "%) in the code under test, "@ + grouped_number(c.distinct_counters) + " counters\n"@,
        _ => "\tcoverage: "@ + grouped_number(c.distinct_counters) + " counters raised\n"@,
    }
}

/// The report's line on the chance of new code.
pub open spec fn new_code_line(c: ReportCoverage) -> Seq<char> {
    "\tnew code: about "@ + c.chance@ + " chance per test case (next new code after ~"@
        + grouped_number(c.next_after) + " more, ~"@ + c.next_time@ + ")"@ + (if c.regions_basis {
        Seq::empty()
    } else {
        " (counted in counters: regions unavailable)"@
    }) + "\n"@
}

/// The report's line on sampling, when coverage is taken for every k-th test case only.
pub open spec fn every_line(c: ReportCoverage, n: u64) -> Seq<char> {
    if c.coverage_every > 1 {
        "\t          coverage taken for every "@ + decimal(c.coverage_every as nat)
            + "th test case: "@ + grouped_number(c.n_coverage) + " of "@ + grouped_number(n)
            + "\n"@
    } else {
        Seq::empty()
    }
}

/// The coverage lines of the report.
pub open spec fn coverage_lines(c: ReportCoverage, n: u64) -> Seq<char> {
    ran_line(c) + new_code_line(c) + every_line(c, n)
}

/// The target line of the report.
pub open spec fn target_line(t: Target) -> Seq<char> {
    match t {
        Target::After { target, more, time, needed } => "\t         below "@ + target@ + " after "@
            + grouped_number(more) + " more (~"@ + time@ + "): PROPTEST_CASES="@ + decimal(
            needed as nat,
        ) + "\n"@,
        Target::Below { target } => "\t         already below "@ + target@ + "\n"@,
    }
}

/// The report of the run `r`: nothing to estimate after a counterexample; else the number of
/// passing test cases, the runner's statistics, why coverage was not measured (if so), the
/// coverage and new-code lines (when coverage is built in), the failure bound and the target,
/// and a note when the counts disagree.
pub open spec fn report_text(r: Report) -> Seq<char> {
    if !r.passed {
        "proptest: counterexample found, nothing to estimate\n"@
    } else {
        "proptest: "@ + grouped_number(r.n) + " passing test cases\n"@ + r.stats@ + match r.error {
            Some(why) => "\tcoverage: not measured: "@ + why@ + "\n"@,
            None => Seq::empty(),
        } + match r.coverage {
            Some(c) => coverage_lines(c, r.n),
            None => Seq::empty(),
        } + "\tfailure: at most "@ + r.failure@ + " chance per test case (95% confidence)\n"@
            + target_line(r.target) + if r.consistent == Some(false) {
            "\tnote: counted "@ + decimal(r.n as nat) + " passing test cases, the runner counted "@
                + debug_count(r.successes) + "\n"@
        } else {
            Seq::empty()
        }
    }
}

fn put_grouped(out: &mut String, n: u64)
    ensures
        final(out)@ == old(out)@ + grouped_number(n),
{
    let g = group(n);
    out.append(g.as_str());
}

fn ran_line_exec(c: &ReportCoverage) -> (r: String)
    ensures
        r@ == ran_line(*c),
{
    let mut out = String::from_str("\tcoverage: ");
    match c.total_regions {
        Some(total) if total > 0 => {
            put_grouped(&mut out, c.distinct_regions);
            out.append(" of ");
            put_grouped(&mut out, total as u64);
            out.append(" regions (");
            out.append(c.percent.as_str());
            out.append("%) in the code under test, ");
            put_grouped(&mut out, c.distinct_counters);
            out.append(" counters\n");
        },
        _ => {
            put_grouped(&mut out, c.distinct_counters);
            out.append(" counters raised\n");
        },
    }
    out
}

fn new_code_line_exec(c: &ReportCoverage) -> (r: String)
    ensures
        r@ == new_code_line(*c),
{
    let mut out = String::from_str("\tnew code: about ");
    out.append(c.chance.as_str());
    out.append(" chance per test case (next new code after ~");
    put_grouped(&mut out, c.next_after);
    out.append(" more, ~");
    out.append(c.next_time.as_str());
    out.append(")");
    let ghost before = out@;
    if !c.regions_basis {
        out.append(" (counted in counters: regions unavailable)");
    } else {
        assert(before + Seq::<char>::empty() =~= before);
    }
    out.append("\n");
    out
}

fn every_line_exec(c: &ReportCoverage, n: u64) -> (r: String)
    ensures
        r@ == every_line(*c, n),
{
    if c.coverage_every > 1 {
        let mut out = String::from_str("\t          coverage taken for every ");
        put_decimal(&mut out, c.coverage_every as u64);
        out.append("th test case: ");
        put_grouped(&mut out, c.n_coverage);
        out.append(" of ");
        put_grouped(&mut out, n);
        out.append("\n");
        out
    } else {
        String::new()
    }
}

fn coverage_lines_exec(c: &ReportCoverage, n: u64) -> (r: String)
    ensures
        r@ == coverage_lines(*c, n),
{
    let mut out = ran_line_exec(c);
    let b = new_code_line_exec(c);
    out.append(b.as_str());
    let e = every_line_exec(c, n);
    out.append(e.as_str());
    out
}

/// The report of the run `r` (see `report_text`).
pub fn report_block(r: &Report) -> (s: String)
    ensures
        s@ == report_text(*r),
{
    if !r.passed {
        return String::from_str("proptest: counterexample found, nothing to estimate\n");
    }
    let mut out = String::from_str("proptest: ");
    put_grouped(&mut out, r.n);
    out.append(" passing test cases\n");
    out.append(r.stats.as_str());
    let ghost before = out@;
    match &r.error {
        Some(why) => {
            let mut line = String::from_str("\tcoverage: not measured: ");
            line.append(why.as_str());
            line.append("\n");
            out.append(line.as_str());
        },
        None => {
            assert(before + Seq::<char>::empty() =~= before);
        },
    }
    let ghost before = out@;
    match &r.coverage {
        Some(c) => {
            let t = coverage_lines_exec(c, r.n);
            out.append(t.as_str());
        },
        None => {
            assert(before + Seq::<char>::empty() =~= before);
        },
    }
    out.append("\tfailure: at most ");
    out.append(r.failure.as_str());
    out.append(" chance per test case (95% confidence)\n");
    let mut line = String::new();
    match &r.target {
        Target::After { target, more, time, needed } => {
            line.append("\t         below ");
            line.append(target.as_str());
            line.append(" after ");
            put_grouped(&mut line, *more);
            line.append(" more (~");
            line.append(time.as_str());
            line.append("): PROPTEST_CASES=");
            put_decimal(&mut line, *needed);
            line.append("\n");
        },
        Target::Below { target } => {
            line.append("\t         already below ");
            line.append(target.as_str());
            line.append("\n");
        },
    }
    out.append(line.as_str());
    let ghost before = out@;
    if r.consistent == Some(false) {
        let mut note = String::from_str("\tnote: counted ");
        put_decimal(&mut note, r.n);
        note.append(" passing test cases, the runner counted ");
        match r.successes {
            Some(v) => {
                note.append("Some(");
                put_decimal(&mut note, v);
                note.append(")");
            },
            None => note.append("None"),
        }
        note.append("\n");
        out.append(note.as_str());
    } else {
        assert(before + Seq::<char>::empty() =~= before);
    }
    out
}

// ---------------------------------------------------------------------------------------------
// The trace.
/// The numbers `v`, separated by `, ` (as Rust's `Debug` writes a list's items).
pub open spec fn numbers_text(v: Seq<u32>) -> Seq<char>
    decreases v.len(),
{
    if v.len() == 0 {
        Seq::empty()
    } else if v.len() == 1 {
        decimal(v[0] as nat)
    } else {
        numbers_text(v.drop_last()) + ", "@ + decimal(v.last() as nat)
    }
}

/// The lists `sets`, each in brackets, separated by commas.
pub open spec fn lists_text(sets: Seq<Seq<u32>>) -> Seq<char>
    decreases sets.len(),
{
    if sets.len() == 0 {
        Seq::empty()
    } else if sets.len() == 1 {
        "["@ + numbers_text(sets[0]) + "]"@
    } else {
        lists_text(sets.drop_last()) + ","@ + "["@ + numbers_text(sets.last()) + "]"@
    }
}

/// The trace of the run of `test` at `unix_time`: for each passing test case whose coverage
/// was taken, the counters (`sets`) and the regions (`region_sets`) it ran.
pub open spec fn trace_text(test: Seq<char>, unix_time: u64, sets: Seq<Seq<u32>>, region_sets: Seq<Seq<u32>>) -> Seq<char> {
    "{\"test\":"@ + quoted(test) + ",\"unix_time\":"@ + decimal(unix_time as nat) + ",\"sets\":["@
        + lists_text(sets) + "],\"region_sets\":["@ + lists_text(region_sets) + "]}"@
}

fn numbers_exec(v: &Vec<u32>) -> (r: String)
    ensures
        r@ == numbers_text(v@),
{
    let mut out = String::new();
    let mut i: usize = 0;
    assert(v@.take(0) =~= Seq::<u32>::empty());
    while i < v.len()
        invariant
            i <= v.len(),
            out@ == numbers_text(v@.take(i as int)),
        decreases v.len() - i,
    {
        let ghost before = out@;
        assert(v@.take(i + 1).drop_last() =~= v@.take(i as int));
        assert(v@.take(i + 1).last() == v@[i as int]);
        if i > 0 {
            out.append(", ");
        }
        put_decimal(&mut out, v[i] as u64);
        proof {
            if i == 0 {
                assert(before =~= Seq::<char>::empty());
                assert(out@ =~= decimal(v@[0] as nat));
            }
        }
        i += 1;
    }
    assert(v@.take(i as int) =~= v@);
    out
}

fn lists_exec(sets: &Vec<Vec<u32>>) -> (r: String)
    ensures
        r@ == lists_text(sets@.map_values(|s: Vec<u32>| s@)),
{
    let ghost ss = sets@.map_values(|s: Vec<u32>| s@);
    let mut out = String::new();
    let mut i: usize = 0;
    assert(ss.take(0) =~= Seq::<Seq<u32>>::empty());
    while i < sets.len()
        invariant
            i <= sets.len(),
            ss == sets@.map_values(|s: Vec<u32>| s@),
            out@ == lists_text(ss.take(i as int)),
        decreases sets.len() - i,
    {
        let ghost before = out@;
        assert(ss.take(i + 1).drop_last() =~= ss.take(i as int));
        assert(ss.take(i + 1).last() == ss[i as int]);
        assert(ss[i as int] == sets@[i as int]@);
        if i > 0 {
            out.append(",");
        }
        out.append("[");
        let t = numbers_exec(&sets[i]);
        out.append(t.as_str());
        out.append("]");
        proof {
            if i == 0 {
                assert(before =~= Seq::<char>::empty());
                assert(out@ =~= "["@ + numbers_text(ss[0]) + "]"@);
            }
        }
        i += 1;
    }
    assert(ss.take(i as int) =~= ss);
    out
}

/// The trace line of a run (see `trace_text`).
pub fn trace_line(test: &str, unix_time: u64, sets: &Vec<Vec<u32>>, region_sets: &Vec<Vec<u32>>) -> (s: String)
    ensures
        s@ == trace_text(
            test@,
            unix_time,
            sets@.map_values(|v: Vec<u32>| v@),
            region_sets@.map_values(|v: Vec<u32>| v@),
        ),
{
    let mut out = String::from_str("{\"test\":");
    put_quoted(&mut out, test);
    out.append(",\"unix_time\":");
    put_decimal(&mut out, unix_time);
    out.append(",\"sets\":[");
    let a = lists_exec(sets);
    out.append(a.as_str());
    out.append("],\"region_sets\":[");
    let b = lists_exec(region_sets);
    out.append(b.as_str());
    out.append("]}");
    out
}

// ---------------------------------------------------------------------------------------------
// From what was measured to what is written.
fn copy_error(e: &Option<String>) -> (r: Option<String>)
    ensures
        r == *e,
{
    match e {
        Some(x) => Some(x.clone()),
        None => None,
    }
}

/// What the record says of coverage: the counts in counters, and in regions when the number of
/// regions is known; the basis and the reason coverage was not measured as `m` has them. The
/// real numbers and the files of the code under test come written.
pub fn coverage_counts(
    m: &Measured,
    counters: &NewCode,
    regions: &NewCode,
    p_new: String,
    p_new_regions: String,
    window_counters: usize,
    coverage_every: usize,
    n_coverage: usize,
    mapping_s: String,
    code_files: Vec<String>,
) -> (c: CoverageCounts)
    ensures
        c.distinct_counters == counters.distinct,
        c.singletons == counters.singletons,
        c.k == counters.k,
        c.p_new == p_new,
        c.error == m.error,
        c.window_counters == window_counters,
        c.coverage_every == coverage_every,
        c.n_coverage == n_coverage,
        c.mapping_s == mapping_s,
        c.regions_basis == m.regions,
        c.regions is Some <==> m.total_regions is Some,
        c.regions matches Some(g) ==> {
            &&& g.total_regions == m.total_regions->Some_0
            &&& g.distinct == regions.distinct
            &&& g.singletons == regions.singletons
            &&& g.k == regions.k
            &&& g.p_new == p_new_regions
            &&& g.code_files == code_files
        },
{
    let rg = match m.total_regions {
        Some(total) => Some(
            RegionCounts {
                total_regions: total,
                distinct: regions.distinct,
                singletons: regions.singletons,
                k: regions.k,
                p_new: p_new_regions,
                code_files,
            },
        ),
        None => None,
    };
    CoverageCounts {
        distinct_counters: counters.distinct,
        singletons: counters.singletons,
        k: counters.k,
        p_new,
        error: copy_error(&m.error),
        window_counters,
        coverage_every,
        n_coverage,
        mapping_s,
        regions_basis: m.regions,
        regions: rg,
    }
}

/// The chance of new code the report gives, as a fraction: counted in regions when `m` says
/// they can be, else in counters.
pub fn basis_chance(m: &Measured, counters: &NewCode, regions: &NewCode) -> (r: (u64, u64))
    ensures
        r == (if m.regions {
            (regions.chance_num, regions.chance_den)
        } else {
            (counters.chance_num, counters.chance_den)
        }),
{
    if m.regions {
        (regions.chance_num, regions.chance_den)
    } else {
        (counters.chance_num, counters.chance_den)
    }
}

/// What the report says of coverage: the counts, the number of regions and the basis as `m` has
/// them; the real numbers (the share of regions, the chance from `basis_chance` and what follows
/// from it) come written.
pub fn report_coverage(
    m: &Measured,
    counters: &NewCode,
    regions: &NewCode,
    percent: String,
    chance: String,
    next_after: u64,
    next_time: String,
    coverage_every: usize,
    n_coverage: u64,
) -> (c: ReportCoverage)
    ensures
        c.total_regions == m.total_regions,
        c.distinct_regions == regions.distinct,
        c.percent == percent,
        c.distinct_counters == counters.distinct,
        c.chance == chance,
        c.next_after == next_after,
        c.next_time == next_time,
        c.regions_basis == m.regions,
        c.coverage_every == coverage_every,
        c.n_coverage == n_coverage,
{
    ReportCoverage {
        total_regions: m.total_regions,
        distinct_regions: regions.distinct,
        percent,
        distinct_counters: counters.distinct,
        chance,
        next_after,
        next_time,
        regions_basis: m.regions,
        coverage_every,
        n_coverage,
    }
}

/// The report of a run, the reason coverage was not measured taken from `m`.
pub fn report_of(
    passed: bool,
    n: u64,
    stats: String,
    m: &Measured,
    coverage: Option<ReportCoverage>,
    failure: String,
    target: Target,
    consistent: Option<bool>,
    successes: Option<u64>,
) -> (r: Report)
    ensures
        r.passed == passed,
        r.n == n,
        r.stats == stats,
        r.error == m.error,
        r.coverage == coverage,
        r.failure == failure,
        r.target == target,
        r.consistent == consistent,
        r.successes == successes,
{
    Report {
        passed,
        n,
        stats,
        error: copy_error(&m.error),
        coverage,
        failure,
        target,
        consistent,
        successes,
    }
}

/// The fields of the counts in counters, up to and with the chance.
pub open spec fn counters_fields(c: CoverageCounts) -> Seq<char> {
    ",\"distinct_counters\":"@ + decimal(c.distinct_counters as nat) + ",\"singletons\":"@
        + decimal(c.singletons as nat) + ",\"k\":"@ + decimal(c.k as nat) + ",\"p_new\":"@
        + c.p_new@
}

/// The field that says why coverage was not measured: none when it was.
pub open spec fn error_field(e: Option<String>) -> Seq<char> {
    match e {
        Some(why) => ",\"coverage_error\":"@ + quoted(why@),
        None => Seq::empty(),
    }
}

/// The word the record gives the basis.
pub open spec fn basis_word(regions: bool) -> Seq<char> {
    if regions {
        "regions"@
    } else {
        "counters"@
    }
}

/// The written record follows what was measured: its basis is `regions` exactly when the
/// regions can be used, it names why coverage was not measured exactly when there is a reason,
/// and it has the region fields exactly when the number of regions is known.
pub proof fn law_record_follows_measurement(m: Measured, c: CoverageCounts)
    requires
        c.regions_basis == m.regions,
        c.error == m.error,
        c.regions is Some <==> m.total_regions is Some,
    ensures
        coverage_text(c) == counters_fields(c) + error_field(m.error) + ",\"window_counters\":"@
            + decimal(c.window_counters as nat) + ",\"coverage_every\":"@ + decimal(
            c.coverage_every as nat,
        ) + ",\"n_coverage\":"@ + decimal(c.n_coverage as nat) + ",\"mapping_s\":"@ + c.mapping_s@
            + ",\"p_new_basis\":\""@ + basis_word(m.regions) + "\""@ + match c.regions {
            Some(g) => regions_text(g),
            None => Seq::empty(),
        },
        m.total_regions is Some <==> c.regions is Some,
{
}

/// What the report's chance of new code line says before its basis note.
pub open spec fn chance_head(c: ReportCoverage) -> Seq<char> {
    "\tnew code: about "@ + c.chance@ + " chance per test case (next new code after ~"@
        + grouped_number(c.next_after) + " more, ~"@ + c.next_time@ + ")"@
}

/// The note that the chance is counted in counters, when the regions cannot be used.
pub open spec fn basis_note(regions: bool) -> Seq<char> {
    if regions {
        Seq::empty()
    } else {
        " (counted in counters: regions unavailable)"@
    }
}

/// The printed report follows what was measured: the chance line says it is counted in counters
/// exactly when the regions cannot be used, the coverage line counts regions exactly when there
/// are some, and the report says why coverage was not measured exactly when there is a reason.
pub proof fn law_report_follows_measurement(m: Measured, rc: ReportCoverage, rep: Report)
    requires
        rc.regions_basis == m.regions,
        rc.total_regions == m.total_regions,
        rep.error == m.error,
        rep.coverage == Some(rc),
        rep.passed,
    ensures
        new_code_line(rc) == chance_head(rc) + basis_note(m.regions) + "\n"@,
        ran_line(rc) == (match m.total_regions {
            Some(t) if t > 0 => "\tcoverage: "@ + grouped_number(rc.distinct_regions) + " of "@
                + grouped_number(t as u64) + " regions ("@ + rc.percent@
                + "%) in the code under test, "@ + grouped_number(rc.distinct_counters)
                + " counters\n"@,
            _ => "\tcoverage: "@ + grouped_number(rc.distinct_counters) + " counters raised\n"@,
        }),
        report_text(rep) == "proptest: "@ + grouped_number(rep.n) + " passing test cases\n"@
            + rep.stats@ + match m.error {
            Some(why) => "\tcoverage: not measured: "@ + why@ + "\n"@,
            None => Seq::empty(),
        } + coverage_lines(rc, rep.n) + "\tfailure: at most "@ + rep.failure@
            + " chance per test case (95% confidence)\n"@ + target_line(rep.target)
            + if rep.consistent == Some(false) {
            "\tnote: counted "@ + decimal(rep.n as nat) + " passing test cases, the runner counted "@
                + debug_count(rep.successes) + "\n"@
        } else {
            Seq::empty()
        },
{
}

} // verus!
