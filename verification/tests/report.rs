use residual_risk::report::{coverage_every, field, group, quote, sanitize};

#[test]
fn field_reads_the_runner_count() {
    let stats = "Test Runner stats:\n  successes: 256\n  local rejects: 3\n";
    assert_eq!(field(stats, "successes:"), Some(256));
    assert_eq!(field(stats, "local rejects:"), Some(3));
    assert_eq!(field(stats, "global rejects:"), None);
}

#[test]
fn field_takes_the_first_matching_line() {
    let stats = "successes: 4\nsuccesses: 5";
    assert_eq!(field(stats, "successes:"), Some(4));
}

#[test]
fn field_rejects_what_is_not_a_number() {
    assert_eq!(field("successes: many", "successes:"), None);
    assert_eq!(field("successes:", "successes:"), None);
    assert_eq!(field("successes: +7", "successes:"), Some(7));
    assert_eq!(field("successes: 18446744073709551616", "successes:"), None);
    assert_eq!(field("successes: 18446744073709551615", "successes:"), Some(u64::MAX));
}

#[test]
fn field_handles_crlf_lines() {
    assert_eq!(field("a: 1\r\nsuccesses: 12\r\n", "successes:"), Some(12));
}

#[test]
fn sanitize_keeps_letters_digits_dash_underscore() {
    assert_eq!(sanitize("counting::counts_replays-and-rejects"), "counting__counts_replays-and-rejects");
    assert_eq!(sanitize("src/lib.rs:12"), "src_lib_rs_12");
    assert_eq!(sanitize("é"), "_");
}

#[test]
fn quote_escapes_json() {
    assert_eq!(quote("plain"), "\"plain\"");
    assert_eq!(quote("a\"b\\c"), "\"a\\\"b\\\\c\"");
    assert_eq!(quote("x\ny\u{1}"), "\"x\\u000ay\\u0001\"");
    assert_eq!(quote(""), "\"\"");
}

#[test]
fn group_inserts_thousands_separators() {
    assert_eq!(group(0), "0");
    assert_eq!(group(999), "999");
    assert_eq!(group(2739), "2,739");
    assert_eq!(group(1000000), "1,000,000");
    assert_eq!(group(u64::MAX), "18,446,744,073,709,551,615");
}

#[test]
fn coverage_every_defaults_to_one() {
    assert_eq!(coverage_every(None), 1);
    assert_eq!(coverage_every(Some("4")), 4);
    assert_eq!(coverage_every(Some("+4")), 4);
    assert_eq!(coverage_every(Some("0")), 1);
    assert_eq!(coverage_every(Some("-2")), 1);
    assert_eq!(coverage_every(Some(" 4")), 1);
    assert_eq!(coverage_every(Some("four")), 1);
    assert_eq!(coverage_every(Some("")), 1);
}

#[test]
fn grouping_only_inserts_commas() {
    for n in [0u64, 7, 1234, 98765, 1234567, 10000000000] {
        assert_eq!(group(n).replace(',', ""), n.to_string());
    }
}
