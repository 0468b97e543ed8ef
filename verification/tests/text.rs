use residual_risk::text::{chars_of, contains_exec, decimal_string, insert_sorted, lex_less, starts_with, string_of};

#[test]
fn chars_round_trip() {
    let v = chars_of("héllo");
    assert_eq!(v, vec!['h', 'é', 'l', 'l', 'o']);
    assert_eq!(string_of(&v), "héllo");
}

#[test]
fn prefix_and_substring() {
    let s = chars_of("/home/u/.cargo/registry/x.rs");
    assert!(starts_with(&s, &chars_of("/home")));
    assert!(!starts_with(&s, &chars_of("/rustc/")));
    assert!(contains_exec(&s, &chars_of("/.cargo/registry/")));
    assert!(!contains_exec(&s, &chars_of("/.cargo/git/")));
    assert!(contains_exec(&s, &chars_of("")));
}

#[test]
fn decimals() {
    assert_eq!(decimal_string(0), "0");
    assert_eq!(decimal_string(42), "42");
    assert_eq!(decimal_string(u128::MAX), "340282366920938463463374607431768211455");
}

#[test]
fn sorted_insertion_skips_duplicates() {
    let mut v: Vec<String> = Vec::new();
    for s in ["b", "a", "c", "a", "ab"] {
        insert_sorted(&mut v, String::from(s));
    }
    assert_eq!(v, vec!["a", "ab", "b", "c"]);
    assert!(lex_less(&chars_of("a"), &chars_of("ab")));
    assert!(!lex_less(&chars_of("b"), &chars_of("ab")));
}
