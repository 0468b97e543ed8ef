use residual_risk::estimators::new_code;

fn chance(num: u64, den: u64) -> f64 {
    num as f64 / den as f64
}

#[test]
fn worked_example_of_the_readme() {
    // Three test cases: X1 = {a,b,c}, X2 = {a,b}, X3 = {a,d,e}.
    let (a, b, c, d, e) = (0, 1, 2, 3, 4);
    let r = new_code(&[vec![a, b, c], vec![a, b], vec![a, d, e]]);
    assert_eq!(r.k, 2);
    assert_eq!(r.singletons, 3);
    assert_eq!(r.distinct, 5);
    assert!((chance(r.chance_num, r.chance_den) - 2.0 / 3.0).abs() < 1e-12);
}

#[test]
fn no_singleton_gives_the_laplace_floor() {
    let sets = vec![vec![7, 8]; 256];
    let r = new_code(&sets);
    assert_eq!(r.k, 0);
    assert!((chance(r.chance_num, r.chance_den) - 1.0 / 258.0).abs() < 1e-12);
}

#[test]
fn no_test_case_gives_chance_one() {
    let sets: Vec<Vec<u32>> = Vec::new();
    let r = new_code(&sets);
    assert_eq!((r.k, r.singletons, r.distinct), (0, 0, 0));
    assert_eq!((r.chance_num, r.chance_den), (1, 1));
}

#[test]
fn chance_is_k_over_n_above_the_floor() {
    // Each of four test cases runs an element of its own: k = n = 4.
    let r = new_code(&[vec![0], vec![1], vec![2], vec![3, 0]]);
    assert_eq!(r.k, 3);
    assert_eq!(r.singletons, 3);
    assert_eq!(r.distinct, 4);
    assert_eq!((r.chance_num, r.chance_den), (3, 4));
}

#[test]
fn repeated_elements_in_one_set_are_not_singletons() {
    // An element listed twice by one test case has run twice.
    let r = new_code(&[vec![5, 5], vec![6]]);
    assert_eq!(r.k, 1);
    assert_eq!(r.singletons, 1);
    assert_eq!(r.distinct, 2);
    assert_eq!((r.chance_num, r.chance_den), (1, 2));
}

#[test]
fn counts_are_ordered() {
    let r = new_code(&[vec![1, 2, 3], vec![2, 3, 4], vec![9]]);
    assert!(r.k <= 3);
    assert!(r.k <= r.singletons);
    assert!(r.singletons <= r.distinct);
    assert_eq!(r.singletons, 3);
    assert_eq!(r.distinct, 5);
    assert_eq!(r.k, 3);
}

#[test]
fn distinct_elements_are_at_most_their_range() {
    let r = new_code(&[vec![0, 1, 2], vec![2, 1], vec![0]]);
    assert!(r.distinct <= 3);
    assert_eq!(r.distinct, 3);
    assert_eq!(r.singletons, 0);
    assert_eq!((r.chance_num, r.chance_den), (1, 5));
}

#[test]
fn reordering_the_test_cases_changes_nothing() {
    let a = new_code(&[vec![0, 1, 2], vec![0, 1], vec![0, 3, 4]]);
    let b = new_code(&[vec![4, 3, 0], vec![2, 0, 1], vec![1, 0]]);
    assert_eq!((a.k, a.singletons, a.distinct), (b.k, b.singletons, b.distinct));
    assert_eq!((a.chance_num, a.chance_den), (b.chance_num, b.chance_den));
    assert!(a.chance_num <= a.chance_den);
}
