//! The chance of new code, computed from the passing test cases of one campaign.
//!
//! A coverage element is a *singleton* if exactly one test case ran it; `k` is the number of test
//! cases that ran a singleton. The chance that the next test case runs an element no test case
//! has run is estimated as max(k/n, 1/(n+2)).
use vstd::prelude::*;
use vstd::multiset::Multiset;

verus! {

/// How often `e` occurs in `s`.
pub open spec fn count_in(s: Seq<u32>, e: int) -> int
    decreases s.len(),
{
    if s.len() == 0 {
        0
    } else {
        count_in(s.drop_last(), e) + if s.last() == e {
            1int
        } else {
            0int
        }
    }
}

/// How many test cases ran element `e` (a test case that lists it twice counts twice).
pub open spec fn occurrences(sets: Seq<Seq<u32>>, e: int) -> int
    decreases sets.len(),
{
    if sets.len() == 0 {
        0
    } else {
        occurrences(sets.drop_last(), e) + count_in(sets.last(), e)
    }
}

/// The number of elements below `hi` that occur exactly once (`once`) or at all.
pub open spec fn count_elements(sets: Seq<Seq<u32>>, once: bool, hi: int) -> int
    decreases hi,
{
    if hi <= 0 {
        0
    } else {
        count_elements(sets, once, hi - 1) + if (once && occurrences(sets, hi - 1) == 1) || (!once
            && occurrences(sets, hi - 1) > 0) {
            1int
        } else {
            0int
        }
    }
}

/// Test case `i` ran a singleton.
pub open spec fn ran_singleton(sets: Seq<Seq<u32>>, i: int) -> bool {
    exists|j: int| 0 <= j < sets[i].len() && occurrences(sets, sets[i][j] as int) == 1
}

/// The number of the first `i` test cases that ran a singleton.
pub open spec fn count_k(sets: Seq<Seq<u32>>, i: int) -> int
    decreases i,
{
    if i <= 0 {
        0
    } else {
        count_k(sets, i - 1) + if ran_singleton(sets, i - 1) {
            1int
        } else {
            0int
        }
    }
}

/// What the chance of new code is computed from.
pub struct NewCode {
    /// Test cases that ran at least one coverage element no other test case ran.
    pub k: u64,
    /// Coverage elements run by exactly one test case.
    pub singletons: u64,
    /// Distinct coverage elements run by any test case.
    pub distinct: u64,
    /// max(k/n, 1/(n+2)), as the fraction `chance_num / chance_den` (1 when there are no test
    /// cases).
    pub chance_num: u64,
    pub chance_den: u64,
}

/// The views of the sets.
pub open spec fn sets_view(sets: Seq<Vec<u32>>) -> Seq<Seq<u32>> {
    sets.map_values(|s: Vec<u32>| s@)
}

/// The chance that the next test case runs a coverage element that no test case has run:
/// max(k/n, 1/(n+2)), with Laplace's rule of succession as the floor. `sets` holds, for each
/// passing test case, the coverage elements it ran.
pub open spec fn chance_spec(k: int, n: int) -> (int, int) {
    if n == 0 {
        (1, 1)
    } else if k > 0 {
        (k, n)
    } else {
        (1, n + 2)
    }
}

proof fn lemma_count_in_push(s: Seq<u32>, x: u32, e: int)
    ensures
        count_in(s.push(x), e) == count_in(s, e) + if x == e {
            1int
        } else {
            0int
        },
{
    assert(s.push(x).drop_last() =~= s);
}

proof fn lemma_count_in_bound(s: Seq<u32>, e: int)
    ensures
        0 <= count_in(s, e) <= s.len(),
    decreases s.len(),
{
    if s.len() > 0 {
        lemma_count_in_bound(s.drop_last(), e);
    }
}

proof fn lemma_count_in_pos(s: Seq<u32>, e: int)
    ensures
        count_in(s, e) > 0 <==> exists|j: int| 0 <= j < s.len() && s[j] == e,
    decreases s.len(),
{
    if s.len() > 0 {
        lemma_count_in_pos(s.drop_last(), e);
        lemma_count_in_bound(s.drop_last(), e);
        if exists|j: int| 0 <= j < s.len() && s[j] == e {
            let j = choose|j: int| 0 <= j < s.len() && s[j] == e;
            if j < s.len() - 1 {
                assert(s.drop_last()[j] == e);
            }
        }
        if exists|j: int| 0 <= j < s.drop_last().len() && s.drop_last()[j] == e {
            let j = choose|j: int| 0 <= j < s.drop_last().len() && s.drop_last()[j] == e;
            assert(s[j] == e);
        }
    }
}

proof fn lemma_occurrences_bound(sets: Seq<Seq<u32>>, e: int)
    ensures
        0 <= occurrences(sets, e),
    decreases sets.len(),
{
    if sets.len() > 0 {
        lemma_occurrences_bound(sets.drop_last(), e);
        lemma_count_in_bound(sets.last(), e);
    }
}

proof fn lemma_occurrences_absent(sets: Seq<Seq<u32>>, e: int)
    requires
        forall|i: int, j: int| 0 <= i < sets.len() && 0 <= j < sets[i].len() ==> sets[i][j] != e,
    ensures
        occurrences(sets, e) == 0,
    decreases sets.len(),
{
    if sets.len() > 0 {
        lemma_occurrences_absent(sets.drop_last(), e);
        lemma_count_in_pos(sets.last(), e);
        lemma_count_in_bound(sets.last(), e);
        assert(sets.last() == sets[sets.len() - 1]);
    }
}

proof fn lemma_count_elements_flat(sets: Seq<Seq<u32>>, once: bool, lo: int, hi: int)
    requires
        0 <= lo <= hi,
        forall|e: int| lo <= e < hi ==> occurrences(sets, e) == 0,
    ensures
        count_elements(sets, once, hi) == count_elements(sets, once, lo),
    decreases hi - lo,
{
    if hi > lo {
        lemma_count_elements_flat(sets, once, lo, hi - 1);
    }
}

proof fn lemma_count_elements_bound(sets: Seq<Seq<u32>>, once: bool, hi: int)
    requires
        hi >= 0,
    ensures
        0 <= count_elements(sets, once, hi) <= hi,
    decreases hi,
{
    if hi > 0 {
        lemma_count_elements_bound(sets, once, hi - 1);
    }
}

proof fn lemma_count_k_bound(sets: Seq<Seq<u32>>, i: int)
    requires
        i >= 0,
    ensures
        0 <= count_k(sets, i) <= i,
    decreases i,
{
    if i > 0 {
        lemma_count_k_bound(sets, i - 1);
    }
}

/// The counts behind the chance that the next test case runs new code: `k` (test cases that
/// ran a singleton), the singletons and the distinct elements, and the chance
/// max(k/n, 1/(n+2)) as a fraction. `sets` holds, for each passing test case, the coverage
/// elements it ran (small integers: counter indices or region ids).
pub fn new_code(sets: &[Vec<u32>]) -> (r: NewCode)
    requires
        forall|e: int| 0 <= e ==> #[trigger] occurrences(sets_view(sets@), e) <= u32::MAX,
        sets@.len() + 2 <= u64::MAX,
        forall|a: int, b: int|
            0 <= a < sets@.len() && 0 <= b < sets@[a]@.len() ==> #[trigger] sets@[a]@[b]
                < usize::MAX,
    ensures
        r.k == count_k(sets_view(sets@), sets@.len() as int),
        r.singletons == count_elements(sets_view(sets@), true, 0x1_0000_0000),
        r.distinct == count_elements(sets_view(sets@), false, 0x1_0000_0000),
        (r.chance_num as int, r.chance_den as int) == chance_spec(r.k as int, sets@.len() as int),
{
    let ghost sv = sets_view(sets@);
    let n = sets.len();
    // The elements are small integers, so they are counted in an array indexed by the element.
    let mut size: usize = 0;
    let mut i: usize = 0;
    while i < n
        invariant
            i <= n,
            n == sets@.len(),
            sv == sets_view(sets@),
            size <= 0x1_0000_0000,
            forall|a: int, b: int|
                0 <= a < sets@.len() && 0 <= b < sets@[a]@.len() ==> #[trigger] sets@[a]@[b]
                    < usize::MAX,
            forall|a: int, b: int|
                0 <= a < i && 0 <= b < sv[a].len() ==> #[trigger] sv[a][b] < size,
        decreases n - i,
    {
        let set = &sets[i];
        assert(set@ == sv[i as int]);
        let mut j: usize = 0;
        while j < set.len()
            invariant
                j <= set.len(),
                i < n,
                n == sets@.len(),
                sv == sets_view(sets@),
                set@ == sv[i as int],
                set@ == sets@[i as int]@,
                size <= 0x1_0000_0000,
                forall|b: int| 0 <= b < set@.len() ==> #[trigger] set@[b] < usize::MAX,
                forall|a: int, b: int|
                    0 <= a < i && 0 <= b < sv[a].len() ==> #[trigger] sv[a][b] < size,
                forall|b: int| 0 <= b < j ==> #[trigger] sv[i as int][b] < size,
            decreases set.len() - j,
        {
            let e = set[j] as usize;
            if e >= size {
                size = e + 1;
            }
            j += 1;
        }
        i += 1;
    }
    let mut runs: Vec<u32> = Vec::new();
    let mut x: usize = 0;
    while x < size
        invariant
            x <= size,
            runs@ == Seq::new(x as nat, |e: int| 0u32),
        decreases size - x,
    {
        runs.push(0);
        x += 1;
        assert(runs@ =~= Seq::new(x as nat, |e: int| 0u32));
    }
    let mut i: usize = 0;
    assert(sv.take(0) =~= Seq::<Seq<u32>>::empty());
    while i < n
        invariant
            i <= n,
            n == sets@.len(),
            sv == sets_view(sets@),
            sv.len() == n,
            runs@.len() == size,
            forall|e: int| 0 <= e ==> #[trigger] occurrences(sv, e) <= u32::MAX,
            forall|a: int, b: int| 0 <= a < n && 0 <= b < sv[a].len() ==> #[trigger] sv[a][b] < size,
            forall|e: int| 0 <= e < size ==> #[trigger] runs@[e] == occurrences(sv.take(i as int), e),
        decreases n - i,
    {
        let set = &sets[i];
        assert(set@ == sv[i as int]);
        let ghost before = runs@;
        let mut j: usize = 0;
        proof {
            assert(sv.take(i + 1).drop_last() =~= sv.take(i as int));
            assert(sv.take(i + 1).last() == sv[i as int]);
            assert forall|f: int| 0 <= f < size implies #[trigger] before[f] + count_in(
                sv[i as int],
                f,
            ) <= u32::MAX by {
                lemma_occurrences_prefix(sv, i + 1, f);
                assert(occurrences(sv, f) <= u32::MAX);
            }
        }
        while j < set.len()
            invariant
                j <= set.len(),
                set@ == sv[i as int],
                i < n,
                sv.len() == n,
                runs@.len() == size,
                forall|b: int| 0 <= b < sv[i as int].len() ==> #[trigger] sv[i as int][b] < size,
                forall|f: int| 0 <= f < size ==> #[trigger] before[f] + count_in(sv[i as int], f)
                    <= u32::MAX,
                forall|e: int|
                    0 <= e < size ==> #[trigger] runs@[e] == before[e] + count_in(
                        set@.take(j as int),
                        e,
                    ),
                forall|e: int|
                    0 <= e < size ==> #[trigger] before[e] == occurrences(sv.take(i as int), e),
            decreases set.len() - j,
        {
            let e = set[j] as usize;
            proof {
                assert(set@.take(j + 1) =~= set@.take(j as int).push(set@[j as int]));
                assert forall|f: int| 0 <= f < size implies #[trigger] count_in(set@.take(j + 1), f)
                    == count_in(set@.take(j as int), f) + if set@[j as int] == f {
                    1int
                } else {
                    0int
                } by {
                    lemma_count_in_push(set@.take(j as int), set@[j as int], f);
                }
                lemma_count_in_prefix(set@, j + 1, e as int);
                assert(before[e as int] + count_in(sv[i as int], e as int) <= u32::MAX);
            }
            let c = runs[e];
            runs.set(e, c + 1);
            j += 1;
        }
        proof {
            assert(set@.take(set@.len() as int) =~= set@);
            assert forall|e: int| 0 <= e < size implies #[trigger] runs@[e] == occurrences(
                sv.take(i + 1),
                e,
            ) by {
                assert(sv.take(i + 1).last() == sv[i as int]);
            }
        }
        i += 1;
    }
    assert(sv.take(n as int) =~= sv);
    proof {
        assert forall|e: int| size <= e < 0x1_0000_0000 implies occurrences(sv, e) == 0 by {
            lemma_occurrences_absent(sv, e);
        }
        lemma_count_elements_flat(sv, true, size as int, 0x1_0000_0000);
        lemma_count_elements_flat(sv, false, size as int, 0x1_0000_0000);
        lemma_count_elements_bound(sv, true, size as int);
        lemma_count_elements_bound(sv, false, size as int);
    }
    // Test cases that ran a singleton.
    let mut k: u64 = 0;
    let mut i: usize = 0;
    while i < n
        invariant
            i <= n,
            n == sets@.len(),
            sv == sets_view(sets@),
            runs@.len() == size,
            forall|a: int, b: int| 0 <= a < n && 0 <= b < sv[a].len() ==> #[trigger] sv[a][b] < size,
            forall|e: int| 0 <= e < size ==> #[trigger] runs@[e] == occurrences(sv, e),
            k == count_k(sv, i as int),
            n + 2 <= u64::MAX,
        decreases n - i,
    {
        let set = &sets[i];
        assert(set@ == sv[i as int]);
        let mut any = false;
        let mut j: usize = 0;
        while j < set.len()
            invariant
                j <= set.len(),
                set@ == sv[i as int],
                runs@.len() == size,
                forall|b: int| 0 <= b < sv[i as int].len() ==> #[trigger] sv[i as int][b] < size,
                forall|e: int| 0 <= e < size ==> #[trigger] runs@[e] == occurrences(sv, e),
                any == exists|b: int| 0 <= b < j && occurrences(sv, sv[i as int][b] as int) == 1,
            decreases set.len() - j,
        {
            if runs[set[j] as usize] == 1 {
                any = true;
            }
            j += 1;
        }
        proof {
            lemma_count_k_bound(sv, i as int);
        }
        if any {
            k += 1;
        }
        i += 1;
    }
    // Singletons and distinct elements.
    let mut singletons: u64 = 0;
    let mut distinct: u64 = 0;
    let mut e: usize = 0;
    while e < size
        invariant
            e <= size,
            size <= 0x1_0000_0000,
            runs@.len() == size,
            forall|f: int| 0 <= f < size ==> #[trigger] runs@[f] == occurrences(sv, f),
            singletons == count_elements(sv, true, e as int),
            distinct == count_elements(sv, false, e as int),
        decreases size - e,
    {
        proof {
            lemma_count_elements_bound(sv, true, e as int);
            lemma_count_elements_bound(sv, false, e as int);
        }
        if runs[e] == 1 {
            singletons += 1;
        }
        if runs[e] > 0 {
            distinct += 1;
        }
        e += 1;
    }
    let n64 = n as u64;
    let (chance_num, chance_den) = if n64 == 0 {
        (1u64, 1u64)
    } else if k > 0 {
        (k, n64)
    } else {
        (1u64, n64 + 2)
    };
    NewCode { k, singletons, distinct, chance_num, chance_den }
}

proof fn lemma_count_in_prefix(s: Seq<u32>, j: int, e: int)
    requires
        0 <= j <= s.len(),
    ensures
        count_in(s.take(j), e) <= count_in(s, e),
    decreases s.len(),
{
    if j == s.len() {
        assert(s.take(j) =~= s);
    } else {
        lemma_count_in_prefix(s.drop_last(), j, e);
        assert(s.drop_last().take(j) =~= s.take(j));
    }
}

/// The occurrences among the first `i` test cases are among all of them.
proof fn lemma_occurrences_prefix(sets: Seq<Seq<u32>>, i: int, e: int)
    requires
        0 <= i <= sets.len(),
    ensures
        occurrences(sets.take(i), e) <= occurrences(sets, e),
    decreases sets.len(),
{
    if i == sets.len() {
        assert(sets.take(i) =~= sets);
    } else {
        lemma_occurrences_prefix(sets.drop_last(), i, e);
        assert(sets.drop_last().take(i) =~= sets.take(i));
        lemma_count_in_bound(sets.last(), e);
    }
}

} // verus!

verus! {

/// The chance of new code is max(k/n, 1/(n+2)) for k of n test cases: it is never below the
/// floor 1/(n+2), never below k/n, and equal to one of the two; with no test case it is 1.
pub proof fn law_chance_is_max(k: int, n: int)
    requires
        0 <= k <= n,
    ensures
        ({
            let (a, b) = chance_spec(k, n);
            &&& a > 0
            &&& b > 0
            &&& a <= b
            &&& n == 0 ==> a == b
            &&& n > 0 ==> a * (n + 2) >= b
            &&& n > 0 ==> a * n >= k * b
            &&& n > 0 ==> (a * (n + 2) == b || a * n == k * b)
        }),
{
    if n > 0 && k > 0 {
        assert(k * (n + 2) >= n) by (nonlinear_arith)
            requires
                k >= 1,
                n > 0,
        ;
    }
}

/// The test cases among the first `i` that ran a singleton.
pub open spec fn k_set(sets: Seq<Seq<u32>>, i: int) -> Set<int> {
    Set::new(|j: int| 0 <= j < i && ran_singleton(sets, j))
}

/// The elements below `hi` that exactly one test case ran.
pub open spec fn singleton_set(sets: Seq<Seq<u32>>, hi: int) -> Set<int> {
    Set::new(|e: int| 0 <= e < hi && occurrences(sets, e) == 1)
}

/// A singleton that test case `j` ran, when it ran one.
pub open spec fn singleton_of(sets: Seq<Seq<u32>>, j: int) -> int {
    let p = choose|p: int| 0 <= p < sets[j].len() && occurrences(sets, sets[j][p] as int) == 1;
    sets[j][p] as int
}

proof fn lemma_k_set(sets: Seq<Seq<u32>>, i: int)
    requires
        i >= 0,
    ensures
        k_set(sets, i).finite(),
        k_set(sets, i).len() == count_k(sets, i),
    decreases i,
{
    if i == 0 {
        assert(k_set(sets, 0) =~= Set::<int>::empty());
    } else {
        lemma_k_set(sets, i - 1);
        if ran_singleton(sets, i - 1) {
            assert(k_set(sets, i) =~= k_set(sets, i - 1).insert(i - 1));
        } else {
            assert(k_set(sets, i) =~= k_set(sets, i - 1));
        }
    }
}

proof fn lemma_singleton_set(sets: Seq<Seq<u32>>, hi: int)
    requires
        hi >= 0,
    ensures
        singleton_set(sets, hi).finite(),
        singleton_set(sets, hi).len() == count_elements(sets, true, hi),
    decreases hi,
{
    if hi == 0 {
        assert(singleton_set(sets, 0) =~= Set::<int>::empty());
    } else {
        lemma_singleton_set(sets, hi - 1);
        if occurrences(sets, hi - 1) == 1 {
            assert(singleton_set(sets, hi) =~= singleton_set(sets, hi - 1).insert(hi - 1));
        } else {
            assert(singleton_set(sets, hi) =~= singleton_set(sets, hi - 1));
        }
    }
}

/// Every test case's occurrences of `e` are among all of them, and two test cases' together.
proof fn lemma_occurrences_two(sets: Seq<Seq<u32>>, e: int, a: int, b: int)
    requires
        0 <= a < sets.len(),
        0 <= b < sets.len(),
    ensures
        occurrences(sets, e) >= count_in(sets[a], e),
        a != b ==> occurrences(sets, e) >= count_in(sets[a], e) + count_in(sets[b], e),
    decreases sets.len(),
{
    let d = sets.drop_last();
    let last = sets.len() - 1;
    lemma_occurrences_bound(d, e);
    lemma_count_in_bound(sets[a], e);
    lemma_count_in_bound(sets[b], e);
    assert(sets.last() == sets[last]);
    lemma_count_in_bound(sets[last], e);
    assert(occurrences(sets, e) == occurrences(d, e) + count_in(sets[last], e));
    if a < last {
        assert(d[a] == sets[a]);
        if b < last {
            assert(d[b] == sets[b]);
            lemma_occurrences_two(d, e, a, b);
        } else {
            lemma_occurrences_two(d, e, a, a);
        }
    } else if b < last {
        assert(d[b] == sets[b]);
        lemma_occurrences_two(d, e, b, b);
    }
}

/// No more test cases ran a singleton than there are singletons: each such test case ran a
/// singleton of its own.
pub proof fn law_k_at_most_singletons(sets: Seq<Seq<u32>>)
    ensures
        count_k(sets, sets.len() as int) <= count_elements(sets, true, 0x1_0000_0000),
{
    let n = sets.len() as int;
    let hi = 0x1_0000_0000int;
    let ks = k_set(sets, n);
    let ss = singleton_set(sets, hi);
    lemma_k_set(sets, n);
    lemma_singleton_set(sets, hi);
    let f = |j: int| singleton_of(sets, j);
    assert forall|j: int| #[trigger] ks.contains(j) implies ss.contains(f(j)) && {
        let p = choose|p: int| 0 <= p < sets[j].len() && occurrences(sets, sets[j][p] as int) == 1;
        0 <= p < sets[j].len() && sets[j][p] as int == f(j)
    } by {
        let p = choose|p: int| 0 <= p < sets[j].len() && occurrences(sets, sets[j][p] as int) == 1;
        assert(0 <= p < sets[j].len() && occurrences(sets, sets[j][p] as int) == 1);
    }
    assert(vstd::relations::injective_on(f, ks)) by {
        assert forall|x: int, y: int| ks.contains(x) && ks.contains(y) && #[trigger] f(x) == #[trigger] f(
            y,
        ) implies x == y by {
            let e = f(x);
            let px = choose|p: int| 0 <= p < sets[x].len() && occurrences(sets, sets[x][p] as int) == 1;
            let py = choose|p: int| 0 <= p < sets[y].len() && occurrences(sets, sets[y][p] as int) == 1;
            lemma_count_in_pos(sets[x], e);
            lemma_count_in_pos(sets[y], e);
            assert(sets[x][px] == e);
            assert(sets[y][py] == e);
            if x != y {
                lemma_occurrences_two(sets, e, x, y);
            }
        }
    }
    let img = ks.map(f);
    vstd::set_lib::lemma_map_size(ks, img, f);
    assert(img.subset_of(ss)) by {
        assert forall|e: int| #[trigger] img.contains(e) implies ss.contains(e) by {
            let j = choose|j: int| ks.contains(j) && f(j) == e;
        }
    }
    vstd::set_lib::lemma_len_subset(img, ss);
}

/// When every element is below `t`, no more than `t` distinct elements ran (of regions numbered
/// below their total: no more regions ran than there are).
pub proof fn law_distinct_at_most(sets: Seq<Seq<u32>>, t: int)
    requires
        0 <= t <= 0x1_0000_0000,
        forall|i: int, j: int| 0 <= i < sets.len() && 0 <= j < sets[i].len() ==> sets[i][j] < t,
    ensures
        count_elements(sets, false, 0x1_0000_0000) <= t,
{
    assert forall|e: int| t <= e < 0x1_0000_0000 implies occurrences(sets, e) == 0 by {
        lemma_occurrences_absent(sets, e);
    }
    lemma_count_elements_flat(sets, false, t, 0x1_0000_0000);
    lemma_count_elements_bound(sets, false, t);
}

/// No more test cases ran a singleton than there are test cases, and no more elements ran once
/// than ran at all.
pub proof fn law_counts_ordered(sets: Seq<Seq<u32>>, hi: int)
    requires
        hi >= 0,
    ensures
        0 <= count_k(sets, sets.len() as int) <= sets.len(),
        0 <= count_elements(sets, true, hi) <= count_elements(sets, false, hi),
    decreases hi,
{
    lemma_count_k_bound(sets, sets.len() as int);
    lemma_count_elements_bound(sets, true, hi);
    if hi > 0 {
        law_counts_ordered(sets, hi - 1);
    }
}

/// The sum of `g` over `s`.
pub open spec fn sum_by<T>(s: Seq<T>, g: spec_fn(T) -> int) -> int
    decreases s.len(),
{
    if s.len() == 0 {
        0
    } else {
        sum_by(s.drop_last(), g) + g(s.last())
    }
}

proof fn lemma_sum_by_remove<T>(s: Seq<T>, i: int, g: spec_fn(T) -> int)
    requires
        0 <= i < s.len(),
    ensures
        sum_by(s, g) == sum_by(s.remove(i), g) + g(s[i]),
    decreases s.len(),
{
    if i < s.len() - 1 {
        lemma_sum_by_remove(s.drop_last(), i, g);
        assert(s.remove(i).drop_last() =~= s.drop_last().remove(i));
        assert(s.remove(i).last() == s.last());
    } else {
        assert(s.remove(i) =~= s.drop_last());
    }
}

/// A sum over a sequence depends only on which items it holds, not on their order.
proof fn lemma_sum_by_multiset<T>(s1: Seq<T>, s2: Seq<T>, g: spec_fn(T) -> int)
    requires
        s1.to_multiset() == s2.to_multiset(),
    ensures
        sum_by(s1, g) == sum_by(s2, g),
    decreases s1.len(),
{
    broadcast use vstd::seq_lib::group_to_multiset_ensures;

    if s1.len() == 0 {
        assert(s1.to_multiset().len() == 0);
        assert(s2.to_multiset().len() == s2.len());
    } else {
        let x = s1.last();
        assert(s1.drop_last().push(x) =~= s1);
        assert(s1.to_multiset().count(x) > 0);
        assert(s2.contains(x));
        let j = choose|j: int| 0 <= j < s2.len() && s2[j] == x;
        lemma_sum_by_remove(s2, j, g);
        assert(s2.remove(j).to_multiset() == s2.to_multiset().remove(x));
        assert(s1.drop_last().to_multiset() =~= s1.to_multiset().remove(x));
        lemma_sum_by_multiset(s1.drop_last(), s2.remove(j), g);
    }
}

proof fn lemma_sum_by_map<A, B>(s: Seq<A>, f: spec_fn(A) -> B, g: spec_fn(B) -> int)
    ensures
        sum_by(s, |a: A| g(f(a))) == sum_by(s.map_values(f), g),
    decreases s.len(),
{
    if s.len() > 0 {
        lemma_sum_by_map(s.drop_last(), f, g);
        assert(s.map_values(f).drop_last() =~= s.drop_last().map_values(f));
    }
}

proof fn lemma_count_in_multiset(s: Seq<u32>, e: int)
    ensures
        count_in(s, e) == if 0 <= e < 0x1_0000_0000 {
            s.to_multiset().count(e as u32) as int
        } else {
            0
        },
    decreases s.len(),
{
    broadcast use vstd::seq_lib::group_to_multiset_ensures;

    if s.len() > 0 {
        lemma_count_in_multiset(s.drop_last(), e);
        assert(s.drop_last().push(s.last()) =~= s);
    } else {
        assert(s.to_multiset() =~= Multiset::<u32>::empty());
    }
}

proof fn lemma_occurrences_sum(sets: Seq<Seq<u32>>, e: int)
    ensures
        occurrences(sets, e) == sum_by(sets, |s: Seq<u32>| count_in(s, e)),
    decreases sets.len(),
{
    if sets.len() > 0 {
        lemma_occurrences_sum(sets.drop_last(), e);
    }
}

/// The test cases' elements as multisets: which elements each ran and how often, not in which
/// order.
pub open spec fn as_bags(sets: Seq<Seq<u32>>) -> Seq<Multiset<u32>> {
    sets.map_values(|s: Seq<u32>| s.to_multiset())
}

/// `sets2` holds the test cases of `sets1`, maybe in another order and each with its elements
/// maybe in another order.
pub open spec fn reordered(sets1: Seq<Seq<u32>>, sets2: Seq<Seq<u32>>) -> bool {
    as_bags(sets1).to_multiset() == as_bags(sets2).to_multiset()
}

proof fn lemma_reordered_occurrences(sets1: Seq<Seq<u32>>, sets2: Seq<Seq<u32>>, e: int)
    requires
        reordered(sets1, sets2),
    ensures
        occurrences(sets1, e) == occurrences(sets2, e),
{
    let tm = |s: Seq<u32>| s.to_multiset();
    let g = |ms: Multiset<u32>| if 0 <= e < 0x1_0000_0000 {
        ms.count(e as u32) as int
    } else {
        0
    };
    let h = |s: Seq<u32>| count_in(s, e);
    lemma_occurrences_sum(sets1, e);
    lemma_occurrences_sum(sets2, e);
    assert forall|s: Seq<u32>| #[trigger] h(s) == g(tm(s)) by {
        lemma_count_in_multiset(s, e);
    }
    assert(h =~= (|s: Seq<u32>| g(tm(s))));
    lemma_sum_by_map(sets1, tm, g);
    lemma_sum_by_map(sets2, tm, g);
    assert(as_bags(sets1) == sets1.map_values(tm));
    assert(as_bags(sets2) == sets2.map_values(tm));
    lemma_sum_by_multiset(as_bags(sets1), as_bags(sets2), g);
}

proof fn lemma_reordered_count_elements(sets1: Seq<Seq<u32>>, sets2: Seq<Seq<u32>>, once: bool, hi: int)
    requires
        reordered(sets1, sets2),
    ensures
        count_elements(sets1, once, hi) == count_elements(sets2, once, hi),
    decreases hi,
{
    if hi > 0 {
        lemma_reordered_count_elements(sets1, sets2, once, hi - 1);
        lemma_reordered_occurrences(sets1, sets2, hi - 1);
    }
}

/// Test case `s` ran an element that `occ` counts once.
pub open spec fn bag_ran_singleton(ms: Multiset<u32>, occ: spec_fn(int) -> int) -> bool {
    exists|x: u32| ms.count(x) > 0 && occ(x as int) == 1
}

proof fn lemma_count_k_sum(sets: Seq<Seq<u32>>, i: int)
    requires
        0 <= i <= sets.len(),
    ensures
        count_k(sets, i) == sum_by(
            sets.take(i),
            |s: Seq<u32>| if bag_ran_singleton(s.to_multiset(), |e: int| occurrences(sets, e)) {
                1int
            } else {
                0int
            },
        ),
    decreases i,
{
    broadcast use vstd::seq_lib::group_to_multiset_ensures;

    if i > 0 {
        lemma_count_k_sum(sets, i - 1);
        assert(sets.take(i).drop_last() =~= sets.take(i - 1));
        let s = sets[i - 1];
        assert(sets.take(i).last() == s);
        let occ = |e: int| occurrences(sets, e);
        if ran_singleton(sets, i - 1) {
            let j = choose|j: int| 0 <= j < s.len() && occurrences(sets, (#[trigger] s[j]) as int) == 1;
            assert(s.contains(s[j]));
            assert(s.to_multiset().count(s[j]) > 0);
            assert(bag_ran_singleton(s.to_multiset(), occ));
        }
        if bag_ran_singleton(s.to_multiset(), occ) {
            let x = choose|x: u32| s.to_multiset().count(x) > 0 && occ(x as int) == 1;
            assert(s.contains(x));
            let j = choose|j: int| 0 <= j < s.len() && s[j] == x;
            assert(occurrences(sets, sets[i - 1][j] as int) == 1);
        }
    }
}

/// The chance of new code does not depend on the order of the test cases or of the elements
/// each ran: sets holding the same test cases, each with the same elements, give the same
/// number of test cases, the same k, the same singletons and the same distinct elements.
pub proof fn law_new_code_ignores_order(sets1: Seq<Seq<u32>>, sets2: Seq<Seq<u32>>)
    requires
        reordered(sets1, sets2),
    ensures
        sets1.len() == sets2.len(),
        count_k(sets1, sets1.len() as int) == count_k(sets2, sets2.len() as int),
        count_elements(sets1, true, 0x1_0000_0000) == count_elements(sets2, true, 0x1_0000_0000),
        count_elements(sets1, false, 0x1_0000_0000) == count_elements(sets2, false, 0x1_0000_0000),
{
    broadcast use vstd::seq_lib::group_to_multiset_ensures;

    assert(as_bags(sets1).len() == as_bags(sets1).to_multiset().len());
    assert(as_bags(sets2).len() == as_bags(sets2).to_multiset().len());
    lemma_reordered_count_elements(sets1, sets2, true, 0x1_0000_0000);
    lemma_reordered_count_elements(sets1, sets2, false, 0x1_0000_0000);
    let occ1 = |e: int| occurrences(sets1, e);
    let occ2 = |e: int| occurrences(sets2, e);
    assert forall|e: int| #[trigger] occ1(e) == occ2(e) by {
        lemma_reordered_occurrences(sets1, sets2, e);
    }
    assert(occ1 =~= occ2);
    let g = |ms: Multiset<u32>| if bag_ran_singleton(ms, occ1) {
        1int
    } else {
        0int
    };
    let tm = |s: Seq<u32>| s.to_multiset();
    lemma_count_k_sum(sets1, sets1.len() as int);
    lemma_count_k_sum(sets2, sets2.len() as int);
    assert(sets1.take(sets1.len() as int) =~= sets1);
    assert(sets2.take(sets2.len() as int) =~= sets2);
    assert((|s: Seq<u32>| if bag_ran_singleton(s.to_multiset(), occ1) {
        1int
    } else {
        0int
    }) =~= (|s: Seq<u32>| g(tm(s))));
    assert((|s: Seq<u32>| if bag_ran_singleton(s.to_multiset(), occ2) {
        1int
    } else {
        0int
    }) =~= (|s: Seq<u32>| g(tm(s))));
    lemma_sum_by_map(sets1, tm, g);
    lemma_sum_by_map(sets2, tm, g);
    assert(as_bags(sets1) == sets1.map_values(tm));
    assert(as_bags(sets2) == sets2.map_values(tm));
    lemma_sum_by_multiset(as_bags(sets1), as_bags(sets2), g);
}

} // verus!
