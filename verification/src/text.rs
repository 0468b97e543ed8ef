//! Text as sequences of characters: reading a string's characters, building a string, and the
//! few tests on text the library makes.
use vstd::prelude::*;

verus! {

broadcast use vstd::string::group_string_axioms;

/// Appends `c` to `s` (`String::push`).
#[verifier::external_body]
pub(crate) fn push_char(s: &mut String, c: char)
    ensures
        final(s)@ == old(s)@.push(c),
{
    s.push(c);
}

/// The characters of `s`, in order.
pub fn chars_of(s: &str) -> (v: Vec<char>)
    ensures
        v@ == s@,
{
    let mut out: Vec<char> = Vec::new();
    for c in it: s.chars()
        invariant
            out@ == it.seq().take(it.index() as int),
            it.seq() == s@,
    {
        out.push(c);
    }
    out
}

/// The string made of the characters `v`.
pub fn string_of(v: &[char]) -> (s: String)
    ensures
        s@ == v@,
{
    let mut out = String::new();
    let mut i: usize = 0;
    while i < v.len()
        invariant
            i <= v.len(),
            out@ == v@.take(i as int),
        decreases v.len() - i,
    {
        push_char(&mut out, v[i]);
        i += 1;
        assert(out@ =~= v@.take(i as int));
    }
    assert(v@.take(v.len() as int) =~= v@);
    out
}

/// `p` is a prefix of `s`.
pub open spec fn is_prefix(p: Seq<char>, s: Seq<char>) -> bool {
    p.len() <= s.len() && s.subrange(0, p.len() as int) == p
}

/// `sub` occurs in `s` at `i`.
pub open spec fn occurs_at(s: Seq<char>, sub: Seq<char>, i: int) -> bool {
    0 <= i && i + sub.len() <= s.len() && s.subrange(i, i + sub.len()) == sub
}

/// `sub` occurs somewhere in `s`.
pub open spec fn contains(s: Seq<char>, sub: Seq<char>) -> bool {
    exists|i: int| occurs_at(s, sub, i)
}

/// Whether `sub` occurs in `s` at `i`.
pub fn occurs_at_exec(s: &[char], sub: &[char], i: usize) -> (r: bool)
    ensures
        r == occurs_at(s@, sub@, i as int),
{
    if i > s.len() || sub.len() > s.len() - i {
        return false;
    }
    let mut k: usize = 0;
    while k < sub.len()
        invariant
            k <= sub.len(),
            i + sub.len() <= s.len(),
            forall|j: int| 0 <= j < k ==> s@[i + j] == sub@[j],
        decreases sub.len() - k,
    {
        if s[i + k] != sub[k] {
            assert(s@.subrange(i as int, i + sub.len())[k as int] != sub@[k as int]);
            return false;
        }
        k += 1;
    }
    assert(s@.subrange(i as int, i + sub.len()) =~= sub@);
    true
}

/// Whether `p` is a prefix of `s`.
pub fn starts_with(s: &[char], p: &[char]) -> (r: bool)
    ensures
        r == is_prefix(p@, s@),
{
    let r = occurs_at_exec(s, p, 0);
    r
}

/// Whether `sub` occurs in `s`.
pub fn contains_exec(s: &[char], sub: &[char]) -> (r: bool)
    ensures
        r == contains(s@, sub@),
{
    if sub.len() > s.len() {
        assert forall|i: int| !occurs_at(s@, sub@, i) by {}
        return false;
    }
    let last = s.len() - sub.len();
    let mut i: usize = 0;
    loop
        invariant
            sub.len() <= s.len(),
            last == s.len() - sub.len(),
            i <= last,
            forall|j: int| 0 <= j < i ==> !occurs_at(s@, sub@, j),
        ensures
            forall|j: int| 0 <= j <= last ==> !occurs_at(s@, sub@, j),
        decreases last - i,
    {
        if occurs_at_exec(s, sub, i) {
            return true;
        }
        if i == last {
            break;
        }
        i += 1;
    }
    assert forall|j: int| !occurs_at(s@, sub@, j) by {
        if 0 <= j <= last {
        }
    }
    false
}

} // verus!

verus! {

/// The character of decimal digit `d`.
pub open spec fn digit(d: int) -> char {
    (d + 48) as char
}

/// `n` written in decimal.
pub open spec fn decimal(n: nat) -> Seq<char>
    decreases n,
{
    if n < 10 {
        seq![digit(n as int)]
    } else {
        decimal(n / 10).push(digit((n % 10) as int))
    }
}

fn digit_char(d: u8) -> (c: char)
    requires
        d < 10,
    ensures
        c == digit(d as int),
{
    match d {
        0 => '0',
        1 => '1',
        2 => '2',
        3 => '3',
        4 => '4',
        5 => '5',
        6 => '6',
        7 => '7',
        8 => '8',
        _ => '9',
    }
}

/// Appends `n` in decimal to `out`.
pub fn push_decimal(out: &mut Vec<char>, n: u128)
    ensures
        final(out)@ == old(out)@ + decimal(n as nat),
    decreases n,
{
    if n >= 10 {
        push_decimal(out, n / 10);
    }
    out.push(digit_char((n % 10) as u8));
    proof {
        if n >= 10 {
            assert(old(out)@ + decimal(n as nat) =~= old(out)@ + decimal((n / 10) as nat) + seq![
                digit((n % 10) as int),
            ]);
        }
    }
}

/// `n` in decimal.
pub fn decimal_string(n: u128) -> (s: String)
    ensures
        s@ == decimal(n as nat),
{
    let mut v: Vec<char> = Vec::new();
    push_decimal(&mut v, n);
    assert(v@ =~= decimal(n as nat));
    string_of(&v)
}

} // verus!

verus! {

// ---------------------------------------------------------------------------------------------
// Order of strings.
/// `a` comes before `b` in the order of `String`: character by character, by code point, a
/// proper prefix first.
pub open spec fn lex_lt(a: Seq<char>, b: Seq<char>) -> bool
    decreases a.len(),
{
    if a.len() == 0 {
        b.len() > 0
    } else if b.len() == 0 {
        false
    } else if a[0] != b[0] {
        a[0] < b[0]
    } else {
        lex_lt(a.drop_first(), b.drop_first())
    }
}

/// Exactly one of `a < b`, `a == b` and `b < a` holds.
pub proof fn lemma_lex_trichotomy(a: Seq<char>, b: Seq<char>)
    ensures
        lex_lt(a, b) || a == b || lex_lt(b, a),
        !(lex_lt(a, b) && lex_lt(b, a)),
        lex_lt(a, b) ==> a != b,
    decreases a.len(),
{
    if a.len() > 0 && b.len() > 0 && a[0] == b[0] {
        lemma_lex_trichotomy(a.drop_first(), b.drop_first());
        if a.drop_first() == b.drop_first() {
            assert(a =~= seq![a[0]] + a.drop_first());
            assert(b =~= seq![b[0]] + b.drop_first());
        }
    }
    if a.len() == 0 && b.len() == 0 {
        assert(a =~= b);
    }
}

/// The order of strings is transitive.
pub proof fn lemma_lex_transitive(a: Seq<char>, b: Seq<char>, c: Seq<char>)
    requires
        lex_lt(a, b),
        lex_lt(b, c),
    ensures
        lex_lt(a, c),
    decreases a.len(),
{
    if a.len() > 0 && b.len() > 0 && c.len() > 0 && a[0] == b[0] && b[0] == c[0] {
        lemma_lex_transitive(a.drop_first(), b.drop_first(), c.drop_first());
    }
}

/// Whether `a` comes before `b` (see `lex_lt`).
pub fn lex_less(a: &[char], b: &[char]) -> (r: bool)
    ensures
        r == lex_lt(a@, b@),
{
    let mut i: usize = 0;
    assert(a@.skip(0) =~= a@ && b@.skip(0) =~= b@);
    while i < a.len() && i < b.len() && a[i] == b[i]
        invariant
            i <= a.len(),
            i <= b.len(),
            lex_lt(a@, b@) == lex_lt(a@.skip(i as int), b@.skip(i as int)),
        decreases a.len() - i,
    {
        proof {
            assert(a@.skip(i as int).drop_first() =~= a@.skip(i + 1));
            assert(b@.skip(i as int).drop_first() =~= b@.skip(i + 1));
        }
        i += 1;
    }
    if i == a.len() {
        i < b.len()
    } else if i == b.len() {
        false
    } else {
        a[i] < b[i]
    }
}

/// Strictly increasing in the order of strings: sorted, each string once.
pub open spec fn strictly_sorted(v: Seq<Seq<char>>) -> bool {
    forall|i: int, j: int| 0 <= i < j < v.len() ==> lex_lt(#[trigger] v[i], #[trigger] v[j])
}

/// Puts `s` into the strictly sorted list `v`, unless it is there already.
pub fn insert_sorted(v: &mut Vec<String>, s: String)
    requires
        strictly_sorted(old(v)@.map_values(|x: String| x@)),
    ensures
        strictly_sorted(final(v)@.map_values(|x: String| x@)),
        final(v)@.map_values(|x: String| x@).to_set() == old(v)@.map_values(|x: String| x@).to_set().insert(
            s@,
        ),
{
    let ghost old_v = v@.map_values(|x: String| x@);
    let sc = chars_of(s.as_str());
    let mut p: usize = 0;
    let mut found = false;
    while !found && p < v.len()
        invariant
            p <= v.len(),
            v@.map_values(|x: String| x@) == old_v,
            sc@ == s@,
            forall|k: int| 0 <= k < p ==> lex_lt(#[trigger] old_v[k], s@),
            found ==> p < v.len() && !lex_lt(old_v[p as int], s@),
        decreases v.len() - p, if found { 0int } else { 1int },
    {
        let c = chars_of(v[p].as_str());
        if lex_less(c.as_slice(), sc.as_slice()) {
            p += 1;
        } else {
            found = true;
        }
    }
    if found {
        let c = chars_of(v[p].as_str());
        if !lex_less(sc.as_slice(), c.as_slice()) {
            proof {
                lemma_lex_trichotomy(old_v[p as int], s@);
                assert(old_v[p as int] == s@);
                assert(old_v.to_set().insert(s@) =~= old_v.to_set());
            }
            return;
        }
    }
    let ghost ins = old_v.insert(p as int, s@);
    v.insert(p, s);
    proof {
        assert(v@.map_values(|x: String| x@) =~= ins);
        assert forall|i: int, j: int| 0 <= i < j < ins.len() implies lex_lt(
            #[trigger] ins[i],
            #[trigger] ins[j],
        ) by {
            if j < p {
            } else if j == p {
            } else if i < p {
                if j - 1 > p {
                    lemma_lex_transitive(s@, old_v[p as int], old_v[j - 1]);
                }
                lemma_lex_transitive(ins[i], s@, ins[j]);
            } else if i == p {
                if j - 1 > p {
                    lemma_lex_transitive(s@, old_v[p as int], old_v[j - 1]);
                }
            } else {
            }
        }
        assert(ins.to_set() =~= old_v.to_set().insert(s@)) by {
            assert forall|x: Seq<char>| ins.to_set().contains(x) <==> old_v.to_set().insert(
                s@,
            ).contains(x) by {
                if ins.contains(x) {
                    let k = choose|k: int| 0 <= k < ins.len() && ins[k] == x;
                    if k < p {
                        assert(old_v[k] == x);
                    } else if k > p {
                        assert(old_v[k - 1] == x);
                    }
                }
                if old_v.contains(x) {
                    let k = choose|k: int| 0 <= k < old_v.len() && old_v[k] == x;
                    if k < p {
                        assert(ins[k] == x);
                    } else {
                        assert(ins[k + 1] == x);
                    }
                }
                if x == s@ {
                    assert(ins[p as int] == x);
                }
            }
        }
    }
}

} // verus!
