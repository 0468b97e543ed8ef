//! What one test case ran: the LLVM coverage counters it raised and the source regions it ran,
//! both limited to the code under test.
//!
//! LLVM keeps one array of counters for the whole process; a test case's counters are copied
//! before it runs and compared after. Regions come from the coverage mapping (`mapping.rs`): a
//! region ran when its count, computed from the function's counter increments, went up.
//!
//! The code under test is every source file except dependencies (`.cargo/registry`,
//! `.cargo/git`), the standard library (`/rustc/…`), files under a `tests`, `benches` or
//! `examples` directory, and this crate; a list of path prefixes (a prefix starting with `!`
//! excludes) replaces that rule. Without a readable mapping, every counter counts and there are
//! no regions.
use vstd::prelude::*;
use crate::mapping::{Mapping, MappingModel, FunctionModel, Term};
use crate::text::{
    chars_of,
    contains,
    contains_exec,
    is_prefix,
    occurs_at,
    occurs_at_exec,
    starts_with,
    string_of,
};

verus! {

broadcast use vstd::std_specs::hash::group_hash_axioms;

// ---------------------------------------------------------------------------------------------
// The code under test.
/// `name` is one of the `/`-separated components of `path`.
pub open spec fn is_component(path: Seq<char>, name: Seq<char>) -> bool {
    exists|i: int|
        occurs_at(path, name, i) && (i == 0 || path[i - 1] == '/') && (i + name.len() == path.len()
            || path[i + name.len()] == '/')
}

/// A prefix that excludes: it starts with `!`.
pub open spec fn excludes(p: Seq<char>) -> bool {
    p.len() > 0 && p[0] == '!'
}

/// Some including prefix of `ps` starts `path`.
pub open spec fn included_by(ps: Seq<Seq<char>>, path: Seq<char>) -> bool {
    exists|i: int| 0 <= i < ps.len() && !excludes(ps[i]) && is_prefix(ps[i], path)
}

/// Some excluding prefix of `ps`, after its `!`, starts `path`.
pub open spec fn excluded_by(ps: Seq<Seq<char>>, path: Seq<char>) -> bool {
    exists|i: int| 0 <= i < ps.len() && excludes(ps[i]) && is_prefix(ps[i].drop_first(), path)
}

/// Whether the source file `path` belongs to the code under test: with `prefixes`, when some
/// including prefix starts it and no excluding one (after its `!`) does; without, when it is not
/// in a dependency, the standard library, a `tests`, `benches` or `examples` directory, or under
/// `own`.
pub open spec fn in_code_spec(path: Seq<char>, prefixes: Option<Seq<Seq<char>>>, own: Seq<char>) -> bool {
    match prefixes {
        Some(ps) => included_by(ps, path) && !excluded_by(ps, path),
        None => !(contains(path, "/.cargo/registry/"@) || contains(path, "/.cargo/git/"@)
            || is_prefix("/rustc/"@, path) || is_prefix(own, path) || is_component(path, "tests"@)
            || is_component(path, "benches"@) || is_component(path, "examples"@)),
    }
}

/// Whether `name` is one of the `/`-separated components of `path`.
fn has_component(path: &[char], name: &[char]) -> (r: bool)
    ensures
        r == is_component(path@, name@),
{
    if name.len() > path.len() {
        return false;
    }
    let last = path.len() - name.len();
    let mut i: usize = 0;
    loop
        invariant
            name.len() <= path.len(),
            last == path.len() - name.len(),
            i <= last,
            forall|j: int|
                0 <= j < i ==> !(occurs_at(path@, name@, j) && (j == 0 || path@[j - 1] == '/') && (j
                    + name.len() == path.len() || path@[j + name.len()] == '/')),
        ensures
            forall|j: int|
                0 <= j <= last ==> !(occurs_at(path@, name@, j) && (j == 0 || path@[j - 1] == '/')
                    && (j + name.len() == path.len() || path@[j + name.len()] == '/')),
        decreases last - i,
    {
        if occurs_at_exec(path, name, i) && (i == 0 || path[i - 1] == '/') && (i == last
            || path[i + name.len()] == '/') {
            return true;
        }
        if i == last {
            break;
        }
        i += 1;
    }
    false
}

/// The directory of this crate's own sources, which is not code under test: `src/` under the
/// crate's manifest directory `manifest`.
pub fn own_dir(manifest: &str) -> (r: String)
    ensures
        r@ == manifest@ + "/src/"@,
{
    let mut r = String::from_str(manifest);
    r.append("/src/");
    r
}

/// Whether the source file `path` belongs to the code under test (see `in_code_spec`).
pub fn in_code_under_test(path: &str, prefixes: &Option<Vec<String>>, own: &str) -> (r: bool)
    ensures
        r == in_code_spec(
            path@,
            match prefixes {
                Some(ps) => Some(ps@.map_values(|p: String| p@)),
                None => None,
            },
            own@,
        ),
{
    let p = chars_of(path);
    match prefixes {
        Some(ps) => {
            let ghost v = ps@.map_values(|p: String| p@);
            let mut included = false;
            let mut excluded = false;
            let mut i: usize = 0;
            while i < ps.len()
                invariant
                    i <= ps.len(),
                    v == ps@.map_values(|p: String| p@),
                    p@ == path@,
                    included == exists|j: int|
                        0 <= j < i && !excludes(v[j]) && is_prefix(v[j], p@),
                    excluded == exists|j: int|
                        0 <= j < i && excludes(v[j]) && is_prefix(v[j].drop_first(), p@),
                decreases ps.len() - i,
            {
                let q = chars_of(ps[i].as_str());
                assert(q@ == v[i as int]);
                if q.len() > 0 && q[0] == '!' {
                    let rest = vstd::slice::slice_subrange(q.as_slice(), 1, q.len());
                    assert(rest@ =~= v[i as int].drop_first());
                    if starts_with(p.as_slice(), rest) {
                        excluded = true;
                    }
                } else {
                    if starts_with(p.as_slice(), q.as_slice()) {
                        included = true;
                    }
                }
                i += 1;
            }
            assert(v.len() == ps@.len());
            assert(included == included_by(v, path@));
            assert(excluded == excluded_by(v, path@));
            included && !excluded
        },
        None => {
            let registry = chars_of("/.cargo/registry/");
            let git = chars_of("/.cargo/git/");
            let rustc = chars_of("/rustc/");
            let own_chars = chars_of(own);
            let tests = chars_of("tests");
            let benches = chars_of("benches");
            let examples = chars_of("examples");
            let skip_dir = has_component(p.as_slice(), tests.as_slice()) || has_component(
                p.as_slice(),
                benches.as_slice(),
            ) || has_component(p.as_slice(), examples.as_slice());
            !(contains_exec(p.as_slice(), registry.as_slice()) || contains_exec(
                p.as_slice(),
                git.as_slice(),
            ) || starts_with(p.as_slice(), rustc.as_slice()) || starts_with(
                p.as_slice(),
                own_chars.as_slice(),
            ) || skip_dir)
        },
    }
}

// ---------------------------------------------------------------------------------------------
// The prefixes of the code under test, as written in the setting.
/// Where the first `,` of `s` is, or its length when it has none.
pub open spec fn first_comma(s: Seq<char>) -> int
    decreases s.len(),
{
    if s.len() == 0 {
        0
    } else if s[0] == ',' {
        0
    } else {
        1 + first_comma(s.drop_first())
    }
}

/// `first_comma` lies within `s`, at a comma when it is before the end, with none before it.
pub proof fn lemma_first_comma(s: Seq<char>)
    ensures
        0 <= first_comma(s) <= s.len(),
        first_comma(s) < s.len() ==> s[first_comma(s)] == ',',
        forall|i: int| 0 <= i < first_comma(s) ==> s[i] != ',',
    decreases s.len(),
{
    if s.len() > 0 && s[0] != ',' {
        lemma_first_comma(s.drop_first());
        assert forall|i: int| 0 <= i < first_comma(s) implies s[i] != ',' by {
            if i > 0 {
                assert(s[i] == s.drop_first()[i - 1]);
            }
        }
    }
}

/// The pieces of `s` between commas, empty ones included (what `str::split(',')` gives).
pub open spec fn pieces(s: Seq<char>) -> Seq<Seq<char>>
    decreases s.len(),
{
    let e = first_comma(s);
    if e < s.len() {
        proof {
            lemma_first_comma(s);
        }
        seq![s.take(e)] + pieces(s.skip(e + 1))
    } else {
        seq![s]
    }
}

/// `name` relative to the directory `dir`, as joining paths writes it: a `/` between them unless
/// `dir` is empty or ends with one.
pub open spec fn joined(dir: Seq<char>, name: Seq<char>) -> Seq<char> {
    if dir.len() == 0 || dir.last() == '/' {
        dir + name
    } else {
        dir + seq!['/'] + name
    }
}

/// `p` made absolute: kept when it starts with `/`, else taken relative to `cwd`.
pub open spec fn absolute(cwd: Seq<char>, p: Seq<char>) -> Seq<char> {
    if p.len() > 0 && p[0] == '/' {
        p
    } else {
        joined(cwd, p)
    }
}

/// One prefix as given: an excluding `!` stays in front of the absolute path.
pub open spec fn code_prefix(cwd: Seq<char>, p: Seq<char>) -> Seq<char> {
    if p.len() > 0 && p[0] == '!' {
        seq!['!'] + absolute(cwd, p.drop_first())
    } else {
        absolute(cwd, p)
    }
}

/// The prefixes of the non-empty pieces `ps`, in order.
pub open spec fn code_list(cwd: Seq<char>, ps: Seq<Seq<char>>) -> Seq<Seq<char>>
    decreases ps.len(),
{
    if ps.len() == 0 {
        Seq::empty()
    } else {
        (if ps[0].len() > 0 {
            seq![code_prefix(cwd, ps[0])]
        } else {
            Seq::empty()
        }) + code_list(cwd, ps.drop_first())
    }
}

proof fn lemma_code_list_cons(cwd: Seq<char>, a: Seq<char>, ps: Seq<Seq<char>>)
    ensures
        code_list(cwd, seq![a] + ps) == (if a.len() > 0 {
            seq![code_prefix(cwd, a)]
        } else {
            Seq::empty()
        }) + code_list(cwd, ps),
{
    assert((seq![a] + ps).drop_first() =~= ps);
}

/// `cur` has no comma and `rest` starts with one: the first piece of `cur + rest` is `cur`.
proof fn lemma_pieces_at_comma(cur: Seq<char>, rest: Seq<char>)
    requires
        forall|i: int| 0 <= i < cur.len() ==> cur[i] != ',',
        rest.len() > 0,
        rest[0] == ',',
    ensures
        pieces(cur + rest) == seq![cur] + pieces(rest.drop_first()),
    decreases cur.len(),
{
    let s = cur + rest;
    lemma_first_comma(s);
    assert(first_comma(s) == cur.len()) by {
        lemma_first_comma_at(cur, rest);
    }
    assert(s.take(cur.len() as int) =~= cur);
    assert(s.skip(cur.len() as int + 1) =~= rest.drop_first());
}

proof fn lemma_first_comma_at(cur: Seq<char>, rest: Seq<char>)
    requires
        forall|i: int| 0 <= i < cur.len() ==> cur[i] != ',',
        rest.len() > 0,
        rest[0] == ',',
    ensures
        first_comma(cur + rest) == cur.len(),
    decreases cur.len(),
{
    if cur.len() > 0 {
        assert((cur + rest).drop_first() =~= cur.drop_first() + rest);
        lemma_first_comma_at(cur.drop_first(), rest);
    } else {
        assert(cur + rest =~= rest);
    }
}

/// A piece without a comma is the only piece.
proof fn lemma_pieces_last(cur: Seq<char>)
    requires
        forall|i: int| 0 <= i < cur.len() ==> cur[i] != ',',
    ensures
        pieces(cur) == seq![cur],
{
    lemma_first_comma(cur);
    if first_comma(cur) < cur.len() {
        assert(cur[first_comma(cur)] != ',');
    }
}

/// A piece of the setting is made absolute against the working directory `cwd` whether it
/// includes or excludes (`!`): an absolute path is kept as written, a relative one is put under
/// `cwd` (with a `/` between unless `cwd` is empty or ends with one), and an excluding `!` stays
/// in front.
pub proof fn law_prefixes_are_made_absolute(cwd: Seq<char>, p: Seq<char>)
    requires
        p.len() > 0,
    ensures
        p[0] == '/' ==> code_prefix(cwd, p) == p,
        p[0] == '!' && p.len() > 1 && p[1] == '/' ==> code_prefix(cwd, p) == p,
        p[0] != '/' && p[0] != '!' ==> code_prefix(cwd, p) == (if cwd.len() > 0 && cwd.last() != '/' {
            cwd + seq!['/'] + p
        } else {
            cwd + p
        }),
        p[0] == '!' && !(p.len() > 1 && p[1] == '/') ==> code_prefix(cwd, p) == seq!['!'] + (if cwd.len()
            > 0 && cwd.last() != '/' {
            cwd + seq!['/'] + p.drop_first()
        } else {
            cwd + p.drop_first()
        }),
{
    if p[0] == '!' && p.len() > 1 && p[1] == '/' {
        assert(seq!['!'] + p.drop_first() =~= p);
    }
}

/// The setting is split at its commas: `a,b` (neither holding a comma) gives the prefix of `a`
/// and then that of `b`, an empty piece giving none.
pub proof fn law_prefixes_split_at_commas(cwd: Seq<char>, a: Seq<char>, b: Seq<char>)
    requires
        forall|i: int| 0 <= i < a.len() ==> a[i] != ',',
        forall|i: int| 0 <= i < b.len() ==> b[i] != ',',
    ensures
        code_list(cwd, pieces(a + seq![','] + b)) == (if a.len() > 0 {
            seq![code_prefix(cwd, a)]
        } else {
            Seq::empty()
        }) + (if b.len() > 0 {
            seq![code_prefix(cwd, b)]
        } else {
            Seq::empty()
        }),
{
    let rest = seq![','] + b;
    assert(a + seq![','] + b =~= a + rest);
    lemma_pieces_at_comma(a, rest);
    assert(rest.drop_first() =~= b);
    lemma_pieces_last(b);
    lemma_code_list_cons(cwd, a, seq![b]);
    lemma_code_list_cons(cwd, b, Seq::empty());
    assert(seq![b] =~= seq![b] + Seq::<Seq<char>>::empty());
    let tb = if b.len() > 0 {
        seq![code_prefix(cwd, b)]
    } else {
        Seq::<Seq<char>>::empty()
    };
    assert(tb + Seq::<Seq<char>>::empty() =~= tb);
}

/// The prefix `p` (a piece of the setting, not empty) made absolute against `cwd`.
fn prefix_of(cwd: &[char], p: &[char]) -> (r: String)
    requires
        p@.len() > 0,
    ensures
        r@ == code_prefix(cwd@, p@),
{
    let mut out: Vec<char> = Vec::new();
    let mut from: usize = 0;
    if p[0] == '!' {
        out.push('!');
        from = 1;
    }
    let ghost body = p@.skip(from as int);
    if !(from < p.len() && p[from] == '/') {
        let mut i: usize = 0;
        while i < cwd.len()
            invariant
                i <= cwd.len(),
                from <= 1,
                out@ == (if from == 1 { seq!['!'] } else { Seq::<char>::empty() }) + cwd@.take(
                    i as int,
                ),
            decreases cwd.len() - i,
        {
            out.push(cwd[i]);
            i += 1;
            assert(cwd@.take(i as int) =~= cwd@.take(i - 1).push(cwd@[i - 1]));
        }
        assert(cwd@.take(i as int) =~= cwd@);
        if cwd.len() > 0 && cwd[cwd.len() - 1] != '/' {
            out.push('/');
        }
    }
    let ghost head = out@;
    let mut j: usize = from;
    while j < p.len()
        invariant
            from <= j <= p.len(),
            out@ == head + p@.subrange(from as int, j as int),
        decreases p.len() - j,
    {
        out.push(p[j]);
        j += 1;
        assert(p@.subrange(from as int, j as int) =~= p@.subrange(from as int, j - 1).push(
            p@[j - 1],
        ));
    }
    assert(p@.subrange(from as int, p.len() as int) =~= body);
    assert(p@.drop_first() =~= p@.skip(1));
    proof {
        if from == 1 {
            assert(out@ =~= seq!['!'] + absolute(cwd@, p@.drop_first()));
        } else {
            assert(out@ =~= absolute(cwd@, p@));
        }
    }
    string_of(out.as_slice())
}

/// The setting's value `value`: comma-separated path prefixes, a relative one taken against the
/// working directory `cwd` (a leading `!` excludes and stays in front); empty pieces are
/// dropped.
pub fn code_prefixes(value: &str, cwd: &str) -> (r: Vec<String>)
    ensures
        r@.map_values(|x: String| x@) == code_list(cwd@, pieces(value@)),
{
    let s = chars_of(value);
    let c = chars_of(cwd);
    let mut out: Vec<String> = Vec::new();
    let mut cur: Vec<char> = Vec::new();
    let mut i: usize = 0;
    assert(cur@ + s@.skip(0) =~= s@);
    assert(out@.map_values(|x: String| x@) + code_list(cwd@, pieces(s@)) =~= code_list(
        cwd@,
        pieces(s@),
    ));
    while i < s.len()
        invariant
            i <= s@.len(),
            s@ == value@,
            c@ == cwd@,
            forall|k: int| 0 <= k < cur@.len() ==> cur@[k] != ',',
            code_list(cwd@, pieces(s@)) == out@.map_values(|x: String| x@) + code_list(
                cwd@,
                pieces(cur@ + s@.skip(i as int)),
            ),
        decreases s.len() - i,
    {
        let ghost before = out@.map_values(|x: String| x@);
        if s[i] == ',' {
            proof {
                assert(s@.skip(i as int).drop_first() =~= s@.skip(i + 1));
                lemma_pieces_at_comma(cur@, s@.skip(i as int));
                lemma_code_list_cons(cwd@, cur@, pieces(s@.skip(i + 1)));
            }
            if cur.len() > 0 {
                let q = prefix_of(c.as_slice(), cur.as_slice());
                out.push(q);
                assert(out@.map_values(|x: String| x@) =~= before.push(code_prefix(cwd@, cur@)));
            }
            cur = Vec::new();
            proof {
                assert(cur@ + s@.skip(i + 1) =~= s@.skip(i + 1));
            }
        } else {
            let ghost old_cur = cur@;
            cur.push(s[i]);
            proof {
                assert(cur@ + s@.skip(i + 1) =~= old_cur + s@.skip(i as int));
            }
        }
        i += 1;
    }
    proof {
        assert(cur@ + s@.skip(i as int) =~= cur@);
        lemma_pieces_last(cur@);
        lemma_code_list_cons(cwd@, cur@, Seq::empty());
        assert(code_list(cwd@, Seq::<Seq<char>>::empty()) == Seq::<Seq<char>>::empty());
    }
    let ghost before = out@.map_values(|x: String| x@);
    if cur.len() > 0 {
        let q = prefix_of(c.as_slice(), cur.as_slice());
        out.push(q);
        assert(out@.map_values(|x: String| x@) =~= before.push(code_prefix(cwd@, cur@)));
    }
    proof {
        assert(seq![cur@] + Seq::<Seq<char>>::empty() =~= seq![cur@]);
    }
    out
}

} // verus!

verus! {

// ---------------------------------------------------------------------------------------------
// The profile runtime's data records.
/// The key of a function: its name hash above its function hash.
pub open spec fn key_of(name: u64, hash: u64) -> u128 {
    (name * 0x1_0000_0000_0000_0000 + hash) as u128
}

fn key(name: u64, hash: u64) -> (k: u128)
    ensures
        k == key_of(name, hash),
{
    let n = name as u128;
    let h = hash as u128;
    assert((n << 64u128) | h == n * 0x1_0000_0000_0000_0000 + h) by (bit_vector)
        requires
            n < 0x1_0000_0000_0000_0000,
            h < 0x1_0000_0000_0000_0000,
    ;
    (n << 64u128) | h
}

/// Where each function's counters are in the counter array: the index of its first counter and
/// its number of counters, by the key of its name hash and function hash.
pub struct Records {
    by_key: std::collections::HashMap<u128, (usize, usize)>,
}

impl View for Records {
    type V = Map<u128, (usize, usize)>;

    closed spec fn view(&self) -> Map<u128, (usize, usize)> {
        self.by_key@
    }
}

impl Records {
    /// The first counter and the number of counters of the function `(name, hash)`.
    pub fn get(&self, name: u64, hash: u64) -> (r: Option<(usize, usize)>)
        ensures
            r == (if self@.contains_key(key_of(name, hash)) {
                Some(self@[key_of(name, hash)])
            } else {
                None
            }),
    {
        let k = key(name, hash);
        match self.by_key.get(&k) {
            Some(v) => Some(*v),
            None => None,
        }
    }
}

/// Size of one profile data record (LLVM 19-22).
pub const RECORD: usize = 64;

/// The entry of record `i` of the data section at address `begin`, the counter array being at
/// `base`: the function's key, its first counter's index and its number of counters; none for
/// a record without counters or whose counters lie below the array. The record holds the name
/// hash at byte 0, the function hash at 8, the offset from the record to its first counter at 16
/// and the number of counters at 48; the counter's address is computed in 64-bit wrapping
/// arithmetic.
pub open spec fn record_entry(bytes: Seq<u8>, begin: usize, base: usize, i: int) -> Option<
    (u128, (usize, usize)),
> {
    let off = 64 * i;
    let name = u64_at_spec(bytes, off).unwrap();
    let hash = u64_at_spec(bytes, off + 8).unwrap();
    let rel = u64_at_spec(bytes, off + 16).unwrap() as i64;
    let n = u32_at_spec(bytes, off + 48).unwrap() as usize;
    let at = (((begin + off) as usize) as i64).wrapping_add(rel);
    if n == 0 || (at as usize) < base {
        None
    } else {
        Some((key_of(name, hash), ((((at as usize) - base) / 8) as usize, n)))
    }
}

/// The entries of the first `k` records, a later record with a key replacing an earlier one, and
/// the number of counters all of them cover.
pub open spec fn records_upto(bytes: Seq<u8>, begin: usize, base: usize, k: nat) -> (
    Map<u128, (usize, usize)>,
    int,
)
    decreases k,
{
    if k == 0 {
        (Map::empty(), 0)
    } else {
        let (m, c) = records_upto(bytes, begin, base, (k - 1) as nat);
        match record_entry(bytes, begin, base, k - 1) {
            Some((key, (start, n))) => (m.insert(key, (start, n)), c + n),
            None => (m, c),
        }
    }
}

/// Why the records could not be used: they do not cover the `total` counters exactly.
pub open spec fn layout_message(covered: int, total: int) -> Seq<char> {
    "the LLVM profile data layout is not the one this crate reads (LLVM 19-22): records cover "@
        + crate::text::decimal(covered as nat) + " of "@ + crate::text::decimal(total as nat)
        + " counters"@
}

/// The records of the data section `bytes`, or why they cannot be used: a readable layout has
/// whole records that cover the `n_counters` counters exactly.
pub open spec fn data_records_spec(bytes: Seq<u8>, begin: usize, base: usize, n_counters: usize) -> Result<
    Map<u128, (usize, usize)>,
    Seq<char>,
> {
    let (m, c) = records_upto(bytes, begin, base, (bytes.len() / 64) as nat);
    if bytes.len() % 64 != 0 || c != n_counters {
        Err(layout_message(c, n_counters as int))
    } else {
        Ok(m)
    }
}

use crate::mapping::{u32_at, u32_at_spec, u64_at, u64_at_spec};

/// Reads the profile data records `bytes`, which lie at address `begin`, the counter array
/// (`n_counters` counters) being at `base`: (name hash, function hash) -> (first counter index,
/// number of counters), or why the records could not be read.
pub fn data_records(bytes: &[u8], begin: usize, base: usize, n_counters: usize) -> (r: Result<
    Records,
    String,
>)
    requires
        begin + bytes.len() <= usize::MAX,
    ensures
        match r {
            Ok(recs) => data_records_spec(bytes@, begin, base, n_counters) == Ok::<
                Map<u128, (usize, usize)>,
                Seq<char>,
            >(recs@),
            Err(why) => data_records_spec(bytes@, begin, base, n_counters) == Err::<
                Map<u128, (usize, usize)>,
                Seq<char>,
            >(why@),
        },
{
    let mut out: std::collections::HashMap<u128, (usize, usize)> =
        std::collections::HashMap::new();
    let mut covered: u128 = 0;
    let nrec = bytes.len() / RECORD;
    let mut i: usize = 0;
    while i < nrec
        invariant
            i <= nrec,
            nrec == bytes.len() / 64,
            begin + bytes.len() <= usize::MAX,
            (out@, covered as int) == records_upto(bytes@, begin, base, i as nat),
            covered <= i * 0x1_0000_0000,
        decreases nrec - i,
    {
        let off = i * RECORD;
        assert(off + 64 <= bytes.len()) by (nonlinear_arith)
            requires
                off == i * 64,
                i < nrec,
                nrec == bytes.len() / 64,
        ;
        let name = u64_at(bytes, off).unwrap();
        let hash = u64_at(bytes, off + 8).unwrap();
        let rel = u64_at(bytes, off + 16).unwrap() as i64;
        let n = u32_at(bytes, off + 48).unwrap() as usize;
        let at = ((begin + off) as i64).wrapping_add(rel);
        if n == 0 || (at as usize) < base {
            i += 1;
            continue;
        }
        out.insert(key(name, hash), (((at as usize) - base) / 8, n));
        covered = covered + n as u128;
        i += 1;
    }
    if bytes.len() % RECORD != 0 || covered != n_counters as u128 {
        let mut why = String::from_str(
            "the LLVM profile data layout is not the one this crate reads (LLVM 19-22): records cover ",
        );
        let c = crate::text::decimal_string(covered);
        why.append(c.as_str());
        why.append(" of ");
        let t = crate::text::decimal_string(n_counters as u128);
        why.append(t.as_str());
        why.append(" counters");
        return Err(why);
    }
    Ok(Records { by_key: out })
}

} // verus!

verus! {

// ---------------------------------------------------------------------------------------------
// The coverage mapping of a test binary.
/// The contents of the section `name` of the object file `binary` (ELF or Mach-O), uncompressed,
/// as the `object` crate finds it; none when the file cannot be parsed, has no such section or
/// its data cannot be decompressed.
pub uninterp spec fn object_section(binary: Seq<u8>, name: Seq<char>) -> Option<Seq<u8>>;

/// Looks up the section `name` of the object file `binary` with the `object` crate:
/// `object::File::parse`, `Object::section_by_name` and `ObjectSection::uncompressed_data`, as
/// one lookup. Claimed: the result is `object_section` of the arguments, and as a `Vec<u8>` it
/// holds at most `isize::MAX` bytes (std's bound on a vector's allocation). What the lookup
/// finds is named, not stated.
#[verifier::external_body]
fn section_data(binary: &[u8], name: &str) -> (r: Option<Vec<u8>>)
    ensures
        match r {
            Some(v) => object_section(binary@, name@) == Some(v@) && v@.len() <= isize::MAX,
            None => object_section(binary@, name@) is None,
        },
{
    let file = object::File::parse(binary).ok()?;
    let section = object::Object::section_by_name(&file, name)?;
    let data = object::ObjectSection::uncompressed_data(&section).ok()?;
    Some(data.into_owned())
}

/// The coverage mapping of the test binary `binary`: its two coverage sections, parsed.
pub open spec fn mapping_of(binary: Seq<u8>) -> Option<MappingModel> {
    match (object_section(binary, "__llvm_covmap"@), object_section(binary, "__llvm_covfun"@)) {
        (Some(covmap), Some(covfun)) => crate::mapping::parse_spec(covmap, covfun),
        _ => None,
    }
}

/// Reads the coverage mapping from the bytes of the test binary; none when a section is
/// missing or the sections cannot be parsed.
pub fn read_mapping(binary: &[u8]) -> (r: Option<Mapping>)
    ensures
        match r {
            Some(m) => mapping_of(binary@) == Some(m@),
            None => mapping_of(binary@) is None,
        },
{
    let covmap = match section_data(binary, "__llvm_covmap") {
        Some(v) => v,
        None => return None,
    };
    let covfun = match section_data(binary, "__llvm_covfun") {
        Some(v) => v,
        None => return None,
    };
    crate::mapping::parse(covmap.as_slice(), covfun.as_slice())
}

} // verus!

verus! {

// ---------------------------------------------------------------------------------------------
// The index of the code under test.
/// One function of the code under test, as needed per test case.
pub struct Func {
    /// The index of its first counter in the counter array, and its number of counters.
    counters: (usize, usize),
    /// Where this function's counters start in a snapshot.
    pos: usize,
    exprs: Vec<(Term, Term)>,
    /// (region id, term)
    regions: Vec<(u32, Term)>,
}

/// What a `Func` holds, as plain values.
pub struct FuncModel {
    pub start: usize,
    pub len: usize,
    pub pos: usize,
    pub exprs: Seq<(Term, Term)>,
    pub regions: Seq<(u32, Term)>,
}

impl View for Func {
    type V = FuncModel;

    closed spec fn view(&self) -> FuncModel {
        FuncModel {
            start: self.counters.0,
            len: self.counters.1,
            pos: self.pos,
            exprs: self.exprs@,
            regions: self.regions@,
        }
    }
}

/// The functions of the code under test and where their counters are.
pub struct Index {
    funcs: Vec<Func>,
    /// (first counter, number of counters) copied per test case, in snapshot order.
    window: Vec<(usize, usize)>,
    /// Whether counters are limited to the code under test.
    counters_known: bool,
    total_regions: u32,
    files: Vec<String>,
    /// Why counters could not be limited to the code under test and regions are missing.
    error: Option<String>,
}

/// What an `Index` holds, as plain values.
pub struct IndexModel {
    pub funcs: Seq<FuncModel>,
    pub window: Seq<(usize, usize)>,
    pub counters_known: bool,
    pub total_regions: u32,
    pub files: Seq<Seq<char>>,
    pub error: Option<Seq<char>>,
}

impl View for Index {
    type V = IndexModel;

    closed spec fn view(&self) -> IndexModel {
        IndexModel {
            funcs: self.funcs@.map_values(|f: Func| f@),
            window: self.window@,
            counters_known: self.counters_known,
            total_regions: self.total_regions,
            files: self.files@.map_values(|s: String| s@),
            error: match self.error {
                Some(e) => Some(e@),
                None => None,
            },
        }
    }
}

/// The number of counters in `window`.
pub open spec fn window_total(window: Seq<(usize, usize)>) -> int
    decreases window.len(),
{
    if window.len() == 0 {
        0
    } else {
        window_total(window.drop_last()) + window.last().1
    }
}

/// The number of counters of the functions `fs`.
pub open spec fn lens_total(fs: Seq<FuncModel>) -> int
    decreases fs.len(),
{
    if fs.len() == 0 {
        0
    } else {
        lens_total(fs.drop_last()) + fs.last().len
    }
}

impl Index {
    /// Well-formed: the counters copied per test case can be counted in a `usize`, and each
    /// function's counters stand within that count.
    #[verifier::type_invariant]
    closed spec fn wf(self) -> bool {
        &&& window_total(self.window@) <= usize::MAX
        &&& window_fits(self.window@)
        &&& forall|i: int|
            0 <= i < self.funcs@.len() ==> #[trigger] self.funcs@[i].pos + self.funcs@[i].counters.1
                <= usize::MAX
    }
}

/// The files a mapping names, one bool each: whether it is in the code under test.
pub open spec fn keep_spec(files: Seq<Seq<char>>, prefixes: Option<Seq<Seq<char>>>, own: Seq<char>) -> Seq<bool> {
    Seq::new(files.len(), |i: int| in_code_spec(files[i], prefixes, own))
}

/// The key of a function of the mapping.
pub open spec fn fkey(f: FunctionModel) -> u128 {
    key_of(f.name_ref, f.func_hash)
}

/// Function `i` is the first of `fs` with its key (a function can be listed once per
/// compilation unit that uses it).
pub open spec fn is_first(fs: Seq<FunctionModel>, i: int) -> bool {
    forall|j: int| 0 <= j < i ==> fkey(#[trigger] fs[j]) != fkey(fs[i])
}

/// The regions of `f` in the code under test, in order.
pub open spec fn kept(f: FunctionModel, keep: Seq<bool>) -> Seq<crate::mapping::Region> {
    f.regions.filter(|r: crate::mapping::Region| keep[r.file as int])
}

/// The regions `kr`, numbered from `next` on, with their terms.
pub open spec fn numbered(kr: Seq<crate::mapping::Region>, next: int) -> Seq<(u32, Term)> {
    Seq::new(kr.len(), |j: int| ((next + j) as u32, kr[j].term))
}

/// Where the function's counters are, or no counters when it has no record (it never ran).
pub open spec fn counters_of(recs: Map<u128, (usize, usize)>, f: FunctionModel) -> (usize, usize) {
    if recs.contains_key(fkey(f)) {
        recs[fkey(f)]
    } else {
        (0, 0)
    }
}

/// Where a function whose first counter is `start` goes among `t`: after each one whose first
/// counter is at most `start`.
pub open spec fn insert_pos(t: Seq<FuncModel>, start: usize) -> int
    decreases t.len(),
{
    if t.len() == 0 {
        0
    } else if t.last().start <= start {
        t.len() as int
    } else {
        insert_pos(t.drop_last(), start)
    }
}

/// What the index has gathered from the first functions of the mapping: the functions of the
/// code under test, in the order of their first counter (functions with the same first counter
/// in mapping order), the number of regions numbered so far, and the files of those regions.
pub struct Gathered {
    pub funcs: Seq<FuncModel>,
    pub next: int,
    pub used: Set<int>,
}

/// The files of the regions `kr`.
pub open spec fn region_files(kr: Seq<crate::mapping::Region>) -> Set<int> {
    Set::new(|x: int| exists|k: int| 0 <= k < kr.len() && x == kr[k].file)
}

/// What the index gathers from the first `i` functions of `m`: each function listed for the
/// first time with a region in the code under test (`keep`) contributes its regions, numbered in
/// order, and its counters from `recs`.
pub open spec fn gather(m: MappingModel, keep: Seq<bool>, recs: Map<u128, (usize, usize)>, i: nat) -> Gathered
    decreases i,
{
    if i == 0 {
        Gathered { funcs: Seq::empty(), next: 0, used: Set::empty() }
    } else {
        let g = gather(m, keep, recs, (i - 1) as nat);
        let f = m.functions[i - 1];
        if !is_first(m.functions, i - 1) {
            g
        } else {
            let kr = kept(f, keep);
            if kr.len() == 0 {
                g
            } else {
                let (start, len) = counters_of(recs, f);
                let func = FuncModel {
                    start,
                    len,
                    pos: 0,
                    exprs: f.exprs,
                    regions: numbered(kr, g.next),
                };
                Gathered {
                    funcs: g.funcs.insert(insert_pos(g.funcs, start), func),
                    next: g.next + kr.len(),
                    used: g.used.union(region_files(kr)),
                }
            }
        }
    }
}

/// The functions `fs` with their positions in a snapshot: each after the counters of those
/// before it.
pub open spec fn positioned(fs: Seq<FuncModel>) -> Seq<FuncModel> {
    Seq::new(
        fs.len(),
        |i: int|
            FuncModel {
                start: fs[i].start,
                len: fs[i].len,
                pos: lens_total(fs.take(i)) as usize,
                exprs: fs[i].exprs,
                regions: fs[i].regions,
            },
    )
}

/// The counters copied per test case: each function's that has counters, in order.
pub open spec fn window_of(fs: Seq<FuncModel>) -> Seq<(usize, usize)>
    decreases fs.len(),
{
    if fs.len() == 0 {
        Seq::empty()
    } else if fs.last().len == 0 {
        window_of(fs.drop_last())
    } else {
        window_of(fs.drop_last()).push((fs.last().start, fs.last().len))
    }
}

/// The names of the files `used` of `m`.
pub open spec fn names_of(m: MappingModel, used: Set<int>) -> Set<Seq<char>> {
    Set::new(|s: Seq<char>| exists|i: int| used.contains(i) && 0 <= i < m.files.len() && m.files[i] == s)
}

/// Each function's regions name files of the mapping.
pub open spec fn regions_in_files(m: MappingModel) -> bool {
    forall|i: int, j: int|
        0 <= i < m.functions.len() && 0 <= j < m.functions[i].regions.len() ==> (
        #[trigger] m.functions[i].regions[j]).file < m.files.len()
}

/// The number of regions of the first `i` functions of `m`.
pub open spec fn regions_upto(m: MappingModel, i: nat) -> int
    decreases i,
{
    if i == 0 {
        0
    } else {
        regions_upto(m, (i - 1) as nat) + m.functions[i - 1].regions.len()
    }
}

/// The number of counters the records give the first `i` functions of `m`.
pub open spec fn counters_upto(m: MappingModel, recs: Map<u128, (usize, usize)>, i: nat) -> int
    decreases i,
{
    if i == 0 {
        0
    } else {
        counters_upto(m, recs, (i - 1) as nat) + counters_of(recs, m.functions[i - 1]).1
    }
}

/// The mapping's regions can be numbered in 32 bits, and the counters of its functions counted
/// in a `usize`.
pub open spec fn fits_spec(m: MappingModel, recs: Map<u128, (usize, usize)>) -> bool {
    &&& regions_upto(m, m.functions.len()) <= u32::MAX
    &&& counters_upto(m, recs, m.functions.len()) <= usize::MAX
    &&& forall|i: int|
        0 <= i < m.functions.len() ==> #[trigger] counters_of(recs, m.functions[i]).0 + counters_of(
            recs,
            m.functions[i],
        ).1 <= usize::MAX
}

/// Each function's counters end within the `usize` range.
pub open spec fn ranges_fit(fs: Seq<FuncModel>) -> bool {
    forall|k: int| 0 <= k < fs.len() ==> #[trigger] fs[k].start + fs[k].len <= usize::MAX
}

/// Each window entry ends within the `usize` range.
pub open spec fn window_fits(w: Seq<(usize, usize)>) -> bool {
    forall|k: int| 0 <= k < w.len() ==> #[trigger] w[k].0 + w[k].1 <= usize::MAX
}

/// The index when the mapping or the records cannot be used: every counter counts, there are no
/// regions, and `why` says why.
pub open spec fn unusable(why: Seq<char>, n_counters: usize) -> IndexModel {
    IndexModel {
        funcs: Seq::empty(),
        window: seq![(0usize, n_counters)],
        counters_known: false,
        total_regions: 0,
        files: Seq::empty(),
        error: Some(why),
    }
}

/// Why there are no regions when the mapping could not be read.
pub open spec fn no_mapping_message() -> Seq<char> {
    "the coverage mapping could not be read from the test binary"@
}

/// Why there are no counters when no function of the code under test has any.
pub open spec fn no_counters_message() -> Seq<char> {
    "no function of the code under test has counters (check RESIDUAL_RISK_CODE)"@
}

/// The index built from a readable mapping `m` and records `recs`.
pub open spec fn built(
    m: MappingModel,
    recs: Map<u128, (usize, usize)>,
    prefixes: Option<Seq<Seq<char>>>,
    own: Seq<char>,
    idx: IndexModel,
) -> bool {
    let g = gather(m, keep_spec(m.files, prefixes, own), recs, m.functions.len());
    &&& idx.funcs == positioned(g.funcs)
    &&& idx.window == window_of(g.funcs)
    &&& idx.counters_known
    &&& idx.total_regions == g.next
    &&& crate::text::strictly_sorted(idx.files)
    &&& idx.files.to_set() == names_of(m, g.used)
    &&& idx.error == (if forall|k: int| 0 <= k < g.funcs.len() ==> #[trigger] g.funcs[k].len == 0 {
        Some(no_counters_message())
    } else {
        None
    })
}

} // verus!

verus! {

/// The views of `v`'s functions.
pub open spec fn funcs_view(v: Seq<Func>) -> Seq<FuncModel> {
    v.map_values(|f: Func| f@)
}

proof fn lemma_lens_insert(t: Seq<FuncModel>, p: int, x: FuncModel)
    requires
        0 <= p <= t.len(),
    ensures
        lens_total(t.insert(p, x)) == lens_total(t) + x.len,
    decreases t.len(),
{
    if p == t.len() {
        assert(t.insert(p, x).drop_last() =~= t);
    } else {
        lemma_lens_insert(t.drop_last(), p, x);
        assert(t.insert(p, x).drop_last() =~= t.drop_last().insert(p, x));
    }
}

proof fn lemma_lens_prefix(s: Seq<FuncModel>, i: int)
    requires
        0 <= i <= s.len(),
    ensures
        lens_total(s.take(i)) <= lens_total(s),
        i < s.len() ==> lens_total(s.take(i + 1)) == lens_total(s.take(i)) + s[i].len,
        lens_total(s) >= 0,
    decreases s.len(),
{
    if i < s.len() {
        assert(s.take(i + 1).drop_last() =~= s.take(i));
    }
    if s.len() > 0 {
        if i == s.len() {
            assert(s.take(i) =~= s);
            lemma_lens_prefix(s.drop_last(), 0);
        } else {
            lemma_lens_prefix(s.drop_last(), i);
            assert(s.drop_last().take(i) =~= s.take(i));
            if i + 1 <= s.drop_last().len() {
                assert(s.drop_last().take(i + 1) =~= s.take(i + 1));
            }
        }
    } else {
        assert(s.take(i) =~= s);
    }
}

proof fn lemma_window_total(s: Seq<FuncModel>)
    ensures
        window_total(window_of(s)) == lens_total(s),
    decreases s.len(),
{
    if s.len() > 0 {
        lemma_window_total(s.drop_last());
        if s.last().len != 0 {
            assert(window_of(s).drop_last() =~= window_of(s.drop_last()));
        }
    }
}

/// Whether each file of the mapping is in the code under test.
fn keep_flags(files: &Vec<String>, prefixes: &Option<Vec<String>>, own: &str) -> (keep: Vec<bool>)
    ensures
        keep@ == keep_spec(
            files@.map_values(|s: String| s@),
            match prefixes {
                Some(ps) => Some(ps@.map_values(|p: String| p@)),
                None => None,
            },
            own@,
        ),
{
    let ghost ps = match prefixes {
        Some(ps) => Some(ps@.map_values(|p: String| p@)),
        None => None,
    };
    let ghost fs = files@.map_values(|s: String| s@);
    let mut keep: Vec<bool> = Vec::new();
    let mut i: usize = 0;
    while i < files.len()
        invariant
            i <= files.len(),
            fs == files@.map_values(|s: String| s@),
            ps == (match prefixes {
                Some(ps) => Some(ps@.map_values(|p: String| p@)),
                None => None,
            }),
            keep@ == keep_spec(fs, ps, own@).take(i as int),
        decreases files.len() - i,
    {
        let k = in_code_under_test(files[i].as_str(), prefixes, own);
        keep.push(k);
        i += 1;
        assert(keep@ =~= keep_spec(fs, ps, own@).take(i as int));
    }
    assert(keep@ =~= keep_spec(fs, ps, own@));
    keep
}

/// The regions of `f` in the code under test, numbered from `*next` on; marks their files in
/// `used`.
fn number_regions(
    f: &crate::mapping::Function,
    keep: &Vec<bool>,
    next: &mut u32,
    used: &mut Vec<bool>,
) -> (r: Vec<(u32, Term)>)
    requires
        keep.len() == old(used).len(),
        forall|j: int| 0 <= j < f.regions@.len() ==> (#[trigger] f.regions@[j]).file < keep.len(),
        *old(next) + f.regions@.len() <= u32::MAX,
    ensures
        r@ == numbered(kept(f@, keep@), *old(next) as int),
        *final(next) == *old(next) + kept(f@, keep@).len(),
        final(used)@.len() == old(used)@.len(),
        forall|x: int|
            0 <= x < final(used)@.len() ==> (#[trigger] final(used)@[x] <==> (old(used)@[x]
                || exists|k: int|
                0 <= k < kept(f@, keep@).len() && x == kept(f@, keep@)[k].file)),
{
    let ghost pred = |r: crate::mapping::Region| keep@[r.file as int];
    let ghost start = *next as int;
    let ghost used0 = used@;
    let mut out: Vec<(u32, Term)> = Vec::new();
    let mut j: usize = 0;
    proof {
        reveal_with_fuel(Seq::filter, 1);
        assert(f.regions@.take(0) =~= Seq::<crate::mapping::Region>::empty());
    }
    while j < f.regions.len()
        invariant
            j <= f.regions.len(),
            keep.len() == used.len(),
            used.len() == used0.len(),
            forall|k: int| 0 <= k < f.regions@.len() ==> (#[trigger] f.regions@[k]).file < keep.len(),
            start + f.regions@.len() <= u32::MAX,
            pred == (|r: crate::mapping::Region| keep@[r.file as int]),
            out@ == numbered(f.regions@.take(j as int).filter(pred), start),
            *next == start + f.regions@.take(j as int).filter(pred).len(),
            f.regions@.take(j as int).filter(pred).len() <= j,
            forall|x: int|
                0 <= x < used@.len() ==> (#[trigger] used@[x] <==> (used0[x] || exists|k: int|
                    0 <= k < f.regions@.take(j as int).filter(pred).len() && x == f.regions@.take(
                        j as int,
                    ).filter(pred)[k].file)),
        decreases f.regions.len() - j,
    {
        let r = f.regions[j];
        let ghost before = f.regions@.take(j as int).filter(pred);
        proof {
            reveal_with_fuel(Seq::filter, 1);
            assert(f.regions@.take(j + 1).drop_last() =~= f.regions@.take(j as int));
        }
        if keep[r.file as usize] {
            out.push((*next, r.term));
            *next = *next + 1;
            used.set(r.file as usize, true);
            proof {
                let after = f.regions@.take(j + 1).filter(pred);
                assert(after == before.push(r));
                assert(out@ =~= numbered(after, start));
                assert forall|x: int| 0 <= x < used@.len() implies (#[trigger] used@[x] <==> (
                used0[x] || exists|k: int| 0 <= k < after.len() && x == after[k].file)) by {
                    if x == r.file {
                        assert(after[before.len() as int] == r);
                    }
                    if exists|k: int| 0 <= k < after.len() && x == after[k].file {
                        let k = choose|k: int| 0 <= k < after.len() && x == after[k].file;
                        if k < before.len() {
                            assert(after[k] == before[k]);
                        }
                    }
                    if exists|k: int| 0 <= k < before.len() && x == before[k].file {
                        let k = choose|k: int| 0 <= k < before.len() && x == before[k].file;
                        assert(after[k] == before[k]);
                    }
                }
            }
        } else {
            proof {
                let after = f.regions@.take(j + 1).filter(pred);
                assert(after == before);
            }
        }
        j += 1;
    }
    proof {
        assert(f.regions@.take(f.regions@.len() as int) =~= f.regions@);
    }
    out
}

/// Puts `func` among `funcs` after each function whose first counter is at most its own.
fn insert_func(funcs: &mut Vec<Func>, func: Func)
    ensures
        funcs_view(final(funcs)@) == funcs_view(old(funcs)@).insert(
            insert_pos(funcs_view(old(funcs)@), func@.start),
            func@,
        ),
{
    let ghost t = funcs_view(funcs@);
    let start = func.counters.0;
    let mut p = funcs.len();
    assert(t.take(p as int) =~= t);
    while p > 0 && funcs[p - 1].counters.0 > start
        invariant
            p <= funcs.len(),
            t == funcs_view(funcs@),
            insert_pos(t, start) == insert_pos(t.take(p as int), start),
        decreases p,
    {
        assert(t.take(p as int).drop_last() =~= t.take(p - 1));
        p -= 1;
    }
    proof {
        if p > 0 {
            assert(t.take(p as int).last().start <= start);
        }
    }
    let ghost fv = func@;
    funcs.insert(p, func);
    assert(funcs_view(funcs@) =~= t.insert(p as int, fv));
}

} // verus!

verus! {

/// `used` marks the files `s` of a mapping with `n` files.
pub open spec fn marks(used: Seq<bool>, s: Set<int>, n: int) -> bool {
    &&& used.len() == n
    &&& forall|x: int| 0 <= x < n ==> (#[trigger] used[x] <==> s.contains(x))
    &&& forall|x: int| s.contains(x) ==> 0 <= x < n
}

/// The keys of the first `i` functions of `fs`.
pub open spec fn keys_upto(fs: Seq<FunctionModel>, i: int) -> Set<u128> {
    Set::new(|k: u128| exists|j: int| 0 <= j < i && fkey(fs[j]) == k)
}

proof fn lemma_regions_upto_mono(m: MappingModel, i: nat, j: nat)
    requires
        i <= j <= m.functions.len(),
    ensures
        regions_upto(m, i) <= regions_upto(m, j),
    decreases j - i,
{
    if i < j {
        lemma_regions_upto_mono(m, i, (j - 1) as nat);
    }
}

proof fn lemma_counters_upto_mono(m: MappingModel, recs: Map<u128, (usize, usize)>, i: nat, j: nat)
    requires
        i <= j <= m.functions.len(),
    ensures
        counters_upto(m, recs, i) <= counters_upto(m, recs, j),
    decreases j - i,
{
    if i < j {
        lemma_counters_upto_mono(m, recs, i, (j - 1) as nat);
    }
}

/// The functions of the code under test, in the order of their first counter, the number of
/// their regions, and which files those regions are in.
fn gather_funcs(m: &Mapping, keep: &Vec<bool>, recs: &Records) -> (r: (Vec<Func>, u32, Vec<bool>))
    requires
        keep@.len() == m@.files.len(),
        regions_in_files(m@),
        fits_spec(m@, recs@),
    ensures
        ({
            let g = gather(m@, keep@, recs@, m@.functions.len());
            &&& funcs_view(r.0@) == g.funcs
            &&& r.1 == g.next
            &&& marks(r.2@, g.used, m@.files.len() as int)
            &&& lens_total(g.funcs) <= usize::MAX
            &&& ranges_fit(g.funcs)
        }),
{
    let ghost mv = m@;
    let mut funcs: Vec<Func> = Vec::new();
    let mut next: u32 = 0;
    let mut used: Vec<bool> = Vec::new();
    let mut x: usize = 0;
    while x < keep.len()
        invariant
            x <= keep.len(),
            used@ == Seq::new(x as nat, |k: int| false),
        decreases keep.len() - x,
    {
        used.push(false);
        x += 1;
        assert(used@ =~= Seq::new(x as nat, |k: int| false));
    }
    let mut seen: std::collections::HashSet<u128> = std::collections::HashSet::new();
    let mut i: usize = 0;
    assert(keys_upto(mv.functions, 0) =~= Set::<u128>::empty());
    assert(funcs_view(funcs@) =~= Seq::<FuncModel>::empty());
    while i < m.functions.len()
        invariant
            i <= m.functions.len(),
            mv == m@,
            keep@.len() == mv.files.len(),
            regions_in_files(mv),
            fits_spec(mv, recs@),
            seen@ == keys_upto(mv.functions, i as int),
            funcs_view(funcs@) == gather(mv, keep@, recs@, i as nat).funcs,
            next == gather(mv, keep@, recs@, i as nat).next,
            marks(used@, gather(mv, keep@, recs@, i as nat).used, mv.files.len() as int),
            next <= regions_upto(mv, i as nat),
            lens_total(funcs_view(funcs@)) <= counters_upto(mv, recs@, i as nat),
            ranges_fit(funcs_view(funcs@)),
        decreases m.functions.len() - i,
    {
        let f = &m.functions[i];
        assert(f@ == mv.functions[i as int]);
        let ghost g = gather(mv, keep@, recs@, i as nat);
        let k = key(f.name_ref, f.func_hash);
        let fresh = seen.insert(k);
        proof {
            lemma_regions_upto_mono(mv, (i + 1) as nat, mv.functions.len());
            lemma_counters_upto_mono(mv, recs@, (i + 1) as nat, mv.functions.len());
            assert(keys_upto(mv.functions, i + 1) =~= keys_upto(mv.functions, i as int).insert(k));
            assert(fresh == is_first(mv.functions, i as int)) by {
                if !fresh {
                    let j = choose|j: int| 0 <= j < i && fkey(mv.functions[j]) == k;
                    assert(!is_first(mv.functions, i as int));
                }
            }
            lemma_lens_prefix(funcs_view(funcs@), 0);
        }
        if !fresh {
            i += 1;
            continue;
        }
        proof {
            assert forall|j: int| 0 <= j < f.regions@.len() implies (#[trigger] f.regions@[j]).file
                < keep.len() by {
                assert(mv.functions[i as int].regions[j] == f.regions@[j]);
            }
        }
        let ghost used_before = used@;
        let regions = number_regions(f, keep, &mut next, &mut used);
        proof {
            let kr = kept(f@, keep@);
            kr.lemma_filter_len(|r: crate::mapping::Region| keep@[r.file as int]);
            assert forall|y: int| #[trigger] g.used.union(region_files(kr)).contains(y) implies 0 <= y
                < mv.files.len() by {
                if !g.used.contains(y) {
                    let k = choose|k: int| 0 <= k < kr.len() && y == kr[k].file;
                    assert(kr.contains(kr[k]));
                    f.regions@.lemma_filter_contains_rev(
                        |r: crate::mapping::Region| keep@[r.file as int],
                        kr[k],
                    );
                    let j = choose|j: int| 0 <= j < f.regions@.len() && f.regions@[j] == kr[k];
                    assert(mv.functions[i as int].regions[j] == kr[k]);
                }
            }
        }
        if regions.len() == 0 {
            proof {
                let kr = kept(f@, keep@);
                assert forall|y: int| 0 <= y < mv.files.len() implies (#[trigger] used@[y] <==> g.used.contains(y)) by {}
            }
            i += 1;
            continue;
        }
        let counters = match recs.get(f.name_ref, f.func_hash) {
            Some(c) => c,
            None => (0, 0),
        };
        let mut exprs: Vec<(Term, Term)> = Vec::new();
        let mut e: usize = 0;
        while e < f.exprs.len()
            invariant
                e <= f.exprs.len(),
                exprs@ == f.exprs@.take(e as int),
            decreases f.exprs.len() - e,
        {
            exprs.push(f.exprs[e]);
            e += 1;
            assert(exprs@ =~= f.exprs@.take(e as int));
        }
        assert(exprs@ =~= f.exprs@);
        let func = Func { counters, pos: 0, exprs, regions };
        let ghost fv = func@;
        proof {
            lemma_insert_pos_range(funcs_view(funcs@), counters.0);
            lemma_lens_insert(funcs_view(funcs@), insert_pos(funcs_view(funcs@), counters.0), fv);
        }
        let ghost fs0 = funcs_view(funcs@);
        let ghost ip = insert_pos(fs0, counters.0);
        insert_func(&mut funcs, func);
        proof {
            assert(counters_of(recs@, mv.functions[i as int]).0 + counters_of(recs@, mv.functions[i as int]).1 <= usize::MAX);
            assert forall|k: int| 0 <= k < funcs_view(funcs@).len() implies #[trigger] funcs_view(funcs@)[k].start
                + funcs_view(funcs@)[k].len <= usize::MAX by {
                if k < ip {
                    assert(funcs_view(funcs@)[k] == fs0[k]);
                } else if k > ip {
                    assert(funcs_view(funcs@)[k] == fs0[k - 1]);
                }
            }
            let kr = kept(f@, keep@);
            let g2 = gather(mv, keep@, recs@, (i + 1) as nat);
            assert(g2.used == g.used.union(region_files(kr)));
            assert forall|y: int| 0 <= y < mv.files.len() implies (#[trigger] used@[y] <==> g2.used.contains(y)) by {}
        }
        i += 1;
    }
    proof {
        lemma_lens_prefix(funcs_view(funcs@), 0);
    }
    (funcs, next, used)
}

proof fn lemma_insert_pos_range(t: Seq<FuncModel>, start: usize)
    ensures
        0 <= insert_pos(t, start) <= t.len(),
    decreases t.len(),
{
    if t.len() > 0 && t.last().start > start {
        lemma_insert_pos_range(t.drop_last(), start);
    }
}

} // verus!

verus! {

proof fn lemma_window_fits(s: Seq<FuncModel>)
    requires
        ranges_fit(s),
    ensures
        window_fits(window_of(s)),
    decreases s.len(),
{
    if s.len() > 0 {
        assert(ranges_fit(s.drop_last())) by {
            assert forall|k: int| 0 <= k < s.drop_last().len() implies #[trigger] s.drop_last()[k].start
                + s.drop_last()[k].len <= usize::MAX by {
                assert(s.drop_last()[k] == s[k]);
            }
        }
        lemma_window_fits(s.drop_last());
        assert(s[s.len() - 1] == s.last());
    }
}

/// Gives each function its position in a snapshot (after the counters of those before it) and
/// returns the counters copied per test case.
fn place(funcs: &mut Vec<Func>) -> (window: Vec<(usize, usize)>)
    requires
        lens_total(funcs_view(old(funcs)@)) <= usize::MAX,
    ensures
        funcs_view(final(funcs)@) == positioned(funcs_view(old(funcs)@)),
        window@ == window_of(funcs_view(old(funcs)@)),
{
    let ghost t = funcs_view(funcs@);
    let mut window: Vec<(usize, usize)> = Vec::new();
    let mut pos: usize = 0;
    let mut i: usize = 0;
    assert(t.take(0) =~= Seq::<FuncModel>::empty());
    while i < funcs.len()
        invariant
            i <= funcs.len(),
            funcs.len() == t.len(),
            lens_total(t) <= usize::MAX,
            pos == lens_total(t.take(i as int)),
            window@ == window_of(t.take(i as int)),
            forall|k: int| 0 <= k < i ==> #[trigger] funcs_view(funcs@)[k] == positioned(t)[k],
            forall|k: int| i <= k < t.len() ==> #[trigger] funcs_view(funcs@)[k] == t[k],
        decreases funcs.len() - i,
    {
        proof {
            lemma_lens_prefix(t, i as int);
            lemma_lens_prefix(t, (i + 1) as int);
            assert(t.take(i + 1).drop_last() =~= t.take(i as int));
        }
        let ghost before = funcs@;
        assert(funcs_view(before)[i as int] == before[i as int]@);
        let mut tmp = Func { counters: (0, 0), pos: 0, exprs: Vec::new(), regions: Vec::new() };
        funcs.set_and_swap(i, &mut tmp);
        assert(tmp@ == t[i as int]);
        tmp.pos = pos;
        let (start, len) = tmp.counters;
        let ghost placed = tmp@;
        funcs.set_and_swap(i, &mut tmp);
        assert(funcs@ == before.update(i as int, funcs@[i as int]));
        assert(funcs@[i as int]@ == placed);
        if len > 0 {
            window.push((start, len));
        }
        pos = pos + len;
        i += 1;
        proof {
            assert forall|k: int| 0 <= k < i implies #[trigger] funcs_view(funcs@)[k] == positioned(
                t,
            )[k] by {
                assert(funcs_view(funcs@)[k] == funcs@[k]@);
                if k < i - 1 {
                    assert(funcs@[k] == before[k]);
                    assert(funcs_view(before)[k] == before[k]@);
                }
            }
            assert forall|k: int| i <= k < t.len() implies #[trigger] funcs_view(funcs@)[k] == t[k] by {
                assert(funcs_view(funcs@)[k] == funcs@[k]@);
                assert(funcs@[k] == before[k]);
                assert(funcs_view(before)[k] == before[k]@);
            }
        }
    }
    assert(t.take(t.len() as int) =~= t);
    assert(funcs_view(funcs@) =~= positioned(t));
    window
}

/// The names of the files marked in `used`, sorted, each once.
fn used_names(files: &Vec<String>, used: &Vec<bool>) -> (names: Vec<String>)
    requires
        used@.len() == files@.len(),
    ensures
        crate::text::strictly_sorted(names@.map_values(|s: String| s@)),
        names@.map_values(|s: String| s@).to_set() == Set::new(
            |s: Seq<char>|
                exists|i: int| 0 <= i < files@.len() && used@[i] && files@[i]@ == s,
        ),
{
    let mut names: Vec<String> = Vec::new();
    let mut i: usize = 0;
    assert(names@.map_values(|s: String| s@).to_set() =~= Set::<Seq<char>>::empty());
    while i < files.len()
        invariant
            i <= files.len(),
            used@.len() == files@.len(),
            crate::text::strictly_sorted(names@.map_values(|s: String| s@)),
            names@.map_values(|s: String| s@).to_set() == Set::new(
                |s: Seq<char>| exists|k: int| 0 <= k < i && used@[k] && files@[k]@ == s,
            ),
        decreases files.len() - i,
    {
        let ghost before = Set::new(
            |s: Seq<char>| exists|k: int| 0 <= k < i && used@[k] && files@[k]@ == s,
        );
        if used[i] {
            let name = files[i].clone();
            crate::text::insert_sorted(&mut names, name);
        }
        proof {
            let after = Set::new(
                |s: Seq<char>| exists|k: int| 0 <= k < i + 1 && used@[k] && files@[k]@ == s,
            );
            if used@[i as int] {
                assert(after =~= before.insert(files@[i as int]@));
            } else {
                assert(after =~= before);
            }
        }
        i += 1;
    }
    names
}

/// Whether a function among `funcs` has counters.
fn any_counters(funcs: &Vec<Func>) -> (r: bool)
    ensures
        r == exists|k: int| 0 <= k < funcs@.len() && funcs_view(funcs@)[k].len != 0,
{
    let mut i: usize = 0;
    while i < funcs.len()
        invariant
            i <= funcs.len(),
            forall|k: int| 0 <= k < i ==> funcs_view(funcs@)[k].len == 0,
        decreases funcs.len() - i,
    {
        if funcs[i].counters.1 != 0 {
            assert(funcs_view(funcs@)[i as int].len != 0);
            return true;
        }
        i += 1;
    }
    false
}

/// The index when the mapping or the records cannot be used (see `unusable`).
fn unusable_index(why: String, n_counters: usize) -> (idx: Index)
    ensures
        idx@ == unusable(why@, n_counters),
{
    let mut window: Vec<(usize, usize)> = Vec::new();
    window.push((0, n_counters));
    assert(window_fits(window@));
    assert(window@.drop_last() =~= Seq::<(usize, usize)>::empty());
    assert(window_total(window@.drop_last()) == 0);
    assert(window@.last() == (0usize, n_counters));
    assert(window_total(window@) == n_counters);
    let idx = Index {
        funcs: Vec::new(),
        window,
        counters_known: false,
        total_regions: 0,
        files: Vec::new(),
        error: Some(why),
    };
    assert(idx@.funcs =~= Seq::<FuncModel>::empty());
    assert(idx@.files =~= Seq::<Seq<char>>::empty());
    assert(idx@.window =~= seq![(0usize, n_counters)]);
    idx
}

/// The index built from a readable mapping and records.
fn build(
    m: &Mapping,
    recs: &Records,
    prefixes: &Option<Vec<String>>,
    own: &str,
) -> (idx: Index)
    requires
        regions_in_files(m@),
        fits_spec(m@, recs@),
    ensures
        built(
            m@,
            recs@,
            match prefixes {
                Some(ps) => Some(ps@.map_values(|p: String| p@)),
                None => None,
            },
            own@,
            idx@,
        ),
{
    let ghost ps = match prefixes {
        Some(ps) => Some(ps@.map_values(|p: String| p@)),
        None => None,
    };
    let keep = keep_flags(&m.files, prefixes, own);
    assert(m@.files == m.files@.map_values(|s: String| s@));
    let (mut funcs, next, used) = gather_funcs(m, &keep, recs);
    let ghost g = gather(m@, keep@, recs@, m@.functions.len());
    let has_counters = any_counters(&funcs);
    let window = place(&mut funcs);
    proof {
        lemma_window_total(g.funcs);
        lemma_window_fits(g.funcs);
        assert(funcs_view(funcs@).len() == funcs@.len());
        assert forall|i: int| 0 <= i < funcs@.len() implies #[trigger] funcs@[i].pos
            + funcs@[i].counters.1 <= usize::MAX by {
            lemma_lens_prefix(g.funcs, i);
            lemma_lens_prefix(g.funcs, i + 1);
            lemma_lens_prefix(g.funcs.take(i), 0);
            lemma_lens_prefix(g.funcs.take(i + 1), 0);
            assert(funcs_view(funcs@)[i] == positioned(g.funcs)[i]);
            assert(funcs_view(funcs@)[i] == funcs@[i]@);
        }
    }
    let files = used_names(&m.files, &used);
    let error = if has_counters {
        None
    } else {
        Some(String::from_str("no function of the code under test has counters (check RESIDUAL_RISK_CODE)"))
    };
    assert(window_total(window@) <= usize::MAX);
    let idx = Index { funcs, window, counters_known: true, total_regions: next, files, error };
    proof {
        let mv = m@;
        assert(idx@.files.to_set() =~= names_of(mv, g.used)) by {
            assert forall|x: Seq<char>| idx@.files.to_set().contains(x) <==> names_of(
                mv,
                g.used,
            ).contains(x) by {
                let fs = Set::new(
                    |s: Seq<char>|
                        exists|i: int| 0 <= i < m.files@.len() && used@[i] && m.files@[i]@ == s,
                );
                assert(idx@.files.to_set() == fs);
                if fs.contains(x) {
                    let i = choose|i: int|
                        0 <= i < m.files@.len() && used@[i] && m.files@[i]@ == x;
                    assert(mv.files[i] == m.files@[i]@);
                    assert(g.used.contains(i));
                    assert(names_of(mv, g.used).contains(x));
                }
                if names_of(mv, g.used).contains(x) {
                    let i = choose|i: int|
                        g.used.contains(i) && 0 <= i < mv.files.len() && mv.files[i] == x;
                    assert(mv.files[i] == m.files@[i]@);
                    assert(used@[i]);
                    assert(fs.contains(x));
                }
            }
        }
        if has_counters {
            let k = choose|k: int| 0 <= k < g.funcs.len() && g.funcs[k].len != 0;
            assert(!(forall|k: int| 0 <= k < g.funcs.len() ==> #[trigger] g.funcs[k].len == 0));
        }
    }
    idx
}

/// Whether the index of the code under test can be built from `m` and `recs`: every region
/// names one of the mapping's files, the regions can be numbered in 32 bits and the counters of
/// the functions counted in a `usize`.
pub fn fits(m: &Mapping, recs: &Records) -> (r: bool)
    ensures
        r == (regions_in_files(m@) && fits_spec(m@, recs@)),
{
    let ghost mv = m@;
    let mut regions: u128 = 0;
    let mut counters: u128 = 0;
    let mut ok = true;
    let mut i: usize = 0;
    while i < m.functions.len()
        invariant
            i <= m.functions.len(),
            mv == m@,
            regions == regions_upto(mv, i as nat),
            counters == counters_upto(mv, recs@, i as nat),
            regions <= u32::MAX,
            counters <= usize::MAX,
            ok == forall|a: int, b: int|
                0 <= a < i && 0 <= b < mv.functions[a].regions.len() ==> (
                #[trigger] mv.functions[a].regions[b]).file < mv.files.len(),
            forall|a: int|
                0 <= a < i ==> #[trigger] counters_of(recs@, mv.functions[a]).0 + counters_of(
                    recs@,
                    mv.functions[a],
                ).1 <= usize::MAX,
        decreases m.functions.len() - i,
    {
        let f = &m.functions[i];
        assert(f@ == mv.functions[i as int]);
        let mut j: usize = 0;
        let ghost ok0 = ok;
        while j < f.regions.len()
            invariant
                j <= f.regions.len(),
                mv == m@,
                f@ == mv.functions[i as int],
                ok == (ok0 && forall|b: int|
                    0 <= b < j ==> (#[trigger] mv.functions[i as int].regions[b]).file
                        < mv.files.len()),
            decreases f.regions.len() - j,
        {
            if (f.regions[j].file as usize) >= m.files.len() {
                ok = false;
            }
            j += 1;
        }
        proof {
            assert(ok == forall|a: int, b: int|
                0 <= a < i + 1 && 0 <= b < mv.functions[a].regions.len() ==> (
                #[trigger] mv.functions[a].regions[b]).file < mv.files.len()) by {
                if !ok0 {
                    let (a, b) = choose|a: int, b: int|
                        0 <= a < i && 0 <= b < mv.functions[a].regions.len() && !((
                        #[trigger] mv.functions[a].regions[b]).file < mv.files.len());
                }
            }
            lemma_regions_upto_mono(mv, (i + 1) as nat, mv.functions.len());
            lemma_counters_upto_mono(mv, recs@, (i + 1) as nat, mv.functions.len());
        }
        regions = regions + f.regions.len() as u128;
        if regions > u32::MAX as u128 {
            proof {
                lemma_regions_upto_mono(mv, (i + 1) as nat, mv.functions.len());
            }
            return false;
        }
        let (start, n) = match recs.get(f.name_ref, f.func_hash) {
            Some(c) => c,
            None => (0, 0),
        };
        if n > usize::MAX - start {
            return false;
        }
        counters = counters + n as u128;
        if counters > usize::MAX as u128 {
            proof {
                lemma_counters_upto_mono(mv, recs@, (i + 1) as nat, mv.functions.len());
            }
            return false;
        }
        i += 1;
    }
    ok
}

/// `idx` is the index made of the mapping `map` (none when it could not be read), the records
/// (or why they could not be read), the prefixes, this crate's own directory and the number of
/// counters: unusable without a mapping or without records, else built from them.
pub open spec fn index_of(
    map: Option<MappingModel>,
    records: Result<Map<u128, (usize, usize)>, Seq<char>>,
    prefixes: Option<Seq<Seq<char>>>,
    own: Seq<char>,
    n_counters: usize,
    idx: IndexModel,
) -> bool {
    match map {
        None => idx == unusable(no_mapping_message(), n_counters),
        Some(m) => match records {
            Err(why) => idx == unusable(why, n_counters),
            Ok(r) => built(m, r, prefixes, own, idx),
        },
    }
}

/// The index of the code under test, from the coverage mapping (`None` when it could not be
/// read), the profile data records (or why they could not be read), the code-under-test
/// prefixes, this crate's own directory and the number of counters in the counter array.
pub fn index(
    map: Option<Mapping>,
    records: Result<Records, String>,
    prefixes: &Option<Vec<String>>,
    own: &str,
    n_counters: usize,
) -> (idx: Index)
    requires
        map matches Some(m) ==> (records matches Ok(r) ==> regions_in_files(m@) && fits_spec(
            m@,
            r@,
        )),
    ensures
        index_of(
            match map {
                Some(m) => Some(m@),
                None => None,
            },
            match records {
                Ok(r) => Ok(r@),
                Err(why) => Err(why@),
            },
            match prefixes {
                Some(ps) => Some(ps@.map_values(|p: String| p@)),
                None => None,
            },
            own@,
            n_counters,
            idx@,
        ),
{
    match map {
        None => unusable_index(
            String::from_str("the coverage mapping could not be read from the test binary"),
            n_counters,
        ),
        Some(m) => match records {
            Err(why) => unusable_index(why, n_counters),
            Ok(r) => build(&m, &r, prefixes, own),
        },
    }
}

} // verus!

verus! {

// ---------------------------------------------------------------------------------------------
// Per test case.
/// How many counters a window entry copies from an array of `n` counters: those of the entry
/// that lie within the array.
pub open spec fn clipped(w: (usize, usize), n: int) -> int {
    let end = if w.0 + w.1 < n { w.0 + w.1 } else { n };
    let start = if w.0 < end { w.0 as int } else { end };
    end - start
}

/// How many counters a snapshot of `window` copies from an array of `n` counters.
pub open spec fn copied_len(window: Seq<(usize, usize)>, n: int) -> int
    decreases window.len(),
{
    if window.len() == 0 {
        0
    } else {
        copied_len(window.drop_last(), n) + clipped(window.last(), n)
    }
}

/// The counters a copy of window entry `w` reads from an array of `n` counters: those of the
/// entry that lie within the array, in order.
pub open spec fn entry_indices(w: (usize, usize), n: int) -> Seq<int> {
    let end = if w.0 + w.1 < n { w.0 + w.1 } else { n };
    let start = if w.0 < end { w.0 as int } else { end };
    Seq::new((end - start) as nat, |c: int| start + c)
}

/// The counters a snapshot of `window` reads from an array of `n` counters, entry by entry.
pub open spec fn copied_indices(window: Seq<(usize, usize)>, n: int) -> Seq<int>
    decreases window.len(),
{
    if window.len() == 0 {
        Seq::empty()
    } else {
        copied_indices(window.drop_last(), n) + entry_indices(window.last(), n)
    }
}

/// `vals` are the counters of `window` in an array of `n` counters as `read` gives them: one
/// value for each counter the window copies, in order, each what `read` returned for that
/// counter's index.
pub open spec fn read_from<F: Fn(usize) -> u64>(read: F, window: Seq<(usize, usize)>, n: int, vals: Seq<u64>) -> bool {
    let ids = copied_indices(window, n);
    &&& vals.len() == ids.len()
    &&& forall|q: int| 0 <= q < vals.len() ==> call_ensures(read, (ids[q] as usize,), #[trigger] vals[q])
}

proof fn lemma_copied_indices_len(window: Seq<(usize, usize)>, n: int)
    requires
        n >= 0,
    ensures
        copied_indices(window, n).len() == copied_len(window, n),
        forall|q: int|
            0 <= q < copied_indices(window, n).len() ==> 0 <= #[trigger] copied_indices(window, n)[q]
                < n,
    decreases window.len(),
{
    if window.len() > 0 {
        lemma_copied_indices_len(window.drop_last(), n);
        let a = copied_indices(window.drop_last(), n);
        let b = entry_indices(window.last(), n);
        assert forall|q: int| 0 <= q < (a + b).len() implies 0 <= #[trigger] (a + b)[q] < n by {
            if q >= a.len() {
                assert((a + b)[q] == b[q - a.len()]);
            }
        }
    }
}

/// Copies the counters of `window` that lie within an array of `n_counters` counters, entry by
/// entry, reading each with `read` (given its index). The values are whatever the counters hold
/// at the time; which counter each is read from is fixed.
pub fn snapshot<F: Fn(usize) -> u64>(read: &F, n_counters: usize, window: &[(usize, usize)]) -> (out: Vec<u64>)
    requires
        forall|i: usize| i < n_counters ==> call_requires(*read, (i,)),
    ensures
        out@.len() == copied_len(window@, n_counters as int),
        read_from(*read, window@, n_counters as int, out@),
{
    let mut out: Vec<u64> = Vec::new();
    let ghost mut ids: Seq<int> = Seq::empty();
    let mut k: usize = 0;
    assert(window@.take(0) =~= Seq::<(usize, usize)>::empty());
    while k < window.len()
        invariant
            k <= window.len(),
            forall|i: usize| i < n_counters ==> call_requires(*read, (i,)),
            ids == copied_indices(window@.take(k as int), n_counters as int),
            out@.len() == ids.len(),
            forall|q: int| 0 <= q < out@.len() ==> call_ensures(*read, (ids[q] as usize,), #[trigger] out@[q]),
        decreases window.len() - k,
    {
        let (start, len) = window[k];
        let sum = start.saturating_add(len);
        let end = if sum < n_counters { sum } else { n_counters };
        let first = if start < end { start } else { end };
        let mut i = first;
        let ghost base = ids;
        proof {
            assert(window@.take(k + 1).drop_last() =~= window@.take(k as int));
            assert(window@.take(k + 1).last() == window@[k as int]);
        }
        while i < end
            invariant
                first <= i <= end,
                end <= n_counters,
                forall|i: usize| i < n_counters ==> call_requires(*read, (i,)),
                ids == base + Seq::new((i - first) as nat, |c: int| first + c),
                out@.len() == ids.len(),
                forall|q: int| 0 <= q < out@.len() ==> call_ensures(*read, (ids[q] as usize,), #[trigger] out@[q]),
            decreases end - i,
        {
            let v = read(i);
            proof {
                assert(ids.push(i as int) =~= base + Seq::new((i + 1 - first) as nat, |c: int| first + c));
                ids = ids.push(i as int);
            }
            out.push(v);
            i += 1;
        }
        proof {
            assert(entry_indices(window@[k as int], n_counters as int) =~= Seq::new(
                (end - first) as nat,
                |c: int| first + c,
            ));
        }
        k += 1;
    }
    assert(window@.take(window@.len() as int) =~= window@);
    proof {
        lemma_copied_indices_len(window@, n_counters as int);
    }
    out
}

/// The counters of the code under test, copied before a test case.
pub struct Snapshot {
    before: Vec<u64>,
}

impl View for Snapshot {
    type V = Seq<u64>;

    closed spec fn view(&self) -> Seq<u64> {
        self.before@
    }
}

/// Takes the snapshot before a test case, reading each counter of the window from an array of
/// `n_counters` counters with `read`.
pub fn begin<F: Fn(usize) -> u64>(idx: &Index, read: &F, n_counters: usize) -> (s: Snapshot)
    requires
        forall|i: usize| i < n_counters ==> call_requires(*read, (i,)),
    ensures
        s@.len() == copied_len(idx@.window, n_counters as int),
        read_from(*read, idx@.window, n_counters as int, s@),
{
    Snapshot { before: snapshot(read, n_counters, idx.window.as_slice()) }
}

} // verus!

verus! {

/// Counter copy `i` differs between `before` and `after`.
pub open spec fn changed(before: Seq<u64>, after: Seq<u64>, i: int) -> bool {
    0 <= i < after.len() && after[i] != before[i]
}

/// The counters `start`, `start + 1`, … among the first `j` of an entry whose copies start at
/// `at`, that went up.
pub open spec fn raised_in(start: usize, at: int, before: Seq<u64>, after: Seq<u64>, j: nat) -> Seq<u32>
    decreases j,
{
    if j == 0 {
        Seq::empty()
    } else {
        let r = raised_in(start, at, before, after, (j - 1) as nat);
        if changed(before, after, at + j - 1) {
            r.push((start + j - 1) as u32)
        } else {
            r
        }
    }
}

/// The counters raised, entry by entry of the first `k` entries of `window`; each entry's
/// copies start after the counters of the entries before it.
pub open spec fn raised_upto(window: Seq<(usize, usize)>, before: Seq<u64>, after: Seq<u64>, k: nat) -> Seq<u32>
    decreases k,
{
    if k == 0 {
        Seq::empty()
    } else {
        raised_upto(window, before, after, (k - 1) as nat) + raised_in(
            window[k - 1].0,
            window_total(window.take(k - 1)),
            before,
            after,
            window[k - 1].1 as nat,
        )
    }
}

/// Some copy among `p .. p + len` differs.
pub open spec fn moved(before: Seq<u64>, after: Seq<u64>, p: int, len: int) -> bool {
    exists|i: int| p <= i < p + len && after[i] != before[i]
}

/// The increments of the `len` counters whose copies start at `p`, in 64-bit wrapping
/// arithmetic.
pub open spec fn deltas(before: Seq<u64>, after: Seq<u64>, p: int, len: int) -> Seq<i64> {
    Seq::new(len as nat, |c: int| (after[p + c].wrapping_sub(before[p + c])) as i64)
}

/// The ids of the first `k` regions whose count, computed from `delta`, went up.
pub open spec fn positive_ids(regions: Seq<(u32, Term)>, exprs: Seq<(Term, Term)>, delta: Seq<i64>, k: nat) -> Seq<u32>
    decreases k,
{
    if k == 0 {
        Seq::empty()
    } else {
        let r = positive_ids(regions, exprs, delta, (k - 1) as nat);
        if crate::mapping::eval_spec(regions[k - 1].1, exprs, delta, 0) > 0 {
            r.push(regions[k - 1].0)
        } else {
            r
        }
    }
}

/// The regions of `f` that ran: none when it has no counters, its copies do not fit `after` or
/// none of them moved; else each whose count went up.
pub open spec fn ran_in(f: FuncModel, before: Seq<u64>, after: Seq<u64>) -> Seq<u32> {
    if f.len == 0 || f.pos + f.len > after.len() || !moved(before, after, f.pos as int, f.len as int) {
        Seq::empty()
    } else {
        positive_ids(
            f.regions,
            f.exprs,
            deltas(before, after, f.pos as int, f.len as int),
            f.regions.len(),
        )
    }
}

/// The regions that ran, function by function of the first `k` functions.
pub open spec fn ran_upto(funcs: Seq<FuncModel>, before: Seq<u64>, after: Seq<u64>, k: nat) -> Seq<u32>
    decreases k,
{
    if k == 0 {
        Seq::empty()
    } else {
        ran_upto(funcs, before, after, (k - 1) as nat) + ran_in(funcs[k - 1], before, after)
    }
}

/// The counters raised and the regions run, given the copies of the counters before and after.
pub open spec fn ran_spec(idx: IndexModel, before: Seq<u64>, after: Seq<u64>) -> (Seq<u32>, Seq<u32>) {
    (
        raised_upto(idx.window, before, after, idx.window.len()),
        ran_upto(idx.funcs, before, after, idx.funcs.len()),
    )
}

proof fn lemma_window_total_prefix(w: Seq<(usize, usize)>, k: int)
    requires
        0 <= k <= w.len(),
    ensures
        window_total(w.take(k)) <= window_total(w),
        0 <= window_total(w.take(k)),
        k < w.len() ==> window_total(w.take(k + 1)) == window_total(w.take(k)) + w[k].1,
    decreases w.len(),
{
    if k < w.len() {
        assert(w.take(k + 1).drop_last() =~= w.take(k));
    }
    if w.len() > 0 {
        if k == w.len() {
            assert(w.take(k) =~= w);
            lemma_window_total_prefix(w.drop_last(), 0);
            assert(w.drop_last().take(0) =~= w.take(0));
        } else {
            lemma_window_total_prefix(w.drop_last(), k);
            assert(w.drop_last().take(k) =~= w.take(k));
        }
    } else {
        assert(w.take(k) =~= w);
    }
}

/// The regions of the function `f` that ran.
fn ran_regions(f: &Func, before: &[u64], after: &[u64], out: &mut Vec<u32>)
    requires
        before@.len() >= after@.len(),
        f.pos + f.counters.1 <= usize::MAX,
    ensures
        final(out)@ == old(out)@ + ran_in(f@, before@, after@),
{
    let p = f.pos;
    let len = f.counters.1;
    if len == 0 || p + len > after.len() {
        assert(old(out)@ + Seq::<u32>::empty() =~= old(out)@);
        return;
    }
    let mut any = false;
    let mut i = p;
    while i < p + len
        invariant
            p <= i <= p + len,
            p + len <= after.len(),
            before@.len() >= after@.len(),
            any == exists|k: int| p <= k < i && after@[k] != before@[k],
        decreases p + len - i,
    {
        if after[i] != before[i] {
            any = true;
        }
        i += 1;
    }
    if !any {
        assert(old(out)@ + Seq::<u32>::empty() =~= old(out)@);
        return;
    }
    let mut delta: Vec<i64> = Vec::new();
    let mut c: usize = 0;
    while c < len
        invariant
            c <= len,
            p + len <= after.len(),
            before@.len() >= after@.len(),
            delta@ == deltas(before@, after@, p as int, len as int).take(c as int),
        decreases len - c,
    {
        delta.push(after[p + c].wrapping_sub(before[p + c]) as i64);
        c += 1;
        assert(delta@ =~= deltas(before@, after@, p as int, len as int).take(c as int));
    }
    assert(delta@ =~= deltas(before@, after@, p as int, len as int));
    let ghost start = out@;
    let mut k: usize = 0;
    while k < f.regions.len()
        invariant
            k <= f.regions.len(),
            out@ == start + positive_ids(f.regions@, f.exprs@, delta@, k as nat),
        decreases f.regions.len() - k,
    {
        let (id, term) = f.regions[k];
        if crate::mapping::eval(term, f.exprs.as_slice(), delta.as_slice(), 0) > 0 {
            out.push(id);
        }
        k += 1;
        assert(out@ =~= start + positive_ids(f.regions@, f.exprs@, delta@, k as nat));
    }
}

/// The counters raised and the regions run between the copies `before` and `after` of the
/// counters of `idx`'s window.
pub fn ran(idx: &Index, before: &[u64], after: &[u64]) -> (r: (Vec<u32>, Vec<u32>))
    requires
        before@.len() >= after@.len(),
    ensures
        (r.0@, r.1@) == ran_spec(idx@, before@, after@),
{
    proof {
        use_type_invariant(idx);
    }
    let ghost w = idx.window@;
    let mut raised: Vec<u32> = Vec::new();
    let mut at: usize = 0;
    let mut k: usize = 0;
    while k < idx.window.len()
        invariant
            k <= w.len(),
            w == idx.window@,
            window_total(w) <= usize::MAX,
            window_fits(w),
            before@.len() >= after@.len(),
            at == window_total(w.take(k as int)),
            raised@ == raised_upto(w, before@, after@, k as nat),
        decreases w.len() - k,
    {
        proof {
            lemma_window_total_prefix(w, k as int);
            lemma_window_total_prefix(w, (k + 1) as int);
            assert(w.take(k + 1).drop_last() =~= w.take(k as int));
        }
        let (start, len) = idx.window[k];
        assert(start + len <= usize::MAX);
        let ghost before_raised = raised@;
        let mut j: usize = 0;
        while j < len
            invariant
                j <= len,
                at + len <= usize::MAX,
                start + len <= usize::MAX,
                before@.len() >= after@.len(),
                raised@ == before_raised + raised_in(start, at as int, before@, after@, j as nat),
            decreases len - j,
        {
            if at + j < after.len() && after[at + j] != before[at + j] {
                raised.push((start + j) as u32);
            }
            j += 1;
            assert(raised@ =~= before_raised + raised_in(start, at as int, before@, after@, j as nat));
        }
        at += len;
        k += 1;
    }
    let mut regions: Vec<u32> = Vec::new();
    let ghost fs = idx@.funcs;
    let mut i: usize = 0;
    while i < idx.funcs.len()
        invariant
            i <= idx.funcs.len(),
            fs == idx@.funcs,
            fs == funcs_view(idx.funcs@),
            forall|q: int|
                0 <= q < idx.funcs@.len() ==> #[trigger] idx.funcs@[q].pos + idx.funcs@[q].counters.1
                    <= usize::MAX,
            before@.len() >= after@.len(),
            regions@ == ran_upto(fs, before@, after@, i as nat),
        decreases idx.funcs.len() - i,
    {
        assert(fs[i as int] == idx.funcs@[i as int]@);
        ran_regions(&idx.funcs[i], before, after, &mut regions);
        i += 1;
    }
    (raised, regions)
}

/// The counters raised and the regions run since `begin` took the snapshot `s`, reading the
/// counters of the window again with `read` from an array of `n_counters` counters: the result
/// is what `ran_spec` gives for the snapshot and the values read now.
pub fn end<F: Fn(usize) -> u64>(idx: &Index, s: Snapshot, read: &F, n_counters: usize) -> (r: (
    Vec<u32>,
    Vec<u32>,
))
    requires
        s@.len() == copied_len(idx@.window, n_counters as int),
        forall|i: usize| i < n_counters ==> call_requires(*read, (i,)),
    ensures
        exists|after: Seq<u64>|
            read_from(*read, idx@.window, n_counters as int, after) && after.len() == copied_len(
                idx@.window,
                n_counters as int,
            ) && (r.0@, r.1@) == ran_spec(idx@, s@, after),
{
    let after = snapshot(read, n_counters, idx.window.as_slice());
    let r = ran(idx, s.before.as_slice(), after.as_slice());
    r
}

/// The number of regions of the code under test, when counters are limited to it.
pub fn total_regions(idx: &Index) -> (r: Option<u32>)
    ensures
        r == (if idx@.counters_known {
            Some(idx@.total_regions)
        } else {
            None
        }),
{
    if idx.counters_known {
        Some(idx.total_regions)
    } else {
        None
    }
}

/// The source files of the code under test, sorted.
pub fn files(idx: &Index) -> (r: Vec<String>)
    ensures
        r@.map_values(|s: String| s@) == idx@.files,
{
    let mut r: Vec<String> = Vec::new();
    let mut i: usize = 0;
    while i < idx.files.len()
        invariant
            i <= idx.files.len(),
            r@.map_values(|s: String| s@) == idx@.files.take(i as int),
        decreases idx.files.len() - i,
    {
        let c = idx.files[i].clone();
        assert(idx@.files[i as int] == idx.files@[i as int]@);
        let ghost before = r@.map_values(|s: String| s@);
        r.push(c);
        assert(r@.map_values(|s: String| s@) =~= before.push(c@));
        i += 1;
        assert(r@.map_values(|s: String| s@) =~= idx@.files.take(i as int));
    }
    assert(idx@.files.take(i as int) =~= idx@.files);
    r
}

/// Why counters could not be limited to the code under test and regions are missing, if so.
pub fn error(idx: &Index) -> (r: Option<String>)
    ensures
        match r {
            Some(e) => idx@.error == Some(e@),
            None => idx@.error is None,
        },
{
    match &idx.error {
        Some(e) => Some(e.clone()),
        None => None,
    }
}

/// Whether the chance of new code can be counted in regions: the index has no error and the
/// code under test has regions; otherwise it is counted in counters.
pub fn regions_usable(idx: &Index) -> (r: bool)
    ensures
        r == (idx@.error is None && idx@.counters_known && idx@.total_regions > 0),
{
    idx.error.is_none() && idx.counters_known && idx.total_regions > 0
}

/// What the record and the report say of coverage.
pub struct Measured {
    /// The number of regions of the code under test, when it is known.
    pub total_regions: Option<u32>,
    /// Why coverage was not measured, if so.
    pub error: Option<String>,
    /// Whether the chance of new code is counted in regions (else in counters).
    pub regions: bool,
}

/// What the record and the report say of coverage, from the index; in `fork` mode the test
/// cases ran in child processes, so nothing was measured.
pub fn measured(idx: &Index, fork: bool) -> (m: Measured)
    ensures
        m.total_regions == (if !fork && idx@.counters_known {
            Some(idx@.total_regions)
        } else {
            None
        }),
        match m.error {
            Some(e) => if fork {
                e@ == "fork mode"@
            } else {
                idx@.error == Some(e@)
            },
            None => !fork && idx@.error is None,
        },
        m.regions == (!fork && idx@.error is None && idx@.counters_known && idx@.total_regions
            > 0),
{
    if fork {
        return Measured {
            total_regions: None,
            error: Some(String::from_str("fork mode")),
            regions: false,
        };
    }
    Measured { total_regions: total_regions(idx), error: error(idx), regions: regions_usable(idx) }
}

/// How many counters are copied per test case.
pub fn window_size(idx: &Index) -> (r: usize)
    ensures
        r == window_total(idx@.window),
{
    proof {
        use_type_invariant(idx);
    }
    let ghost w = idx.window@;
    let mut total: usize = 0;
    let mut k: usize = 0;
    while k < idx.window.len()
        invariant
            k <= w.len(),
            w == idx.window@,
            window_total(w) <= usize::MAX,
            total == window_total(w.take(k as int)),
        decreases w.len() - k,
    {
        proof {
            lemma_window_total_prefix(w, k as int);
            lemma_window_total_prefix(w, (k + 1) as int);
        }
        total = total + idx.window[k].1;
        k += 1;
    }
    assert(w.take(w.len() as int) =~= w);
    total
}

} // verus!

verus! {

// ---------------------------------------------------------------------------------------------
// What the index promises.
/// The number of regions of the functions `fs`.
pub open spec fn regions_count(fs: Seq<FuncModel>) -> int
    decreases fs.len(),
{
    if fs.len() == 0 {
        0
    } else {
        regions_count(fs.drop_last()) + fs.last().regions.len()
    }
}

/// Every region id of `fs` is below `n`.
pub open spec fn ids_below_n(fs: Seq<FuncModel>, n: int) -> bool {
    forall|a: int, i: int|
        0 <= a < fs.len() && 0 <= i < fs[a].regions.len() ==> (#[trigger] fs[a].regions[i]).0 < n
}

/// No two regions of `fs` share an id.
pub open spec fn ids_distinct(fs: Seq<FuncModel>) -> bool {
    forall|a: int, i: int, b: int, j: int|
        0 <= a < fs.len() && 0 <= i < fs[a].regions.len() && 0 <= b < fs.len() && 0 <= j
            < fs[b].regions.len() && (#[trigger] fs[a].regions[i]).0 == (
        #[trigger] fs[b].regions[j]).0 ==> a == b && i == j
}

proof fn lemma_regions_count_insert(t: Seq<FuncModel>, p: int, x: FuncModel)
    requires
        0 <= p <= t.len(),
    ensures
        regions_count(t.insert(p, x)) == regions_count(t) + x.regions.len(),
    decreases t.len(),
{
    if p == t.len() {
        assert(t.insert(p, x).drop_last() =~= t);
    } else {
        lemma_regions_count_insert(t.drop_last(), p, x);
        assert(t.insert(p, x).drop_last() =~= t.drop_last().insert(p, x));
    }
}

proof fn lemma_gather_ids(m: MappingModel, keep: Seq<bool>, recs: Map<u128, (usize, usize)>, i: nat)
    requires
        i <= m.functions.len(),
        regions_upto(m, m.functions.len()) <= u32::MAX,
    ensures
        ({
            let g = gather(m, keep, recs, i);
            &&& ids_below_n(g.funcs, g.next)
            &&& ids_distinct(g.funcs)
            &&& regions_count(g.funcs) == g.next
            &&& 0 <= g.next <= regions_upto(m, i)
        }),
    decreases i,
{
    if i > 0 {
        lemma_gather_ids(m, keep, recs, (i - 1) as nat);
        lemma_regions_upto_mono(m, i, m.functions.len());
        let g = gather(m, keep, recs, (i - 1) as nat);
        let f = m.functions[i - 1];
        if is_first(m.functions, i - 1) {
            let kr = kept(f, keep);
            f.regions.lemma_filter_len(|r: crate::mapping::Region| keep[r.file as int]);
            if kr.len() > 0 {
                let (start, len) = counters_of(recs, f);
                let x = FuncModel {
                    start,
                    len,
                    pos: 0,
                    exprs: f.exprs,
                    regions: numbered(kr, g.next),
                };
                lemma_insert_pos_range(g.funcs, start);
                let p = insert_pos(g.funcs, start);
                let t = g.funcs.insert(p, x);
                lemma_regions_count_insert(g.funcs, p, x);
                assert forall|j: int| 0 <= j < x.regions.len() implies #[trigger] x.regions[j].0
                    == g.next + j by {}
                assert(ids_below_n(t, g.next + kr.len())) by {
                    assert forall|a: int, k: int|
                        0 <= a < t.len() && 0 <= k < t[a].regions.len() implies (
                        #[trigger] t[a].regions[k]).0 < g.next + kr.len() by {
                        if a < p {
                            assert(t[a] == g.funcs[a]);
                        } else if a > p {
                            assert(t[a] == g.funcs[a - 1]);
                        }
                    }
                }
                assert(ids_distinct(t)) by {
                    assert forall|a: int, k: int, b: int, l: int|
                        0 <= a < t.len() && 0 <= k < t[a].regions.len() && 0 <= b < t.len() && 0
                            <= l < t[b].regions.len() && (#[trigger] t[a].regions[k]).0 == (
                        #[trigger] t[b].regions[l]).0 implies a == b && k == l by {
                        let oa = if a < p {
                            a
                        } else {
                            a - 1
                        };
                        let ob = if b < p {
                            b
                        } else {
                            b - 1
                        };
                        if a != p {
                            assert(t[a] == g.funcs[oa]);
                        }
                        if b != p {
                            assert(t[b] == g.funcs[ob]);
                        }
                        if a != p && b != p {
                            assert(g.funcs[oa].regions[k].0 == g.funcs[ob].regions[l].0);
                        }
                    }
                }
            }
        }
    }
}

/// The regions of the index are numbered 0, 1, …, `total_regions - 1`, each number given to
/// exactly one region: every region id is below the number of regions, no two regions share an
/// id, and there are `total_regions` regions.
pub proof fn law_region_ids(
    m: MappingModel,
    recs: Map<u128, (usize, usize)>,
    prefixes: Option<Seq<Seq<char>>>,
    own: Seq<char>,
    idx: IndexModel,
)
    requires
        fits_spec(m, recs),
        built(m, recs, prefixes, own, idx),
    ensures
        ids_below_n(idx.funcs, idx.total_regions as int),
        ids_distinct(idx.funcs),
        regions_count(idx.funcs) == idx.total_regions,
{
    let keep = keep_spec(m.files, prefixes, own);
    let g = gather(m, keep, recs, m.functions.len());
    lemma_gather_ids(m, keep, recs, m.functions.len());
    let fs = idx.funcs;
    assert(fs == positioned(g.funcs));
    assert forall|a: int| 0 <= a < fs.len() implies #[trigger] fs[a].regions == g.funcs[a].regions by {}
    assert(regions_count(fs) == regions_count(g.funcs)) by {
        lemma_regions_count_same(fs, g.funcs);
    }
}

proof fn lemma_regions_count_same(s: Seq<FuncModel>, t: Seq<FuncModel>)
    requires
        s.len() == t.len(),
        forall|a: int| 0 <= a < s.len() ==> #[trigger] s[a].regions == t[a].regions,
    ensures
        regions_count(s) == regions_count(t),
    decreases s.len(),
{
    if s.len() > 0 {
        lemma_regions_count_same(s.drop_last(), t.drop_last());
        assert(s.last().regions == t.last().regions);
    }
}

/// The first counters of `fs` do not decrease.
pub open spec fn starts_sorted(fs: Seq<FuncModel>) -> bool {
    forall|i: int, j: int| 0 <= i < j < fs.len() ==> #[trigger] fs[i].start <= #[trigger] fs[j].start
}

proof fn lemma_insert_pos_splits(t: Seq<FuncModel>, start: usize)
    requires
        starts_sorted(t),
    ensures
        forall|i: int| 0 <= i < insert_pos(t, start) ==> #[trigger] t[i].start <= start,
        forall|i: int| insert_pos(t, start) <= i < t.len() ==> #[trigger] t[i].start > start,
    decreases t.len(),
{
    lemma_insert_pos_range(t, start);
    if t.len() > 0 {
        if t.last().start <= start {
            assert forall|i: int| 0 <= i < insert_pos(t, start) implies #[trigger] t[i].start
                <= start by {
                if i < t.len() - 1 {
                    assert(t[i].start <= t[t.len() - 1].start);
                }
            }
        } else {
            let d = t.drop_last();
            assert(starts_sorted(d)) by {
                assert forall|i: int, j: int| 0 <= i < j < d.len() implies #[trigger] d[i].start
                    <= #[trigger] d[j].start by {
                    assert(d[i] == t[i] && d[j] == t[j]);
                }
            }
            lemma_insert_pos_splits(d, start);
            lemma_insert_pos_range(d, start);
            assert forall|i: int| 0 <= i < insert_pos(t, start) implies #[trigger] t[i].start
                <= start by {
                assert(t[i] == d[i]);
            }
            assert forall|i: int| insert_pos(t, start) <= i < t.len() implies #[trigger] t[i].start
                > start by {
                if i < t.len() - 1 {
                    assert(t[i] == d[i]);
                }
            }
        }
    }
}

proof fn lemma_gather_sorted(m: MappingModel, keep: Seq<bool>, recs: Map<u128, (usize, usize)>, i: nat)
    requires
        i <= m.functions.len(),
    ensures
        starts_sorted(gather(m, keep, recs, i).funcs),
    decreases i,
{
    if i > 0 {
        lemma_gather_sorted(m, keep, recs, (i - 1) as nat);
        let g = gather(m, keep, recs, (i - 1) as nat);
        let f = m.functions[i - 1];
        if is_first(m.functions, i - 1) && kept(f, keep).len() > 0 {
            let (start, len) = counters_of(recs, f);
            let t = g.funcs;
            lemma_insert_pos_splits(t, start);
            lemma_insert_pos_range(t, start);
            let p = insert_pos(t, start);
            let u = gather(m, keep, recs, i).funcs;
            assert(u.len() == t.len() + 1);
            assert(u[p].start == start);
            assert forall|a: int, b: int| 0 <= a < b < u.len() implies #[trigger] u[a].start
                <= #[trigger] u[b].start by {
                if a < p {
                    assert(u[a] == t[a]);
                }
                if a > p {
                    assert(u[a] == t[a - 1]);
                }
                if b < p {
                    assert(u[b] == t[b]);
                }
                if b > p {
                    assert(u[b] == t[b - 1]);
                }
            }
        }
    }
}

proof fn lemma_window_sorted(fs: Seq<FuncModel>)
    requires
        starts_sorted(fs),
    ensures
        forall|i: int, j: int|
            0 <= i < j < window_of(fs).len() ==> #[trigger] window_of(fs)[i].0 <= #[trigger] window_of(
                fs,
            )[j].0,
        forall|k: int| 0 <= k < window_of(fs).len() ==> #[trigger] window_of(fs)[k].0 <= fs.last().start,
    decreases fs.len(),
{
    if fs.len() > 0 {
        let d = fs.drop_last();
        assert(starts_sorted(d)) by {
            assert forall|i: int, j: int| 0 <= i < j < d.len() implies #[trigger] d[i].start
                <= #[trigger] d[j].start by {
                assert(d[i] == fs[i] && d[j] == fs[j]);
            }
        }
        lemma_window_sorted(d);
        let wd = window_of(d);
        let w = window_of(fs);
        assert forall|k: int| 0 <= k < wd.len() implies #[trigger] wd[k].0 <= fs.last().start by {
            assert(d.len() > 0);
            assert(d.last() == fs[fs.len() - 2]);
            assert(fs[fs.len() - 2].start <= fs[fs.len() - 1].start);
        }
        if fs.last().len == 0 {
            assert(w == wd);
        } else {
            assert(w == wd.push((fs.last().start, fs.last().len)));
            assert forall|i: int, j: int| 0 <= i < j < w.len() implies #[trigger] w[i].0
                <= #[trigger] w[j].0 by {
                assert(w[i] == wd[i]);
                if j < wd.len() {
                    assert(w[j] == wd[j]);
                }
            }
            assert forall|k: int| 0 <= k < w.len() implies #[trigger] w[k].0 <= fs.last().start by {
                if k < wd.len() {
                    assert(w[k] == wd[k]);
                }
            }
        }
    }
}

proof fn lemma_gather_lens(m: MappingModel, keep: Seq<bool>, recs: Map<u128, (usize, usize)>, i: nat)
    requires
        i <= m.functions.len(),
    ensures
        0 <= lens_total(gather(m, keep, recs, i).funcs) <= counters_upto(m, recs, i),
    decreases i,
{
    if i > 0 {
        lemma_gather_lens(m, keep, recs, (i - 1) as nat);
        let g = gather(m, keep, recs, (i - 1) as nat);
        let f = m.functions[i - 1];
        if is_first(m.functions, i - 1) && kept(f, keep).len() > 0 {
            let (start, len) = counters_of(recs, f);
            lemma_insert_pos_range(g.funcs, start);
            let x = FuncModel {
                start,
                len,
                pos: 0,
                exprs: f.exprs,
                regions: numbered(kept(f, keep), g.next),
            };
            lemma_lens_insert(g.funcs, insert_pos(g.funcs, start), x);
        }
    }
}

proof fn lemma_window_index(fs: Seq<FuncModel>, a: int) -> (k: int)
    requires
        0 <= a < fs.len(),
        fs[a].len > 0,
    ensures
        0 <= k < window_of(fs).len(),
        window_of(fs)[k] == (fs[a].start, fs[a].len),
        window_total(window_of(fs).take(k)) == lens_total(fs.take(a)),
    decreases fs.len(),
{
    let d = fs.drop_last();
    if a == fs.len() - 1 {
        let k = window_of(d).len() as int;
        assert(window_of(fs).take(k) =~= window_of(d));
        assert(fs.take(a) =~= d);
        lemma_window_total(d);
        k
    } else {
        let k = lemma_window_index(d, a);
        assert(d[a] == fs[a]);
        assert(window_of(fs).take(k) =~= window_of(d).take(k));
        assert(fs.take(a) =~= d.take(a));
        k
    }
}

/// The counters are copied in address order: the window's first counters do not decrease.
pub proof fn law_window_in_address_order(
    m: MappingModel,
    recs: Map<u128, (usize, usize)>,
    prefixes: Option<Seq<Seq<char>>>,
    own: Seq<char>,
    idx: IndexModel,
)
    requires
        built(m, recs, prefixes, own, idx),
    ensures
        forall|i: int, j: int|
            0 <= i < j < idx.window.len() ==> #[trigger] idx.window[i].0 <= #[trigger] idx.window[j].0,
{
    let keep = keep_spec(m.files, prefixes, own);
    lemma_gather_sorted(m, keep, recs, m.functions.len());
    lemma_window_sorted(gather(m, keep, recs, m.functions.len()).funcs);
}

/// Each function of the code under test that has counters finds them, in one window entry, at
/// its position in a snapshot: the entry copies exactly its counters, and the entries before it
/// copy `pos` counters.
pub proof fn law_counters_at_their_position(
    m: MappingModel,
    recs: Map<u128, (usize, usize)>,
    prefixes: Option<Seq<Seq<char>>>,
    own: Seq<char>,
    idx: IndexModel,
)
    requires
        fits_spec(m, recs),
        built(m, recs, prefixes, own, idx),
    ensures
        forall|a: int|
            0 <= a < idx.funcs.len() && #[trigger] idx.funcs[a].len > 0 ==> exists|k: int|
                0 <= k < idx.window.len() && idx.window[k] == (idx.funcs[a].start, idx.funcs[a].len)
                    && window_total(#[trigger] idx.window.take(k)) == idx.funcs[a].pos,
{
    let keep = keep_spec(m.files, prefixes, own);
    let fs = gather(m, keep, recs, m.functions.len()).funcs;
    assert forall|a: int| 0 <= a < idx.funcs.len() && #[trigger] idx.funcs[a].len > 0 implies exists|k: int|
        0 <= k < idx.window.len() && idx.window[k] == (idx.funcs[a].start, idx.funcs[a].len)
            && window_total(#[trigger] idx.window.take(k)) == idx.funcs[a].pos by {
        lemma_gather_lens(m, keep, recs, m.functions.len());
        lemma_lens_prefix(fs, a);
        lemma_lens_prefix(fs.take(a), 0);
        assert(lens_total(fs) <= usize::MAX);
        assert(idx.funcs[a] == positioned(fs)[a]);
        assert(idx.funcs[a].start == fs[a].start && idx.funcs[a].len == fs[a].len);
        assert(idx.funcs[a].pos == lens_total(fs.take(a)));
        let k = lemma_window_index(fs, a);
        assert(idx.window.take(k) == window_of(fs).take(k));
        assert(0 <= k < idx.window.len() && idx.window[k] == (idx.funcs[a].start, idx.funcs[a].len)
            && window_total(idx.window.take(k)) == idx.funcs[a].pos);
    }
}

proof fn lemma_gather_nonempty(m: MappingModel, keep: Seq<bool>, recs: Map<u128, (usize, usize)>, i: nat)
    requires
        i <= m.functions.len(),
    ensures
        forall|a: int|
            0 <= a < gather(m, keep, recs, i).funcs.len() ==> #[trigger] gather(
                m,
                keep,
                recs,
                i,
            ).funcs[a].regions.len() > 0,
    decreases i,
{
    if i > 0 {
        lemma_gather_nonempty(m, keep, recs, (i - 1) as nat);
        let g = gather(m, keep, recs, (i - 1) as nat);
        let f = m.functions[i - 1];
        if is_first(m.functions, i - 1) && kept(f, keep).len() > 0 {
            let (start, len) = counters_of(recs, f);
            lemma_insert_pos_range(g.funcs, start);
            let p = insert_pos(g.funcs, start);
            let u = gather(m, keep, recs, i).funcs;
            assert forall|a: int| 0 <= a < u.len() implies #[trigger] u[a].regions.len() > 0 by {
                if a < p {
                    assert(u[a] == g.funcs[a]);
                } else if a > p {
                    assert(u[a] == g.funcs[a - 1]);
                }
            }
        }
    }
}

proof fn lemma_window_from(fs: Seq<FuncModel>, k: int) -> (a: int)
    requires
        0 <= k < window_of(fs).len(),
    ensures
        0 <= a < fs.len(),
        window_of(fs)[k] == (fs[a].start, fs[a].len),
    decreases fs.len(),
{
    let d = fs.drop_last();
    if fs.last().len == 0 {
        let a = lemma_window_from(d, k);
        assert(d[a] == fs[a]);
        a
    } else if k < window_of(d).len() {
        let a = lemma_window_from(d, k);
        assert(d[a] == fs[a]);
        a
    } else {
        fs.len() - 1
    }
}

/// The window entry `w` copies the counters of a function of `idx` that has regions.
pub open spec fn counters_of_some_function(idx: IndexModel, w: (usize, usize)) -> bool {
    exists|a: int|
        0 <= a < idx.funcs.len() && w == (#[trigger] idx.funcs[a]).start_len() && idx.funcs[a].regions.len() > 0
}

impl FuncModel {
    /// Its first counter and number of counters.
    pub open spec fn start_len(self) -> (usize, usize) {
        (self.start, self.len)
    }
}

/// Only counters of the code under test are copied: each window entry is the counters of one
/// function of the index, and that function has regions in the code under test.
pub proof fn law_window_is_code_under_test(
    m: MappingModel,
    recs: Map<u128, (usize, usize)>,
    prefixes: Option<Seq<Seq<char>>>,
    own: Seq<char>,
    idx: IndexModel,
)
    requires
        built(m, recs, prefixes, own, idx),
    ensures
        forall|k: int|
            0 <= k < idx.window.len() ==> counters_of_some_function(idx, #[trigger] idx.window[k]),
{
    let keep = keep_spec(m.files, prefixes, own);
    let fs = gather(m, keep, recs, m.functions.len()).funcs;
    lemma_gather_nonempty(m, keep, recs, m.functions.len());
    assert forall|k: int| 0 <= k < idx.window.len() implies counters_of_some_function(
        idx,
        #[trigger] idx.window[k],
    ) by {
        let a = lemma_window_from(fs, k);
        assert(idx.funcs[a] == positioned(fs)[a]);
        assert(fs[a].regions.len() > 0);
        assert(idx.window[k] == idx.funcs[a].start_len());
    }
}

/// Regions are counted exactly when both the mapping and the records could be read; otherwise
/// the index says why, names no file, and copies the whole counter array.
pub proof fn law_regions_known_iff_readable(
    map: Option<MappingModel>,
    records: Result<Map<u128, (usize, usize)>, Seq<char>>,
    prefixes: Option<Seq<Seq<char>>>,
    own: Seq<char>,
    n_counters: usize,
    idx: IndexModel,
)
    requires
        index_of(map, records, prefixes, own, n_counters, idx),
    ensures
        idx.counters_known <==> (map is Some && records is Ok),
        !idx.counters_known ==> {
            &&& idx.error is Some
            &&& idx.files.len() == 0
            &&& idx.window == seq![(0usize, n_counters)]
            &&& window_total(idx.window) == n_counters
        },
{
    if !idx.counters_known {
        assert(idx.window == seq![(0usize, n_counters)]);
        assert(idx.window.drop_last() =~= Seq::<(usize, usize)>::empty());
        assert(window_total(idx.window.drop_last()) == 0);
        assert(idx.window.last().1 == n_counters);
    }
}

proof fn lemma_gather_used(m: MappingModel, keep: Seq<bool>, recs: Map<u128, (usize, usize)>, i: nat)
    requires
        i <= m.functions.len(),
        regions_in_files(m),
        keep.len() == m.files.len(),
    ensures
        forall|y: int|
            #[trigger] gather(m, keep, recs, i).used.contains(y) ==> 0 <= y < m.files.len() && keep[y],
        gather(m, keep, recs, i).next >= 0,
        gather(m, keep, recs, i).next == 0 ==> gather(m, keep, recs, i).used =~= Set::<int>::empty(),
        gather(m, keep, recs, i).next > 0 ==> exists|y: int| #[trigger] gather(m, keep, recs, i).used.contains(y),
    decreases i,
{
    if i > 0 {
        lemma_gather_used(m, keep, recs, (i - 1) as nat);
        let g = gather(m, keep, recs, (i - 1) as nat);
        let f = m.functions[i - 1];
        let pred = |r: crate::mapping::Region| keep[r.file as int];
        if is_first(m.functions, i - 1) && kept(f, keep).len() > 0 {
            let kr = kept(f, keep);
            f.regions.filter_lemma(pred);
            let u = gather(m, keep, recs, i).used;
            assert(u == g.used.union(region_files(kr)));
            assert forall|y: int| #[trigger] u.contains(y) implies 0 <= y < m.files.len() && keep[y] by {
                if !g.used.contains(y) {
                    let k = choose|k: int| 0 <= k < kr.len() && y == kr[k].file;
                    assert(pred(kr[k]));
                    assert(kr.contains(kr[k]));
                    f.regions.lemma_filter_contains_rev(pred, kr[k]);
                    let j = choose|j: int| 0 <= j < f.regions.len() && f.regions[j] == kr[k];
                    assert(m.functions[i - 1].regions[j] == kr[k]);
                }
            }
            assert(region_files(kr).contains(kr[0].file as int));
            assert(u.contains(kr[0].file as int));
        }
    }
}

/// The files of the index are empty exactly when no region is counted, and every file named is
/// code under test.
pub proof fn law_files_are_code_under_test(
    map: Option<MappingModel>,
    records: Result<Map<u128, (usize, usize)>, Seq<char>>,
    prefixes: Option<Seq<Seq<char>>>,
    own: Seq<char>,
    n_counters: usize,
    idx: IndexModel,
)
    requires
        index_of(map, records, prefixes, own, n_counters, idx),
        map matches Some(m) ==> regions_in_files(m),
    ensures
        idx.files.len() == 0 <==> (!idx.counters_known || idx.total_regions == 0),
        forall|i: int| 0 <= i < idx.files.len() ==> in_code_spec(#[trigger] idx.files[i], prefixes, own),
{
    if idx.counters_known {
        let m = map.unwrap();
        let recs = records->Ok_0;
        let keep = keep_spec(m.files, prefixes, own);
        let g = gather(m, keep, recs, m.functions.len());
        lemma_gather_used(m, keep, recs, m.functions.len());
        assert forall|i: int| 0 <= i < idx.files.len() implies in_code_spec(
            #[trigger] idx.files[i],
            prefixes,
            own,
        ) by {
            assert(idx.files.to_set().contains(idx.files[i]));
            assert(names_of(m, g.used).contains(idx.files[i]));
            let y = choose|y: int| g.used.contains(y) && 0 <= y < m.files.len() && m.files[y] == idx.files[i];
            assert(keep[y]);
        }
        if idx.files.len() == 0 {
            assert(idx.files.to_set() =~= Set::<Seq<char>>::empty());
            if g.next > 0 {
                let y = choose|y: int| g.used.contains(y);
                assert(names_of(m, g.used).contains(m.files[y]));
            }
        } else {
            assert(idx.files.to_set().contains(idx.files[0]));
            assert(names_of(m, g.used).contains(idx.files[0]));
        }
    }
}

/// When every window entry lies within an array of `n` counters, a snapshot copies exactly as
/// many counters as the window holds (what `window_size` reports).
pub proof fn law_window_size_is_snapshot_length(w: Seq<(usize, usize)>, n: int)
    requires
        forall|k: int| 0 <= k < w.len() ==> #[trigger] w[k].0 + w[k].1 <= n,
    ensures
        copied_len(w, n) == window_total(w),
    decreases w.len(),
{
    if w.len() > 0 {
        let d = w.drop_last();
        assert forall|k: int| 0 <= k < d.len() implies #[trigger] d[k].0 + d[k].1 <= n by {
            assert(d[k] == w[k]);
        }
        law_window_size_is_snapshot_length(d, n);
        assert(w.last() == w[w.len() - 1]);
    }
}

/// The number of regions in the code under test (`keep`) of the first `i` functions of `m`,
/// each function counted at its first listing only.
pub open spec fn kept_upto(m: MappingModel, keep: Seq<bool>, i: nat) -> int
    decreases i,
{
    if i == 0 {
        0
    } else {
        kept_upto(m, keep, (i - 1) as nat) + if is_first(m.functions, i - 1) {
            kept(m.functions[i - 1], keep).len() as int
        } else {
            0
        }
    }
}

/// Function `j` of `m`, listed for the first time, with its kept regions numbered from the
/// number of kept regions before it, its expressions and its counters from `recs`.
pub open spec fn numbered_function(
    m: MappingModel,
    keep: Seq<bool>,
    recs: Map<u128, (usize, usize)>,
    j: int,
    f: FuncModel,
) -> bool {
    &&& f.regions == numbered(kept(m.functions[j], keep), kept_upto(m, keep, j as nat))
    &&& f.exprs == m.functions[j].exprs
    &&& f.start_len() == counters_of(recs, m.functions[j])
}

/// Function `j` of `m` is listed for the first time and has regions in the code under test.
pub open spec fn counted_function(m: MappingModel, keep: Seq<bool>, j: int) -> bool {
    0 <= j < m.functions.len() && is_first(m.functions, j) && kept(m.functions[j], keep).len() > 0
}

proof fn lemma_gather_next(m: MappingModel, keep: Seq<bool>, recs: Map<u128, (usize, usize)>, i: nat)
    requires
        i <= m.functions.len(),
    ensures
        gather(m, keep, recs, i).next == kept_upto(m, keep, i),
    decreases i,
{
    if i > 0 {
        lemma_gather_next(m, keep, recs, (i - 1) as nat);
    }
}

proof fn lemma_gather_origin(m: MappingModel, keep: Seq<bool>, recs: Map<u128, (usize, usize)>, i: nat, a: int) -> (j: int)
    requires
        i <= m.functions.len(),
        0 <= a < gather(m, keep, recs, i).funcs.len(),
    ensures
        0 <= j < i,
        counted_function(m, keep, j),
        numbered_function(m, keep, recs, j, gather(m, keep, recs, i).funcs[a]),
    decreases i,
{
    let g = gather(m, keep, recs, (i - 1) as nat);
    let f = m.functions[i - 1];
    lemma_gather_next(m, keep, recs, (i - 1) as nat);
    if is_first(m.functions, i - 1) && kept(f, keep).len() > 0 {
        let (start, len) = counters_of(recs, f);
        lemma_insert_pos_range(g.funcs, start);
        let p = insert_pos(g.funcs, start);
        let u = gather(m, keep, recs, i).funcs;
        if a < p {
            assert(u[a] == g.funcs[a]);
            lemma_gather_origin(m, keep, recs, (i - 1) as nat, a)
        } else if a > p {
            assert(u[a] == g.funcs[a - 1]);
            lemma_gather_origin(m, keep, recs, (i - 1) as nat, a - 1)
        } else {
            i - 1
        }
    } else {
        lemma_gather_origin(m, keep, recs, (i - 1) as nat, a)
    }
}

proof fn lemma_gather_presence(m: MappingModel, keep: Seq<bool>, recs: Map<u128, (usize, usize)>, i: nat, j: int) -> (a: int)
    requires
        i <= m.functions.len(),
        0 <= j < i,
        counted_function(m, keep, j),
    ensures
        0 <= a < gather(m, keep, recs, i).funcs.len(),
        numbered_function(m, keep, recs, j, gather(m, keep, recs, i).funcs[a]),
    decreases i,
{
    let g = gather(m, keep, recs, (i - 1) as nat);
    let f = m.functions[i - 1];
    lemma_gather_next(m, keep, recs, (i - 1) as nat);
    let fresh = is_first(m.functions, i - 1) && kept(f, keep).len() > 0;
    if fresh {
        let (start, len) = counters_of(recs, f);
        lemma_insert_pos_range(g.funcs, start);
        let p = insert_pos(g.funcs, start);
        let u = gather(m, keep, recs, i).funcs;
        if j == i - 1 {
            p
        } else {
            let b = lemma_gather_presence(m, keep, recs, (i - 1) as nat, j);
            if b < p {
                assert(u[b] == g.funcs[b]);
                b
            } else {
                assert(u[b + 1] == g.funcs[b]);
                b + 1
            }
        }
    } else {
        lemma_gather_presence(m, keep, recs, (i - 1) as nat, j)
    }
}

/// Function `j` of `m` stands in the index with its regions numbered in mapping order.
pub open spec fn stands_in_index(
    idx: IndexModel,
    m: MappingModel,
    keep: Seq<bool>,
    recs: Map<u128, (usize, usize)>,
    j: int,
) -> bool {
    exists|a: int| 0 <= a < idx.funcs.len() && numbered_function(m, keep, recs, j, #[trigger] idx.funcs[a])
}

/// Function `f` of the index is some function of `m`, counted once, with its regions numbered in
/// mapping order.
pub open spec fn from_the_mapping(
    m: MappingModel,
    keep: Seq<bool>,
    recs: Map<u128, (usize, usize)>,
    f: FuncModel,
) -> bool {
    exists|j: int| #[trigger] counted_function(m, keep, j) && numbered_function(m, keep, recs, j, f)
}

/// The regions counted are the regions in the code under test of each function, taken at its
/// first listing, numbered 0, 1, ... in mapping order: their number is the total, each such
/// function stands in the index with its regions numbered from the count of those before it,
/// and the index has no other function.
pub proof fn law_regions_numbered_in_mapping_order(
    m: MappingModel,
    recs: Map<u128, (usize, usize)>,
    prefixes: Option<Seq<Seq<char>>>,
    own: Seq<char>,
    idx: IndexModel,
)
    requires
        built(m, recs, prefixes, own, idx),
    ensures
        ({
            let keep = keep_spec(m.files, prefixes, own);
            &&& idx.total_regions == kept_upto(m, keep, m.functions.len())
            &&& forall|j: int| #[trigger] counted_function(m, keep, j) ==> stands_in_index(idx, m, keep, recs, j)
            &&& forall|a: int| 0 <= a < idx.funcs.len() ==> from_the_mapping(m, keep, recs, #[trigger] idx.funcs[a])
        }),
{
    let keep = keep_spec(m.files, prefixes, own);
    let n = m.functions.len();
    let fs = gather(m, keep, recs, n).funcs;
    lemma_gather_next(m, keep, recs, n);
    assert forall|j: int| #[trigger] counted_function(m, keep, j) implies stands_in_index(idx, m, keep, recs, j) by {
        let a = lemma_gather_presence(m, keep, recs, n, j);
        assert(idx.funcs[a] == positioned(fs)[a]);
        assert(numbered_function(m, keep, recs, j, idx.funcs[a]));
    }
    assert forall|a: int| 0 <= a < idx.funcs.len() implies from_the_mapping(m, keep, recs, #[trigger] idx.funcs[a]) by {
        let j = lemma_gather_origin(m, keep, recs, n, a);
        assert(idx.funcs[a] == positioned(fs)[a]);
        assert(numbered_function(m, keep, recs, j, idx.funcs[a]));
    }
}

/// Which function of `fs` window entry `k` copies the counters of.
pub open spec fn window_origin(fs: Seq<FuncModel>, k: int) -> int
    decreases fs.len(),
{
    if fs.len() == 0 {
        0
    } else if fs.last().len == 0 || k < window_of(fs.drop_last()).len() {
        window_origin(fs.drop_last(), k)
    } else {
        fs.len() - 1
    }
}

proof fn lemma_window_origin(fs: Seq<FuncModel>, k: int)
    requires
        0 <= k < window_of(fs).len(),
    ensures
        0 <= window_origin(fs, k) < fs.len(),
        window_of(fs)[k] == fs[window_origin(fs, k)].start_len(),
        fs[window_origin(fs, k)].len > 0,
    decreases fs.len(),
{
    let d = fs.drop_last();
    if fs.last().len == 0 || k < window_of(d).len() {
        lemma_window_origin(d, k);
        assert(d[window_origin(d, k)] == fs[window_origin(d, k)]);
    }
}

proof fn lemma_window_origin_increasing(fs: Seq<FuncModel>, k1: int, k2: int)
    requires
        0 <= k1 < k2 < window_of(fs).len(),
    ensures
        window_origin(fs, k1) < window_origin(fs, k2),
    decreases fs.len(),
{
    let d = fs.drop_last();
    if fs.last().len == 0 || k2 < window_of(d).len() {
        lemma_window_origin_increasing(d, k1, k2);
    } else {
        lemma_window_origin(d, k1);
    }
}

/// The counter ranges of different records do not overlap.
pub open spec fn records_disjoint(recs: Map<u128, (usize, usize)>) -> bool {
    forall|x: u128, y: u128|
        #![trigger recs[x], recs[y]]
        recs.contains_key(x) && recs.contains_key(y) && x != y ==> recs[x].0 + recs[x].1 <= recs[y].0
            || recs[y].0 + recs[y].1 <= recs[x].0
}

/// Window entry `w` is the counters of the record of a function of `m` counted once, with regions
/// in the code under test.
pub open spec fn window_of_record(
    m: MappingModel,
    keep: Seq<bool>,
    recs: Map<u128, (usize, usize)>,
    w: (usize, usize),
) -> bool {
    exists|j: int|
        #[trigger] counted_function(m, keep, j) && recs.contains_key(fkey(m.functions[j])) && w
            == recs[fkey(m.functions[j])]
}

/// The window copies each counted function's counters once: every entry is non-empty and is the
/// record of a function with regions in the code under test (a function without a record gets
/// no entry), and when the records' counter ranges do not overlap, neither do the entries.
pub proof fn law_window_entries_disjoint(
    m: MappingModel,
    recs: Map<u128, (usize, usize)>,
    prefixes: Option<Seq<Seq<char>>>,
    own: Seq<char>,
    idx: IndexModel,
)
    requires
        fits_spec(m, recs),
        built(m, recs, prefixes, own, idx),
    ensures
        forall|k: int| 0 <= k < idx.window.len() ==> (#[trigger] idx.window[k]).1 > 0,
        forall|k: int|
            0 <= k < idx.window.len() ==> window_of_record(
                m,
                keep_spec(m.files, prefixes, own),
                recs,
                #[trigger] idx.window[k],
            ),
        records_disjoint(recs) ==> forall|k1: int, k2: int|
            0 <= k1 < k2 < idx.window.len() ==> #[trigger] idx.window[k1].0 + idx.window[k1].1
                <= #[trigger] idx.window[k2].0 || idx.window[k2].0 + idx.window[k2].1 <= idx.window[k1].0,
{
    let keep = keep_spec(m.files, prefixes, own);
    let n = m.functions.len();
    let fs = gather(m, keep, recs, n).funcs;
    law_region_ids(m, recs, prefixes, own, idx);
    assert forall|k: int| 0 <= k < idx.window.len() implies (#[trigger] idx.window[k]).1 > 0
        && window_of_record(m, keep, recs, idx.window[k]) by {
        lemma_window_origin(fs, k);
        let a = window_origin(fs, k);
        let j = lemma_gather_origin(m, keep, recs, n, a);
        assert(counted_function(m, keep, j));
    }
    if records_disjoint(recs) {
        assert forall|k1: int, k2: int| 0 <= k1 < k2 < idx.window.len() implies #[trigger] idx.window[k1].0
            + idx.window[k1].1 <= #[trigger] idx.window[k2].0 || idx.window[k2].0 + idx.window[k2].1
            <= idx.window[k1].0 by {
            lemma_window_origin(fs, k1);
            lemma_window_origin(fs, k2);
            lemma_window_origin_increasing(fs, k1, k2);
            let a1 = window_origin(fs, k1);
            let a2 = window_origin(fs, k2);
            let j1 = lemma_gather_origin(m, keep, recs, n, a1);
            let j2 = lemma_gather_origin(m, keep, recs, n, a2);
            assert(idx.funcs[a1] == positioned(fs)[a1]);
            assert(idx.funcs[a2] == positioned(fs)[a2]);
            if j1 == j2 {
                assert(idx.funcs[a1].regions[0] == idx.funcs[a2].regions[0]);
                assert(false);
            }
            let x = fkey(m.functions[j1]);
            let y = fkey(m.functions[j2]);
            if j1 < j2 {
                assert(fkey(m.functions[j1]) != fkey(m.functions[j2]));
            } else {
                assert(fkey(m.functions[j2]) != fkey(m.functions[j1]));
            }
            assert(recs.contains_key(x) && recs.contains_key(y));
            assert(idx.window[k1] == recs[x] && idx.window[k2] == recs[y]);
        }
    }
}

/// No id occurs twice in `s`.
pub open spec fn no_repeats(s: Seq<u32>) -> bool {
    forall|i: int, j: int| 0 <= i < j < s.len() ==> #[trigger] s[i] != #[trigger] s[j]
}

proof fn lemma_positive_ids_from(regions: Seq<(u32, Term)>, exprs: Seq<(Term, Term)>, delta: Seq<i64>, k: nat)
    requires
        k <= regions.len(),
        forall|i: int, j: int| 0 <= i < j < regions.len() ==> #[trigger] regions[i].0 != #[trigger] regions[j].0,
    ensures
        forall|t: int|
            0 <= t < positive_ids(regions, exprs, delta, k).len() ==> exists|j: int|
                0 <= j < k && #[trigger] positive_ids(regions, exprs, delta, k)[t] == regions[j].0,
        no_repeats(positive_ids(regions, exprs, delta, k)),
    decreases k,
{
    if k > 0 {
        lemma_positive_ids_from(regions, exprs, delta, (k - 1) as nat);
        let p = positive_ids(regions, exprs, delta, (k - 1) as nat);
        let q = positive_ids(regions, exprs, delta, k);
        if crate::mapping::eval_spec(regions[k - 1].1, exprs, delta, 0) > 0 {
            assert(q == p.push(regions[k - 1].0));
            assert forall|t: int| 0 <= t < q.len() implies exists|j: int|
                0 <= j < k && #[trigger] q[t] == regions[j].0 by {
                if t < p.len() {
                    assert(q[t] == p[t]);
                    let j = choose|j: int| 0 <= j < k - 1 && #[trigger] p[t] == regions[j].0;
                    assert(0 <= j < k && q[t] == regions[j].0);
                } else {
                    assert(q[t] == regions[k - 1].0);
                }
            }
            assert forall|i: int, j: int| 0 <= i < j < q.len() implies #[trigger] q[i] != #[trigger] q[j] by {
                assert(q[i] == p[i]);
                if j < p.len() {
                    assert(q[j] == p[j]);
                } else {
                    let a = choose|a: int| 0 <= a < k - 1 && #[trigger] p[i] == regions[a].0;
                    assert(regions[a].0 != regions[k - 1].0);
                }
            }
        } else {
            assert forall|t: int| 0 <= t < q.len() implies exists|j: int|
                0 <= j < k && #[trigger] q[t] == regions[j].0 by {
                let j = choose|j: int| 0 <= j < k - 1 && #[trigger] p[t] == regions[j].0;
                assert(0 <= j < k && q[t] == regions[j].0);
            }
        }
    }
}

/// The regions of `f` that ran are some of its regions, each once.
proof fn lemma_ran_in_from(f: FuncModel, before: Seq<u64>, after: Seq<u64>)
    requires
        forall|i: int, j: int|
            0 <= i < j < f.regions.len() ==> #[trigger] f.regions[i].0 != #[trigger] f.regions[j].0,
    ensures
        forall|t: int|
            0 <= t < ran_in(f, before, after).len() ==> exists|j: int|
                0 <= j < f.regions.len() && #[trigger] ran_in(f, before, after)[t] == f.regions[j].0,
        no_repeats(ran_in(f, before, after)),
{
    if !(f.len == 0 || f.pos + f.len > after.len() || !moved(before, after, f.pos as int, f.len as int)) {
        lemma_positive_ids_from(
            f.regions,
            f.exprs,
            deltas(before, after, f.pos as int, f.len as int),
            f.regions.len(),
        );
    }
}

proof fn lemma_ran_upto_from(funcs: Seq<FuncModel>, before: Seq<u64>, after: Seq<u64>, k: nat)
    requires
        k <= funcs.len(),
        ids_distinct(funcs),
    ensures
        forall|t: int|
            0 <= t < ran_upto(funcs, before, after, k).len() ==> exists|a: int, j: int|
                0 <= a < k && 0 <= j < funcs[a].regions.len() && #[trigger] ran_upto(
                    funcs,
                    before,
                    after,
                    k,
                )[t] == funcs[a].regions[j].0,
        no_repeats(ran_upto(funcs, before, after, k)),
    decreases k,
{
    if k > 0 {
        lemma_ran_upto_from(funcs, before, after, (k - 1) as nat);
        let f = funcs[k - 1];
        assert forall|i: int, j: int| 0 <= i < j < f.regions.len() implies #[trigger] f.regions[i].0
            != #[trigger] f.regions[j].0 by {
            if f.regions[i].0 == f.regions[j].0 {
                assert(funcs[k - 1].regions[i].0 == funcs[k - 1].regions[j].0);
            }
        }
        lemma_ran_in_from(f, before, after);
        let p = ran_upto(funcs, before, after, (k - 1) as nat);
        let r = ran_in(f, before, after);
        let q = ran_upto(funcs, before, after, k);
        assert(q == p + r);
        assert forall|t: int| 0 <= t < q.len() implies exists|a: int, j: int|
            0 <= a < k && 0 <= j < funcs[a].regions.len() && #[trigger] q[t] == funcs[a].regions[j].0 by {
            if t < p.len() {
                assert(q[t] == p[t]);
                let (a, j) = choose|a: int, j: int|
                    0 <= a < k - 1 && 0 <= j < funcs[a].regions.len() && #[trigger] p[t]
                        == funcs[a].regions[j].0;
                assert(0 <= a < k && 0 <= j < funcs[a].regions.len() && q[t] == funcs[a].regions[j].0);
            } else {
                assert(q[t] == r[t - p.len()]);
                let j = choose|j: int| 0 <= j < f.regions.len() && #[trigger] r[t - p.len()] == f.regions[j].0;
                assert(0 <= k - 1 < k && 0 <= j < funcs[k - 1].regions.len() && q[t] == funcs[k - 1].regions[j].0);
            }
        }
        assert forall|x: int, y: int| 0 <= x < y < q.len() implies #[trigger] q[x] != #[trigger] q[y] by {
            if y < p.len() {
                assert(q[x] == p[x] && q[y] == p[y]);
            } else if x >= p.len() {
                assert(q[x] == r[x - p.len()] && q[y] == r[y - p.len()]);
            } else {
                assert(q[x] == p[x] && q[y] == r[y - p.len()]);
                let (a, i) = choose|a: int, i: int|
                    0 <= a < k - 1 && 0 <= i < funcs[a].regions.len() && #[trigger] p[x]
                        == funcs[a].regions[i].0;
                let j = choose|j: int| 0 <= j < f.regions.len() && #[trigger] r[y - p.len()] == f.regions[j].0;
                if funcs[a].regions[i].0 == funcs[k - 1].regions[j].0 {
                    assert(a == k - 1);
                }
            }
        }
    }
}

/// What a test case is reported to have run is a set of regions of the code under test: each
/// region id reported is one of the index's regions, below the number of regions, and none is
/// reported twice.
pub proof fn law_ran_regions_are_distinct_regions(
    m: MappingModel,
    recs: Map<u128, (usize, usize)>,
    prefixes: Option<Seq<Seq<char>>>,
    own: Seq<char>,
    idx: IndexModel,
    before: Seq<u64>,
    after: Seq<u64>,
)
    requires
        fits_spec(m, recs),
        built(m, recs, prefixes, own, idx),
    ensures
        forall|t: int|
            0 <= t < ran_spec(idx, before, after).1.len() ==> #[trigger] ran_spec(idx, before, after).1[t]
                < idx.total_regions,
        no_repeats(ran_spec(idx, before, after).1),
{
    law_region_ids(m, recs, prefixes, own, idx);
    lemma_ran_upto_from(idx.funcs, before, after, idx.funcs.len());
    let q = ran_spec(idx, before, after).1;
    assert forall|t: int| 0 <= t < q.len() implies #[trigger] q[t] < idx.total_regions by {
        let (a, j) = choose|a: int, j: int|
            0 <= a < idx.funcs.len() && 0 <= j < idx.funcs[a].regions.len() && #[trigger] q[t]
                == idx.funcs[a].regions[j].0;
        assert(idx.funcs[a].regions[j].0 < idx.total_regions);
    }
}

/// The 32-bit index of counter `c` of an entry whose first counter is `start`.
pub open spec fn counter_id(start: usize, c: int) -> u32 {
    (start + c) as u32
}

proof fn lemma_raised_in_at(start: usize, at: int, before: Seq<u64>, after: Seq<u64>, j: nat, t: int) -> (c: int)
    requires
        0 <= t < raised_in(start, at, before, after, j).len(),
    ensures
        0 <= c < j,
        raised_in(start, at, before, after, j)[t] == counter_id(start, c),
    decreases j,
{
    let p = raised_in(start, at, before, after, (j - 1) as nat);
    if t < p.len() {
        lemma_raised_in_at(start, at, before, after, (j - 1) as nat, t)
    } else {
        j - 1
    }
}

proof fn lemma_raised_upto_at(w: Seq<(usize, usize)>, before: Seq<u64>, after: Seq<u64>, k: nat, t: int) -> (mc: (int, int))
    requires
        k <= w.len(),
        0 <= t < raised_upto(w, before, after, k).len(),
    ensures
        0 <= mc.0 < k,
        0 <= mc.1 < w[mc.0].1,
        raised_upto(w, before, after, k)[t] == counter_id(w[mc.0].0, mc.1),
    decreases k,
{
    let p = raised_upto(w, before, after, (k - 1) as nat);
    let at = window_total(w.take(k - 1));
    let r = raised_in(w[k - 1].0, at, before, after, w[k - 1].1 as nat);
    if t < p.len() {
        lemma_raised_upto_at(w, before, after, (k - 1) as nat, t)
    } else {
        let c = lemma_raised_in_at(w[k - 1].0, at, before, after, w[k - 1].1 as nat, t - p.len());
        (k - 1, c)
    }
}

/// Counter `id` is one of the counters of the window `w`: some entry's first counter plus less
/// than its number of counters (as a 32-bit index).
pub open spec fn in_window(w: Seq<(usize, usize)>, id: u32) -> bool {
    exists|k: int, c: int| 0 <= k < w.len() && 0 <= c < w[k].1 && id == #[trigger] counter_id(w[k].0, c)
}

/// The counters reported raised are counters of the window.
pub proof fn law_raised_counters_in_window(idx: IndexModel, before: Seq<u64>, after: Seq<u64>)
    ensures
        forall|t: int|
            0 <= t < ran_spec(idx, before, after).0.len() ==> in_window(
                idx.window,
                #[trigger] ran_spec(idx, before, after).0[t],
            ),
{
    assert forall|t: int| 0 <= t < ran_spec(idx, before, after).0.len() implies in_window(
        idx.window,
        #[trigger] ran_spec(idx, before, after).0[t],
    ) by {
        let (k, c) = lemma_raised_upto_at(idx.window, before, after, idx.window.len(), t);
        assert(ran_spec(idx, before, after).0[t] == counter_id(idx.window[k].0, c));
    }
}

/// A mapping whose functions name only its own files (as a parsed mapping does, see
/// `law_parse_wf`) has every region in one of its files.
pub proof fn law_wf_regions_in_files(m: MappingModel)
    requires
        crate::mapping::mapping_wf(m),
    ensures
        regions_in_files(m),
{
    assert forall|i: int, j: int|
        0 <= i < m.functions.len() && 0 <= j < m.functions[i].regions.len() implies (
        #[trigger] m.functions[i].regions[j]).file < m.files.len() by {
        assert(crate::mapping::ids_below(m.functions[i].files, m.files.len() as int));
        assert(crate::mapping::regions_in(m.functions[i].regions, m.functions[i].files));
        let k = choose|k: int|
            0 <= k < m.functions[i].files.len() && m.functions[i].regions[j].file == #[trigger] m.functions[i].files[k];
    }
}

} // verus!
