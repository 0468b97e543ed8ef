//! LLVM's coverage mapping, as it stands in a test binary: which source regions each function
//! has, and how each region's execution count follows from the function's counters.
//!
//! LLVM gives no counter of its own to code whose count it can work out from other counters;
//! the mapping says, for every region, how its count is computed (`Term`), so a region's count
//! can be worked out from the counters' increments (`eval`).
//!
//! Formats (all little-endian), as written by LLVM 19-22:
//! - `__llvm_covmap`: one record per compilation unit: four u32 (0, filenames size, 0, version),
//!   then the filenames blob, padded to 8 bytes. A function refers to its unit's blob by the low
//!   64 bits of the blob's MD5.
//! - `__llvm_covfun`: one record per function: u64 name hash, u32 data size, u64 function hash,
//!   u64 filenames hash, then the mapping data, padded to 8 bytes.
//!
//! Sizes read from the sections are added with the wrapping arithmetic of a release build: a
//! size so large that a position would overflow makes the slice that follows out of range, so
//! the record is rejected.
use vstd::prelude::*;
use vstd::arithmetic::power2::*;
use vstd::bits::*;

verus! {

/// How a region's count is computed.
#[derive(Clone, Copy, Debug, PartialEq, Eq, Structural)]
pub enum Term {
    Zero,
    /// The function's local counter number.
    Counter(u32),
    Sub(u32),
    Add(u32),
}

/// One source region of one function.
#[derive(Clone, Copy, Debug, PartialEq, Eq, Structural)]
pub struct Region {
    pub term: Term,
    pub file: u32,
    pub line_start: u32,
    pub col_start: u32,
    pub line_end: u32,
    pub col_end: u32,
}

/// One function's mapping.
#[derive(Clone, Debug)]
pub struct Function {
    pub name_ref: u64,
    pub func_hash: u64,
    /// Global file index (into `Mapping::files`) of each of the function's local file ids.
    pub files: Vec<u32>,
    /// Expressions: (left, right); the kind comes from the term that refers to the expression.
    pub exprs: Vec<(Term, Term)>,
    pub regions: Vec<Region>,
}

/// What a `Function` holds, as plain values.
pub struct FunctionModel {
    pub name_ref: u64,
    pub func_hash: u64,
    pub files: Seq<u32>,
    pub exprs: Seq<(Term, Term)>,
    pub regions: Seq<Region>,
}

impl View for Function {
    type V = FunctionModel;

    open spec fn view(&self) -> FunctionModel {
        FunctionModel {
            name_ref: self.name_ref,
            func_hash: self.func_hash,
            files: self.files@,
            exprs: self.exprs@,
            regions: self.regions@,
        }
    }
}

/// Everything the binary holds.
#[derive(Clone, Debug)]
pub struct Mapping {
    pub files: Vec<String>,
    pub functions: Vec<Function>,
}

/// What a `Mapping` holds, as plain values.
pub struct MappingModel {
    pub files: Seq<Seq<char>>,
    pub functions: Seq<FunctionModel>,
}

impl View for Mapping {
    type V = MappingModel;

    open spec fn view(&self) -> MappingModel {
        MappingModel {
            files: self.files@.map_values(|s: String| s@),
            functions: self.functions@.map_values(|f: Function| f@),
        }
    }
}

impl Default for Mapping {
    fn default() -> (m: Mapping)
        ensures
            m@.files.len() == 0,
            m@.functions.len() == 0,
    {
        Mapping { files: Vec::new(), functions: Vec::new() }
    }
}

// ---------------------------------------------------------------------------------------------
// Fixed-size little-endian integers.
/// The little-endian u32 in `b` at `at`, if the four bytes are there.
pub open spec fn u32_at_spec(b: Seq<u8>, at: int) -> Option<u32> {
    if 0 <= at && at + 4 <= b.len() {
        Some(
            (b[at] + 0x100 * b[at + 1] + 0x1_0000 * b[at + 2] + 0x100_0000 * b[at + 3]) as u32,
        )
    } else {
        None
    }
}

/// The little-endian u64 in `b` at `at`, if the eight bytes are there.
pub open spec fn u64_at_spec(b: Seq<u8>, at: int) -> Option<u64> {
    if 0 <= at && at + 8 <= b.len() {
        Some(
            (b[at] + 0x100 * b[at + 1] + 0x1_0000 * b[at + 2] + 0x100_0000 * b[at + 3]
                + 0x1_0000_0000 * b[at + 4] + 0x100_0000_0000 * b[at + 5] + 0x1_0000_0000_0000
                * b[at + 6] + 0x100_0000_0000_0000 * b[at + 7]) as u64,
        )
    } else {
        None
    }
}

pub fn u32_at(b: &[u8], at: usize) -> (r: Option<u32>)
    requires
        at <= usize::MAX - 4,
    ensures
        r == u32_at_spec(b@, at as int),
{
    if b.len() < 4 || at > b.len() - 4 {
        return None;
    }
    let v: u32 = b[at] as u32 + 0x100u32 * (b[at + 1] as u32) + 0x1_0000u32 * (b[at + 2] as u32)
        + 0x100_0000u32 * (b[at + 3] as u32);
    Some(v)
}

pub fn u64_at(b: &[u8], at: usize) -> (r: Option<u64>)
    requires
        at <= usize::MAX - 8,
    ensures
        r == u64_at_spec(b@, at as int),
{
    if b.len() < 8 || at > b.len() - 8 {
        return None;
    }
    let v: u64 = b[at] as u64 + 0x100u64 * (b[at + 1] as u64) + 0x1_0000u64 * (b[at + 2] as u64)
        + 0x100_0000u64 * (b[at + 3] as u64) + 0x1_0000_0000u64 * (b[at + 4] as u64)
        + 0x100_0000_0000u64 * (b[at + 5] as u64) + 0x1_0000_0000_0000u64 * (b[at + 6] as u64)
        + 0x100_0000_0000_0000u64 * (b[at + 7] as u64);
    Some(v)
}

// ---------------------------------------------------------------------------------------------
// Unsigned LEB128.
/// The bytes of an unsigned LEB128 number from `b[pos + i]` on: the sum of each byte's low seven
/// bits times 2^(7 j), where j is the byte's place in the number, and the position after its last
/// byte (the first one whose high bit is clear). A number takes at most ten bytes.
pub open spec fn uleb_from(b: Seq<u8>, pos: int, i: nat) -> Option<(int, int)>
    decreases 10 - i,
{
    if i > 9 || pos + i < 0 || pos + i >= b.len() {
        None
    } else {
        let byte = b[pos + i];
        let part = (byte % 128) * pow2(7 * i);
        if byte < 128 {
            Some((part, pos + i + 1))
        } else if i == 9 {
            None
        } else {
            match uleb_from(b, pos, i + 1) {
                Some((v, p)) => Some((part + v, p)),
                None => None,
            }
        }
    }
}

/// The unsigned LEB128 number at `pos`, reduced to 64 bits, and the position after it.
pub open spec fn uleb_spec(b: Seq<u8>, pos: int) -> Option<(u64, int)> {
    match uleb_from(b, pos, 0) {
        Some((v, p)) => Some(((v % 0x1_0000_0000_0000_0000) as u64, p)),
        None => None,
    }
}

proof fn lemma_uleb_from_bounds(b: Seq<u8>, pos: int, i: nat)
    ensures
        uleb_from(b, pos, i) matches Some((v, p)) ==> 0 <= v && pos + i < p <= pos + 10 && p
            <= b.len(),
    decreases 10 - i,
{
    if i <= 9 && 0 <= pos + i < b.len() {
        let byte = b[pos + i];
        lemma_pow2_pos(7 * i);
        assert((byte % 128) * pow2(7 * i) >= 0) by (nonlinear_arith)
            requires
                pow2(7 * i) > 0,
        ;
        if byte >= 128 && i < 9 {
            lemma_uleb_from_bounds(b, pos, i + 1);
        }
    }
}

/// One byte of a LEB128 number: below bit 63 the byte's bits go in above the bits read so far.
proof fn lemma_uleb_step(v: u64, byte: u8, shift: u64)
    requires
        shift <= 56,
        v < pow2(shift as nat),
    ensures
        v | (((byte & 0x7f) as u64) << shift) == v + (byte % 128) * pow2(shift as nat),
        v + (byte % 128) * pow2(shift as nat) < pow2((shift + 7) as nat),
{
    let x: u64 = (byte & 0x7f) as u64;
    assert(x == byte % 128) by (bit_vector)
        requires
            x == (byte & 0x7f) as u64,
    ;
    lemma_u64_pow2_no_overflow(shift as nat);
    lemma_pow2_adds(shift as nat, 7);
    lemma2_to64();
    lemma_pow2_pos(shift as nat);
    assert(x * pow2(shift as nat) < pow2((shift + 7) as nat)) by (nonlinear_arith)
        requires
            0 <= x < 128,
            pow2(shift as nat) > 0,
            pow2((shift + 7) as nat) == pow2(shift as nat) * 128,
    ;
    lemma_u64_pow2_no_overflow((shift + 7) as nat);
    lemma_u64_shl_is_mul(x, shift);
    lemma_u64_shl_is_mul(1, shift);
    assert(1u64 * pow2(shift as nat) == pow2(shift as nat));
    let m: u64 = (1u64 << shift);
    assert(v < m);
    assert(v | (x << shift) == v + (x << shift)) by (bit_vector)
        requires
            v < (1u64 << shift),
            x < 128,
            shift <= 56,
    ;
    assert(v + x * pow2(shift as nat) < pow2((shift + 7) as nat)) by (nonlinear_arith)
        requires
            v < pow2(shift as nat),
            x < 128,
            pow2((shift + 7) as nat) == pow2(shift as nat) * 128,
    ;
}

/// The tenth byte of a LEB128 number: only its lowest bit is left, as bit 63.
proof fn lemma_uleb_last(v: u64, byte: u8)
    requires
        v < 0x8000_0000_0000_0000,
    ensures
        (v | (((byte & 0x7f) as u64) << 63u64)) as int == (v + (byte % 128) * pow2(63))
            % 0x1_0000_0000_0000_0000,
{
    let x: u64 = (byte & 0x7f) as u64;
    assert(x == byte % 128) by (bit_vector)
        requires
            x == (byte & 0x7f) as u64,
    ;
    assert(v | (x << 63u64) == v + (x % 2) * 0x8000_0000_0000_0000) by (bit_vector)
        requires
            v < 0x8000_0000_0000_0000,
            x < 128,
    ;
    lemma2_to64_rest();
    assert(pow2(63) == 0x8000_0000_0000_0000);
    assert((v + x * 0x8000_0000_0000_0000) % 0x1_0000_0000_0000_0000 == v + (x % 2)
        * 0x8000_0000_0000_0000) by (nonlinear_arith)
        requires
            v < 0x8000_0000_0000_0000,
            0 <= v,
            0 <= x < 128,
    ;
}

/// Reads the unsigned LEB128 number at `*pos` and moves `*pos` past it.
pub fn uleb(b: &[u8], pos: &mut usize) -> (r: Option<u64>)
    ensures
        r == (match uleb_spec(b@, *old(pos) as int) {
            Some((v, _)) => Some(v),
            None => None,
        }),
        r is Some ==> *final(pos) == uleb_spec(b@, *old(pos) as int).unwrap().1,
{
    let ghost start: int = *pos as int;
    let ghost mut acc: int = 0;
    let ghost mut i: nat = 0;
    let mut v = 0u64;
    let mut shift: u64 = 0;
    proof {
        lemma2_to64();
    }
    loop
        invariant
            start == *old(pos),
            i <= 9,
            shift == 7 * i,
            *pos == start + i,
            v == acc,
            0 <= acc < pow2(7 * i),
            uleb_from(b@, start, 0) == (match uleb_from(b@, start, i) {
                Some((w, p)) => Some((acc + w, p)),
                None => None,
            }),
        decreases 10 - i,
    {
        if *pos >= b.len() {
            assert(uleb_from(b@, start, i) is None);
            return None;
        }
        let byte = b[*pos];
        *pos += 1;
        let ghost old_v = v;
        proof {
            assert(byte == b@[start + i]);
        }
        if shift < 63 {
            proof {
                lemma_uleb_step(v, byte, shift);
            }
            v |= ((byte & 0x7f) as u64) << shift;
        } else {
            proof {
                lemma2_to64_rest();
                lemma_uleb_last(v, byte);
            }
            v |= ((byte & 0x7f) as u64) << shift;
        }
        if byte & 0x80 == 0 {
            proof {
                assert(byte < 128) by (bit_vector)
                    requires
                        byte & 0x80 == 0,
                ;
                assert(uleb_from(b@, start, i) == Some(((byte % 128) * pow2(7 * i), start + i + 1)));
                if shift < 63 {
                    lemma_pow2_adds(shift as nat, 7);
                    lemma_u64_pow2_no_overflow((shift + 7) as nat);
                    assert(v < 0x1_0000_0000_0000_0000);
                    assert(v as int == acc + (byte % 128) * pow2(7 * i));
                    assert(uleb_spec(b@, start) == Some((v, start + i + 1)));
                } else {
                    assert(i == 9);
                    assert(uleb_spec(b@, start) == Some((v, start + i + 1)));
                }
            }
            return Some(v);
        }
        proof {
            assert(byte >= 128) by (bit_vector)
                requires
                    byte & 0x80 != 0,
            ;
            if i == 9 {
                assert(uleb_from(b@, start, i) is None);
            }
            acc = acc + (byte % 128) * pow2(7 * i);
            i = i + 1;
        }
        shift += 7;
        if shift >= 64 {
            return None;
        }
    }
}

// ---------------------------------------------------------------------------------------------
// Terms.
/// A term as encoded in the mapping: the kind in the two low bits, the id above them.
pub open spec fn term_spec(v: u64) -> Term {
    let id = (v / 4) as u32;
    if v % 4 == 0 {
        Term::Zero
    } else if v % 4 == 1 {
        Term::Counter(id)
    } else if v % 4 == 2 {
        Term::Sub(id)
    } else {
        Term::Add(id)
    }
}

pub fn decode_term(v: u64) -> (t: Term)
    ensures
        t == term_spec(v),
{
    assert(v >> 2 == v / 4 && v & 3 == v % 4) by (bit_vector);
    let id = (v >> 2) as u32;
    match v & 3 {
        0 => Term::Zero,
        1 => Term::Counter(id),
        2 => Term::Sub(id),
        _ => Term::Add(id),
    }
}

// ---------------------------------------------------------------------------------------------
// Evaluating a term.
/// The increment of counter `c`: `delta[c]`, and 0 for a counter beyond `delta`.
pub open spec fn delta_of(delta: Seq<i64>, c: u32) -> i64 {
    if (c as int) < delta.len() {
        delta[c as int]
    } else {
        0
    }
}

/// The value of `term` given the counters' increments `delta`, computed in 64-bit wrapping
/// arithmetic; an expression nested deeper than 256, or one missing from `exprs`, counts 0.
pub open spec fn eval_spec(term: Term, exprs: Seq<(Term, Term)>, delta: Seq<i64>, depth: int) -> i64
    decreases 257 - depth,
{
    if depth > 256 {
        0
    } else {
        match term {
            Term::Zero => 0,
            Term::Counter(i) => delta_of(delta, i),
            Term::Sub(e) => if (e as int) < exprs.len() {
                let a = eval_spec(exprs[e as int].0, exprs, delta, depth + 1);
                let b = eval_spec(exprs[e as int].1, exprs, delta, depth + 1);
                a.wrapping_sub(b)
            } else {
                0
            },
            Term::Add(e) => if (e as int) < exprs.len() {
                let a = eval_spec(exprs[e as int].0, exprs, delta, depth + 1);
                let b = eval_spec(exprs[e as int].1, exprs, delta, depth + 1);
                a.wrapping_add(b)
            } else {
                0
            },
        }
    }
}

/// The value of `term` given the function's counter increments `delta` (a counter beyond
/// `delta` did not move).
pub fn eval(term: Term, exprs: &[(Term, Term)], delta: &[i64], depth: u32) -> (r: i64)
    ensures
        r == eval_spec(term, exprs@, delta@, depth as int),
    decreases 257 - depth,
{
    if depth > 256 {
        return 0;
    }
    match term {
        Term::Zero => 0,
        Term::Counter(i) => {
            if (i as usize) < delta.len() {
                delta[i as usize]
            } else {
                0
            }
        },
        Term::Sub(e) | Term::Add(e) => {
            if (e as usize) >= exprs.len() {
                return 0;
            }
            let (l, r) = exprs[e as usize];
            let a = eval(l, exprs, delta, depth + 1);
            let b = eval(r, exprs, delta, depth + 1);
            if matches!(term, Term::Sub(_)) {
                a.wrapping_sub(b)
            } else {
                a.wrapping_add(b)
            }
        },
    }
}

} // verus!

verus! {

// ---------------------------------------------------------------------------------------------
// One function record.
/// `acc` put in front of what a parse that went well gave, with the position after it.
pub open spec fn prepend<T>(acc: Seq<T>, r: Option<(Seq<T>, int)>) -> Option<(Seq<T>, int)> {
    match r {
        Some((s, p)) => Some((acc + s, p)),
        None => None,
    }
}

proof fn lemma_prepend<T>(acc: Seq<T>, s: Seq<T>, r: Option<(Seq<T>, int)>)
    ensures
        prepend(acc, prepend(s, r)) == prepend(acc + s, r),
{
    if let Some((t, p)) = r {
        assert(acc + (s + t) =~= (acc + s) + t);
    }
}

proof fn lemma_prepend_empty<T>(r: Option<(Seq<T>, int)>)
    ensures
        prepend(Seq::<T>::empty(), r) == r,
{
    if let Some((t, p)) = r {
        assert(Seq::<T>::empty() + t =~= t);
    }
}

/// The position after `n` unsigned LEB128 numbers read from `pos` on, if they are all there.
pub open spec fn skip_ulebs(b: Seq<u8>, pos: int, n: nat) -> Option<int>
    decreases n,
{
    if n == 0 {
        Some(pos)
    } else {
        match uleb_spec(b, pos) {
            Some((_, p)) => skip_ulebs(b, p, (n - 1) as nat),
            None => None,
        }
    }
}

/// `k` local file ids from `pos` on, each turned into the global index `unit[id]`; an id beyond
/// `unit` spoils the record.
pub open spec fn file_ids_spec(b: Seq<u8>, pos: int, k: nat, unit: Seq<u32>) -> Option<
    (Seq<u32>, int),
>
    decreases k,
{
    if k == 0 {
        Some((Seq::empty(), pos))
    } else {
        match uleb_spec(b, pos) {
            Some((id, p)) => if ((id as usize) as int) < unit.len() {
                prepend(seq![unit[(id as usize) as int]], file_ids_spec(b, p, (k - 1) as nat, unit))
            } else {
                None
            },
            None => None,
        }
    }
}

/// `k` expressions from `pos` on, each a pair of encoded terms.
pub open spec fn exprs_spec(b: Seq<u8>, pos: int, k: nat) -> Option<(Seq<(Term, Term)>, int)>
    decreases k,
{
    if k == 0 {
        Some((Seq::empty(), pos))
    } else {
        match uleb_spec(b, pos) {
            Some((l, p)) => match uleb_spec(b, p) {
                Some((r, q)) => prepend(
                    seq![(term_spec(l), term_spec(r))],
                    exprs_spec(b, q, (k - 1) as nat),
                ),
                None => None,
            },
            None => None,
        }
    }
}

/// What the head of a region record says, after any fields that belong to its kind: the term of
/// a code region, the two terms of a branch region, and the position where the region's
/// location starts. Expansion, skipped and MC/DC regions carry no term here; an unknown kind
/// spoils the record.
pub open spec fn region_kind_spec(b: Seq<u8>, head: u64, p: int) -> Option<
    (Option<Term>, Option<(Term, Term)>, int),
> {
    if head % 4 != 0 {
        Some((Some(term_spec(head)), None, p))
    } else if (head / 4) % 2 == 1 {
        Some((None, None, p))
    } else if head / 8 == 0 {
        Some((Some(Term::Zero), None, p))
    } else if head / 8 == 2 {
        Some((None, None, p))
    } else if head / 8 == 4 {
        match uleb_spec(b, p) {
            Some((t, q)) => match uleb_spec(b, q) {
                Some((f, e)) => Some((None, Some((term_spec(t), term_spec(f))), e)),
                None => None,
            },
            None => None,
        }
    } else if head / 8 == 5 {
        match skip_ulebs(b, p, 2) {
            Some(q) => Some((None, None, q)),
            None => None,
        }
    } else if head / 8 == 6 {
        match skip_ulebs(b, p, 5) {
            Some(q) => Some((None, None, q)),
            None => None,
        }
    } else {
        None
    }
}

/// The region of `file` starting at line `line` with the given location fields and term.
pub open spec fn region_at(term: Term, file: u32, line: u32, col_start: u32, nlines: u32, col_end: u32) -> Region {
    Region {
        term,
        file,
        line_start: line,
        col_start,
        line_end: line.wrapping_add(nlines),
        col_end,
    }
}

/// The regions a record emits: none for a gap region, else the code region's, then the two
/// branch regions.
pub open spec fn emitted(code: Option<Term>, branch: Option<(Term, Term)>, file: u32, line: u32, col_start: u32, nlines: u32, col_end_raw: u32) -> Seq<Region> {
    let col_end = col_end_raw % 0x8000_0000;
    if col_end_raw >= 0x8000_0000 {
        Seq::empty()
    } else {
        let c = match code {
            Some(t) => seq![region_at(t, file, line, col_start, nlines, col_end)],
            None => Seq::empty(),
        };
        let br = match branch {
            Some((t, f)) => seq![
                region_at(t, file, line, col_start, nlines, col_end),
                region_at(f, file, line, col_start, nlines, col_end),
            ],
            None => Seq::empty(),
        };
        c + br
    }
}

/// One region record at `pos` of `file`, the previous record's line being `line`: the regions it
/// emits, the position after it, and its line (line deltas add up in 32-bit wrapping arithmetic).
pub open spec fn region_spec(b: Seq<u8>, pos: int, file: u32, line: u32) -> Option<
    (Seq<Region>, int, u32),
> {
    match uleb_spec(b, pos) {
        Some((head, p)) => match region_kind_spec(b, head, p) {
            Some((code, branch, q)) => match uleb_spec(b, q) {
                Some((delta, q1)) => match uleb_spec(b, q1) {
                    Some((col_start, q2)) => match uleb_spec(b, q2) {
                        Some((nlines, q3)) => match uleb_spec(b, q3) {
                            Some((col_end_raw, q4)) => {
                                let l = line.wrapping_add(delta as u32);
                                Some(
                                    (
                                        emitted(
                                            code,
                                            branch,
                                            file,
                                            l,
                                            col_start as u32,
                                            nlines as u32,
                                            col_end_raw as u32,
                                        ),
                                        q4,
                                        l,
                                    ),
                                )
                            },
                            None => None,
                        },
                        None => None,
                    },
                    None => None,
                },
                None => None,
            },
            None => None,
        },
        None => None,
    }
}

/// `k` region records of `file` from `pos` on.
pub open spec fn regions_spec(b: Seq<u8>, pos: int, file: u32, k: nat, line: u32) -> Option<
    (Seq<Region>, int),
>
    decreases k,
{
    if k == 0 {
        Some((Seq::empty(), pos))
    } else {
        match region_spec(b, pos, file, line) {
            Some((rs, p, l)) => prepend(rs, regions_spec(b, p, file, (k - 1) as nat, l)),
            None => None,
        }
    }
}

/// The regions `r` of one file put in front of those of `files[j..]`.
pub open spec fn then_files(b: Seq<u8>, r: Option<(Seq<Region>, int)>, files: Seq<u32>, j: int) -> Option<
    (Seq<Region>, int),
>
    decreases files.len() - j, 1int,
{
    match r {
        Some((rs, q)) => prepend(rs, file_regions_spec(b, q, files, j)),
        None => None,
    }
}

/// The regions of `files[j..]`, each file's records preceded by their number.
pub open spec fn file_regions_spec(b: Seq<u8>, pos: int, files: Seq<u32>, j: int) -> Option<
    (Seq<Region>, int),
>
    decreases files.len() - j, 0int,
{
    if j >= files.len() || j < 0 {
        Some((Seq::empty(), pos))
    } else {
        match uleb_spec(b, pos) {
            Some((n, p)) => then_files(
                b,
                regions_spec(b, p, files[j], (n as usize) as nat, 0),
                files,
                j + 1,
            ),
            None => None,
        }
    }
}

/// A function record's mapping data, read with its unit's global file indices: its file ids,
/// expressions and regions.
#[verifier::opaque]
pub open spec fn function_spec(b: Seq<u8>, unit: Seq<u32>) -> Option<
    (Seq<u32>, Seq<(Term, Term)>, Seq<Region>),
> {
    match uleb_spec(b, 0) {
        Some((nfiles, p0)) => after_files(b, file_ids_spec(b, p0, (nfiles as usize) as nat, unit)),
        None => None,
    }
}

/// The rest of a function record once its file ids are read.
pub open spec fn after_files(b: Seq<u8>, files: Option<(Seq<u32>, int)>) -> Option<
    (Seq<u32>, Seq<(Term, Term)>, Seq<Region>),
> {
    match files {
        Some((files, p1)) => match uleb_spec(b, p1) {
            Some((nexpr, p2)) => after_exprs(b, files, exprs_spec(b, p2, (nexpr as usize) as nat)),
            None => None,
        },
        None => None,
    }
}

/// The rest of a function record once its expressions are read.
pub open spec fn after_exprs(b: Seq<u8>, files: Seq<u32>, exprs: Option<(Seq<(Term, Term)>, int)>) -> Option<
    (Seq<u32>, Seq<(Term, Term)>, Seq<Region>),
> {
    match exprs {
        Some((exprs, p3)) => match file_regions_spec(b, p3, files, 0) {
            Some((regions, _)) => Some((files, exprs, regions)),
            None => None,
        },
        None => None,
    }
}

} // verus!

verus! {

/// Moves `*pos` past `n` unsigned LEB128 numbers; false if one of them is not there.
fn skip_ulebs_at(b: &[u8], pos: &mut usize, n: usize) -> (ok: bool)
    ensures
        ok == skip_ulebs(b@, *old(pos) as int, n as nat) is Some,
        ok ==> *final(pos) == skip_ulebs(b@, *old(pos) as int, n as nat).unwrap(),
{
    let ghost start = *pos as int;
    let mut k: usize = 0;
    while k < n
        invariant
            k <= n,
            start == *old(pos),
            skip_ulebs(b@, start, n as nat) == skip_ulebs(b@, *pos as int, (n - k) as nat),
        decreases n - k,
    {
        match uleb(b, pos) {
            Some(_) => {},
            None => {
                return false;
            },
        }
        k += 1;
    }
    true
}

/// Reads one region record at `*pos` of `file`, after the record whose line is `*line`; appends
/// the regions it emits to `regions`. False if the record is spoilt.
fn region_record(
    data: &[u8],
    pos: &mut usize,
    file: u32,
    line: &mut u32,
    regions: &mut Vec<Region>,
) -> (ok: bool)
    ensures
        ok == region_spec(data@, *old(pos) as int, file, *old(line)) is Some,
        ok ==> ({
            let (rs, p, l) = region_spec(data@, *old(pos) as int, file, *old(line)).unwrap();
            &&& final(regions)@ == old(regions)@ + rs
            &&& *final(pos) == p
            &&& *final(line) == l
        }),
{
    let ghost p0 = *pos as int;
    let head = match uleb(data, pos) {
        Some(h) => h,
        None => {
            return false;
        },
    };
    let ghost p1 = *pos as int;
    assert(head & 3 == head % 4 && head & 4 == ((head / 4) % 2) * 4 && head >> 3 == head / 8)
        by (bit_vector);
    let mut code: Option<Term> = None;
    let mut branch: Option<(Term, Term)> = None;
    if head & 3 != 0 {
        code = Some(decode_term(head));
    } else if head & 4 != 0 {
        // an expansion region: its code is in the expanded file's own regions
    } else {
        let kind = head >> 3;
        if kind == 0 {
            code = Some(Term::Zero);
        } else if kind == 2 {
            // a skipped region
        } else if kind == 4 {
            let t = match uleb(data, pos) {
                Some(v) => v,
                None => {
                    return false;
                },
            };
            let f = match uleb(data, pos) {
                Some(v) => v,
                None => {
                    return false;
                },
            };
            branch = Some((decode_term(t), decode_term(f)));
        } else if kind == 5 {
            // an MC/DC decision: bitmap index, number of conditions
            if !skip_ulebs_at(data, pos, 2) {
                return false;
            }
        } else if kind == 6 {
            // an MC/DC branch: two terms, then the condition id and the true and false ids
            if !skip_ulebs_at(data, pos, 5) {
                return false;
            }
        } else {
            return false;
        }
    }
    assert(region_kind_spec(data@, head, p1) == Some((code, branch, *pos as int)));
    let delta = match uleb(data, pos) {
        Some(v) => v as u32,
        None => {
            return false;
        },
    };
    let col_start = match uleb(data, pos) {
        Some(v) => v as u32,
        None => {
            return false;
        },
    };
    let nlines = match uleb(data, pos) {
        Some(v) => v as u32,
        None => {
            return false;
        },
    };
    let col_end_raw = match uleb(data, pos) {
        Some(v) => v as u32,
        None => {
            return false;
        },
    };
    *line = line.wrapping_add(delta);
    let l = *line;
    let gap = col_end_raw & (1u32 << 31) != 0;
    let col_end = col_end_raw & !(1u32 << 31);
    assert(gap == (col_end_raw >= 0x8000_0000) && col_end == col_end_raw % 0x8000_0000)
        by (bit_vector)
        requires
            gap == (col_end_raw & (1u32 << 31) != 0),
            col_end == col_end_raw & !(1u32 << 31),
    ;
    let ghost rs = emitted(code, branch, file, l, col_start, nlines, col_end_raw);
    let ghost before = regions@;
    if gap {
        assert(rs =~= Seq::<Region>::empty());
        assert(regions@ =~= before + rs);
        return true;
    }
    if let Some(term) = code {
        regions.push(
            Region {
                term,
                file,
                line_start: l,
                col_start,
                line_end: l.wrapping_add(nlines),
                col_end,
            },
        );
    }
    if let Some((t, f)) = branch {
        regions.push(
            Region {
                term: t,
                file,
                line_start: l,
                col_start,
                line_end: l.wrapping_add(nlines),
                col_end,
            },
        );
        regions.push(
            Region {
                term: f,
                file,
                line_start: l,
                col_start,
                line_end: l.wrapping_add(nlines),
                col_end,
            },
        );
    }
    assert(regions@ =~= before + rs);
    true
}


/// The regions of `files`, read from `*pos` on, each file's records preceded by their number.
fn file_regions(data: &[u8], pos: &mut usize, files: &Vec<u32>) -> (r: Option<Vec<Region>>)
    ensures
        match r {
            Some(regions) => file_regions_spec(data@, *old(pos) as int, files@, 0) matches Some(
                (rs, _),
            ) && rs == regions@,
            None => file_regions_spec(data@, *old(pos) as int, files@, 0) is None,
        },
{
    let ghost p3 = *pos as int;
    let mut regions: Vec<Region> = Vec::new();
    let mut j: usize = 0;
    proof {
        lemma_prepend_empty(file_regions_spec(data@, p3, files@, 0));
    }
    while j < files.len()
        invariant
            j <= files.len(),
            p3 == *old(pos),
            file_regions_spec(data@, p3, files@, 0) == prepend(
                regions@,
                file_regions_spec(data@, *pos as int, files@, j as int),
            ),
        decreases files.len() - j,
    {
        let file = files[j];
        let nregions = match uleb(data, pos) {
            Some(v) => v as usize,
            None => {
                return None;
            },
        };
        let ghost q0 = *pos as int;
        let ghost before = regions@;
        let mut line = 0u32;
        let mut k: usize = 0;
        proof {
            lemma_prepend_empty(regions_spec(data@, q0, file, nregions as nat, 0));
        }
        while k < nregions
            invariant
                k <= nregions,
                j < files.len(),
                file == files@[j as int],
                p3 == *old(pos),
                file_regions_spec(data@, p3, files@, 0) == prepend(
                    before,
                    then_files(data@, regions_spec(data@, q0, file, nregions as nat, 0), files@, j + 1),
                ),
                regions@.len() >= before.len(),
                regions_spec(data@, q0, file, nregions as nat, 0) == prepend(
                    regions@.subrange(before.len() as int, regions@.len() as int),
                    regions_spec(data@, *pos as int, file, (nregions - k) as nat, line),
                ),
                regions@.subrange(0, before.len() as int) == before,
            decreases nregions - k,
        {
            let ghost rp = *pos as int;
            let ghost rl = line;
            let ghost mid = regions@;
            if !region_record(data, pos, file, &mut line, &mut regions) {
                return None;
            }
            proof {
                let (rs, _, _) = region_spec(data@, rp, file, rl).unwrap();
                lemma_prepend(
                    mid.subrange(before.len() as int, mid.len() as int),
                    rs,
                    regions_spec(data@, *pos as int, file, (nregions - k - 1) as nat, line),
                );
                assert(regions@.subrange(before.len() as int, regions@.len() as int) =~= mid.subrange(
                    before.len() as int,
                    mid.len() as int,
                ) + rs);
                assert(regions@.subrange(0, before.len() as int) =~= before);
            }
            k += 1;
        }
        proof {
            let added = regions@.subrange(before.len() as int, regions@.len() as int);
            lemma_prepend(before, added, file_regions_spec(data@, *pos as int, files@, j + 1));
            assert(before + added =~= regions@);
            assert(added + Seq::<Region>::empty() =~= added);
        }
        j += 1;
    }
    proof {
        assert(regions@ + Seq::<Region>::empty() =~= regions@);
    }
    Some(regions)
}

/// A function record's file ids (as global file indices, through `unit_files`), expressions and
/// regions.
pub fn parse_function(data: &[u8], unit_files: &[u32]) -> (r: Option<
    (Vec<u32>, Vec<(Term, Term)>, Vec<Region>),
>)
    ensures
        match r {
            Some((files, exprs, regions)) => function_spec(data@, unit_files@) == Some(
                (files@, exprs@, regions@),
            ),
            None => function_spec(data@, unit_files@) is None,
        },
{
    reveal(function_spec);
    let mut pos: usize = 0;
    let nfiles = match uleb(data, &mut pos) {
        Some(v) => v as usize,
        None => {
            return None;
        },
    };
    let ghost p0 = pos as int;
    let mut files: Vec<u32> = Vec::new();
    let mut k: usize = 0;
    proof {
        lemma_prepend_empty(file_ids_spec(data@, p0, nfiles as nat, unit_files@));
    }
    while k < nfiles
        invariant
            k <= nfiles,
            function_spec(data@, unit_files@) == after_files(
                data@,
                file_ids_spec(data@, p0, nfiles as nat, unit_files@),
            ),
            file_ids_spec(data@, p0, nfiles as nat, unit_files@) == prepend(
                files@,
                file_ids_spec(data@, pos as int, (nfiles - k) as nat, unit_files@),
            ),
        decreases nfiles - k,
    {
        let ghost p = pos as int;
        let i = match uleb(data, &mut pos) {
            Some(v) => v as usize,
            None => {
                return None;
            },
        };
        if i >= unit_files.len() {
            return None;
        }
        proof {
            lemma_prepend(
                files@,
                seq![unit_files@[i as int]],
                file_ids_spec(data@, pos as int, (nfiles - k - 1) as nat, unit_files@),
            );
            assert(files@ + seq![unit_files@[i as int]] =~= files@.push(unit_files[i as int]));
        }
        files.push(unit_files[i]);
        k += 1;
    }
    proof {
        lemma_prepend_empty(file_ids_spec(data@, pos as int, 0, unit_files@));
        assert(files@ + Seq::<u32>::empty() =~= files@);
    }
    let nexpr = match uleb(data, &mut pos) {
        Some(v) => v as usize,
        None => {
            return None;
        },
    };
    let ghost p2 = pos as int;
    let mut exprs: Vec<(Term, Term)> = Vec::new();
    let mut k: usize = 0;
    proof {
        lemma_prepend_empty(exprs_spec(data@, p2, nexpr as nat));
    }
    while k < nexpr
        invariant
            k <= nexpr,
            function_spec(data@, unit_files@) == after_exprs(
                data@,
                files@,
                exprs_spec(data@, p2, nexpr as nat),
            ),
            exprs_spec(data@, p2, nexpr as nat) == prepend(
                exprs@,
                exprs_spec(data@, pos as int, (nexpr - k) as nat),
            ),
        decreases nexpr - k,
    {
        let lv = match uleb(data, &mut pos) {
            Some(v) => v,
            None => {
                return None;
            },
        };
        let rv = match uleb(data, &mut pos) {
            Some(v) => v,
            None => {
                return None;
            },
        };
        let l = decode_term(lv);
        let r = decode_term(rv);
        proof {
            lemma_prepend(
                exprs@,
                seq![(l, r)],
                exprs_spec(data@, pos as int, (nexpr - k - 1) as nat),
            );
            assert(exprs@ + seq![(l, r)] =~= exprs@.push((l, r)));
        }
        exprs.push((l, r));
        k += 1;
    }
    proof {
        assert(exprs@ + Seq::<(Term, Term)>::empty() =~= exprs@);
    }
    let ghost p3 = pos as int;
    let regions = match file_regions(data, &mut pos, &files) {
        Some(r) => r,
        None => {
            return None;
        },
    };
    Some((files, exprs, regions))
}

} // verus!

verus! {

// ---------------------------------------------------------------------------------------------
// The filenames of one compilation unit.
/// What zlib decompression (`miniz_oxide::inflate::decompress_to_vec_zlib`) gives for `raw`:
/// the decompressed bytes, or nothing when `raw` is not a complete zlib stream.
pub uninterp spec fn zlib_decompressed(raw: Seq<u8>) -> Option<Seq<u8>>;

/// The characters `String::from_utf8_lossy` makes of `bytes`.
pub uninterp spec fn utf8_lossy(bytes: Seq<u8>) -> Seq<char>;

#[verifier::external_type_specification]
#[verifier::external_body]
pub struct ExDecompressError(miniz_oxide::inflate::DecompressError);

/// `miniz_oxide::inflate::decompress_to_vec_zlib`: its result is a function of `raw` alone,
/// `Ok` exactly when `zlib_decompressed` gives bytes, and then those bytes.
#[verifier::external_body]
fn decompress_zlib(raw: &[u8]) -> (r: Result<Vec<u8>, miniz_oxide::inflate::DecompressError>)
    ensures
        r is Ok <==> zlib_decompressed(raw@) is Some,
        r matches Ok(v) ==> zlib_decompressed(raw@) == Some(v@),
{
    miniz_oxide::inflate::decompress_to_vec_zlib(raw)
}

/// `String::from_utf8_lossy`, made an owned `String`: its characters are `utf8_lossy(bytes)`;
/// ASCII bytes, being valid UTF-8, come back unchanged, each as its character (std documents
/// that valid UTF-8 is returned as it is). What other bytes decode to is named, not stated.
#[verifier::external_body]
fn string_from_utf8_lossy(bytes: &[u8]) -> (s: String)
    ensures
        s@ == utf8_lossy(bytes@),
        (forall|i: int| 0 <= i < bytes@.len() ==> #[trigger] bytes@[i] < 128) ==> s@ == bytes@.map_values(
            |b: u8| b as char,
        ),
{
    String::from_utf8_lossy(bytes).into_owned()
}

/// `k` names from `p` on, each its length in LEB128 and then its bytes.
pub open spec fn names_spec(data: Seq<u8>, p: int, k: nat) -> Option<(Seq<Seq<char>>, int)>
    decreases k,
{
    if k == 0 {
        Some((Seq::empty(), p))
    } else {
        match uleb_spec(data, p) {
            Some((len, q)) => if q + ((len as usize) as int) <= data.len() {
                prepend(
                    seq![utf8_lossy(data.subrange(q, q + ((len as usize) as int)))],
                    names_spec(data, q + ((len as usize) as int), (k - 1) as nat),
                )
            } else {
                None
            },
            None => None,
        }
    }
}

/// `name` read relative to the directory `dir`: `dir/name`, unless `name` starts with `/` or
/// there is no directory.
pub open spec fn under_dir(dir: Seq<char>, name: Seq<char>) -> Seq<char> {
    if !(name.len() > 0 && name[0] == '/') && dir.len() > 0 {
        dir + seq!['/'] + name
    } else {
        name
    }
}

/// From format version 6 on (stored as 5), the first name is the compilation directory and the
/// others are relative to it.
pub open spec fn resolved(names: Seq<Seq<char>>, version: u32) -> Seq<Seq<char>> {
    if version >= 5 && names.len() > 0 {
        Seq::new(
            names.len(),
            |i: int|
                if i == 0 {
                    names[0]
                } else {
                    under_dir(names[0], names[i])
                },
        )
    } else {
        names
    }
}

/// The filenames of one compilation unit: the number of names, the uncompressed and the
/// compressed size, then the names, zlib-compressed when the compressed size is not 0.
pub open spec fn filenames_spec(blob: Seq<u8>, version: u32) -> Option<Seq<Seq<char>>> {
    match uleb_spec(blob, 0) {
        Some((n, p1)) => match uleb_spec(blob, p1) {
            Some((uncompressed, p2)) => match uleb_spec(blob, p2) {
                Some((compressed, p3)) => {
                    let c = (compressed as usize) as int;
                    let data: Option<Seq<u8>> = if c > 0 {
                        if p3 + c <= blob.len() {
                            match zlib_decompressed(blob.subrange(p3, p3 + c)) {
                                Some(out) => if out.len() == (uncompressed as usize) as int {
                                    Some(out)
                                } else {
                                    None
                                },
                                None => None,
                            }
                        } else {
                            None
                        }
                    } else {
                        Some(blob.subrange(p3, blob.len() as int))
                    };
                    match data {
                        Some(d) => match names_spec(d, 0, (n as usize) as nat) {
                            Some((names, _)) => Some(resolved(names, version)),
                            None => None,
                        },
                        None => None,
                    }
                },
                None => None,
            },
            None => None,
        },
        None => None,
    }
}

/// The names read from `data` (`n` of them).
fn read_names(data: &[u8], n: usize) -> (r: Option<Vec<String>>)
    ensures
        match r {
            Some(names) => names_spec(data@, 0, n as nat) matches Some((s, _)) && s
                == names@.map_values(|x: String| x@),
            None => names_spec(data@, 0, n as nat) is None,
        },
{
    let mut p: usize = 0;
    let mut names: Vec<String> = Vec::new();
    let mut k: usize = 0;
    proof {
        lemma_prepend_empty(names_spec(data@, 0, n as nat));
        assert(names@.map_values(|x: String| x@) =~= Seq::<Seq<char>>::empty());
    }
    while k < n
        invariant
            k <= n,
            p <= data.len(),
            names_spec(data@, 0, n as nat) == prepend(
                names@.map_values(|x: String| x@),
                names_spec(data@, p as int, (n - k) as nat),
            ),
        decreases n - k,
    {
        let ghost p_len = p as int;
        let len = match uleb(data, &mut p) {
            Some(v) => v as usize,
            None => {
                return None;
            },
        };
        proof {
            lemma_uleb_from_bounds(data@, p_len, 0);
        }
        if len > data.len() - p {
            return None;
        }
        let ghost before = names@.map_values(|x: String| x@);
        let piece = &data[p..p + len];
        let name = string_from_utf8_lossy(piece);
        proof {
            assert(data@.subrange(p as int, p + len) == piece@);
            lemma_prepend(
                before,
                seq![name@],
                names_spec(data@, p + len, (n - k - 1) as nat),
            );
        }
        names.push(name);
        proof {
            assert(names@.map_values(|x: String| x@) =~= before + seq![name@]);
        }
        p += len;
        k += 1;
    }
    proof {
        assert(names@.map_values(|x: String| x@) + Seq::<Seq<char>>::empty() =~= names@.map_values(
            |x: String| x@,
        ));
    }
    Some(names)
}

/// `name` read relative to `dir` (see `under_dir`).
fn join_dir(dir: &String, name: String) -> (r: String)
    ensures
        r@ == under_dir(dir@, name@),
{
    let d = crate::text::chars_of(dir.as_str());
    let c = crate::text::chars_of(name.as_str());
    if !(c.len() > 0 && c[0] == '/') && d.len() > 0 {
        let mut s = dir.clone();
        crate::text::push_char(&mut s, '/');
        s.append(name.as_str());
        s
    } else {
        name
    }
}

/// The filenames of one compilation unit. From format version 6 on, the first name is the
/// compilation directory and relative names are relative to it.
pub fn filenames(blob: &[u8], version: u32) -> (r: Option<Vec<String>>)
    ensures
        match r {
            Some(names) => filenames_spec(blob@, version) == Some(
                names@.map_values(|x: String| x@),
            ),
            None => filenames_spec(blob@, version) is None,
        },
{
    let mut pos: usize = 0;
    let n = match uleb(blob, &mut pos) {
        Some(v) => v as usize,
        None => {
            return None;
        },
    };
    let uncompressed = match uleb(blob, &mut pos) {
        Some(v) => v as usize,
        None => {
            return None;
        },
    };
    let ghost p2 = pos as int;
    let compressed = match uleb(blob, &mut pos) {
        Some(v) => v as usize,
        None => {
            return None;
        },
    };
    proof {
        lemma_uleb_from_bounds(blob@, p2, 0);
    }
    let ghost p3 = pos as int;
    let data: Vec<u8> = if compressed > 0 {
        if compressed > blob.len() - pos {
            return None;
        }
        let raw = &blob[pos..pos + compressed];
        assert(raw@ == blob@.subrange(p3, p3 + compressed));
        let out = match decompress_zlib(raw) {
            Ok(v) => v,
            Err(_) => {
                return None;
            },
        };
        if out.len() != uncompressed {
            return None;
        }
        out
    } else {
        let rest = vstd::slice::slice_subrange(blob, pos, blob.len());
        vstd::slice::slice_to_vec(rest)
    };
    let names = match read_names(&data, n) {
        Some(v) => v,
        None => {
            return None;
        },
    };
    let ghost ns = names@.map_values(|x: String| x@);
    if version >= 5 && names.len() > 0 {
        let dir = names[0].clone();
        let mut out: Vec<String> = Vec::new();
        let mut i: usize = 0;
        let mut names = names;
        while i < names.len()
            invariant
                i <= names.len(),
                names@.map_values(|x: String| x@) == ns,
                dir@ == ns[0],
                ns.len() > 0,
                out@.len() == i,
                forall|j: int| 0 <= j < i ==> #[trigger] out@[j]@ == resolved(ns, version)[j],
                version >= 5,
            decreases names.len() - i,
        {
            let name = names[i].clone();
            assert(name@ == ns[i as int]);
            if i == 0 {
                out.push(name);
            } else {
                out.push(join_dir(&dir, name));
            }
            i += 1;
        }
        assert(out@.map_values(|x: String| x@) =~= resolved(ns, version));
        Some(out)
    } else {
        assert(resolved(ns, version) == ns);
        Some(names)
    }
}

} // verus!

verus! {

broadcast use vstd::std_specs::hash::group_hash_axioms;

// ---------------------------------------------------------------------------------------------
// The two sections.
/// The MD5 digest of `data` (`md5::compute`).
pub uninterp spec fn md5_digest(data: Seq<u8>) -> Seq<u8>;

/// `md5::compute`: the digest's bytes are `md5_digest(data)`.
#[verifier::external_body]
fn md5_of(data: &[u8]) -> (d: [u8; 16])
    ensures
        d@ == md5_digest(data@),
{
    md5::compute(data).0
}

/// The little-endian u64 made of the first eight bytes of `b`.
pub open spec fn low_u64(b: Seq<u8>) -> u64 {
    (b[0] + 0x100 * b[1] + 0x1_0000 * b[2] + 0x100_0000 * b[3] + 0x1_0000_0000 * b[4]
        + 0x100_0000_0000 * b[5] + 0x1_0000_0000_0000 * b[6] + 0x100_0000_0000_0000 * b[7]) as u64
}

/// `x` rounded up to a multiple of 8.
pub open spec fn round8(x: int) -> int {
    x + 7 - (x + 7) % 8
}

pub proof fn lemma_round8_ge(x: int)
    ensures
        x <= round8(x) <= x + 7,
{
    assert(0 <= (x + 7) % 8 < 8);
}

/// The compilation units of `covmap` from `pos` on: the file names added to `files` and each
/// unit's global file indices, keyed by the low 64 bits of the MD5 of its filenames blob (a
/// later unit with the same key replaces an earlier one). Global indices are 32-bit, counted
/// with wrapping arithmetic.
pub open spec fn units_spec(
    covmap: Seq<u8>,
    pos: int,
    files: Seq<Seq<char>>,
    units: Map<u64, Seq<u32>>,
) -> Option<(Seq<Seq<char>>, Map<u64, Seq<u32>>)>
    decreases covmap.len() + 8 - pos,
{
    if pos < 0 || pos + 16 > covmap.len() {
        Some((files, units))
    } else {
        let size = ((u32_at_spec(covmap, pos + 4).unwrap()) as usize) as int;
        let version = u32_at_spec(covmap, pos + 12).unwrap();
        if pos + 16 + size > covmap.len() {
            None
        } else {
            let blob = covmap.subrange(pos + 16, pos + 16 + size);
            let hash = low_u64(md5_digest(blob));
            match filenames_spec(blob, version) {
                Some(names) => {
                    let base = files.len() as u32;
                    let ids = Seq::new(
                        (names.len() as u32) as nat,
                        |i: int| base.wrapping_add(i as u32),
                    );
                    proof {
                        lemma_round8_ge(pos + 16 + size);
                    }
                    units_spec(
                        covmap,
                        round8(pos + 16 + size),
                        files + names,
                        units.insert(hash, ids),
                    )
                },
                None => None,
            }
        }
    }
}

/// What one function record with the given fields and mapping data contributes: nothing when it
/// has neither name nor data, names an unknown unit, or its data does not parse.
pub open spec fn record_spec(
    data: Seq<u8>,
    name_ref: u64,
    func_hash: u64,
    files_ref: u64,
    units: Map<u64, Seq<u32>>,
) -> Seq<FunctionModel> {
    if name_ref == 0 && data.len() == 0 {
        Seq::empty()
    } else if !units.contains_key(files_ref) {
        Seq::empty()
    } else {
        match function_spec(data, units[files_ref]) {
            Some((files, exprs, regions)) => seq![
                FunctionModel { name_ref, func_hash, files, exprs, regions },
            ],
            None => Seq::empty(),
        }
    }
}

/// The function records of `covfun` from `pos` on, each read with the unit it names; records
/// with neither name nor data, records of an unknown unit and records whose data does not
/// parse are left out.
pub open spec fn functions_spec(covfun: Seq<u8>, pos: int, units: Map<u64, Seq<u32>>) -> Option<
    Seq<FunctionModel>,
>
    decreases covfun.len() + 8 - pos,
{
    if pos < 0 || pos + 28 > covfun.len() {
        Some(Seq::empty())
    } else {
        let name_ref = u64_at_spec(covfun, pos).unwrap();
        let size = ((u32_at_spec(covfun, pos + 8).unwrap()) as usize) as int;
        let func_hash = u64_at_spec(covfun, pos + 12).unwrap();
        let files_ref = u64_at_spec(covfun, pos + 20).unwrap();
        if pos + 28 + size > covfun.len() {
            None
        } else {
            let data = covfun.subrange(pos + 28, pos + 28 + size);
            let here = record_spec(data, name_ref, func_hash, files_ref, units);
            proof {
                lemma_round8_ge(pos + 28 + size);
            }
            match functions_spec(covfun, round8(pos + 28 + size), units) {
                Some(rest) => Some(here + rest),
                None => None,
            }
        }
    }
}

/// What the two coverage sections of a binary hold.
pub open spec fn parse_spec(covmap: Seq<u8>, covfun: Seq<u8>) -> Option<MappingModel> {
    match units_spec(covmap, 0, Seq::empty(), Map::empty()) {
        Some((files, units)) => match functions_spec(covfun, 0, units) {
            Some(functions) => Some(MappingModel { files, functions }),
            None => None,
        },
        None => None,
    }
}

/// `m` holds the units `u`.
pub open spec fn same_units(m: Map<u64, Vec<u32>>, u: Map<u64, Seq<u32>>) -> bool {
    &&& m.dom() == u.dom()
    &&& forall|k: u64| #[trigger] u.contains_key(k) ==> m[k]@ == u[k]
}

proof fn lemma_round8(x: usize)
    requires
        x <= usize::MAX - 7,
    ensures
        ((x + 7) as usize) & !7usize == round8(x as int),
        x <= round8(x as int) <= x + 7,
{
    lemma_round8_ge(x as int);
    let y: usize = (x + 7) as usize;
    assert(y & !7usize == y - y % 8) by (bit_vector);
}

/// The compilation units of `covmap`: all their file names, and each unit's global file
/// indices by the hash of its filenames blob.
fn read_units(covmap: &[u8]) -> (r: Option<(Vec<String>, std::collections::HashMap<u64, Vec<u32>>)>)
    requires
        covmap.len() <= usize::MAX - 32,
    ensures
        match r {
            Some((files, units)) => units_spec(covmap@, 0, Seq::empty(), Map::empty()) matches Some(
                (f, u),
            ) && f == files@.map_values(|x: String| x@) && same_units(units@, u),
            None => units_spec(covmap@, 0, Seq::empty(), Map::empty()) is None,
        },
{
    let mut files: Vec<String> = Vec::new();
    // filenames hash -> global indices of that unit's files
    let mut units: std::collections::HashMap<u64, Vec<u32>> = std::collections::HashMap::new();
    let ghost mut su: Map<u64, Seq<u32>> = Map::empty();
    let mut pos: usize = 0;
    assert(files@.map_values(|x: String| x@) =~= Seq::<Seq<char>>::empty());
    while pos + 16 <= covmap.len()
        invariant
            covmap.len() <= usize::MAX - 32,
            pos <= covmap.len() + 7,
            same_units(units@, su),
            units_spec(covmap@, 0, Seq::empty(), Map::empty()) == units_spec(
                covmap@,
                pos as int,
                files@.map_values(|x: String| x@),
                su,
            ),
        decreases covmap.len() + 8 - pos,
    {
        let size = u32_at(covmap, pos + 4).unwrap() as usize;
        let version = u32_at(covmap, pos + 12).unwrap();
        if size > covmap.len() - (pos + 16) {
            return None;
        }
        let blob = vstd::slice::slice_subrange(covmap, pos + 16, pos + 16 + size);
        let digest = md5_of(blob);
        let hash = u64_at(vstd::array::array_as_slice(&digest), 0).unwrap();
        let mut names = match filenames(blob, version) {
            Some(n) => n,
            None => {
                return None;
            },
        };
        let base = files.len() as u32;
        let count = names.len() as u32;
        let mut ids: Vec<u32> = Vec::new();
        let mut i: u32 = 0;
        while i < count
            invariant
                i <= count,
                ids@ == Seq::new(i as nat, |j: int| base.wrapping_add(j as u32)),
            decreases count - i,
        {
            ids.push(base.wrapping_add(i));
            i += 1;
            assert(ids@ =~= Seq::new(i as nat, |j: int| base.wrapping_add(j as u32)));
        }
        let ghost old_files = files@.map_values(|x: String| x@);
        let ghost added = names@.map_values(|x: String| x@);
        let ghost new_ids = ids@;
        files.append(&mut names);
        assert(files@.map_values(|x: String| x@) =~= old_files + added);
        units.insert(hash, ids);
        proof {
            su = su.insert(hash, new_ids);
            assert(units@.dom() =~= su.dom());
            lemma_round8((pos + 16 + size) as usize);
        }
        pos = (pos + 16 + size + 7) & !7;
    }
    Some((files, units))
}

/// The function one record contributes, if any (see `record_spec`).
fn read_record(
    data: &[u8],
    name_ref: u64,
    func_hash: u64,
    files_ref: u64,
    units: &std::collections::HashMap<u64, Vec<u32>>,
    Ghost(su): Ghost<Map<u64, Seq<u32>>>,
) -> (r: Option<Function>)
    requires
        same_units(units@, su),
    ensures
        record_spec(data@, name_ref, func_hash, files_ref, su) == (match r {
            Some(f) => seq![f@],
            None => Seq::empty(),
        }),
{
    if name_ref == 0 && data.len() == 0 {
        return None;
    }
    let unit = match units.get(&files_ref) {
        Some(u) => u,
        None => {
            return None;
        },
    };
    match parse_function(data, unit.as_slice()) {
        Some((files, exprs, regions)) => Some(Function { name_ref, func_hash, files, exprs, regions }),
        None => None,
    }
}

/// The function records of `covfun`, read with the units `units`.
fn read_functions(
    covfun: &[u8],
    units: &std::collections::HashMap<u64, Vec<u32>>,
    Ghost(su): Ghost<Map<u64, Seq<u32>>>,
) -> (r: Option<Vec<Function>>)
    requires
        covfun.len() <= usize::MAX - 32,
        same_units(units@, su),
    ensures
        match r {
            Some(fs) => functions_spec(covfun@, 0, su) == Some(
                fs@.map_values(|f: Function| f@),
            ),
            None => functions_spec(covfun@, 0, su) is None,
        },
{
    let mut functions: Vec<Function> = Vec::new();
    let mut pos: usize = 0;
    assert(functions@.map_values(|f: Function| f@) + Seq::<FunctionModel>::empty() =~= Seq::<
        FunctionModel,
    >::empty());
    while pos <= covfun.len() && covfun.len() - pos >= 28
        invariant
            covfun.len() <= usize::MAX - 32,
            pos <= covfun.len() + 7,
            same_units(units@, su),
            functions_spec(covfun@, 0, su) == (match functions_spec(covfun@, pos as int, su) {
                Some(rest) => Some(functions@.map_values(|f: Function| f@) + rest),
                None => None,
            }),
        decreases covfun.len() + 8 - pos,
    {
        let name_ref = u64_at(covfun, pos).unwrap();
        let size = u32_at(covfun, pos + 8).unwrap() as usize;
        let func_hash = u64_at(covfun, pos + 12).unwrap();
        let files_ref = u64_at(covfun, pos + 20).unwrap();
        if size > covfun.len() - (pos + 28) {
            return None;
        }
        let data = vstd::slice::slice_subrange(covfun, pos + 28, pos + 28 + size);
        proof {
            lemma_round8((pos + 28 + size) as usize);
        }
        pos = (pos + 28 + size + 7) & !7;
        let ghost before = functions@.map_values(|f: Function| f@);
        match read_record(data, name_ref, func_hash, files_ref, units, Ghost(su)) {
            Some(f) => {
                let ghost fm = f@;
                functions.push(f);
                assert(functions@.map_values(|f: Function| f@) =~= before + seq![fm]);
            },
            None => {
                assert(before + Seq::<FunctionModel>::empty() =~= before);
            },
        }
    }
    Some(functions)
}

/// Parse the two coverage sections of a binary.
pub fn parse(covmap: &[u8], covfun: &[u8]) -> (r: Option<Mapping>)
    requires
        covmap.len() <= usize::MAX - 32,
        covfun.len() <= usize::MAX - 32,
    ensures
        match r {
            Some(m) => parse_spec(covmap@, covfun@) == Some(m@),
            None => parse_spec(covmap@, covfun@) is None,
        },
{
    let (files, units) = match read_units(covmap) {
        Some(x) => x,
        None => {
            return None;
        },
    };
    let ghost su = units_spec(covmap@, 0, Seq::empty(), Map::empty()).unwrap().1;
    let functions = match read_functions(covfun, &units, Ghost(su)) {
        Some(f) => f,
        None => {
            return None;
        },
    };
    Some(Mapping { files, functions })
}

} // verus!

verus! {

// ---------------------------------------------------------------------------------------------
// What a parsed mapping promises.
/// Every index in `ids` is below `n`.
pub open spec fn ids_below(ids: Seq<u32>, n: int) -> bool {
    forall|i: int| 0 <= i < ids.len() ==> (#[trigger] ids[i]) < n
}

/// Every region of `regions` is in one of the files `files`.
pub open spec fn regions_in(regions: Seq<Region>, files: Seq<u32>) -> bool {
    forall|i: int|
        0 <= i < regions.len() ==> exists|k: int|
            0 <= k < files.len() && (#[trigger] regions[i]).file == files[k]
}

/// Every file index of a function names one of the mapping's files, and every region of a
/// function is in one of the function's files.
pub open spec fn mapping_wf(m: MappingModel) -> bool {
    forall|i: int|
        0 <= i < m.functions.len() ==> ids_below(#[trigger] m.functions[i].files, m.files.len() as int)
            && regions_in(m.functions[i].regions, m.functions[i].files)
}

/// Every global index the units hold is below `n`.
pub open spec fn units_below(units: Map<u64, Seq<u32>>, n: int) -> bool {
    forall|key: u64, i: int|
        units.contains_key(key) && 0 <= i < units[key].len() ==> (#[trigger] units[key][i]) < n
}

proof fn lemma_units_below(
    covmap: Seq<u8>,
    pos: int,
    files: Seq<Seq<char>>,
    units: Map<u64, Seq<u32>>,
)
    requires
        units_below(units, files.len() as int),
        units_spec(covmap, pos, files, units) is Some,
    ensures
        ({
            let (f, u) = units_spec(covmap, pos, files, units).unwrap();
            units_below(u, f.len() as int) && f.len() >= files.len()
        }),
    decreases covmap.len() + 8 - pos,
{
    if pos < 0 || pos + 16 > covmap.len() {
    } else {
        let size = ((u32_at_spec(covmap, pos + 4).unwrap()) as usize) as int;
        let version = u32_at_spec(covmap, pos + 12).unwrap();
        let blob = covmap.subrange(pos + 16, pos + 16 + size);
        let hash = low_u64(md5_digest(blob));
        let names = filenames_spec(blob, version).unwrap();
        let base = files.len() as u32;
        let ids = Seq::new((names.len() as u32) as nat, |i: int| base.wrapping_add(i as u32));
        let n2: int = (files.len() + names.len()) as int;
        assert forall|i: int| 0 <= i < ids.len() implies (#[trigger] ids[i]) < n2 by {
            if n2 <= u32::MAX {
                assert(base == files.len());
                assert(ids[i] == base + i);
            }
        }
        let u2 = units.insert(hash, ids);
        assert(units_below(u2, n2)) by {
            assert forall|key: u64, i: int| u2.contains_key(key) && 0 <= i < u2[key].len() implies (
            #[trigger] u2[key][i]) < n2 by {
                if key != hash {
                    assert(units[key][i] < files.len());
                }
            }
        }
        lemma_round8_ge(pos + 16 + size);
        lemma_units_below(covmap, round8(pos + 16 + size), files + names, u2);
    }
}

proof fn lemma_file_ids_from_unit(b: Seq<u8>, pos: int, k: nat, unit: Seq<u32>)
    requires
        file_ids_spec(b, pos, k, unit) is Some,
    ensures
        forall|i: int|
            0 <= i < file_ids_spec(b, pos, k, unit).unwrap().0.len() ==> exists|j: int|
                0 <= j < unit.len() && (#[trigger] file_ids_spec(b, pos, k, unit).unwrap().0[i])
                    == unit[j],
    decreases k,
{
    if k > 0 {
        let (id, p) = uleb_spec(b, pos).unwrap();
        let first = unit[(id as usize) as int];
        lemma_file_ids_from_unit(b, p, (k - 1) as nat, unit);
        let rest = file_ids_spec(b, p, (k - 1) as nat, unit).unwrap().0;
        let all = file_ids_spec(b, pos, k, unit).unwrap().0;
        assert(all == seq![first] + rest);
        assert forall|i: int| 0 <= i < all.len() implies exists|j: int|
            0 <= j < unit.len() && (#[trigger] all[i]) == unit[j] by {
            if i == 0 {
                assert(all[0] == unit[(id as usize) as int]);
            } else {
                assert(all[i] == rest[i - 1]);
            }
        }
    }
}

proof fn lemma_regions_of_file(b: Seq<u8>, pos: int, file: u32, k: nat, line: u32)
    requires
        regions_spec(b, pos, file, k, line) is Some,
    ensures
        forall|i: int|
            0 <= i < regions_spec(b, pos, file, k, line).unwrap().0.len() ==> (
            #[trigger] regions_spec(b, pos, file, k, line).unwrap().0[i]).file == file,
    decreases k,
{
    if k > 0 {
        let (rs, p, l) = region_spec(b, pos, file, line).unwrap();
        lemma_regions_of_file(b, p, file, (k - 1) as nat, l);
        let rest = regions_spec(b, p, file, (k - 1) as nat, l).unwrap().0;
        let all = regions_spec(b, pos, file, k, line).unwrap().0;
        assert(all == rs + rest);
        assert forall|i: int| 0 <= i < rs.len() implies (#[trigger] rs[i]).file == file by {}
        assert forall|i: int| 0 <= i < all.len() implies (#[trigger] all[i]).file == file by {
            if i < rs.len() {
                assert(all[i] == rs[i]);
            } else {
                assert(all[i] == rest[i - rs.len()]);
            }
        }
    }
}

proof fn lemma_file_regions_in_files(b: Seq<u8>, pos: int, files: Seq<u32>, j: int)
    requires
        0 <= j,
        file_regions_spec(b, pos, files, j) is Some,
    ensures
        forall|i: int|
            0 <= i < file_regions_spec(b, pos, files, j).unwrap().0.len() ==> exists|k: int|
                j <= k < files.len() && (#[trigger] file_regions_spec(
                    b,
                    pos,
                    files,
                    j,
                ).unwrap().0[i]).file == files[k],
    decreases files.len() - j,
{
    if j < files.len() {
        let (n, p) = uleb_spec(b, pos).unwrap();
        let (rs, q) = regions_spec(b, p, files[j], (n as usize) as nat, 0).unwrap();
        lemma_regions_of_file(b, p, files[j], (n as usize) as nat, 0);
        lemma_file_regions_in_files(b, q, files, j + 1);
        let rest = file_regions_spec(b, q, files, j + 1).unwrap().0;
        let all = file_regions_spec(b, pos, files, j).unwrap().0;
        assert(all == rs + rest);
        assert forall|i: int| 0 <= i < all.len() implies exists|k: int|
            j <= k < files.len() && (#[trigger] all[i]).file == files[k] by {
            if i < rs.len() {
                assert(all[i] == rs[i]);
                assert(rs[i].file == files[j]);
            } else {
                assert(all[i] == rest[i - rs.len()]);
                let k = choose|k: int| j + 1 <= k < files.len() && rest[i - rs.len()].file == files[k];
            }
        }
    }
}

proof fn lemma_function_wf(b: Seq<u8>, unit: Seq<u32>, n: int)
    requires
        function_spec(b, unit) is Some,
        ids_below(unit, n),
    ensures
        ids_below(function_spec(b, unit).unwrap().0, n),
        regions_in(function_spec(b, unit).unwrap().2, function_spec(b, unit).unwrap().0),
{
    reveal(function_spec);
    let (nfiles, p0) = uleb_spec(b, 0).unwrap();
    let (files, p1) = file_ids_spec(b, p0, (nfiles as usize) as nat, unit).unwrap();
    lemma_file_ids_from_unit(b, p0, (nfiles as usize) as nat, unit);
    let (nexpr, p2) = uleb_spec(b, p1).unwrap();
    let (exprs, p3) = exprs_spec(b, p2, (nexpr as usize) as nat).unwrap();
    lemma_file_regions_in_files(b, p3, files, 0);
    let (regions, _) = file_regions_spec(b, p3, files, 0).unwrap();
    assert(function_spec(b, unit) == Some((files, exprs, regions)));
    assert forall|i: int| 0 <= i < files.len() implies (#[trigger] files[i]) < n by {
        let j = choose|j: int| 0 <= j < unit.len() && files[i] == unit[j];
    }
    assert forall|i: int| 0 <= i < regions.len() implies exists|k: int|
        0 <= k < files.len() && (#[trigger] regions[i]).file == files[k] by {
        let k = choose|k: int| 0 <= k < files.len() && regions[i].file == #[trigger] files[k];
    }
}

proof fn lemma_functions_wf(covfun: Seq<u8>, pos: int, units: Map<u64, Seq<u32>>, n: int)
    requires
        units_below(units, n),
        functions_spec(covfun, pos, units) is Some,
    ensures
        forall|i: int|
            0 <= i < functions_spec(covfun, pos, units).unwrap().len() ==> ids_below(
                #[trigger] functions_spec(covfun, pos, units).unwrap()[i].files,
                n,
            ) && regions_in(
                functions_spec(covfun, pos, units).unwrap()[i].regions,
                functions_spec(covfun, pos, units).unwrap()[i].files,
            ),
    decreases covfun.len() + 8 - pos,
{
    if pos < 0 || pos + 28 > covfun.len() {
    } else {
        let name_ref = u64_at_spec(covfun, pos).unwrap();
        let size = ((u32_at_spec(covfun, pos + 8).unwrap()) as usize) as int;
        let func_hash = u64_at_spec(covfun, pos + 12).unwrap();
        let files_ref = u64_at_spec(covfun, pos + 20).unwrap();
        let data = covfun.subrange(pos + 28, pos + 28 + size);
        let here = record_spec(data, name_ref, func_hash, files_ref, units);
        lemma_round8_ge(pos + 28 + size);
        lemma_functions_wf(covfun, round8(pos + 28 + size), units, n);
        let rest = functions_spec(covfun, round8(pos + 28 + size), units).unwrap();
        let fs = functions_spec(covfun, pos, units).unwrap();
        assert(fs == here + rest);
        if here.len() > 0 {
            let unit = units[files_ref];
            assert(ids_below(unit, n));
            lemma_function_wf(data, unit, n);
            let (files, exprs, regions) = function_spec(data, unit).unwrap();
            assert(here == seq![FunctionModel { name_ref, func_hash, files, exprs, regions }]);
            assert(fs[0] == here[0]);
        }
        assert forall|i: int| 0 <= i < fs.len() implies ids_below(#[trigger] fs[i].files, n)
            && regions_in(fs[i].regions, fs[i].files) by {
            if i >= here.len() {
                assert(fs[i] == rest[i - here.len()]);
            }
        }
    }
}

/// A mapping read from the two sections names only its own files: every file index of a
/// function is one of the mapping's files, and every region of a function lies in one of the
/// function's files.
pub proof fn law_parse_wf(covmap: Seq<u8>, covfun: Seq<u8>)
    requires
        parse_spec(covmap, covfun) is Some,
    ensures
        mapping_wf(parse_spec(covmap, covfun).unwrap()),
{
    let (files, units) = units_spec(covmap, 0, Seq::empty(), Map::empty()).unwrap();
    lemma_units_below(covmap, 0, Seq::empty(), Map::empty());
    lemma_functions_wf(covfun, 0, units, files.len() as int);
    let functions = functions_spec(covfun, 0, units).unwrap();
    let m = parse_spec(covmap, covfun).unwrap();
    assert(m == MappingModel { files, functions });
}

// ---------------------------------------------------------------------------------------------
// What reading the sections does, record by record.
/// An expansion region (a head whose low two bits are 0 and whose bit 2 is set: the region of a
/// macro call, whose code is in the expanded file's own regions) gives no region and does not
/// spoil the function's regions: the records after it are read as if it were not there, its
/// line delta still counting.
pub proof fn law_expansion_regions_are_skipped(
    b: Seq<u8>,
    pos: int,
    file: u32,
    k: nat,
    line: u32,
    head: u64,
    p0: int,
    delta: u64,
    p1: int,
    col_start: u64,
    p2: int,
    nlines: u64,
    p3: int,
    col_end: u64,
    p4: int,
)
    requires
        uleb_spec(b, pos) == Some((head, p0)),
        head % 4 == 0,
        (head / 4) % 2 == 1,
        uleb_spec(b, p0) == Some((delta, p1)),
        uleb_spec(b, p1) == Some((col_start, p2)),
        uleb_spec(b, p2) == Some((nlines, p3)),
        uleb_spec(b, p3) == Some((col_end, p4)),
    ensures
        regions_spec(b, pos, file, k + 1, line) == regions_spec(
            b,
            p4,
            file,
            k,
            line.wrapping_add(delta as u32),
        ),
{
    let r = regions_spec(b, p4, file, k, line.wrapping_add(delta as u32));
    match r {
        Some((rs, q)) => {
            assert(Seq::<Region>::empty() + rs =~= rs);
        },
        None => {},
    }
}

/// A code region (a head whose low two bits are not both 0) that is not a gap gives exactly one
/// region, counted by the term the head encodes, at the line after `line` by its delta; the
/// records after it follow.
pub proof fn law_code_regions_are_kept(
    b: Seq<u8>,
    pos: int,
    file: u32,
    k: nat,
    line: u32,
    head: u64,
    p0: int,
    delta: u64,
    p1: int,
    col_start: u64,
    p2: int,
    nlines: u64,
    p3: int,
    col_end: u64,
    p4: int,
)
    requires
        uleb_spec(b, pos) == Some((head, p0)),
        head % 4 != 0,
        uleb_spec(b, p0) == Some((delta, p1)),
        uleb_spec(b, p1) == Some((col_start, p2)),
        uleb_spec(b, p2) == Some((nlines, p3)),
        uleb_spec(b, p3) == Some((col_end, p4)),
        (col_end as u32) < 0x8000_0000,
    ensures
        ({
            let l = line.wrapping_add(delta as u32);
            let region = Region {
                term: term_spec(head),
                file,
                line_start: l,
                col_start: col_start as u32,
                line_end: l.wrapping_add(nlines as u32),
                col_end: col_end as u32,
            };
            regions_spec(b, pos, file, k + 1, line) == prepend(
                seq![region],
                regions_spec(b, p4, file, k, l),
            )
        }),
{
    let l = line.wrapping_add(delta as u32);
    assert((col_end as u32) % 0x8000_0000 == col_end as u32);
    let c = seq![region_at(term_spec(head), file, l, col_start as u32, nlines as u32, col_end as u32)];
    assert(c + Seq::<Region>::empty() =~= c);
}

/// Resolving names: a unit's names read with any stored format version are the names as written
/// (version 0) with, from stored version 5 on (format version 6, what LLVM writes for rustc
/// 1.86-1.98), every relative name but the first put under the first, the compilation
/// directory, when that is not empty: `dir + "/" + name`.
pub proof fn law_filenames_resolve_against_the_directory(blob: Seq<u8>, version: u32)
    ensures
        filenames_spec(blob, version) is Some <==> filenames_spec(blob, 0) is Some,
        filenames_spec(blob, 0) matches Some(raw) ==> {
            let out = filenames_spec(blob, version)->Some_0;
            &&& out.len() == raw.len()
            &&& version < 5 ==> out == raw
            &&& version >= 5 ==> forall|i: int|
                0 <= i < raw.len() ==> #[trigger] out[i] == if i > 0 && raw[0].len() > 0 && !(
                raw[i].len() > 0 && raw[i][0] == '/') {
                raw[0] + "/"@ + raw[i]
            } else {
                raw[i]
            }
        },
{
    reveal_strlit("/");
    if filenames_spec(blob, 0) is Some {
        let raw = filenames_spec(blob, 0)->Some_0;
        let out = filenames_spec(blob, version)->Some_0;
        if version >= 5 {
            assert forall|i: int| 0 <= i < raw.len() implies #[trigger] out[i] == if i > 0
                && raw[0].len() > 0 && !(raw[i].len() > 0 && raw[i][0] == '/') {
                raw[0] + "/"@ + raw[i]
            } else {
                raw[i]
            } by {
                assert("/"@ == seq!['/']);
            }
        }
    }
}

/// Reading one unit record of the `__llvm_covmap` section: its names follow the files read so
/// far and get the ids that follow theirs (a function of this unit names its files by those
/// ids), the unit is found by the low 64 bits of its blob's MD5, and the next record starts at
/// the first multiple of 8 after this one ends (each record is padded to 8 bytes).
pub proof fn law_units_follow_each_other(
    covmap: Seq<u8>,
    pos: int,
    files: Seq<Seq<char>>,
    units: Map<u64, Seq<u32>>,
    next: int,
)
    requires
        0 <= pos,
        pos + 16 <= covmap.len(),
        pos + 16 + (u32_at_spec(covmap, pos + 4).unwrap() as usize) <= covmap.len(),
        filenames_spec(
            covmap.subrange(pos + 16, pos + 16 + (u32_at_spec(covmap, pos + 4).unwrap() as usize)),
            u32_at_spec(covmap, pos + 12).unwrap(),
        ) is Some,
        files.len() + filenames_spec(
            covmap.subrange(pos + 16, pos + 16 + (u32_at_spec(covmap, pos + 4).unwrap() as usize)),
            u32_at_spec(covmap, pos + 12).unwrap(),
        )->Some_0.len() <= u32::MAX,
        next % 8 == 0,
        pos + 16 + (u32_at_spec(covmap, pos + 4).unwrap() as usize) <= next,
        next < pos + 16 + (u32_at_spec(covmap, pos + 4).unwrap() as usize) + 8,
    ensures
        ({
            let size = (u32_at_spec(covmap, pos + 4).unwrap() as usize) as int;
            let blob = covmap.subrange(pos + 16, pos + 16 + size);
            let names = filenames_spec(blob, u32_at_spec(covmap, pos + 12).unwrap())->Some_0;
            let ids = Seq::new(names.len(), |i: int| (files.len() + i) as u32);
            &&& units_spec(covmap, pos, files, units) == units_spec(
                covmap,
                next,
                files + names,
                units.insert(low_u64(md5_digest(blob)), ids),
            )
            &&& forall|i: int| 0 <= i < names.len() ==> (files + names)[#[trigger] ids[i] as int] == names[i]
        }),
{
    let size = (u32_at_spec(covmap, pos + 4).unwrap() as usize) as int;
    let blob = covmap.subrange(pos + 16, pos + 16 + size);
    let names = filenames_spec(blob, u32_at_spec(covmap, pos + 12).unwrap())->Some_0;
    let base = files.len() as u32;
    let ids = Seq::new(names.len(), |i: int| (files.len() + i) as u32);
    let ids2 = Seq::new((names.len() as u32) as nat, |i: int| base.wrapping_add(i as u32));
    assert(ids2 =~= ids) by {
        assert forall|i: int| 0 <= i < ids.len() implies ids2[i] == ids[i] by {
            assert(base.wrapping_add(i as u32) == (files.len() + i) as u32);
        }
    }
    lemma_round8_ge(pos + 16 + size);
    assert(round8(pos + 16 + size) % 8 == 0);
    assert(round8(pos + 16 + size) == next);
    assert forall|i: int| 0 <= i < names.len() implies (files + names)[#[trigger] ids[i] as int] == names[i] by {
        assert(ids[i] as int == files.len() + i);
    }
}

/// A skipped region (kind 2), and a gap region of any kind, give no region; the records after
/// it are read as if it were not there, its line delta still counting.
pub proof fn law_skipped_and_gap_regions_give_none(
    b: Seq<u8>,
    pos: int,
    file: u32,
    k: nat,
    line: u32,
    head: u64,
    p0: int,
    delta: u64,
    p1: int,
    col_start: u64,
    p2: int,
    nlines: u64,
    p3: int,
    col_end: u64,
    p4: int,
)
    requires
        uleb_spec(b, pos) == Some((head, p0)),
        (head % 4 == 0 && (head / 4) % 2 == 0 && head / 8 == 2) || (head % 4 != 0 && (col_end as u32)
            >= 0x8000_0000),
        uleb_spec(b, p0) == Some((delta, p1)),
        uleb_spec(b, p1) == Some((col_start, p2)),
        uleb_spec(b, p2) == Some((nlines, p3)),
        uleb_spec(b, p3) == Some((col_end, p4)),
    ensures
        regions_spec(b, pos, file, k + 1, line) == regions_spec(
            b,
            p4,
            file,
            k,
            line.wrapping_add(delta as u32),
        ),
{
    let r = regions_spec(b, p4, file, k, line.wrapping_add(delta as u32));
    match r {
        Some((rs, q)) => {
            assert(Seq::<Region>::empty() + rs =~= rs);
        },
        None => {},
    }
}

/// A branch region (kind 4) that is not a gap gives two regions at the same place, counted by
/// its true term and then by its false term.
pub proof fn law_branch_regions_give_both_branches(
    b: Seq<u8>,
    pos: int,
    file: u32,
    k: nat,
    line: u32,
    head: u64,
    p0: int,
    t: u64,
    pt: int,
    f: u64,
    pf: int,
    delta: u64,
    p1: int,
    col_start: u64,
    p2: int,
    nlines: u64,
    p3: int,
    col_end: u64,
    p4: int,
)
    requires
        uleb_spec(b, pos) == Some((head, p0)),
        head % 4 == 0,
        (head / 4) % 2 == 0,
        head / 8 == 4,
        uleb_spec(b, p0) == Some((t, pt)),
        uleb_spec(b, pt) == Some((f, pf)),
        uleb_spec(b, pf) == Some((delta, p1)),
        uleb_spec(b, p1) == Some((col_start, p2)),
        uleb_spec(b, p2) == Some((nlines, p3)),
        uleb_spec(b, p3) == Some((col_end, p4)),
        (col_end as u32) < 0x8000_0000,
    ensures
        ({
            let l = line.wrapping_add(delta as u32);
            let at = |term: Term|
                Region {
                    term,
                    file,
                    line_start: l,
                    col_start: col_start as u32,
                    line_end: l.wrapping_add(nlines as u32),
                    col_end: col_end as u32,
                };
            regions_spec(b, pos, file, k + 1, line) == prepend(
                seq![at(term_spec(t)), at(term_spec(f))],
                regions_spec(b, p4, file, k, l),
            )
        }),
{
    let l = line.wrapping_add(delta as u32);
    assert((col_end as u32) % 0x8000_0000 == col_end as u32);
    let br = seq![
        region_at(term_spec(t), file, l, col_start as u32, nlines as u32, col_end as u32),
        region_at(term_spec(f), file, l, col_start as u32, nlines as u32, col_end as u32),
    ];
    assert(Seq::<Region>::empty() + br =~= br);
}

} // verus!
