//! The text of the record and of the report: a count read back from the runner's statistics,
//! file names made of test names, JSON strings, and numbers with thousands separators.
use vstd::prelude::*;
use crate::text::{chars_of, decimal, digit, is_prefix, string_of};

verus! {

broadcast use vstd::string::group_string_axioms;

// ---------------------------------------------------------------------------------------------
// Reading a count from the runner's statistics.
/// `c` has the Unicode White_Space property (what `char::is_whitespace` tests).
pub open spec fn is_white(c: char) -> bool {
    ||| '\u{9}' <= c <= '\u{D}'
    ||| c == ' '
    ||| c == '\u{85}'
    ||| c == '\u{A0}'
    ||| c == '\u{1680}'
    ||| '\u{2000}' <= c <= '\u{200A}'
    ||| c == '\u{2028}'
    ||| c == '\u{2029}'
    ||| c == '\u{202F}'
    ||| c == '\u{205F}'
    ||| c == '\u{3000}'
}

fn white(c: char) -> (r: bool)
    ensures
        r == is_white(c),
{
    ('\u{9}' <= c && c <= '\u{D}') || c == ' ' || c == '\u{85}' || c == '\u{A0}' || c == '\u{1680}'
        || ('\u{2000}' <= c && c <= '\u{200A}') || c == '\u{2028}' || c == '\u{2029}' || c
        == '\u{202F}' || c == '\u{205F}' || c == '\u{3000}'
}

/// `s` without its leading white space.
pub open spec fn trim_start(s: Seq<char>) -> Seq<char>
    decreases s.len(),
{
    if s.len() > 0 && is_white(s[0]) {
        trim_start(s.drop_first())
    } else {
        s
    }
}

/// `s` without its trailing white space.
pub open spec fn trim_end(s: Seq<char>) -> Seq<char>
    decreases s.len(),
{
    if s.len() > 0 && is_white(s.last()) {
        trim_end(s.drop_last())
    } else {
        s
    }
}

/// `s` without leading and trailing white space.
pub open spec fn trim(s: Seq<char>) -> Seq<char> {
    trim_end(trim_start(s))
}

/// `c` is an ASCII decimal digit.
pub open spec fn is_digit(c: char) -> bool {
    '0' <= c <= '9'
}

/// The number the decimal digits `d` write.
pub open spec fn digits_value(d: Seq<char>) -> int
    decreases d.len(),
{
    if d.len() == 0 {
        0
    } else {
        digits_value(d.drop_last()) * 10 + (d.last() as int - 48)
    }
}

/// `s` without a leading `+`.
pub open spec fn unsigned_part(s: Seq<char>) -> Seq<char> {
    if s.len() > 0 && s[0] == '+' {
        s.drop_first()
    } else {
        s
    }
}

/// Every character of `d` is a decimal digit.
pub open spec fn all_digits(d: Seq<char>) -> bool {
    forall|i: int| 0 <= i < d.len() ==> is_digit(#[trigger] d[i])
}

/// What `str::parse::<u64>` gives: an optional `+`, then at least one decimal digit and nothing
/// else, whose number fits in 64 bits.
pub open spec fn parse_u64(s: Seq<char>) -> Option<u64> {
    let d = unsigned_part(s);
    if d.len() == 0 || !all_digits(d) {
        None
    } else if digits_value(d) > u64::MAX {
        None
    } else {
        Some(digits_value(d) as u64)
    }
}

/// Where the line that starts `s` ends: at the first `\n`, or at the end.
pub open spec fn line_end(s: Seq<char>) -> int
    decreases s.len(),
{
    if s.len() == 0 {
        0
    } else if s[0] == '\n' {
        0
    } else {
        1 + line_end(s.drop_first())
    }
}

/// The count after `name` on the first line of `stats` that starts with `name` (white space
/// around the line and around the count does not matter); none if no line does or the count is
/// not a number.
pub open spec fn field_spec(stats: Seq<char>, name: Seq<char>) -> Option<u64>
    decreases stats.len(),
{
    let end = line_end(stats);
    let line = trim(stats.take(end));
    if is_prefix(name, line) {
        parse_u64(trim(line.skip(name.len() as int)))
    } else if end < stats.len() {
        proof {
            lemma_line_end(stats);
        }
        field_spec(stats.skip(end + 1), name)
    } else {
        None
    }
}

pub proof fn lemma_line_end(s: Seq<char>)
    ensures
        0 <= line_end(s) <= s.len(),
        line_end(s) < s.len() ==> s[line_end(s)] == '\n',
        forall|i: int| 0 <= i < line_end(s) ==> s[i] != '\n',
    decreases s.len(),
{
    if s.len() > 0 && s[0] != '\n' {
        lemma_line_end(s.drop_first());
        assert forall|i: int| 0 <= i < line_end(s) implies s[i] != '\n' by {
            if i > 0 {
                assert(s[i] == s.drop_first()[i - 1]);
            }
        }
    }
}

/// `s` without leading white space.
fn trim_start_exec(s: &[char]) -> (r: Vec<char>)
    ensures
        r@ == trim_start(s@),
{
    let mut a: usize = 0;
    assert(s@.skip(0) =~= s@);
    while a < s.len() && white(s[a])
        invariant
            a <= s.len(),
            trim_start(s@) == trim_start(s@.skip(a as int)),
        decreases s.len() - a,
    {
        assert(s@.skip(a as int).drop_first() =~= s@.skip(a + 1));
        a += 1;
    }
    let rest = vstd::slice::slice_subrange(s, a, s.len());
    assert(rest@ =~= s@.skip(a as int));
    vstd::slice::slice_to_vec(rest)
}

/// `s` without trailing white space.
fn trim_end_exec(s: &[char]) -> (r: Vec<char>)
    ensures
        r@ == trim_end(s@),
{
    let mut b: usize = s.len();
    assert(s@.take(b as int) =~= s@);
    while b > 0 && white(s[b - 1])
        invariant
            b <= s.len(),
            trim_end(s@) == trim_end(s@.take(b as int)),
        decreases b,
    {
        assert(s@.take(b as int).drop_last() =~= s@.take(b - 1));
        b -= 1;
    }
    let rest = vstd::slice::slice_subrange(s, 0, b);
    vstd::slice::slice_to_vec(rest)
}

/// `s` without leading and trailing white space.
fn trim_exec(s: &[char]) -> (r: Vec<char>)
    ensures
        r@ == trim(s@),
{
    let t = trim_start_exec(s);
    trim_end_exec(t.as_slice())
}

proof fn lemma_digits_value_grows(d: Seq<char>, i: int)
    requires
        0 <= i <= d.len(),
        forall|k: int| 0 <= k < d.len() ==> is_digit(#[trigger] d[k]),
    ensures
        digits_value(d.take(i)) <= digits_value(d),
        0 <= digits_value(d),
    decreases d.len(),
{
    if d.len() > 0 {
        if i == d.len() {
            assert(d.take(i) =~= d);
            lemma_digits_value_grows(d.drop_last(), 0);
        } else {
            lemma_digits_value_grows(d.drop_last(), i);
            assert(d.drop_last().take(i) =~= d.take(i));
        }
        assert(is_digit(d[d.len() - 1]));
    } else {
        assert(d.take(i) =~= d);
    }
}

/// `s` read as a `u64` (see `parse_u64`).
#[verifier::loop_isolation(false)]
fn parse_u64_exec(s: &[char]) -> (r: Option<u64>)
    ensures
        r == parse_u64(s@),
{
    let start: usize = if s.len() > 0 && s[0] == '+' {
        1
    } else {
        0
    };
    let d = vstd::slice::slice_subrange(s, start, s.len());
    assert(d@ =~= unsigned_part(s@));
    if d.len() == 0 {
        return None;
    }
    let mut i: usize = 0;
    while i < d.len()
        invariant
            i <= d.len(),
            forall|k: int| 0 <= k < i ==> is_digit(#[trigger] d@[k]),
        decreases d.len() - i,
    {
        if !('0' <= d[i] && d[i] <= '9') {
            proof {
                assert(unsigned_part(s@) == d@);
                assert(!is_digit(d@[i as int]));
                assert(!all_digits(d@));
            }
            return None;
        }
        i += 1;
    }
    let mut v: u64 = 0;
    let mut i: usize = 0;
    assert(d@.take(0) =~= Seq::<char>::empty());
    while i < d.len()
        invariant
            i <= d.len(),
            forall|k: int| 0 <= k < d@.len() ==> is_digit(#[trigger] d@[k]),
            v == digits_value(d@.take(i as int)),
        decreases d.len() - i,
    {
        assert(d@.take(i + 1).drop_last() =~= d@.take(i as int));
        assert(is_digit(d@[i as int]));
        let x = (d[i] as u32 - 48) as u64;
        if v > (u64::MAX - x) / 10 {
            proof {
                lemma_digits_value_grows(d@, i + 1);
            }
            return None;
        }
        v = v * 10 + x;
        i += 1;
    }
    assert(d@.take(i as int) =~= d@);
    Some(v)
}

/// Coverage is taken for every k-th recorded test case: k as `value` writes it, when it is a
/// number from 1 to `usize::MAX`; 1 when there is no value or it is anything else.
pub open spec fn every_spec(value: Option<Seq<char>>) -> usize {
    match value {
        Some(v) => match parse_u64(v) {
            Some(k) => if 1 <= k && k <= usize::MAX {
                k as usize
            } else {
                1
            },
            None => 1,
        },
        None => 1,
    }
}

/// How often coverage is taken, from the value of the setting (see `every_spec`).
pub fn coverage_every(value: Option<&str>) -> (k: usize)
    ensures
        k == every_spec(
            match value {
                Some(v) => Some(v@),
                None => None,
            },
        ),
        k >= 1,
{
    match value {
        None => 1,
        Some(v) => {
            let cs = chars_of(v);
            match parse_u64_exec(cs.as_slice()) {
                Some(k) => {
                    if 1 <= k && k <= usize::MAX as u64 {
                        k as usize
                    } else {
                        1
                    }
                },
                None => 1,
            }
        },
    }
}

/// The count after `name` on the first line of `stats` that starts with it (see `field_spec`).
pub fn field(stats: &str, name: &str) -> (r: Option<u64>)
    ensures
        r == field_spec(stats@, name@),
{
    let s = chars_of(stats);
    let nm = chars_of(name);
    let mut a: usize = 0;
    assert(s@.skip(0) =~= s@);
    loop
        invariant
            a <= s@.len(),
            nm@ == name@,
            field_spec(stats@, name@) == field_spec(s@.skip(a as int), name@),
            s@ == stats@,
        decreases s@.len() - a,
    {
        let ghost rest = s@.skip(a as int);
        let mut b = a;
        while b < s.len() && s[b] != '\n'
            invariant
                a <= b <= s.len(),
                rest == s@.skip(a as int),
                line_end(rest) == (b - a) + line_end(s@.skip(b as int)),
            decreases s.len() - b,
        {
            assert(s@.skip(b as int).drop_first() =~= s@.skip(b + 1));
            b += 1;
        }
        proof {
            assert(line_end(s@.skip(b as int)) == 0);
            assert(rest.take(b - a) =~= s@.subrange(a as int, b as int));
        }
        let piece = vstd::slice::slice_subrange(s.as_slice(), a, b);
        let line = trim_exec(piece);
        if crate::text::starts_with(line.as_slice(), nm.as_slice()) {
            let after = vstd::slice::slice_subrange(line.as_slice(), nm.len(), line.len());
            assert(after@ =~= line@.skip(nm@.len() as int));
            let value = trim_exec(after);
            return parse_u64_exec(value.as_slice());
        }
        if b == s.len() {
            return None;
        }
        assert(rest.skip(b - a + 1) =~= s@.skip(b + 1));
        a = b + 1;
    }
}

// ---------------------------------------------------------------------------------------------
// File names and JSON strings.
/// `c` is an ASCII letter or digit.
pub open spec fn is_ascii_alnum(c: char) -> bool {
    ('0' <= c <= '9') || ('A' <= c <= 'Z') || ('a' <= c <= 'z')
}

/// `c` as it stands in a file name: kept when an ASCII letter, digit, `_` or `-`, else `_`.
pub open spec fn file_char(c: char) -> char {
    if is_ascii_alnum(c) || c == '_' || c == '-' {
        c
    } else {
        '_'
    }
}

/// The test name `name` made a file name, character by character.
pub open spec fn sanitized(name: Seq<char>) -> Seq<char> {
    name.map_values(|c: char| file_char(c))
}

/// A file name made of a test name.
pub fn sanitize(name: &str) -> (r: String)
    ensures
        r@ == sanitized(name@),
{
    let cs = chars_of(name);
    let mut out: Vec<char> = Vec::new();
    let mut i: usize = 0;
    while i < cs.len()
        invariant
            i <= cs.len(),
            out@ == cs@.take(i as int).map_values(|c: char| file_char(c)),
        decreases cs.len() - i,
    {
        let c = cs[i];
        let k = if ('0' <= c && c <= '9') || ('A' <= c && c <= 'Z') || ('a' <= c && c <= 'z') || c
            == '_' || c == '-' {
            c
        } else {
            '_'
        };
        out.push(k);
        i += 1;
        assert(out@ =~= cs@.take(i as int).map_values(|c: char| file_char(c)));
    }
    assert(cs@.take(i as int) =~= cs@);
    string_of(out.as_slice())
}

/// The lowercase hexadecimal digit of `d`.
pub open spec fn hex_digit(d: int) -> char {
    if d < 10 {
        digit(d)
    } else {
        (d + 87) as char
    }
}

/// `c` as it stands inside a JSON string: `"` and `\` escaped with a backslash, control
/// characters as `\u00XX`.
pub open spec fn escaped(c: char) -> Seq<char> {
    if c == '"' {
        seq!['\\', '"']
    } else if c == '\\' {
        seq!['\\', '\\']
    } else if (c as u32) < 0x20 {
        seq!['\\', 'u', '0', '0', hex_digit(((c as u32) / 16) as int), hex_digit(((c as u32) % 16) as int)]
    } else {
        seq![c]
    }
}

/// The characters of `s`, each as it stands inside a JSON string.
pub open spec fn escaped_all(s: Seq<char>) -> Seq<char>
    decreases s.len(),
{
    if s.len() == 0 {
        Seq::empty()
    } else {
        escaped_all(s.drop_last()) + escaped(s.last())
    }
}

fn hex_char(d: u32) -> (c: char)
    requires
        d < 16,
    ensures
        c == hex_digit(d as int),
{
    match d {
        0 => '0',
        1 => '1',
        2 => '2',
        3 => '3',
        4 => '4',
        5 => '5',
        6 => '6',
        7 => '7',
        8 => '8',
        9 => '9',
        10 => 'a',
        11 => 'b',
        12 => 'c',
        13 => 'd',
        14 => 'e',
        _ => 'f',
    }
}

/// `s` as a JSON string, quotes included.
pub fn quote(s: &str) -> (r: String)
    ensures
        r@ == seq!['"'] + escaped_all(s@) + seq!['"'],
{
    let cs = chars_of(s);
    let mut out: Vec<char> = Vec::new();
    out.push('"');
    let mut i: usize = 0;
    while i < cs.len()
        invariant
            i <= cs.len(),
            out@ == seq!['"'] + escaped_all(cs@.take(i as int)),
        decreases cs.len() - i,
    {
        let c = cs[i];
        let ghost before = out@;
        if c == '"' {
            out.push('\\');
            out.push('"');
        } else if c == '\\' {
            out.push('\\');
            out.push('\\');
        } else if (c as u32) < 0x20 {
            out.push('\\');
            out.push('u');
            out.push('0');
            out.push('0');
            out.push(hex_char((c as u32) / 16));
            out.push(hex_char((c as u32) % 16));
        } else {
            out.push(c);
        }
        proof {
            assert(cs@.take(i + 1).drop_last() =~= cs@.take(i as int));
            assert(out@ =~= before + escaped(c));
        }
        i += 1;
    }
    out.push('"');
    assert(cs@.take(i as int) =~= cs@);
    string_of(out.as_slice())
}

// ---------------------------------------------------------------------------------------------
// Numbers with thousands separators.
/// The decimal digits `d` with a comma before each group of three from the right.
pub open spec fn grouped(d: Seq<char>) -> Seq<char>
    decreases d.len(),
{
    if d.len() <= 3 {
        d
    } else {
        grouped(d.take(d.len() - 3)) + seq![','] + d.skip(d.len() - 3)
    }
}

/// Appends `d[..end]` with thousands separators to `out`.
fn push_grouped(out: &mut Vec<char>, d: &[char], end: usize)
    requires
        end <= d.len(),
    ensures
        final(out)@ == old(out)@ + grouped(d@.take(end as int)),
    decreases end,
{
    if end <= 3 {
        let mut i: usize = 0;
        while i < end
            invariant
                i <= end,
                end <= d.len(),
                out@ == old(out)@ + d@.take(i as int),
            decreases end - i,
        {
            out.push(d[i]);
            i += 1;
            assert(out@ =~= old(out)@ + d@.take(i as int));
        }
        assert(d@.take(end as int) == d@.take(i as int));
    } else {
        push_grouped(out, d, end - 3);
        out.push(',');
        out.push(d[end - 3]);
        out.push(d[end - 2]);
        out.push(d[end - 1]);
        proof {
            let t = d@.take(end as int);
            assert(t.take(t.len() - 3) =~= d@.take(end - 3));
            assert(t.skip(t.len() - 3) =~= seq![d@[end - 3], d@[end - 2], d@[end - 1]]);
            assert(final(out)@ =~= old(out)@ + grouped(t));
        }
    }
}

proof fn lemma_no_comma_filter(d: Seq<char>)
    requires
        forall|i: int| 0 <= i < d.len() ==> d[i] != ',',
    ensures
        d.filter(|c: char| c != ',') == d,
    decreases d.len(),
{
    if d.len() > 0 {
        lemma_no_comma_filter(d.drop_last());
        d.drop_last().lemma_filter_push(d.last(), |c: char| c != ',');
        assert(d.drop_last().push(d.last()) =~= d);
    }
}

/// Grouping only puts separators in: without its commas, the grouped number is the number's
/// digits as they were.
pub proof fn law_group_only_separates(d: Seq<char>)
    requires
        forall|i: int| 0 <= i < d.len() ==> d[i] != ',',
    ensures
        grouped(d).filter(|c: char| c != ',') == d,
    decreases d.len(),
{
    if d.len() <= 3 {
        lemma_no_comma_filter(d);
    } else {
        let head = d.take(d.len() - 3);
        let tail = d.skip(d.len() - 3);
        let f = |c: char| c != ',';
        law_group_only_separates(head);
        lemma_no_comma_filter(tail);
        Seq::filter_distributes_over_add(grouped(head) + seq![','], tail, f);
        Seq::filter_distributes_over_add(grouped(head), seq![','], f);
        Seq::<char>::empty().lemma_filter_push(',', f);
        assert(seq![','] =~= Seq::<char>::empty().push(','));
        assert(Seq::<char>::empty().filter(f) =~= Seq::<char>::empty());
        assert(head + tail =~= d);
    }
}

/// A file name made of a test name has as many characters, each an ASCII letter or digit, `_`
/// or `-`, and keeps those of the test name that already are.
pub proof fn law_sanitized_names_are_safe(name: Seq<char>)
    ensures
        sanitized(name).len() == name.len(),
        forall|i: int|
            0 <= i < name.len() ==> is_ascii_alnum(#[trigger] sanitized(name)[i]) || sanitized(
                name,
            )[i] == '_' || sanitized(name)[i] == '-',
        forall|i: int|
            0 <= i < name.len() && (is_ascii_alnum(name[i]) || name[i] == '_' || name[i] == '-')
                ==> #[trigger] sanitized(name)[i] == name[i],
{
}

/// `n` in decimal with thousands separators: 2,739.
pub fn group(n: u64) -> (r: String)
    ensures
        r@ == grouped(decimal(n as nat)),
{
    let mut d: Vec<char> = Vec::new();
    crate::text::push_decimal(&mut d, n as u128);
    assert(d@ =~= decimal(n as nat));
    let mut out: Vec<char> = Vec::new();
    push_grouped(&mut out, d.as_slice(), d.len());
    assert(d@.take(d.len() as int) =~= d@);
    assert(out@ =~= grouped(decimal(n as nat)));
    string_of(out.as_slice())
}

} // verus!
