use residual_risk::mapping::{decode_term, eval, filenames, parse, parse_function, u32_at, u64_at, uleb, Region, Term};

#[test]
fn terms_decode() {
    assert_eq!(decode_term(0), Term::Zero);
    assert_eq!(decode_term((7 << 2) | 1), Term::Counter(7));
    assert_eq!(decode_term((3 << 2) | 2), Term::Sub(3));
    assert_eq!(decode_term((3 << 2) | 3), Term::Add(3));
}

#[test]
fn inside_is_entry_minus_below_minus_above() {
    // counters: 0 entry, 1 below, 2 above; expr0 = c0 - c1, expr1 = expr0 - c2 ("inside")
    let exprs = vec![
        (Term::Counter(0), Term::Counter(1)),
        (Term::Sub(0), Term::Counter(2)),
    ];
    let inside = Term::Sub(1);
    let run = |d: [i64; 3]| eval(inside, &exprs, &d, 0);
    assert_eq!(run([1, 0, 0]), 1); // left by "inside"
    assert_eq!(run([1, 1, 0]), 0); // left by "below"
    assert_eq!(run([256, 94, 78]), 84);
}

#[test]
fn uleb_reads_little_endian_groups() {
    let b = [0xe5, 0x8e, 0x26, 0x05];
    let mut pos = 0;
    assert_eq!(uleb(&b, &mut pos), Some(624485));
    assert_eq!(pos, 3);
    assert_eq!(uleb(&b, &mut pos), Some(5));
    assert_eq!(pos, 4);
    assert_eq!(uleb(&b, &mut pos), None);
}

#[test]
fn uleb_rejects_more_than_64_bits_and_truncated_input() {
    let long = [0x80u8; 10];
    let mut pos = 0;
    assert_eq!(uleb(&long, &mut pos), None);
    let cut = [0x80u8, 0x80];
    let mut pos = 0;
    assert_eq!(uleb(&cut, &mut pos), None);
    let max = [0xff, 0xff, 0xff, 0xff, 0xff, 0xff, 0xff, 0xff, 0xff, 0x01];
    let mut pos = 0;
    assert_eq!(uleb(&max, &mut pos), Some(u64::MAX));
}

#[test]
fn fixed_width_integers_are_little_endian() {
    let b = [1u8, 2, 3, 4, 5, 6, 7, 8, 9];
    assert_eq!(u32_at(&b, 0), Some(0x04030201));
    assert_eq!(u32_at(&b, 5), Some(0x09080706));
    assert_eq!(u32_at(&b, 6), None);
    assert_eq!(u64_at(&b, 1), Some(0x0908070605040302));
    assert_eq!(u64_at(&b, 2), None);
    assert_eq!(u32_at(&b, usize::MAX), None);
}

fn push_uleb(out: &mut Vec<u8>, mut v: u64) {
    loop {
        let byte = (v & 0x7f) as u8;
        v >>= 7;
        if v == 0 {
            out.push(byte);
            return;
        }
        out.push(byte | 0x80);
    }
}

fn names_data(names: &[&str]) -> Vec<u8> {
    let mut d = Vec::new();
    for n in names {
        push_uleb(&mut d, n.len() as u64);
        d.extend_from_slice(n.as_bytes());
    }
    d
}

fn plain_blob(names: &[&str]) -> Vec<u8> {
    let data = names_data(names);
    let mut b = Vec::new();
    push_uleb(&mut b, names.len() as u64);
    push_uleb(&mut b, data.len() as u64);
    push_uleb(&mut b, 0);
    b.extend_from_slice(&data);
    b
}

#[test]
fn filenames_resolve_against_the_compilation_directory() {
    let blob = plain_blob(&["/work", "src/lib.rs", "/abs/x.rs"]);
    assert_eq!(
        filenames(&blob, 5),
        Some(vec!["/work".to_string(), "/work/src/lib.rs".to_string(), "/abs/x.rs".to_string()])
    );
    // Before format version 6 names stay as written.
    assert_eq!(
        filenames(&blob, 4),
        Some(vec!["/work".to_string(), "src/lib.rs".to_string(), "/abs/x.rs".to_string()])
    );
    // An empty directory leaves relative names alone.
    let blob = plain_blob(&["", "src/lib.rs"]);
    assert_eq!(filenames(&blob, 5), Some(vec!["".to_string(), "src/lib.rs".to_string()]));
}

#[test]
fn filenames_of_a_compressed_blob() {
    let data = names_data(&["/w", "a.rs"]);
    let packed = miniz_oxide::deflate::compress_to_vec_zlib(&data, 6);
    let mut blob = Vec::new();
    push_uleb(&mut blob, 2);
    push_uleb(&mut blob, data.len() as u64);
    push_uleb(&mut blob, packed.len() as u64);
    blob.extend_from_slice(&packed);
    assert_eq!(filenames(&blob, 5), Some(vec!["/w".to_string(), "/w/a.rs".to_string()]));
    // A wrong uncompressed size is refused.
    let mut bad = Vec::new();
    push_uleb(&mut bad, 2);
    push_uleb(&mut bad, data.len() as u64 + 1);
    push_uleb(&mut bad, packed.len() as u64);
    bad.extend_from_slice(&packed);
    assert_eq!(filenames(&bad, 5), None);
}

#[test]
fn filenames_refuse_truncated_blobs_and_replace_bad_utf8() {
    let blob = plain_blob(&["/w", "abc"]);
    assert_eq!(filenames(&blob[..blob.len() - 1], 4), None);
    let mut b = Vec::new();
    push_uleb(&mut b, 1);
    push_uleb(&mut b, 2);
    push_uleb(&mut b, 0);
    push_uleb(&mut b, 1);
    b.push(0xff);
    assert_eq!(filenames(&b, 4), Some(vec!["\u{fffd}".to_string()]));
}

/// A function record's data: local file 0 is unit file 1; one expression c0 - c1; a code region
/// counted by c0, one by the expression, a gap region, a skipped region and a branch region.
fn function_data() -> Vec<u8> {
    let mut d = Vec::new();
    push_uleb(&mut d, 1); // files
    push_uleb(&mut d, 1); // unit file 1
    push_uleb(&mut d, 1); // expressions
    push_uleb(&mut d, (0 << 2) | 1);
    push_uleb(&mut d, (1 << 2) | 1);
    push_uleb(&mut d, 5); // regions of file 0
    // c0 at line 3, col 1, to line 5 col 5
    for v in [(0 << 2) | 1, 3, 1, 2, 5] {
        push_uleb(&mut d, v);
    }
    // expr 0 (sub) at line 4
    for v in [(0 << 2) | 2, 1, 5, 0, 10] {
        push_uleb(&mut d, v);
    }
    // gap region counted by c1: dropped
    for v in [(1 << 2) | 1, 1, 1, 0, (1 << 31) | 3] {
        push_uleb(&mut d, v);
    }
    // skipped region (kind 2): dropped
    for v in [2 << 3, 0, 1, 0, 2] {
        push_uleb(&mut d, v);
    }
    // branch region: true c1, false zero
    for v in [4 << 3, (1 << 2) | 1, 0, 1, 2, 0, 4] {
        push_uleb(&mut d, v);
    }
    d
}

fn expected_regions(file: u32) -> Vec<Region> {
    let r = |term, line_start, col_start, line_end, col_end| Region {
        term,
        file,
        line_start,
        col_start,
        line_end,
        col_end,
    };
    vec![
        r(Term::Counter(0), 3, 1, 5, 5),
        r(Term::Sub(0), 4, 5, 4, 10),
        r(Term::Counter(1), 6, 2, 6, 4),
        r(Term::Zero, 6, 2, 6, 4),
    ]
}

#[test]
fn a_function_record_decodes() {
    let d = function_data();
    let (files, exprs, regions) = parse_function(&d, &[7, 9]).unwrap();
    assert_eq!(files, vec![9]);
    assert_eq!(exprs, vec![(Term::Counter(0), Term::Counter(1))]);
    assert_eq!(regions, expected_regions(9));
}

#[test]
fn a_function_record_with_an_unknown_file_or_kind_is_refused() {
    let d = function_data();
    assert!(parse_function(&d, &[7]).is_none());
    let mut bad = Vec::new();
    for v in [1, 0, 0, 1, 7 << 3, 0, 0, 0, 0] {
        push_uleb(&mut bad, v);
    }
    assert!(parse_function(&bad, &[0]).is_none());
    assert!(parse_function(&d[..d.len() - 1], &[7, 9]).is_none());
}

fn u32le(out: &mut Vec<u8>, v: u32) {
    out.extend_from_slice(&v.to_le_bytes());
}

fn u64le(out: &mut Vec<u8>, v: u64) {
    out.extend_from_slice(&v.to_le_bytes());
}

fn pad8(out: &mut Vec<u8>) {
    while out.len() % 8 != 0 {
        out.push(0);
    }
}

fn sections() -> (Vec<u8>, Vec<u8>) {
    let blob = plain_blob(&["/work", "src/lib.rs"]);
    let mut covmap = Vec::new();
    for v in [0, blob.len() as u32, 0, 5] {
        u32le(&mut covmap, v);
    }
    covmap.extend_from_slice(&blob);
    pad8(&mut covmap);
    let digest = md5::compute(&blob).0;
    let files_ref = u64::from_le_bytes(digest[..8].try_into().unwrap());
    let data = function_data();
    let mut covfun = Vec::new();
    // A function of the unit.
    u64le(&mut covfun, 11);
    u32le(&mut covfun, data.len() as u32);
    u64le(&mut covfun, 22);
    u64le(&mut covfun, files_ref);
    covfun.extend_from_slice(&data);
    pad8(&mut covfun);
    // A function of an unknown unit: skipped.
    u64le(&mut covfun, 33);
    u32le(&mut covfun, data.len() as u32);
    u64le(&mut covfun, 44);
    u64le(&mut covfun, files_ref ^ 1);
    covfun.extend_from_slice(&data);
    pad8(&mut covfun);
    (covmap, covfun)
}

#[test]
fn both_sections_parse() {
    let (covmap, covfun) = sections();
    let m = parse(&covmap, &covfun).unwrap();
    assert_eq!(m.files, vec!["/work".to_string(), "/work/src/lib.rs".to_string()]);
    assert_eq!(m.functions.len(), 1);
    let f = &m.functions[0];
    assert_eq!((f.name_ref, f.func_hash), (11, 22));
    assert_eq!(f.files, vec![1]);
    assert_eq!(f.exprs, vec![(Term::Counter(0), Term::Counter(1))]);
    assert_eq!(f.regions, expected_regions(1));
    // Every file a function names is one of the mapping's files.
    assert!(m.functions.iter().all(|f| f.files.iter().all(|&i| (i as usize) < m.files.len())));
}

#[test]
fn a_truncated_unit_refuses_the_mapping() {
    let (covmap, covfun) = sections();
    assert!(parse(&covmap[..20], &covfun).is_none());
    let empty = parse(&[], &[]).unwrap();
    assert!(empty.files.is_empty() && empty.functions.is_empty());
}

#[test]
fn eval_stops_at_missing_expressions_and_depth() {
    let d = [3i64, 1];
    assert_eq!(eval(Term::Zero, &[], &d, 0), 0);
    assert_eq!(eval(Term::Counter(1), &[], &d, 0), 1);
    assert_eq!(eval(Term::Counter(5), &[], &d, 0), 0);
    assert_eq!(eval(Term::Add(0), &[], &d, 0), 0);
    let exprs = [(Term::Counter(0), Term::Counter(1))];
    assert_eq!(eval(Term::Add(0), &exprs, &d, 0), 4);
    assert_eq!(eval(Term::Add(0), &exprs, &d, 257), 0);
    // A cycle ends at the depth limit.
    let cyc = [(Term::Add(0), Term::Counter(0))];
    assert_eq!(eval(Term::Add(0), &cyc, &d, 0), 3 * 256);
}

/// A minimal little-endian ELF64 object file whose sections are `sections` (name, data).
fn elf(sections: &[(&str, &[u8])]) -> Vec<u8> {
    let mut names = vec![0u8];
    let mut name_at = Vec::new();
    for (n, _) in std::iter::once(&(".shstrtab", &[][..])).chain(sections.iter()) {
        name_at.push(names.len() as u32);
        names.extend_from_slice(n.as_bytes());
        names.push(0);
    }
    let mut body = vec![0u8; 64];
    let mut placed = Vec::new();
    for (_, d) in sections {
        pad8(&mut body);
        placed.push((body.len() as u64, d.len() as u64));
        body.extend_from_slice(d);
    }
    pad8(&mut body);
    let names_at = body.len() as u64;
    body.extend_from_slice(&names);
    pad8(&mut body);
    let shoff = body.len() as u64;
    let shnum = 2 + sections.len() as u16;
    // Header.
    body[0..4].copy_from_slice(&[0x7f, b'E', b'L', b'F']);
    body[4] = 2; // 64-bit
    body[5] = 1; // little-endian
    body[6] = 1; // version
    body[16..18].copy_from_slice(&1u16.to_le_bytes()); // relocatable
    body[18..20].copy_from_slice(&62u16.to_le_bytes()); // x86-64
    body[20..24].copy_from_slice(&1u32.to_le_bytes());
    body[40..48].copy_from_slice(&shoff.to_le_bytes());
    body[52..54].copy_from_slice(&64u16.to_le_bytes()); // header size
    body[58..60].copy_from_slice(&64u16.to_le_bytes()); // section header size
    body[60..62].copy_from_slice(&shnum.to_le_bytes());
    body[62..64].copy_from_slice(&1u16.to_le_bytes()); // names section index
    let header = |out: &mut Vec<u8>, name: u32, kind: u32, off: u64, size: u64| {
        u32le(out, name);
        u32le(out, kind);
        u64le(out, 0); // flags
        u64le(out, 0); // address
        u64le(out, off);
        u64le(out, size);
        u32le(out, 0);
        u32le(out, 0);
        u64le(out, 1); // alignment
        u64le(out, 0);
    };
    body.extend_from_slice(&[0u8; 64]);
    header(&mut body, name_at[0], 3, names_at, names.len() as u64);
    for (i, (off, size)) in placed.iter().enumerate() {
        header(&mut body, name_at[i + 1], 1, *off, *size);
    }
    body
}

#[test]
fn the_mapping_is_read_from_the_binary() {
    let (covmap, covfun) = sections();
    let binary = elf(&[("__llvm_covmap", &covmap), ("__llvm_covfun", &covfun)]);
    let m = residual_risk::coverage::read_mapping(&binary).unwrap();
    assert_eq!(m.files, vec!["/work".to_string(), "/work/src/lib.rs".to_string()]);
    assert_eq!(m.functions.len(), 1);
    assert_eq!(m.functions[0].regions, expected_regions(1));
    // Without the function records there is no mapping; nor in what is not an object file.
    let binary = elf(&[("__llvm_covmap", &covmap)]);
    assert!(residual_risk::coverage::read_mapping(&binary).is_none());
    assert!(residual_risk::coverage::read_mapping(&covmap).is_none());
}
