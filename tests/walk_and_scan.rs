use glibc_needs::errors::{ErrorKind, ErrorMap};
use glibc_needs::graph::{collect, path_in_scope, DependencyGraph, LibraryNode};
use glibc_needs::scan::{scan_binary, scan_file, scan_names};
use glibc_needs::sets::StrSet;
use glibc_needs::table::RequirementTable;

fn node(name: &str, path: Option<&str>, needed: &[&str]) -> LibraryNode {
    LibraryNode {
        name: name.to_string(),
        declared_path: format!("/declared/{}", name),
        resolved_path: path.map(|p| p.to_string()),
        needed: needed.iter().map(|n| n.to_string()).collect(),
    }
}

fn s(x: &str) -> String {
    x.to_string()
}

fn sorted(mut v: Vec<String>) -> Vec<String> {
    v.sort();
    v
}

fn scopes(list: &[&str]) -> Vec<String> {
    list.iter().map(|x| x.to_string()).collect()
}

/// A little-endian ELF64 image with a .symtab whose names are `names`.
fn elf_with_symbols(names: &[&str]) -> Vec<u8> {
    let mut strtab = vec![0u8];
    let mut offsets = Vec::new();
    for n in names {
        offsets.push(strtab.len() as u32);
        strtab.extend_from_slice(n.as_bytes());
        strtab.push(0);
    }
    let mut symtab = vec![0u8; 24];
    for off in &offsets {
        let mut sym = vec![0u8; 24];
        sym[0..4].copy_from_slice(&off.to_le_bytes());
        sym[4] = 0x12;
        sym[6..8].copy_from_slice(&0u16.to_le_bytes());
        symtab.extend_from_slice(&sym);
    }
    let strtab_off = 64usize;
    let symtab_off = (strtab_off + strtab.len() + 7) / 8 * 8;
    let shoff = (symtab_off + symtab.len() + 7) / 8 * 8;

    let mut out = vec![0u8; shoff + 3 * 64];
    out[0..4].copy_from_slice(&[0x7f, b'E', b'L', b'F']);
    out[4] = 2;
    out[5] = 1;
    out[6] = 1;
    out[16..18].copy_from_slice(&3u16.to_le_bytes());
    out[18..20].copy_from_slice(&62u16.to_le_bytes());
    out[20..24].copy_from_slice(&1u32.to_le_bytes());
    out[40..48].copy_from_slice(&(shoff as u64).to_le_bytes());
    out[52..54].copy_from_slice(&64u16.to_le_bytes());
    out[54..56].copy_from_slice(&56u16.to_le_bytes());
    out[58..60].copy_from_slice(&64u16.to_le_bytes());
    out[60..62].copy_from_slice(&3u16.to_le_bytes());
    out[strtab_off..strtab_off + strtab.len()].copy_from_slice(&strtab);
    out[symtab_off..symtab_off + symtab.len()].copy_from_slice(&symtab);

    let mut sh = |i: usize, ty: u32, off: usize, size: usize, link: u32, entsize: u64| {
        let b = shoff + i * 64;
        out[b + 4..b + 8].copy_from_slice(&ty.to_le_bytes());
        out[b + 24..b + 32].copy_from_slice(&(off as u64).to_le_bytes());
        out[b + 32..b + 40].copy_from_slice(&(size as u64).to_le_bytes());
        out[b + 40..b + 44].copy_from_slice(&link.to_le_bytes());
        out[b + 56..b + 64].copy_from_slice(&entsize.to_le_bytes());
    };
    sh(1, 2, symtab_off, symtab.len(), 2, 24);
    sh(2, 3, strtab_off, strtab.len(), 0, 0);
    out
}

#[test]
fn diamond_end_to_end() {
    let g = DependencyGraph {
        libraries: vec![
            node("libB.so", Some("/lib/libB.so"), &["libD.so"]),
            node("libC.so", Some("/lib/libC.so"), &["libD.so"]),
            node("libD.so", Some("/lib/libD.so"), &[]),
        ],
    };
    let sc = scopes(&["/"]);
    let mut visited = StrSet::new();
    let mut errors = ErrorMap::new();
    let mut table = RequirementTable::new();
    let root = s("/bin/A");
    let mut scanned = Vec::new();
    for need in ["libB.so", "libC.so"] {
        let paths = collect(&root, &s(need), &g, &sc, &mut visited, &mut errors);
        for p in paths.to_vec() {
            let names = if p == "/lib/libD.so" { vec![Some(s("foo@@GLIBC_2.5"))] } else { vec![] };
            scan_names(&root, &p, &names, &mut table, &mut errors);
            scanned.push(p);
        }
    }
    assert_eq!(
        sorted(visited.to_vec()),
        vec![s("/lib/libB.so"), s("/lib/libC.so"), s("/lib/libD.so")]
    );
    assert_eq!(sorted(scanned), vec![s("/lib/libB.so"), s("/lib/libC.so"), s("/lib/libD.so")]);
    assert_eq!(table.versions(), vec![s("2.5")]);
    assert_eq!(table.functions_of(&s("2.5")), vec![s("foo")]);
    assert_eq!(table.files_of(&s("2.5"), &s("foo")), vec![s("/lib/libD.so")]);
    assert!(errors.failing_paths().is_empty());
}

#[test]
fn cycle_is_walked_once() {
    let g = DependencyGraph {
        libraries: vec![
            node("libA.so", Some("/lib/libA.so"), &["libB.so"]),
            node("libB.so", Some("/lib/libB.so"), &["libA.so", "libB.so"]),
        ],
    };
    let sc = scopes(&["/lib"]);
    let mut visited = StrSet::new();
    let mut errors = ErrorMap::new();
    let first = collect(&s("/bin/x"), &s("libA.so"), &g, &sc, &mut visited, &mut errors);
    assert_eq!(sorted(first.to_vec()), vec![s("/lib/libA.so"), s("/lib/libB.so")]);
    let second = collect(&s("/bin/y"), &s("libB.so"), &g, &sc, &mut visited, &mut errors);
    assert_eq!(second.len(), 0);
    assert_eq!(visited.len(), 2);
}

#[test]
fn out_of_scope_library_is_walked_not_collected() {
    let g = DependencyGraph {
        libraries: vec![
            node("libX.so", Some("/opt/libX.so"), &["libY.so"]),
            node("libY.so", Some("/usr/lib/libY.so"), &[]),
        ],
    };
    let sc = scopes(&["/usr"]);
    let mut visited = StrSet::new();
    let mut errors = ErrorMap::new();
    let r = collect(&s("/bin/x"), &s("libX.so"), &g, &sc, &mut visited, &mut errors);
    assert_eq!(r.to_vec(), vec![s("/usr/lib/libY.so")]);
    assert!(!visited.contains(&s("/opt/libX.so")));
}

#[test]
fn out_of_scope_cycle_ends() {
    let g = DependencyGraph {
        libraries: vec![
            node("libX.so", Some("/opt/libX.so"), &["libZ.so"]),
            node("libZ.so", Some("/opt/libZ.so"), &["libX.so", "libY.so"]),
            node("libY.so", Some("/usr/lib/libY.so"), &[]),
        ],
    };
    let sc = scopes(&["/usr"]);
    let mut visited = StrSet::new();
    let mut errors = ErrorMap::new();
    let r = collect(&s("/bin/x"), &s("libX.so"), &g, &sc, &mut visited, &mut errors);
    assert_eq!(r.to_vec(), vec![s("/usr/lib/libY.so")]);
}

#[test]
fn unknown_name_is_skipped_silently() {
    let g = DependencyGraph { libraries: vec![node("libA.so", Some("/lib/libA.so"), &[])] };
    let mut visited = StrSet::new();
    let mut errors = ErrorMap::new();
    let r = collect(&s("/bin/x"), &s("libQ.so"), &g, &scopes(&["/"]), &mut visited, &mut errors);
    assert_eq!(r.len(), 0);
    assert!(errors.failing_paths().is_empty());
}

#[test]
fn missing_library_from_two_referrers_is_one_record() {
    let g = DependencyGraph {
        libraries: vec![
            node("libB.so", Some("/lib/libB.so"), &["libM.so"]),
            node("libM.so", None, &[]),
        ],
    };
    let sc = scopes(&["/"]);
    let mut visited = StrSet::new();
    let mut errors = ErrorMap::new();
    collect(&s("/bin/one"), &s("libM.so"), &g, &sc, &mut visited, &mut errors);
    collect(&s("/bin/two"), &s("libB.so"), &g, &sc, &mut visited, &mut errors);
    assert_eq!(errors.failing_paths(), vec![s("/declared/libM.so")]);
    assert_eq!(errors.kind_of(&s("/declared/libM.so")), Some(ErrorKind::NotFound));
    assert_eq!(
        sorted(errors.referrers_of(&s("/declared/libM.so"))),
        vec![s("/bin/one"), s("/bin/two")]
    );
    assert_eq!(errors.paths_of_kind(ErrorKind::NotFound), vec![s("/declared/libM.so")]);
    assert!(errors.paths_of_kind(ErrorKind::CannotRead).is_empty());
}

#[test]
fn first_kind_wins_and_names_accumulate() {
    let mut errors = ErrorMap::new();
    errors.record(s("/lib/a.so"), ErrorKind::CannotRead, s("x"));
    errors.record(s("/lib/a.so"), ErrorKind::CannotParse, s("y"));
    errors.record(s("/lib/a.so"), ErrorKind::CannotParse, s("y"));
    assert_eq!(errors.kind_of(&s("/lib/a.so")), Some(ErrorKind::CannotRead));
    assert_eq!(sorted(errors.referrers_of(&s("/lib/a.so"))), vec![s("x"), s("y")]);
    assert_eq!(errors.kind_of(&s("/lib/b.so")), None);
}

#[test]
fn run_fails_only_when_a_root_failed() {
    let mut errors = ErrorMap::new();
    errors.record(s("/lib/a.so"), ErrorKind::CannotRead, s("/bin/x"));
    assert!(!errors.any_failed(&vec![s("/bin/x")]));
    assert!(errors.any_failed(&vec![s("/bin/x"), s("/lib/a.so")]));
    assert!(!ErrorMap::new().any_failed(&vec![s("/bin/x")]));
}

#[test]
fn unreadable_file_is_cannot_read() {
    let mut table = RequirementTable::new();
    let mut errors = ErrorMap::new();
    scan_file(&s("/bin/x"), &s("/lib/gone.so"), None, &mut table, &mut errors);
    assert_eq!(errors.kind_of(&s("/lib/gone.so")), Some(ErrorKind::CannotRead));
    assert_eq!(errors.referrers_of(&s("/lib/gone.so")), vec![s("/bin/x")]);
    assert!(table.versions().is_empty());
}

#[test]
fn garbage_bytes_are_cannot_parse() {
    let mut table = RequirementTable::new();
    let mut errors = ErrorMap::new();
    scan_binary(&s("/bin/x"), &s("/lib/text.so"), b"not an elf file at all", &mut table, &mut errors);
    assert_eq!(errors.kind_of(&s("/lib/text.so")), Some(ErrorKind::CannotParse));
    assert!(table.versions().is_empty());
}

#[test]
fn unreadable_symbol_name_is_unknown_kind() {
    let mut table = RequirementTable::new();
    let mut errors = ErrorMap::new();
    let names = vec![None, Some(s("open@@GLIBC_2.2.5")), None];
    scan_names(&s("/bin/x"), &s("/lib/a.so"), &names, &mut table, &mut errors);
    assert_eq!(errors.kind_of(&s("/lib/a.so")), Some(ErrorKind::Unknown));
    assert_eq!(errors.referrers_of(&s("/lib/a.so")), vec![s("/bin/x")]);
    assert_eq!(table.files_of(&s("2.2.5"), &s("open")), vec![s("/lib/a.so")]);
    assert!(errors.paths_of_kind(ErrorKind::CannotParse).is_empty());
}

#[test]
fn scanning_twice_leaves_the_table_as_once() {
    let mut table = RequirementTable::new();
    let mut errors = ErrorMap::new();
    let names = vec![Some(s("memcpy@@GLIBC_2.14")), Some(s("local_helper")), Some(s("a@@GLIBC_1@@GLIBC_2"))];
    scan_names(&s("/bin/x"), &s("/lib/a.so"), &names, &mut table, &mut errors);
    scan_names(&s("/bin/x"), &s("/lib/a.so"), &names, &mut table, &mut errors);
    assert_eq!(table.versions(), vec![s("2.14")]);
    assert_eq!(table.functions_of(&s("2.14")), vec![s("memcpy")]);
    assert_eq!(table.files_of(&s("2.14"), &s("memcpy")), vec![s("/lib/a.so")]);
    assert!(errors.failing_paths().is_empty());
}

#[test]
fn elf_symbol_table_is_scanned() {
    let data = elf_with_symbols(&["memcpy@@GLIBC_2.14", "local_helper", "stat@@GLIBC_2.33"]);
    let mut table = RequirementTable::new();
    let mut errors = ErrorMap::new();
    scan_binary(&s("/bin/x"), &s("/lib/a.so"), &data, &mut table, &mut errors);
    assert!(errors.failing_paths().is_empty());
    assert_eq!(table.select_top_n(5), vec![s("2.33"), s("2.14")]);
    assert_eq!(table.files_of(&s("2.14"), &s("memcpy")), vec![s("/lib/a.so")]);
    assert_eq!(table.functions_of(&s("2.33")), vec![s("stat")]);
}

#[test]
fn elf_read_through_scan_file() {
    let data = elf_with_symbols(&["foo@@GLIBC_2.5"]);
    let mut table = RequirementTable::new();
    let mut errors = ErrorMap::new();
    scan_file(&s("/bin/x"), &s("/lib/d.so"), Some(&data), &mut table, &mut errors);
    assert_eq!(table.files_of(&s("2.5"), &s("foo")), vec![s("/lib/d.so")]);
}

#[test]
fn scope_compares_path_components() {
    let sc = scopes(&["/usr"]);
    assert!(path_in_scope(&s("/usr/lib/libc.so.6"), &sc));
    assert!(!path_in_scope(&s("/usrx/lib/libc.so.6"), &sc));
    assert!(!path_in_scope(&s("/opt/lib/libc.so.6"), &sc));
    assert!(path_in_scope(&s("/opt/lib/libc.so.6"), &scopes(&["/usr", "/opt"])));
    assert!(!path_in_scope(&s("/usr/lib/libc.so.6"), &Vec::new()));
}

#[test]
fn missing_library_is_not_walked_below() {
    let g = DependencyGraph {
        libraries: vec![
            node("libM.so", None, &["libK.so"]),
            node("libK.so", Some("/lib/libK.so"), &[]),
        ],
    };
    let mut visited = StrSet::new();
    let mut errors = ErrorMap::new();
    let r = collect(&s("/bin/x"), &s("libM.so"), &g, &scopes(&["/"]), &mut visited, &mut errors);
    assert_eq!(r.len(), 0);
    assert_eq!(visited.len(), 0);
    assert_eq!(errors.failing_paths(), vec![s("/declared/libM.so")]);
    assert_eq!(errors.kind_of(&s("/declared/libM.so")), Some(ErrorKind::NotFound));
}

#[test]
fn header_only_elf_gives_no_names_and_no_error() {
    let mut data = elf_with_symbols(&["foo@@GLIBC_2.5"]);
    let shoff = u64::from_le_bytes(data[40..48].try_into().unwrap()) as usize;
    data.truncate(shoff + 64);
    data[60..62].copy_from_slice(&1u16.to_le_bytes());
    let mut table = RequirementTable::new();
    let mut errors = ErrorMap::new();
    scan_binary(&s("/bin/x"), &s("/lib/h.so"), &data, &mut table, &mut errors);
    assert!(table.versions().is_empty());
    assert!(errors.failing_paths().is_empty());
}
