//! Scanning one binary's symbol tables for versioned-symbol requirements.
use vstd::prelude::*;
use elf::endian::AnyEndian;
use elf::parse::ParsingTable;
use elf::string_table::StringTable;
use elf::symbol::Symbol;
use elf::ElfBytes;
use crate::errors::{ErrorKind, ErrorMap};
use crate::table::{GlibcRequirement, RequirementTable};
use crate::text::{parse_symbol_tag, tag_split};

verus! {


/// Whether the bytes start with a well-formed ELF file header whose section
/// and segment tables can be located.
pub uninterp spec fn elf_parses(data: Seq<u8>) -> bool;

/// Relies on elf::ElfBytes::minimal_parse: it reads the file header and
/// locates the section and segment tables; whether it succeeds depends on
/// the bytes alone.
#[verifier::external_body]
fn parse_elf(data: &[u8]) -> (r: bool)
    ensures
        r == elf_parses(data@),
{
    ElfBytes::<AnyEndian>::minimal_parse(data).is_ok()
}

/// The names of the symbols of an ELF file: those of the dynamic symbol
/// table, then those of the static one, each `None` where the string table
/// holds no name for it. Empty where the file's sections cannot be read.
pub uninterp spec fn elf_symbol_names(data: Seq<u8>) -> Seq<Option<Seq<char>>>;

/// The character sequences of optional strings.
pub open spec fn opt_views(s: Seq<Option<String>>) -> Seq<Option<Seq<char>>> {
    s.map_values(|o: Option<String>| match o {
        Some(x) => Some(x@),
        None => None,
    })
}

/// Relies on elf::ElfBytes::find_common_data for the dynamic and the static
/// symbol table with their string tables, on elf::parse::ParsingTable::iter
/// for the symbols of each (up to the first entry that does not parse), and
/// on elf::string_table::StringTable::get for each symbol's name. What they
/// read depends on the bytes alone.
#[verifier::external_body]
fn symbol_names(data: &[u8]) -> (r: Vec<Option<String>>)
    ensures
        opt_views(r@) == elf_symbol_names(data@),
{
    let names = |(t, s): (ParsingTable<'_, AnyEndian, Symbol>, StringTable<'_>)| {
        t.iter().map(move |y| s.get(y.st_name as usize).ok().map(String::from)).collect::<Vec<_>>()
    };
    match ElfBytes::<AnyEndian>::minimal_parse(data).and_then(|f| f.find_common_data()) {
        Ok(c) => [c.dynsyms.zip(c.dynsyms_strs), c.symtab.zip(c.symtab_strs)].into_iter().flatten().flat_map(names).collect(),
        Err(_) => Vec::new(),
    }
}

/// The requirements that the first `n` symbol names carry, found in `file`.
pub open spec fn tagged(names: Seq<Option<Seq<char>>>, n: int, file: Seq<char>) -> Set<
    (Seq<char>, Seq<char>, Seq<char>),
> {
    Set::new(
        |t: (Seq<char>, Seq<char>, Seq<char>)|
            t.2 == file && exists|i: int|
                0 <= i < n && match #[trigger] names[i] {
                    Some(s) => tag_split(s) == Some((t.1, t.0)),
                    None => false,
                },
    )
}

/// Some of the first `n` symbol names could not be read.
pub open spec fn has_unreadable(names: Seq<Option<Seq<char>>>, n: int) -> bool {
    exists|i: int| 0 <= i < n && #[trigger] names[i] is None
}

/// `errors` gained, from `before`, the record of `kind` on `path` for `name`.
pub open spec fn recorded(
    before: &ErrorMap,
    after: &ErrorMap,
    path: Seq<char>,
    kind: ErrorKind,
    name: Seq<char>,
) -> bool {
    &&& after.kinds() == if before.failing().contains(path) {
        before.kinds()
    } else {
        before.kinds().insert((path, kind))
    }
    &&& after.referrers() == before.referrers().insert((path, name))
}

/// Records the requirements that the symbol names of `file` carry; a name
/// that could not be read (`None`) is an error of unknown kind on `file`.
pub fn scan_names(
    referenced_by: &String,
    file: &String,
    names: &Vec<Option<String>>,
    table: &mut RequirementTable,
    errors: &mut ErrorMap,
)
    requires
        old(table).wf(),
        old(errors).wf(),
    ensures
        final(table).wf(),
        final(errors).wf(),
        final(table)@ == old(table)@ + tagged(opt_views(names@), names@.len() as int, file@),
        if has_unreadable(opt_views(names@), names@.len() as int) {
            recorded(old(errors), final(errors), file@, ErrorKind::Unknown, referenced_by@)
        } else {
            final(errors).kinds() == old(errors).kinds() && final(errors).referrers() == old(
                errors,
            ).referrers()
        },
{
    let mut i: usize = 0;
    assert(table@ =~= table@ + tagged(opt_views(names@), 0, file@));
    while i < names.len()
        invariant
            i <= names@.len(),
            table.wf(),
            errors.wf(),
            table@ == old(table)@ + tagged(opt_views(names@), i as int, file@),
            if has_unreadable(opt_views(names@), i as int) {
                recorded(old(errors), errors, file@, ErrorKind::Unknown, referenced_by@)
            } else {
                errors.kinds() == old(errors).kinds() && errors.referrers() == old(errors).referrers()
            },
        decreases names@.len() - i,
    {
        let ghost t0 = table@;
        let ghost ov = opt_views(names@);
        assert(ov[i as int] == match names@[i as int] {
            Some(x) => Some(x@),
            None => None::<Seq<char>>,
        });
        match &names[i] {
            None => {
                let ghost bk = errors.kinds();
                let ghost bf = errors.failing().contains(file@);
                proof {
                    if has_unreadable(opt_views(names@), i as int) {
                        if old(errors).failing().contains(file@) {
                            let k = choose|k: ErrorKind| old(errors).kinds().contains((file@, k));
                            assert(bk.contains((file@, k)));
                        } else {
                            assert(bk.contains((file@, ErrorKind::Unknown)));
                        }
                        assert(bf);
                    }
                }
                errors.record(file.clone(), ErrorKind::Unknown, referenced_by.clone());
                proof {
                    assert(ov[i as int] is None);
                    assert(has_unreadable(opt_views(names@), i + 1));
                    let e = (file@, referenced_by@);
                    assert(errors.referrers() =~= old(errors).referrers().insert(e));
                    if !has_unreadable(opt_views(names@), i as int) {
                    } else {
                        assert(errors.kinds() == bk);
                    }
                }
                assert(tagged(opt_views(names@), i + 1, file@) =~= tagged(opt_views(names@), i as int, file@));
            },
            Some(s) => {
                match parse_symbol_tag(s.as_str()) {
                    None => {
                        assert(tagged(opt_views(names@), i + 1, file@) =~= tagged(opt_views(names@), i as int, file@));
                    },
                    Some((f, v)) => {
                        let ghost e = (v@, f@, file@);
                        table.insert(GlibcRequirement { version: v, function: f, file: file.clone() });
                        assert(tagged(opt_views(names@), i + 1, file@) =~= tagged(opt_views(names@), i as int, file@).insert(e));
                        assert(table@ =~= old(table)@ + tagged(opt_views(names@), i + 1, file@));
                    },
                }
                assert(has_unreadable(opt_views(names@), i + 1) == has_unreadable(opt_views(names@), i as int));
            },
        }
        i = i + 1;
    }
}

/// What a scan of the bytes `data` of `file` for `name` does: bytes that are
/// not an ELF file give a cannot-parse error; otherwise the requirements that
/// the symbol names carry are recorded, and a name that could not be read is
/// an error of unknown kind. A file whose header reads but whose sections
/// cannot be read has no names, and so changes nothing.
pub open spec fn scan_binary_post(
    data: Seq<u8>,
    t0: Set<(Seq<char>, Seq<char>, Seq<char>)>,
    t1: Set<(Seq<char>, Seq<char>, Seq<char>)>,
    before: &ErrorMap,
    after: &ErrorMap,
    file: Seq<char>,
    name: Seq<char>,
) -> bool {
    let names = elf_symbol_names(data);
    if !elf_parses(data) {
        t1 == t0 && recorded(before, after, file, ErrorKind::CannotParse, name)
    } else {
        &&& t1 == t0 + tagged(names, names.len() as int, file)
        &&& if has_unreadable(names, names.len() as int) {
            recorded(before, after, file, ErrorKind::Unknown, name)
        } else {
            after.kinds() == before.kinds() && after.referrers() == before.referrers()
        }
    }
}

/// Scans the bytes of `file`.
pub fn scan_binary(
    referenced_by: &String,
    file: &String,
    data: &[u8],
    table: &mut RequirementTable,
    errors: &mut ErrorMap,
)
    requires
        old(table).wf(),
        old(errors).wf(),
    ensures
        final(table).wf(),
        final(errors).wf(),
        scan_binary_post(
            data@,
            old(table)@,
            final(table)@,
            old(errors),
            final(errors),
            file@,
            referenced_by@,
        ),
{
    if !parse_elf(data) {
        errors.record(file.clone(), ErrorKind::CannotParse, referenced_by.clone());
        return ;
    }
    let names = symbol_names(data);
    scan_names(referenced_by, file, &names, table, errors);
}

/// Scans `file`, whose bytes are `contents`, or `None` where they could not
/// be read: that is an error that the file cannot be read.
pub fn scan_file(
    referenced_by: &String,
    file: &String,
    contents: Option<&[u8]>,
    table: &mut RequirementTable,
    errors: &mut ErrorMap,
)
    requires
        old(table).wf(),
        old(errors).wf(),
    ensures
        final(table).wf(),
        final(errors).wf(),
        contents is None ==> final(table)@ == old(table)@ && recorded(
            old(errors),
            final(errors),
            file@,
            ErrorKind::CannotRead,
            referenced_by@,
        ),
        contents is Some ==> scan_binary_post(
            contents->Some_0@,
            old(table)@,
            final(table)@,
            old(errors),
            final(errors),
            file@,
            referenced_by@,
        ),
{
    match contents {
        None => {
            errors.record(file.clone(), ErrorKind::CannotRead, referenced_by.clone());
        },
        Some(data) => {
            scan_binary(referenced_by, file, data, table, errors);
        },
    }
}

} // verus!
