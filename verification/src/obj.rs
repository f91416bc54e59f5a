//! The boundary to the binary-format parser. Goblin reads the bytes; each
//! wrapper here takes the raw buffer, makes one parse, and hands back plain
//! values. What each call returns is a function of the bytes alone, so the
//! results carry names (uninterpreted spec functions) that the verified
//! code's contracts are stated over: whether a buffer parses as each format, the
//! symbol table rows, the string table entries, an archive's member names
//! and member bytes.
use vstd::prelude::*;
use crate::graph::DepMap;
use crate::mapper::FileSyms;
use crate::mapper::build_dependency_map;
use crate::mapper::has_file;
use crate::mapper::is_dependency_map_of;
use crate::mapper::unique_ids;
use crate::symbols::MemberSyms;
use crate::symbols::SymInfo;
use crate::symbols::archive_symbols;
use crate::symbols::classify_symbols;
use crate::symbols::concat_defined_v;
use crate::symbols::concat_needed_v;
use crate::symbols::dedup_filter_v;
use crate::symbols::defined_names_v;
use crate::symbols::lemma_classify_view;
use crate::symbols::lemma_concat_view;
use crate::symbols::lemma_dedup_filter_view;
use crate::symbols::members_view;
use crate::symbols::needed_names_v;
use crate::symbols::rows_view;
use crate::symbols::strs_view;

verus! {

broadcast use vstd::seq_lib::group_seq_properties;

/// Whether goblin::elf::Elf::parse accepts the bytes as an ELF object.
pub uninterp spec fn is_object_of(bytes: Seq<u8>) -> bool;

/// Whether goblin::archive::Archive::parse accepts the bytes as a Unix
/// archive.
pub uninterp spec fn is_archive_of(bytes: Seq<u8>) -> bool;

/// The rows of an object's symbol table in table order, each row its info
/// byte and name offset (what Symtab iteration yields).
pub uninterp spec fn raw_syms_of(bytes: Seq<u8>) -> Seq<(u8, usize)>;

/// The object's string table entry at a given offset (what Strtab::get_at
/// yields).
pub uninterp spec fn name_at_of(bytes: Seq<u8>, off: usize) -> Option<Seq<char>>;

/// An archive's member names, in goblin's member order.
pub uninterp spec fn members_of(bytes: Seq<u8>) -> Seq<Seq<char>>;

/// The bytes of an archive member (what Archive::extract yields), or None
/// when the member cannot be extracted.
pub uninterp spec fn member_bytes_of(bytes: Seq<u8>, member: Seq<char>) -> Option<Seq<u8>>;

/// One raw symbol table row: the info byte and the name's string table
/// offset.
struct RawSym {
    pub info: u8,
    pub name_off: usize,
}

/// The spelling of an optional string.
pub open spec fn opt_str_view(r: Option<String>) -> Option<Seq<char>> {
    match r {
        Some(s) => Some(s@),
        None => None,
    }
}

/// The contents of an optional byte buffer.
pub open spec fn opt_bytes_view(r: Option<Vec<u8>>) -> Option<Seq<u8>> {
    match r {
        Some(b) => Some(b@),
        None => None,
    }
}

/// Relies on goblin::elf::Elf::parse and Symtab::iter: for a buffer that
/// parses as an object, the symbol table rows reduced to info byte and
/// name offset; None for any other buffer.
#[verifier::external_body]
fn obj_raw_syms(bytes: &[u8]) -> (r: Option<Vec<RawSym>>)
    ensures
        (r is Some) == is_object_of(bytes@),
        r matches Some(v) ==> v@.len() == raw_syms_of(bytes@).len() && forall|k: int|
            0 <= k < v@.len() ==> (#[trigger] v@[k]).info == raw_syms_of(bytes@)[k].0
                && v@[k].name_off == raw_syms_of(bytes@)[k].1,
{
    match goblin::elf::Elf::parse(bytes) {
        Ok(e) => Some(
            e.syms.iter().map(|s| RawSym { info: s.st_info, name_off: s.st_name }).collect(),
        ),
        Err(_) => None,
    }
}

/// Relies on goblin::elf::Elf::parse and Strtab::get_at: the object's
/// string table entry at the offset; None when the buffer is no object or
/// the table holds no entry there.
#[verifier::external_body]
fn obj_name_at(bytes: &[u8], off: usize) -> (r: Option<String>)
    ensures
        is_object_of(bytes@) ==> opt_str_view(r) == name_at_of(bytes@, off),
        !is_object_of(bytes@) ==> r is None,
{
    match goblin::elf::Elf::parse(bytes) {
        Ok(e) => e.strtab.get_at(off).map(|s| s.to_string()),
        Err(_) => None,
    }
}

/// Relies on goblin::archive::Archive::parse and Archive::members: the
/// member names in goblin's member order; None for a buffer that is no
/// archive.
#[verifier::external_body]
fn archive_member_names(bytes: &[u8]) -> (r: Option<Vec<String>>)
    ensures
        (r is Some) == is_archive_of(bytes@),
        r matches Some(v) ==> strs_view(v@) == members_of(bytes@),
{
    match goblin::archive::Archive::parse(bytes) {
        Ok(a) => Some(a.members().iter().map(|s| s.to_string()).collect()),
        Err(_) => None,
    }
}

/// Relies on goblin::archive::Archive::parse and Archive::extract: a
/// member's bytes within the archive's buffer; None when the buffer is no
/// archive or the member cannot be extracted.
#[verifier::external_body]
fn archive_member_bytes(bytes: &[u8], member: &str) -> (r: Option<Vec<u8>>)
    ensures
        is_archive_of(bytes@) ==> opt_bytes_view(r) == member_bytes_of(bytes@, member@),
        !is_archive_of(bytes@) ==> r is None,
{
    match goblin::archive::Archive::parse(bytes) {
        Ok(a) => a.extract(member, bytes).ok().map(|b| b.to_vec()),
        Err(_) => None,
    }
}

/// An object's symbol rows after name resolution: a row whose offset
/// resolves in the string table keeps its info byte and name, the rest are
/// dropped.
pub open spec fn resolved_rows(bytes: Seq<u8>, rows: Seq<(u8, usize)>) -> Seq<(u8, Seq<char>)>
    decreases rows.len(),
{
    if rows.len() == 0 {
        Seq::empty()
    } else {
        let prev = resolved_rows(bytes, rows.drop_last());
        match name_at_of(bytes, rows.last().1) {
            Some(nm) => prev.push((rows.last().0, nm)),
            None => prev,
        }
    }
}

/// The defined and needed spellings of an object's bytes: its resolved
/// rows, classified.
pub open spec fn object_symbols_of(bytes: Seq<u8>) -> (Seq<Seq<char>>, Seq<Seq<char>>) {
    let rs = resolved_rows(bytes, raw_syms_of(bytes));
    (defined_names_v(rs), needed_names_v(rs))
}

/// The per-member symbol spellings of an archive: each named member whose
/// bytes extract and parse as an object contributes its classified rows; a
/// member that fails to extract or to parse contributes nothing.
pub open spec fn archive_members_syms(bytes: Seq<u8>, names: Seq<Seq<char>>) -> Seq<
    (Seq<Seq<char>>, Seq<Seq<char>>),
>
    decreases names.len(),
{
    if names.len() == 0 {
        Seq::empty()
    } else {
        let prev = archive_members_syms(bytes, names.drop_last());
        match member_bytes_of(bytes, names.last()) {
            Some(mb) => if is_object_of(mb) {
                prev.push(object_symbols_of(mb))
            } else {
                prev
            },
            None => prev,
        }
    }
}

/// The defined and needed spellings of an archive's bytes: the members'
/// defined sets concatenated, and the members' needs deduplicated minus
/// everything the archive defines.
pub open spec fn archive_symbols_of(bytes: Seq<u8>) -> (Seq<Seq<char>>, Seq<Seq<char>>) {
    let ms = archive_members_syms(bytes, members_of(bytes));
    (concat_defined_v(ms), dedup_filter_v(concat_needed_v(ms), concat_defined_v(ms)))
}

/// What extraction owes for a buffer: an object's classified rows, an
/// archive's aggregated members, nothing for anything else.
pub open spec fn extraction_of(bytes: Seq<u8>) -> Option<(Seq<Seq<char>>, Seq<Seq<char>>)> {
    if is_object_of(bytes) {
        Some(object_symbols_of(bytes))
    } else if is_archive_of(bytes) {
        Some(archive_symbols_of(bytes))
    } else {
        None
    }
}

/// Read an object's symbol table into plain rows, each info byte paired
/// with its resolved name; a row whose name the string table lacks is
/// skipped.
fn read_elf_symbols(bytes: &[u8], raw: &Vec<RawSym>) -> (out: Vec<SymInfo>)
    requires
        is_object_of(bytes@),
        raw@.len() == raw_syms_of(bytes@).len(),
        forall|k: int|
            0 <= k < raw@.len() ==> (#[trigger] raw@[k]).info == raw_syms_of(bytes@)[k].0
                && raw@[k].name_off == raw_syms_of(bytes@)[k].1,
    ensures
        rows_view(out@) == resolved_rows(bytes@, raw_syms_of(bytes@)),
{
    let ghost rows = raw_syms_of(bytes@);
    let mut out: Vec<SymInfo> = Vec::new();
    let mut i: usize = 0;
    while i < raw.len()
        invariant
            is_object_of(bytes@),
            rows == raw_syms_of(bytes@),
            raw@.len() == rows.len(),
            forall|k: int|
                0 <= k < raw@.len() ==> (#[trigger] raw@[k]).info == rows[k].0 && raw@[k].name_off
                    == rows[k].1,
            0 <= i <= raw@.len(),
            rows_view(out@) == resolved_rows(bytes@, rows.take(i as int)),
        decreases raw@.len() - i,
    {
        proof {
            assert(rows.take(i as int + 1).drop_last() == rows.take(i as int));
            assert(rows.take(i as int + 1).last() == rows[i as int]);
        }
        let ghost out0 = out@;
        match obj_name_at(bytes, raw[i].name_off) {
            Some(name) => {
                proof {
                    assert(name_at_of(bytes@, rows[i as int].1) == Some(name@));
                }
                out.push(SymInfo { info: raw[i].info, name });
                proof {
                    assert(rows_view(out@) =~= rows_view(out0).push(
                        (rows[i as int].0, out@.last().name@),
                    ));
                }
            },
            None => {
                proof {
                    assert(name_at_of(bytes@, rows[i as int].1) is None);
                }
            },
        }
        i = i + 1;
    }
    proof {
        assert(rows.take(rows.len() as int) == rows);
    }
    out
}

/// Extract one input's symbol sets: an object's table is classified
/// directly; an archive classifies each member that extracts and parses as
/// an object and aggregates, so that needs met inside the archive never
/// surface; a buffer of any other format yields None.
pub fn extract_object(bytes: &[u8]) -> (r: Option<(Vec<String>, Vec<String>)>)
    ensures
        (r is Some) == (extraction_of(bytes@) is Some),
        r matches Some(p) ==> Some((strs_view(p.0@), strs_view(p.1@))) == extraction_of(bytes@),
{
    match obj_raw_syms(bytes) {
        Some(raw) => {
            let syms = read_elf_symbols(bytes, &raw);
            let r = classify_symbols(&syms);
            proof {
                lemma_classify_view(syms@);
            }
            Some(r)
        },
        None => {
            match archive_member_names(bytes) {
                Some(names) => {
                    let ghost mnames = members_of(bytes@);
                    let mut members: Vec<MemberSyms> = Vec::new();
                    let mut i: usize = 0;
                    while i < names.len()
                        invariant
                            is_archive_of(bytes@),
                            strs_view(names@) == mnames,
                            names@.len() == mnames.len(),
                            0 <= i <= names@.len(),
                            members_view(members@) == archive_members_syms(
                                bytes@,
                                mnames.take(i as int),
                            ),
                        decreases names@.len() - i,
                    {
                        proof {
                            assert(mnames.take(i as int + 1).drop_last() == mnames.take(i as int));
                            assert(mnames.take(i as int + 1).last() == mnames[i as int]);
                            assert(names@[i as int]@ == mnames[i as int]);
                        }
                        let ghost members0 = members@;
                        match archive_member_bytes(bytes, names[i].as_str()) {
                            Some(mb) => {
                                proof {
                                    assert(member_bytes_of(bytes@, mnames[i as int]) == Some(mb@));
                                }
                                match obj_raw_syms(mb.as_slice()) {
                                    Some(raw) => {
                                        let syms = read_elf_symbols(mb.as_slice(), &raw);
                                        let r = classify_symbols(&syms);
                                        proof {
                                            lemma_classify_view(syms@);
                                        }
                                        members.push(MemberSyms { defined: r.0, needed: r.1 });
                                        proof {
                                            assert(members_view(members@) =~= members_view(
                                                members0,
                                            ).push(object_symbols_of(mb@)));
                                        }
                                    },
                                    None => {},
                                }
                            },
                            None => {},
                        }
                        i = i + 1;
                    }
                    proof {
                        assert(mnames.take(mnames.len() as int) == mnames);
                    }
                    let r = archive_symbols(&members);
                    proof {
                        lemma_concat_view(members@);
                        lemma_dedup_filter_view(
                            crate::symbols::concat_needed(members@),
                            crate::symbols::concat_defined(members@),
                        );
                    }
                    Some(r)
                },
                None => None,
            }
        },
    }
}

/// The map is the canonical dependency map of exactly the parsed inputs:
/// the file identifiers and symbol spellings of `fs` are what extraction
/// owes for the inputs whose bytes parse, in input order.
pub open spec fn extracted_files_of(inputs: Seq<(u64, Vec<u8>)>) -> Seq<
    (u64, Seq<Seq<char>>, Seq<Seq<char>>),
>
    decreases inputs.len(),
{
    if inputs.len() == 0 {
        Seq::empty()
    } else {
        let prev = extracted_files_of(inputs.drop_last());
        match extraction_of(inputs.last().1@) {
            Some(p) => prev.push((inputs.last().0, p.0, p.1)),
            None => prev,
        }
    }
}

/// A file's identifier with the spellings of its symbol sets.
pub open spec fn file_view(f: FileSyms) -> (u64, Seq<Seq<char>>, Seq<Seq<char>>) {
    (f.id, strs_view(f.defined@), strs_view(f.needed@))
}

/// The map is the canonical dependency map of per-file symbol sets whose
/// identifiers and spellings are exactly what extraction owes for the
/// parsed inputs.
pub open spec fn derived_from(m: DepMap, fs: Seq<FileSyms>, inputs: Seq<(u64, Vec<u8>)>) -> bool {
    &&& unique_ids(fs)
    &&& is_dependency_map_of(m, fs)
    &&& fs.map_values(|f: FileSyms| file_view(f)) == extracted_files_of(inputs)
}

/// Build the dependency map straight from named byte buffers: each buffer
/// goes through the extractor, buffers that parse as neither an object nor
/// an archive are dropped, and the surviving files' symbol sets are
/// resolved into the canonical map. The map has a row for exactly the
/// inputs whose bytes parse.
pub fn dependency_map(inputs: &Vec<(u64, Vec<u8>)>) -> (m: DepMap)
    requires
        forall|i: int, j: int|
            0 <= i < inputs@.len() && 0 <= j < inputs@.len() && i != j ==> inputs@[i].0
                != inputs@[j].0,
    ensures
        m.wf(),
        forall|x: u64|
            crate::graph::has_entry(m.entries@, x) <==> exists|i: int|
                0 <= i < inputs@.len() && (#[trigger] inputs@[i]).0 == x && extraction_of(
                    inputs@[i].1@,
                ) is Some,
        exists|fs: Seq<FileSyms>| #[trigger] derived_from(m, fs, inputs@),
{
    let mut files: Vec<FileSyms> = Vec::new();
    let ghost mut srcs: Seq<int> = Seq::empty();
    let mut i: usize = 0;
    while i < inputs.len()
        invariant
            forall|a: int, b: int|
                0 <= a < inputs@.len() && 0 <= b < inputs@.len() && a != b ==> inputs@[a].0
                    != inputs@[b].0,
            0 <= i <= inputs@.len(),
            srcs.len() == files@.len(),
            forall|k: int| 0 <= k < srcs.len() ==> 0 <= #[trigger] srcs[k] < i,
            forall|k1: int, k2: int| 0 <= k1 < k2 < srcs.len() ==> srcs[k1] < srcs[k2],
            forall|k: int|
                0 <= k < files@.len() ==> (#[trigger] files@[k]).id == inputs@[srcs[k]].0,
            forall|k: int|
                0 <= k < srcs.len() ==> extraction_of(inputs@[#[trigger] srcs[k]].1@) is Some,
            files@.map_values(|f: FileSyms| file_view(f)) == extracted_files_of(
                inputs@.take(i as int),
            ),
            forall|j: int|
                0 <= j < i && extraction_of((#[trigger] inputs@[j]).1@) is Some ==> has_file(
                    files@,
                    inputs@[j].0,
                ),
        decreases inputs@.len() - i,
    {
        proof {
            assert(inputs@.take(i as int + 1).drop_last() == inputs@.take(i as int));
            assert(inputs@.take(i as int + 1).last() == inputs@[i as int]);
        }
        let ghost files0 = files@;
        match extract_object(inputs[i].1.as_slice()) {
            Some(r) => {
                proof {
                    assert(extraction_of(inputs@[i as int].1@) == Some(
                        (strs_view(r.0@), strs_view(r.1@)),
                    ));
                }
                files.push(FileSyms { id: inputs[i].0, defined: r.0, needed: r.1 });
                proof {
                    srcs = srcs.push(i as int);
                    assert(files@.map_values(|f: FileSyms| file_view(f)) =~= files0.map_values(
                        |f: FileSyms| file_view(f),
                    ).push(file_view(files@.last())));
                    assert(file_view(files@.last()) == (
                        inputs@[i as int].0,
                        strs_view(files@.last().defined@),
                        strs_view(files@.last().needed@),
                    ));
                    assert(files@.map_values(|f: FileSyms| file_view(f)) == extracted_files_of(
                        inputs@.take(i as int + 1),
                    ));
                    assert(files@.last().id == inputs@[i as int].0);
                    assert(has_file(files@, inputs@[i as int].0)) by {
                        assert(files@[files@.len() - 1].id == inputs@[i as int].0);
                    }
                    assert forall|j: int|
                        0 <= j < i + 1 && extraction_of(
                            (#[trigger] inputs@[j]).1@,
                        ) is Some implies has_file(files@, inputs@[j].0) by {
                        if j < i {
                            let k = choose|k: int|
                                0 <= k < files0.len() && files0[k].id == inputs@[j].0;
                            assert(files@[k].id == inputs@[j].0);
                        }
                    }
                }
            },
            None => {
                proof {
                    assert(extraction_of(inputs@[i as int].1@) is None);
                    assert(files@.map_values(|f: FileSyms| file_view(f)) == extracted_files_of(
                        inputs@.take(i as int + 1),
                    ));
                }
            },
        }
        i = i + 1;
    }
    proof {
        assert(inputs@.take(inputs@.len() as int) == inputs@);
        assert forall|k1: int, k2: int|
            0 <= k1 < files@.len() && 0 <= k2 < files@.len() && k1 != k2 implies files@[k1].id
            != files@[k2].id by {
            assert(srcs[k1] != srcs[k2]);
            assert(files@[k1].id == inputs@[srcs[k1]].0);
            assert(files@[k2].id == inputs@[srcs[k2]].0);
        }
        assert(unique_ids(files@));
    }
    let m = build_dependency_map(&files);
    proof {
        assert(derived_from(m, files@, inputs@));
        assert forall|x: u64| crate::graph::has_entry(m.entries@, x) implies exists|i2: int|
            0 <= i2 < inputs@.len() && (#[trigger] inputs@[i2]).0 == x && extraction_of(
                inputs@[i2].1@,
            ) is Some by {
            assert(has_file(files@, x));
            let k = choose|k: int| 0 <= k < files@.len() && files@[k].id == x;
            assert(files@[k].id == inputs@[srcs[k]].0);
            // the selected input parsed: its file view sits in the
            // extraction sequence, which only parsed inputs enter
            assert(0 <= srcs[k] < inputs@.len() && inputs@[srcs[k]].0 == x);
            assert(extraction_of(inputs@[srcs[k]].1@) is Some);
        }
        assert forall|x: u64|
            (exists|i2: int|
                0 <= i2 < inputs@.len() && (#[trigger] inputs@[i2]).0 == x && extraction_of(
                    inputs@[i2].1@,
                ) is Some) implies crate::graph::has_entry(m.entries@, x) by {
            let i2 = choose|i2: int|
                0 <= i2 < inputs@.len() && (#[trigger] inputs@[i2]).0 == x && extraction_of(
                    inputs@[i2].1@,
                ) is Some;
            assert(has_file(files@, inputs@[i2].0));
        }
    }
    m
}

} // verus!
