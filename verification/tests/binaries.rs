//! End-to-end runs on object files and archives synthesized in memory.
use static_ldd::dependency_map;
use static_ldd::extract_object;
use static_ldd::needed_libraries;

fn push_u16(v: &mut Vec<u8>, x: u16) {
    v.extend_from_slice(&x.to_le_bytes());
}

fn push_u32(v: &mut Vec<u8>, x: u32) {
    v.extend_from_slice(&x.to_le_bytes());
}

fn push_u64(v: &mut Vec<u8>, x: u64) {
    v.extend_from_slice(&x.to_le_bytes());
}

fn section_header(
    out: &mut Vec<u8>,
    name: u32,
    typ: u32,
    offset: u64,
    size: u64,
    link: u32,
    info: u32,
    addralign: u64,
    entsize: u64,
) {
    push_u32(out, name);
    push_u32(out, typ);
    push_u64(out, 0); // flags
    push_u64(out, 0); // addr
    push_u64(out, offset);
    push_u64(out, size);
    push_u32(out, link);
    push_u32(out, info);
    push_u64(out, addralign);
    push_u64(out, entsize);
}

/// A minimal relocatable ELF64 object whose symbol table holds the given
/// (info byte, name) entries.
fn elf_object(syms: &[(u8, &str)]) -> Vec<u8> {
    let mut strtab: Vec<u8> = vec![0];
    let mut name_offsets: Vec<u32> = Vec::new();
    for (_, name) in syms {
        name_offsets.push(strtab.len() as u32);
        strtab.extend_from_slice(name.as_bytes());
        strtab.push(0);
    }
    let shstrtab: Vec<u8> = b"\0.symtab\0.strtab\0.shstrtab\0".to_vec();

    let shoff: u64 = 64;
    let symtab_off: u64 = shoff + 4 * 64;
    let symtab_size: u64 = 24 * (syms.len() as u64 + 1);
    let strtab_off: u64 = symtab_off + symtab_size;
    let shstrtab_off: u64 = strtab_off + strtab.len() as u64;

    let mut out: Vec<u8> = Vec::new();
    // ELF header
    out.extend_from_slice(&[0x7f, b'E', b'L', b'F', 2, 1, 1, 0, 0, 0, 0, 0, 0, 0, 0, 0]);
    push_u16(&mut out, 1); // ET_REL
    push_u16(&mut out, 62); // x86-64
    push_u32(&mut out, 1);
    push_u64(&mut out, 0); // entry
    push_u64(&mut out, 0); // phoff
    push_u64(&mut out, shoff);
    push_u32(&mut out, 0); // flags
    push_u16(&mut out, 64); // ehsize
    push_u16(&mut out, 0); // phentsize
    push_u16(&mut out, 0); // phnum
    push_u16(&mut out, 64); // shentsize
    push_u16(&mut out, 4); // shnum
    push_u16(&mut out, 3); // shstrndx
    // section headers: null, .symtab, .strtab, .shstrtab
    section_header(&mut out, 0, 0, 0, 0, 0, 0, 0, 0);
    section_header(&mut out, 1, 2, symtab_off, symtab_size, 2, 1, 8, 24);
    section_header(&mut out, 9, 3, strtab_off, strtab.len() as u64, 0, 0, 1, 0);
    section_header(&mut out, 17, 3, shstrtab_off, shstrtab.len() as u64, 0, 0, 1, 0);
    // symbol table: null entry, then the given entries
    out.extend_from_slice(&[0u8; 24]);
    for (k, (info, _)) in syms.iter().enumerate() {
        push_u32(&mut out, name_offsets[k]);
        out.push(*info);
        out.push(0); // other
        push_u16(&mut out, 1); // shndx
        push_u64(&mut out, 0); // value
        push_u64(&mut out, 0); // size
    }
    out.extend_from_slice(&strtab);
    out.extend_from_slice(&shstrtab);
    out
}

/// A Unix archive holding the given (member name, bytes) entries.
fn archive(members: &[(&str, &[u8])]) -> Vec<u8> {
    let mut out: Vec<u8> = b"!<arch>\n".to_vec();
    for (name, data) in members {
        let mut header = format!(
            "{:<16}{:<12}{:<6}{:<6}{:<8}{:<10}",
            format!("{}/", name),
            0,
            0,
            0,
            "100644",
            data.len()
        )
        .into_bytes();
        header.extend_from_slice(b"`\n");
        assert_eq!(header.len(), 60);
        out.extend_from_slice(&header);
        out.extend_from_slice(data);
        if data.len() % 2 == 1 {
            out.push(b'\n');
        }
    }
    out
}

const GLOBAL_FUNC: u8 = 0x12;
const GLOBAL_OBJECT: u8 = 0x11;
const GLOBAL_NOTYPE: u8 = 0x10;
const LOCAL_FUNC: u8 = 0x02;

#[test]
fn elf_symbols_are_classified() {
    let obj = elf_object(&[
        (GLOBAL_FUNC, "foo"),
        (GLOBAL_NOTYPE, "bar"),
        (LOCAL_FUNC, "hidden"),
        (GLOBAL_OBJECT, "datum"),
    ]);
    let (defined, needed) = extract_object(&obj).expect("object not recognized");
    assert_eq!(defined, vec!["foo".to_string(), "datum".to_string()]);
    assert_eq!(needed, vec!["bar".to_string()]);
}

#[test]
fn archive_members_resolve_internally() {
    // member m1 defines bar; member m2 needs bar and quux: only quux
    // surfaces as a need of the archive
    let m1 = elf_object(&[(GLOBAL_FUNC, "bar")]);
    let m2 = elf_object(&[(GLOBAL_NOTYPE, "bar"), (GLOBAL_NOTYPE, "quux")]);
    let ar = archive(&[("m1.o", &m1), ("m2.o", &m2)]);
    let (defined, needed) = extract_object(&ar).expect("archive not recognized");
    assert_eq!(defined, vec!["bar".to_string()]);
    assert_eq!(needed, vec!["quux".to_string()]);
}

#[test]
fn link_order_from_real_binaries() {
    // 0 needs foo from 1; 1 needs base from 2
    let a = elf_object(&[(GLOBAL_NOTYPE, "foo")]);
    let b = elf_object(&[(GLOBAL_FUNC, "foo"), (GLOBAL_NOTYPE, "base")]);
    let c = elf_object(&[(GLOBAL_OBJECT, "base")]);
    let inputs = vec![(0u64, a), (1u64, b), (2u64, c)];
    let m = dependency_map(&inputs);
    let rows: Vec<(u64, Vec<u64>)> = m.entries.iter().map(|e| (e.id, e.deps.clone())).collect();
    assert_eq!(rows, vec![(0, vec![1]), (1, vec![2]), (2, vec![])]);
    assert_eq!(needed_libraries(&m, &vec![0]), vec![2, 1, 0]);
}
