use static_ldd::MemberSyms;
use static_ldd::SymInfo;
use static_ldd::dependency_map;
use static_ldd::extract_object;
use static_ldd::symbols::STB_LOCAL;
use static_ldd::symbols::STT_FUNC;
use static_ldd::symbols::STT_NOTYPE;
use static_ldd::symbols::STT_OBJECT;
use static_ldd::symbols::archive_symbols;
use static_ldd::symbols::classify_symbols;
use static_ldd::symbols::st_bind;
use static_ldd::symbols::st_type;

const STB_GLOBAL: u8 = 1;
const STB_WEAK: u8 = 2;

fn sym(bind: u8, typ: u8, name: &str) -> SymInfo {
    SymInfo { info: (bind << 4) | typ, name: name.to_string() }
}

fn member(defined: &[&str], needed: &[&str]) -> MemberSyms {
    MemberSyms {
        defined: defined.iter().map(|s| s.to_string()).collect(),
        needed: needed.iter().map(|s| s.to_string()).collect(),
    }
}

#[test]
fn info_byte_splits_into_bind_and_type() {
    assert_eq!(st_bind(0x12), 1);
    assert_eq!(st_type(0x12), 2);
    assert_eq!(st_bind(0x00), STB_LOCAL);
    assert_eq!(st_type(0x01), STT_OBJECT);
    assert_eq!(st_type(0xf0), STT_NOTYPE);
}

#[test]
fn classification_splits_defined_and_needed() {
    let syms = vec![
        sym(STB_GLOBAL, STT_FUNC, "f"),
        sym(STB_GLOBAL, STT_NOTYPE, "ext"),
        sym(STB_LOCAL, STT_OBJECT, "local_data"),
        sym(STB_WEAK, STT_OBJECT, "w"),
        sym(STB_LOCAL, STT_NOTYPE, "local_ref"),
        sym(STB_GLOBAL, 3, "section_like"),
    ];
    let (defined, needed) = classify_symbols(&syms);
    assert_eq!(defined, vec!["f".to_string(), "w".to_string()]);
    assert_eq!(needed, vec!["ext".to_string()]);
}

#[test]
fn archive_hides_internally_satisfied_needs() {
    // member m1 defines bar; member m2 needs bar: bar never surfaces
    let members = vec![member(&["bar"], &[]), member(&[], &["bar"])];
    let (defined, needed) = archive_symbols(&members);
    assert_eq!(defined, vec!["bar".to_string()]);
    assert!(needed.is_empty());
}

#[test]
fn archive_unions_and_dedups_needs() {
    let members = vec![
        member(&["a"], &["x", "y"]),
        member(&["b"], &["x", "a", "z"]),
    ];
    let (defined, needed) = archive_symbols(&members);
    assert_eq!(defined, vec!["a".to_string(), "b".to_string()]);
    assert_eq!(needed, vec!["x".to_string(), "y".to_string(), "z".to_string()]);
}

#[test]
fn unrecognized_bytes_yield_nothing() {
    let junk = vec![0u8, 1, 2, 3, 4, 5, 6, 7];
    assert!(extract_object(&junk).is_none());
    let empty: Vec<u8> = Vec::new();
    assert!(extract_object(&empty).is_none());
}

#[test]
fn unparseable_inputs_are_dropped_from_the_map() {
    let inputs = vec![(0u64, vec![0u8; 16]), (1u64, b"not an object".to_vec())];
    let m = dependency_map(&inputs);
    assert!(m.entries.is_empty());
}
