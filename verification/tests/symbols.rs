use memprof::stack::{MemoryMap, Region, Resolution, StackResolver};
use memprof::table::{LoadError, Symbol, SymbolTable};

fn sample_table() -> SymbolTable {
    // strings buffer: "foo\0barbaz\0"
    let strings = b"foo\0barbaz\0".to_vec();
    let entries = vec![
        Symbol { start: 0x200, end: 0x240, name_offset: 4 },
        Symbol { start: 0x100, end: 0x120, name_offset: 0 },
    ];
    SymbolTable::from_entries(entries, strings, String::from("libfoo.so"))
}

#[test]
fn find_at_range_edges() {
    let t = sample_table();
    assert_eq!(t.len(), 2);
    assert!(!t.is_empty());
    assert_eq!(t.name(), "libfoo.so");
    // exactly at a symbol's start
    assert_eq!(t.find(0x100), Some(String::from("foo")));
    // at start + size - 1
    assert_eq!(t.find(0x11F), Some(String::from("foo")));
    // at start + size: half-open exclusivity
    assert_eq!(t.find(0x120), None);
    // in the gap between the two symbols
    assert_eq!(t.find(0x180), None);
    // before everything
    assert_eq!(t.find(0xFF), None);
    // the second symbol, sorted behind the first
    assert_eq!(t.find(0x200), Some(String::from("barbaz")));
    assert_eq!(t.find(0x23F), Some(String::from("barbaz")));
    assert_eq!(t.find(0x240), None);
}

#[test]
fn zero_length_symbol_never_matches() {
    let strings = b"nil\0".to_vec();
    let entries = vec![Symbol { start: 0x50, end: 0x50, name_offset: 0 }];
    let t = SymbolTable::from_entries(entries, strings, String::from("m"));
    assert_eq!(t.find(0x50), None);
}

#[test]
fn empty_table() {
    let t = SymbolTable::from_entries(Vec::new(), Vec::new(), String::from("m"));
    assert!(t.is_empty());
    assert_eq!(t.find(0), None);
}

#[test]
fn symbol_code_range() {
    let s = Symbol { start: 5, end: 9, name_offset: 0 };
    let r = s.code();
    assert_eq!(r.start, 5);
    assert_eq!(r.end, 9);
    assert!(r.contains(&8));
    assert!(!r.contains(&9));
}

#[test]
fn load_rejects_garbage() {
    assert!(matches!(
        SymbolTable::load(&[0u8; 16], String::from("m")),
        Err(LoadError::BadElf)
    ));
    assert!(matches!(
        SymbolTable::load(&[], String::from("m")),
        Err(LoadError::BadElf)
    ));
}

fn region(start: u64, end: u64, file_offset: u64, path: &str) -> Region {
    Region { start, end, file_offset, path: path.as_bytes().to_vec() }
}

#[test]
fn memory_map_lookup() {
    let map = MemoryMap::rebuild(vec![
        region(0x1000, 0x2000, 0, "a"),
        region(0x3000, 0x4000, 0x100, "b"),
    ]);
    assert_eq!(map.lookup(0x0FFF), None);
    assert_eq!(map.lookup(0x1000), Some(0));
    assert_eq!(map.lookup(0x1FFF), Some(0));
    assert_eq!(map.lookup(0x2000), None);
    assert_eq!(map.lookup(0x2FFF), None);
    assert_eq!(map.lookup(0x3000), Some(1));
    assert_eq!(map.lookup(0x4000), None);
}

#[test]
fn memory_map_drops_bad_regions() {
    let map = MemoryMap::rebuild(vec![
        region(0x1000, 0x2000, 0, "a"),
        region(0x1800, 0x2800, 0, "overlap"),
        region(0x3000, 0x3000, 0, "empty"),
        region(0x5000, 0x6000, 0, "c"),
    ]);
    assert_eq!(map.regions.len(), 2);
    assert_eq!(map.lookup(0x5000), Some(1));
}

#[test]
fn resolver_degrades_and_resolves() {
    let mut resolver = StackResolver::new();
    resolver.track(9);
    assert_eq!(resolver.tracked_pid(), Some(9));
    // nothing mapped yet: unknown
    assert_eq!(resolver.display_one(0x1234), "unknown");

    resolver.refresh(vec![region(0x1000, 0x2000, 0x80, "libfoo.so")]);
    // mapped, but no table cached: module path plus raw hex offset
    // (0x1456 - 0x1000 + 0x80 = 0x4d6)
    assert_eq!(resolver.display_one(0x1456), "libfoo.so+0x4d6");

    // with the module's symbols cached the frame resolves by name:
    // file offset of 0x1100 is 0x180
    let strings = b"do_work\0".to_vec();
    let entries = vec![Symbol { start: 0x180, end: 0x190, name_offset: 0 }];
    let table = SymbolTable::from_entries(entries, strings, String::from("libfoo.so"));
    resolver.install_table(b"libfoo.so".to_vec(), table);
    match resolver.resolve_one(0x1100) {
        Resolution::Symbol { path, name } => {
            assert_eq!(path, b"libfoo.so".to_vec());
            assert_eq!(name, "do_work");
        }
        other => panic!("expected a symbol, got {}", label_text(&other)),
    }
    assert_eq!(resolver.display_one(0x1100), "libfoo.so:do_work");
    // an offset past the symbol still names the module
    assert_eq!(resolver.display_one(0x1FF0), "libfoo.so+0x1070");

    let labels = resolver.resolve(&vec![0x1100, 0x9999]);
    assert_eq!(labels, vec![String::from("libfoo.so:do_work"), String::from("unknown")]);
}

fn label_text(r: &Resolution) -> &'static str {
    match r {
        Resolution::Unknown => "unknown",
        Resolution::Module { .. } => "module",
        Resolution::Symbol { .. } => "symbol",
    }
}

#[test]
fn anonymous_region_is_unknown() {
    let mut resolver = StackResolver::new();
    resolver.refresh(vec![Region { start: 0x1000, end: 0x2000, file_offset: 0, path: Vec::new() }]);
    assert_eq!(resolver.display_one(0x1500), "unknown");
}

fn push_u16(v: &mut Vec<u8>, x: u16) {
    v.extend_from_slice(&x.to_le_bytes());
}

fn push_u32(v: &mut Vec<u8>, x: u32) {
    v.extend_from_slice(&x.to_le_bytes());
}

fn push_u64(v: &mut Vec<u8>, x: u64) {
    v.extend_from_slice(&x.to_le_bytes());
}

fn section_header(v: &mut Vec<u8>, ty: u32, offset: u64, size: u64, link: u16) {
    push_u32(v, 0); // name
    push_u32(v, ty);
    push_u32(v, 0); // flags
    push_u32(v, 0); // padding the parser ignores
    push_u64(v, 0); // address
    push_u64(v, offset);
    push_u64(v, size);
    push_u16(v, link);
    push_u16(v, 0); // padding the parser ignores
    push_u32(v, 0); // info
    push_u64(v, 0); // alignment
    push_u64(v, 0); // entry count
}

fn symbol_entry(v: &mut Vec<u8>, name: u32, value: u64, size: u64) {
    push_u32(v, name);
    v.push(0); // info
    v.push(0); // reserved
    push_u16(v, 0); // section index
    push_u64(v, value);
    push_u64(v, size);
}

fn minimal_elf() -> Vec<u8> {
    let strings = b"alpha\0beta\0";
    let mut v = Vec::new();
    // ELF64 header
    v.extend_from_slice(&[0x7f, b'E', b'L', b'F', 2, 1, 1, 0]);
    v.extend_from_slice(&[0u8; 8]); // abi version + padding
    push_u16(&mut v, 2); // type: executable
    push_u16(&mut v, 0x3e); // machine
    push_u32(&mut v, 1); // format version
    push_u64(&mut v, 0); // entry
    push_u64(&mut v, 0); // program headers offset
    push_u64(&mut v, 0x40); // section headers offset
    push_u32(&mut v, 0); // flags
    push_u16(&mut v, 0x40); // header size
    push_u16(&mut v, 0x38); // program header size
    push_u16(&mut v, 0); // program header count
    push_u16(&mut v, 0x40); // section header size
    push_u16(&mut v, 2); // section count
    push_u16(&mut v, 0); // section names index: none
    assert_eq!(v.len(), 0x40);
    // section 0: symbol table with two entries, linked to section 1
    section_header(&mut v, 2, 0xC0, 0x30, 1);
    // section 1: string table
    section_header(&mut v, 3, 0xF0, strings.len() as u64, 0);
    assert_eq!(v.len(), 0xC0);
    symbol_entry(&mut v, 0, 0x100, 0x20);
    symbol_entry(&mut v, 6, 0x200, 0x10);
    assert_eq!(v.len(), 0xF0);
    v.extend_from_slice(strings);
    v
}

#[test]
fn load_reads_elf_symbols() {
    let image = minimal_elf();
    let t = match SymbolTable::load(&image, String::from("app.bin")) {
        Ok(t) => t,
        Err(e) => panic!("load failed: {:?}", e),
    };
    assert_eq!(t.name(), "app.bin");
    assert_eq!(t.len(), 2);
    assert_eq!(t.find(0x100), Some(String::from("alpha")));
    assert_eq!(t.find(0x11F), Some(String::from("alpha")));
    assert_eq!(t.find(0x120), None);
    assert_eq!(t.find(0x205), Some(String::from("beta")));
    assert_eq!(t.find(0x300), None);
}

#[test]
fn base_name_components() {
    assert_eq!(memprof::table::base_name(b"/usr/lib/libfoo.so"), b"libfoo.so".to_vec());
    assert_eq!(memprof::table::base_name(b"libbar.so"), b"libbar.so".to_vec());
    assert_eq!(memprof::table::base_name(b"a/b/c"), b"c".to_vec());
    assert_eq!(memprof::table::base_name(b"dir/"), Vec::<u8>::new());
    assert_eq!(memprof::table::base_name(b""), Vec::<u8>::new());
}

#[test]
fn install_table_replaces_by_path() {
    let mut resolver = StackResolver::new();
    resolver.refresh(vec![region(0x1000, 0x2000, 0, "m.so")]);
    let t1 = SymbolTable::from_entries(
        vec![Symbol { start: 0x100, end: 0x110, name_offset: 0 }],
        b"first\0".to_vec(),
        String::from("m.so"),
    );
    resolver.install_table(b"m.so".to_vec(), t1);
    assert_eq!(resolver.display_one(0x1105), "m.so:first");
    // a later load for the same path wins (content is path-determined)
    let t2 = SymbolTable::from_entries(
        vec![Symbol { start: 0x100, end: 0x110, name_offset: 0 }],
        b"second\0".to_vec(),
        String::from("m.so"),
    );
    resolver.install_table(b"m.so".to_vec(), t2);
    assert_eq!(resolver.display_one(0x1105), "m.so:second");
}

#[test]
fn load_survives_hostile_name_table() {
    // a names table whose offset equals the file length: the name
    // walk would start exactly at the image's end
    let mut image = minimal_elf();
    let total = image.len() as u64;
    // declare section 1 (a string table) as the section-names table
    image[0x3e..0x40].copy_from_slice(&1u16.to_le_bytes());
    // and point it past everything
    let sh1 = 0x40 + 0x40;
    image[sh1 + 0x18..sh1 + 0x20].copy_from_slice(&total.to_le_bytes());
    image[sh1 + 0x20..sh1 + 0x28].copy_from_slice(&0u64.to_le_bytes());
    // must not abort; the affected sections are skipped
    let r = SymbolTable::load(&image, String::from("m"));
    assert!(r.is_ok());
}
