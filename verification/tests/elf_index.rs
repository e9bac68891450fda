use tcg_prof::elf_index::{ElfFacts, ElfIndex, RawProgramHeader, RawSection, RawSymbol};
use tcg_prof::export::{cgprof_profile, temporal_profile};
use tcg_prof::native::{CallRecord, EdgeRecord, FileHeader, Profile, TbExec};

fn func(value: u64, size: u64, name: &str) -> RawSymbol {
    RawSymbol::new(2, value, size, Some(name))
}

fn facts(symbols: Vec<RawSymbol>) -> ElfFacts {
    ElfFacts { symbols, program_headers: Vec::new(), sections: Vec::new(), data_encoding: 1 }
}

fn index(symbols: Vec<RawSymbol>) -> ElfIndex {
    ElfIndex::from_facts(&facts(symbols), &[])
}

#[test]
fn empty_index_knows_nothing() {
    let e = ElfIndex::empty(0x1000);
    assert_eq!(e.load_addr(), 0x1000);
    assert!(e.symbol_at(0x1000).is_none());
    assert_eq!(e.name_at(0x1000), "unknown");
    assert!(e.build_id().is_none());
    assert_eq!(e.len(), 0);
}

#[test]
fn lookup_finds_the_containing_symbol() {
    let e = index(vec![func(0x2000, 0x10, "b"), func(0x1000, 0x100, "a")]);
    assert_eq!(e.len(), 2);
    assert_eq!(e.name_at(0x1000), "a");
    assert_eq!(e.name_at(0x10ff), "a");
    assert_eq!(e.name_at(0x1100), "unknown");
    assert_eq!(e.name_at(0x200f), "b");
    assert_eq!(e.name_at(0x2010), "unknown");
    assert_eq!(e.name_at(0xfff), "unknown");
    let s = e.symbol_at(0x2004).unwrap();
    assert_eq!((s.addr, s.size, s.name.as_str()), (0x2000, 0x10, "b"));
}

#[test]
fn non_functions_and_unnamed_symbols_are_skipped() {
    let e = index(vec![
        RawSymbol::new(1, 0x1000, 4, Some("data")),
        func(0, 4, "at_zero"),
        func(0x3000, 4, ""),
        RawSymbol::new(2, 0x4000, 4, None),
        func(0x5000, 4, "kept"),
    ]);
    assert_eq!(e.len(), 1);
    assert_eq!(e.name_at(0x5000), "kept");
}

#[test]
fn duplicate_addresses_prefer_sized_then_longer_names() {
    // A sized entry is kept over an unsized one, whatever the names.
    let e = index(vec![func(0x1000, 8, "f"), func(0x1000, 0, "much_longer")]);
    assert_eq!(e.name_at(0x1000), "f");
    let e = index(vec![func(0x1000, 0, "much_longer"), func(0x1000, 8, "f")]);
    assert_eq!(e.name_at(0x1000), "f");
    // Otherwise the longer name wins; on a tie the first stays.
    let e = index(vec![func(0x1000, 8, "ab"), func(0x1000, 8, "abc"), func(0x1000, 8, "xyz")]);
    assert_eq!(e.name_at(0x1000), "abc");
}

#[test]
fn unsized_symbols_reach_the_next_one_capped() {
    let e = index(vec![func(0x1000, 0, "a"), func(0x1800, 0, "b"), func(0x40000, 0, "c")]);
    assert_eq!(e.symbol_at(0x1000).unwrap().size, 0x800);
    assert_eq!(e.symbol_at(0x1800).unwrap().size, 0x10000);
    assert_eq!(e.symbol_at(0x40000).unwrap().size, 0x1000);
    assert_eq!(e.name_at(0x11800), "unknown");
}

#[test]
fn load_address_is_first_executable_load_segment() {
    let mut f = facts(Vec::new());
    f.program_headers = vec![
        RawProgramHeader { p_type: 1, p_flags: 4, p_vaddr: 0x10000 },
        RawProgramHeader { p_type: 6, p_flags: 1, p_vaddr: 0x20000 },
        RawProgramHeader { p_type: 1, p_flags: 5, p_vaddr: 0x30000 },
        RawProgramHeader { p_type: 1, p_flags: 5, p_vaddr: 0x40000 },
    ];
    let e = ElfIndex::from_facts(&f, &[]);
    assert_eq!(e.load_addr(), 0x30000);
    assert_eq!(e.addr_to_offset(0x30010), 0x10);
    assert_eq!(e.addr_to_offset(0x2fff0), 0xffff_ffff_ffff_fff0);
}

fn note(le: bool, name: &[u8], desc: &[u8]) -> Vec<u8> {
    let enc = |v: u32| if le { v.to_le_bytes() } else { v.to_be_bytes() };
    let mut n = Vec::new();
    n.extend_from_slice(&enc(name.len() as u32));
    n.extend_from_slice(&enc(desc.len() as u32));
    n.extend_from_slice(&enc(3));
    n.extend_from_slice(name);
    while n.len() % 4 != 0 {
        n.push(0);
    }
    n.extend_from_slice(desc);
    n
}

#[test]
fn build_id_is_read_from_the_note() {
    for le in [true, false] {
        let mut data = vec![0xAAu8; 32];
        let off = data.len() as u64;
        let n = note(le, b"GNU\0", &[1, 2, 3, 4, 5, 6, 7, 8, 9, 10]);
        data.extend_from_slice(&n);
        let mut f = facts(Vec::new());
        f.data_encoding = if le { 1 } else { 2 };
        f.sections = vec![
            RawSection::new(Some(".text"), 0, 32),
            RawSection::new(Some(".note.gnu.build-id"), off, n.len() as u64),
        ];
        let e = ElfIndex::from_facts(&f, &data);
        assert_eq!(e.build_id().unwrap().as_slice(), &[1, 2, 3, 4, 5, 6, 7, 8, 9, 10]);
    }
}

#[test]
fn build_id_missing_or_out_of_range() {
    let mut f = facts(Vec::new());
    f.sections = vec![RawSection::new(Some(".note.gnu.build-id"), 8, 64)];
    assert!(ElfIndex::from_facts(&f, &[0u8; 40]).build_id().is_none());
    f.sections = vec![RawSection::new(Some(".note.gnu.build-id"), 0, 16)];
    assert!(ElfIndex::from_facts(&f, &[0u8; 40]).build_id().is_none());
}

#[test]
fn garbage_is_not_an_elf_image() {
    let err = ElfIndex::from_elf_bytes(b"definitely not an ELF file").err().unwrap();
    assert!(err.starts_with("parse ELF: "));
    assert!(err.len() > "parse ELF: ".len());
}

fn minimal_elf() -> Vec<u8> {
    let mut d = Vec::new();
    d.extend_from_slice(&[0x7f, b'E', b'L', b'F', 2, 1, 1, 0]);
    d.extend_from_slice(&[0u8; 8]);
    d.extend_from_slice(&2u16.to_le_bytes()); // e_type
    d.extend_from_slice(&0x3eu16.to_le_bytes()); // e_machine
    d.extend_from_slice(&1u32.to_le_bytes()); // e_version
    d.extend_from_slice(&0x401000u64.to_le_bytes()); // e_entry
    d.extend_from_slice(&64u64.to_le_bytes()); // e_phoff
    d.extend_from_slice(&0u64.to_le_bytes()); // e_shoff
    d.extend_from_slice(&0u32.to_le_bytes()); // e_flags
    d.extend_from_slice(&64u16.to_le_bytes()); // e_ehsize
    d.extend_from_slice(&56u16.to_le_bytes()); // e_phentsize
    d.extend_from_slice(&1u16.to_le_bytes()); // e_phnum
    d.extend_from_slice(&64u16.to_le_bytes()); // e_shentsize
    d.extend_from_slice(&0u16.to_le_bytes()); // e_shnum
    d.extend_from_slice(&0u16.to_le_bytes()); // e_shstrndx
    // One executable PT_LOAD segment.
    d.extend_from_slice(&1u32.to_le_bytes()); // p_type
    d.extend_from_slice(&5u32.to_le_bytes()); // p_flags
    d.extend_from_slice(&0u64.to_le_bytes()); // p_offset
    d.extend_from_slice(&0x400000u64.to_le_bytes()); // p_vaddr
    d.extend_from_slice(&0x400000u64.to_le_bytes()); // p_paddr
    d.extend_from_slice(&120u64.to_le_bytes()); // p_filesz
    d.extend_from_slice(&120u64.to_le_bytes()); // p_memsz
    d.extend_from_slice(&0x1000u64.to_le_bytes()); // p_align
    d
}

#[test]
fn minimal_image_gives_its_load_address() {
    let e = ElfIndex::from_elf_bytes(&minimal_elf()).unwrap();
    assert_eq!(e.load_addr(), 0x400000);
    assert_eq!(e.len(), 0);
    assert!(e.build_id().is_none());
}

fn profile(tb_execs: Vec<TbExec>) -> Profile {
    Profile {
        header: FileHeader {
            format_version: 1,
            tier: 2,
            pointer_size: 8,
            flags: 0,
            load_addr: 0,
            text_start: 0,
            text_end: 0,
            entry_addr: 0,
            build_id: [0; 16],
        },
        metadata: Vec::new(),
        symbols: Vec::new(),
        tb_execs,
        branch_edges: Vec::new(),
        fall_through_edges: Vec::new(),
        direct_calls: Vec::new(),
        indirect_calls: Vec::new(),
        tb_resources: Vec::new(),
        discon_events: Vec::new(),
        footer: None,
    }
}

fn tb(start: u64, exec: u64, seq: u64) -> TbExec {
    TbExec { start_addr: start, end_addr: start + 4, n_insns: 2, exec_count: exec, first_seen_seq: seq }
}

#[test]
fn temporal_orders_functions_by_first_sight() {
    let e = index(vec![func(0x1000, 0x100, "main"), func(0x2000, 0x100, "a,b"), func(0x3000, 0x100, "late")]);
    let p = profile(vec![
        tb(0x3000, 1, 9),
        tb(0x1010, 5, 4),
        tb(0x2000, 2, 6),
        tb(0x1000, 1, 2),
        tb(0x2010, 0, 1),  // never ran
        tb(0x3010, 3, 0),  // never seen
        tb(0x9000, 1, 1),  // unknown function
    ]);
    let (t, n) = temporal_profile(&p, &e);
    assert_eq!(n, 3);
    assert_eq!(
        String::from_utf8(t).unwrap(),
        ":temporal_prof_traces\n# Num Temporal Profile Traces:\n1\n# Temporal Profile Trace Stream Size:\n1\n# Weight:\n1\nmain,a_b,late,\n"
    );
}

#[test]
fn cgprof_sums_calls_and_cross_function_branches() {
    let e = index(vec![func(0x1000, 0x100, "main"), func(0x2000, 0x100, "my func"), func(0x3000, 0x100, "g")]);
    let mut p = profile(Vec::new());
    p.direct_calls = vec![
        CallRecord { callsite: 0x1004, target: 0x2000, count: 5 },
        CallRecord { callsite: 0x1008, target: 0x2000, count: 2 },
        CallRecord { callsite: 0x9000, target: 0x2000, count: 100 },
    ];
    p.indirect_calls = vec![
        CallRecord { callsite: 0x1010, target: 0x3000, count: 20 },
        CallRecord { callsite: 0x1010, target: 0, count: 50 },
    ];
    p.branch_edges = vec![
        EdgeRecord { from: 0x2010, to: 0x1000, count: 3 },
        EdgeRecord { from: 0x1020, to: 0x1030, count: 99 },
    ];
    let (t, n) = cgprof_profile(&p, &e).unwrap();
    assert_eq!(n, 3);
    assert_eq!(String::from_utf8(t).unwrap(), "main g 20\nmain my_func 7\nmy_func main 3\n");
}

#[test]
fn cgprof_overflow_is_reported() {
    let e = index(vec![func(0x1000, 0x100, "a"), func(0x2000, 0x100, "b")]);
    let mut p = profile(Vec::new());
    p.direct_calls = vec![
        CallRecord { callsite: 0x1000, target: 0x2000, count: u64::MAX },
        CallRecord { callsite: 0x1000, target: 0x2000, count: 1 },
    ];
    assert!(cgprof_profile(&p, &e).is_none());
}

#[test]
fn a_symbol_named_unknown_marker_counts_as_no_function() {
    let e = index(vec![func(0x1000, 0x100, "main"), func(0x2000, 0x100, "[unknown]")]);
    let p = profile(vec![tb(0x1000, 1, 2), tb(0x2000, 1, 1)]);
    let (t, n) = temporal_profile(&p, &e);
    assert_eq!(n, 1);
    assert!(String::from_utf8(t).unwrap().ends_with("\nmain,\n"));
    let mut p = profile(Vec::new());
    p.direct_calls = vec![CallRecord { callsite: 0x1000, target: 0x2000, count: 5 }];
    p.branch_edges = vec![EdgeRecord { from: 0x1000, to: 0x2000, count: 3 }];
    let (t, n) = cgprof_profile(&p, &e).unwrap();
    assert_eq!(n, 1);
    assert_eq!(String::from_utf8(t).unwrap(), "main [unknown] 3\n");
}

#[test]
fn cgprof_breaks_weight_ties_by_first_occurrence() {
    let e = index(vec![func(0x1000, 0x100, "a"), func(0x2000, 0x100, "b"), func(0x3000, 0x100, "c")]);
    let mut p = profile(Vec::new());
    p.direct_calls = vec![
        CallRecord { callsite: 0x2000, target: 0x3000, count: 4 },
        CallRecord { callsite: 0x1000, target: 0x2000, count: 4 },
        CallRecord { callsite: 0x3000, target: 0x1000, count: 9 },
    ];
    let (t, _) = cgprof_profile(&p, &e).unwrap();
    assert_eq!(String::from_utf8(t).unwrap(), "c a 9\nb c 4\na b 4\n");
}
