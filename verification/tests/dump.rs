use tcg_prof::dump::dump_report;
use tcg_prof::native::{
    CallRecord, DisconRecord, EdgeRecord, FileHeader, Footer, Profile, SymbolRecord, TbExec,
};

fn base_profile() -> Profile {
    Profile {
        header: FileHeader {
            format_version: 1,
            tier: 2,
            pointer_size: 8,
            flags: 0x3,
            load_addr: 0x400000,
            text_start: 0x401000,
            text_end: 0x402000,
            entry_addr: 0x401000,
            build_id: [0; 16],
        },
        metadata: vec![("arch".to_string(), "aarch64".to_string())],
        symbols: vec![SymbolRecord { sym_id: 1, addr: 0x401000, name: "main".to_string() }],
        tb_execs: Vec::new(),
        branch_edges: Vec::new(),
        fall_through_edges: Vec::new(),
        direct_calls: Vec::new(),
        indirect_calls: Vec::new(),
        tb_resources: Vec::new(),
        discon_events: Vec::new(),
        footer: None,
    }
}

fn text(b: Vec<u8>) -> String {
    String::from_utf8(b).unwrap()
}

fn tb(start: u64, exec: u64) -> TbExec {
    TbExec { start_addr: start, end_addr: start + 8, n_insns: 2, exec_count: exec, first_seen_seq: 0 }
}

#[test]
fn dump_lists_header_metadata_and_symbols() {
    let out = text(dump_report(&base_profile()));
    let expected = "Header:\n  version=1 tier=2 (calls) ptr_size=8 flags=0x3\n  \
        load_addr=0x400000 text=[0x401000, 0x402000) entry=0x401000\n  \
        sysemu=true streaming=true\n\nMetadata:\n  arch=aarch64\n\nSymbols: 1\n  \
        [1] 0x401000 main\n\nTB Execs: 0\n\nBranch Edges: 0\n\nFall-Through Edges: 0\n\n\
        Footer: MISSING (crash or incomplete write)\n";
    assert_eq!(out, expected);
}

#[test]
fn dump_ranks_blocks_by_count_with_ties_in_record_order() {
    let mut p = base_profile();
    p.tb_execs = vec![tb(0x10, 5), tb(0x20, 9), tb(0x30, 5)];
    let out = text(dump_report(&p));
    let expected_block = "\nTB Execs: 3\n  \
        [  0] 0x20-0x28 n_insns=2 exec=9 first_seen=0\n  \
        [  1] 0x10-0x18 n_insns=2 exec=5 first_seen=0\n  \
        [  2] 0x30-0x38 n_insns=2 exec=5 first_seen=0\n\nBranch Edges: 0\n";
    assert!(out.contains(expected_block), "{}", out);
}

#[test]
fn dump_shows_twenty_and_counts_the_rest() {
    let mut p = base_profile();
    p.branch_edges = (0..23u64).map(|i| EdgeRecord { from: i, to: i + 1, count: i }).collect();
    let out = text(dump_report(&p));
    assert!(out.contains("\nBranch Edges: 23\n  [  0] 0x16 -> 0x17 count=22\n"), "{}", out);
    assert!(out.contains("  [ 19] 0x3 -> 0x4 count=3\n  ... and 3 more\n"), "{}", out);
    assert!(!out.contains("count=2\n"));
}

#[test]
fn dump_counts_nonempty_groups_and_footer() {
    let mut p = base_profile();
    p.direct_calls = vec![CallRecord { callsite: 1, target: 2, count: 3 }];
    p.discon_events = vec![DisconRecord { discon_type: 1, from_pc: 1, to_pc: 2, count: 1 }];
    p.footer = Some(Footer {
        total_tb_count: 4,
        total_edge_records: 5,
        total_exec_count: 6,
        wall_time_ns: 1_500_000_000,
        clean_exit: true,
    });
    let out = text(dump_report(&p));
    assert!(out.ends_with(
        "\nFall-Through Edges: 0\n\nDirect Calls: 1\nDiscontinuities: 1\n\nFooter:\n  \
         clean_exit=true total_tbs=4 total_edges=5 total_exec=6 wall_time="
    ), "{}", out);
}
