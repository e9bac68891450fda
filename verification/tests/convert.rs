use tcg_prof::elf_index::ElfIndex;
use tcg_prof::export::{autofdo_profile, bolt_profile, cgprof_profile, gcc_autofdo_profile, range_count, temporal_profile};
use tcg_prof::native::{CallRecord, EdgeRecord, FileHeader, Profile, TbExec};
use tcg_prof::report::require_tier;
use tcg_prof::state::tier_name;

fn make_profile(tb_execs: Vec<TbExec>, branch_edges: Vec<EdgeRecord>) -> Profile {
    Profile {
        header: FileHeader {
            format_version: 1,
            tier: 1,
            pointer_size: 8,
            flags: 0,
            load_addr: 0x1000,
            text_start: 0x1000,
            text_end: 0x9000,
            entry_addr: 0x1000,
            build_id: [0; 16],
        },
        metadata: Vec::new(),
        symbols: Vec::new(),
        tb_execs,
        branch_edges,
        fall_through_edges: Vec::new(),
        direct_calls: Vec::new(),
        indirect_calls: Vec::new(),
        tb_resources: Vec::new(),
        discon_events: Vec::new(),
        footer: None,
    }
}

fn profile_at_tier(tier: u8) -> Profile {
    let mut p = make_profile(Vec::new(), Vec::new());
    p.header.tier = tier;
    p.header.load_addr = 0;
    p.header.text_start = 0;
    p.header.text_end = 0;
    p.header.entry_addr = 0;
    p
}

fn text(b: Vec<u8>) -> String {
    String::from_utf8(b).unwrap()
}

#[test]
fn tier_name_mapping() {
    assert_eq!(tier_name(0), "hotness");
    assert_eq!(tier_name(1), "edges");
    assert_eq!(tier_name(2), "calls");
    assert_eq!(tier_name(3), "resources");
    assert_eq!(tier_name(99), "unknown");
}

#[test]
fn require_tier_passes_when_sufficient() {
    let profile = profile_at_tier(2);
    assert!(require_tier(&profile, 0, "Test").is_ok());
    assert!(require_tier(&profile, 1, "Test").is_ok());
    assert!(require_tier(&profile, 2, "Test").is_ok());
}

#[test]
fn require_tier_fails_when_insufficient() {
    let profile = profile_at_tier(0);
    let err = require_tier(&profile, 1, "BOLT").unwrap_err();
    assert!(err.contains("BOLT"));
    assert!(err.contains("tier 1 (edges)"));
    assert!(err.contains("tier 0 (hotness)"));
}

#[test]
fn require_tier_message_in_full() {
    let profile = profile_at_tier(1);
    assert_eq!(
        require_tier(&profile, 2, "CGSort").unwrap_err(),
        "CGSort conversion requires at least tier 2 (calls) but profile was collected at tier 1 (edges). Re-run the plugin with tier=calls."
    );
}

/// The emitter uses the exact end_addr from the profile rather than
/// approximating it from the instruction count.
#[test]
fn end_addr_not_approximated() {
    // Simulate compressed RISC-V: 4 insns of 2 bytes each.
    // start=0x1000, end_addr=0x1006 (last insn at 0x1006).
    let profile = make_profile(
        vec![TbExec {
            start_addr: 0x1000,
            end_addr: 0x1006,
            n_insns: 4,
            exec_count: 10,
            first_seen_seq: 1,
        }],
        Vec::new(),
    );
    let elf = ElfIndex::empty(0x1000);
    let contents = text(autofdo_profile(&profile, &elf));
    let lines: Vec<&str> = contents.lines().collect();
    // First line is the range count, second is the range entry
    assert_eq!(lines[0], "1");
    assert_eq!(lines[1], "0-6:10");
}

/// The three-section structure required by create_gcov --profiler=text.
#[test]
fn three_section_structure() {
    let profile = make_profile(
        vec![TbExec {
            start_addr: 0x1000,
            end_addr: 0x100c,
            n_insns: 4,
            exec_count: 50,
            first_seen_seq: 1,
        }],
        vec![EdgeRecord {
            from: 0x100c,
            to: 0x2000,
            count: 30,
        }],
    );
    let elf = ElfIndex::empty(0x1000);
    let contents = text(gcc_autofdo_profile(&profile, &elf));
    let lines: Vec<&str> = contents.lines().collect();

    // Section 1: ranges
    assert_eq!(lines[0], "1", "range count");
    assert_eq!(lines[1], "0-c:50", "range entry");
    // Section 2: address (empty)
    assert_eq!(lines[2], "0", "address count");
    // Section 3: branches
    assert_eq!(lines[3], "1", "branch count");
    assert_eq!(lines[4], "c->1000:30", "branch entry");
    // No extra lines
    assert_eq!(lines.len(), 5);
}

/// Empty profile produces three zero-count sections.
#[test]
fn empty_profile() {
    let profile = make_profile(Vec::new(), Vec::new());
    let elf = ElfIndex::empty(0x1000);
    let contents = text(gcc_autofdo_profile(&profile, &elf));
    let lines: Vec<&str> = contents.lines().collect();

    assert_eq!(lines[0], "0", "range count");
    assert_eq!(lines[1], "0", "address count");
    assert_eq!(lines[2], "0", "branch count");
    assert_eq!(lines.len(), 3);
}

/// Multiple TBs and edges produce correct offsets and counts.
#[test]
fn multiple_tbs_and_edges() {
    let profile = make_profile(
        vec![
            TbExec {
                start_addr: 0x1000,
                end_addr: 0x100c,
                n_insns: 4,
                exec_count: 100,
                first_seen_seq: 1,
            },
            TbExec {
                start_addr: 0x2000,
                end_addr: 0x2008,
                n_insns: 3,
                exec_count: 75,
                first_seen_seq: 2,
            },
        ],
        vec![
            EdgeRecord {
                from: 0x100c,
                to: 0x2000,
                count: 60,
            },
            EdgeRecord {
                from: 0x2008,
                to: 0x1000,
                count: 40,
            },
        ],
    );
    let elf = ElfIndex::empty(0x1000);
    let contents = text(gcc_autofdo_profile(&profile, &elf));
    let lines: Vec<&str> = contents.lines().collect();

    // 2 ranges, 0 addresses, 2 branches
    assert_eq!(lines[0], "2");
    assert_eq!(lines[1], "0-c:100");
    assert_eq!(lines[2], "1000-1008:75");
    assert_eq!(lines[3], "0"); // address section
    assert_eq!(lines[4], "2");
    assert_eq!(lines[5], "c->1000:60");
    assert_eq!(lines[6], "1008->0:40");
}

/// Zero-exec TBs are skipped.
#[test]
fn zero_exec_skipped() {
    let profile = make_profile(
        vec![
            TbExec {
                start_addr: 0x1000,
                end_addr: 0x1004,
                n_insns: 2,
                exec_count: 0,
                first_seen_seq: 1,
            },
            TbExec {
                start_addr: 0x2000,
                end_addr: 0x2004,
                n_insns: 2,
                exec_count: 5,
                first_seen_seq: 2,
            },
        ],
        Vec::new(),
    );
    let elf = ElfIndex::empty(0x1000);
    let contents = text(gcc_autofdo_profile(&profile, &elf));
    let lines: Vec<&str> = contents.lines().collect();

    assert_eq!(lines[0], "1", "only non-zero TB emitted");
    assert_eq!(lines[1], "1000-1004:5");
}

#[test]
fn bolt_records_relative_to_base() {
    let mut profile = make_profile(
        Vec::new(),
        vec![EdgeRecord { from: 0x100c, to: 0x2000, count: 30 }],
    );
    profile.fall_through_edges = vec![EdgeRecord { from: 0x100c, to: 0x1010, count: 20 }];
    let elf = ElfIndex::empty(0x400000);
    assert_eq!(text(bolt_profile(&profile, &elf)), "E cycles\nB c 1000 30 0\nF c 10 20\n");
    // Without a load address in the profile, the image's is used.
    profile.header.load_addr = 0;
    assert_eq!(
        text(bolt_profile(&profile, &ElfIndex::empty(0x1000))),
        "E cycles\nB c 1000 30 0\nF c 10 20\n"
    );
}

#[test]
fn addresses_below_base_wrap() {
    let profile = make_profile(Vec::new(), vec![EdgeRecord { from: 0x800, to: 0x1000, count: 1 }]);
    let elf = ElfIndex::empty(0);
    assert_eq!(text(bolt_profile(&profile, &elf)), "E cycles\nB fffffffffffff800 0 1 0\n");
}

#[test]
fn autofdo_has_no_address_section() {
    let profile = make_profile(
        vec![TbExec { start_addr: 0x1000, end_addr: 0x100c, n_insns: 4, exec_count: 50, first_seen_seq: 1 }],
        vec![EdgeRecord { from: 0x100c, to: 0x2000, count: 30 }],
    );
    let elf = ElfIndex::empty(0x1000);
    assert_eq!(text(autofdo_profile(&profile, &elf)), "1\n0-c:50\n1\nc->1000:30\n");
}

#[test]
fn temporal_without_symbols_has_no_trace() {
    let profile = make_profile(
        vec![TbExec { start_addr: 0x1000, end_addr: 0x100c, n_insns: 4, exec_count: 50, first_seen_seq: 1 }],
        Vec::new(),
    );
    let (t, n) = temporal_profile(&profile, &ElfIndex::empty(0));
    assert_eq!(n, 0);
    assert_eq!(
        text(t),
        ":temporal_prof_traces\n# Num Temporal Profile Traces:\n0\n# Temporal Profile Trace Stream Size:\n0\n"
    );
}

#[test]
fn cgprof_without_symbols_is_empty() {
    let mut profile = make_profile(Vec::new(), vec![EdgeRecord { from: 1, to: 2, count: 3 }]);
    profile.direct_calls = vec![CallRecord { callsite: 1, target: 2, count: 4 }];
    let (t, n) = cgprof_profile(&profile, &ElfIndex::empty(0)).unwrap();
    assert_eq!(n, 0);
    assert!(t.is_empty());
}

#[test]
fn range_count_counts_blocks_that_ran() {
    let tbs = vec![
        TbExec { start_addr: 0x1000, end_addr: 0x1004, n_insns: 1, exec_count: 3, first_seen_seq: 1 },
        TbExec { start_addr: 0x2000, end_addr: 0x2004, n_insns: 1, exec_count: 0, first_seen_seq: 0 },
        TbExec { start_addr: 0x3000, end_addr: 0x3004, n_insns: 1, exec_count: 1, first_seen_seq: 2 },
    ];
    assert_eq!(range_count(&tbs), 2);
    assert_eq!(range_count(&Vec::new()), 0);
}
