use tcg_prof::decoder::Arch;
use tcg_prof::exit::{compute_fall_throughs, direct_call_counts, merge_triples, tb_resources};
use tcg_prof::native::parse;
use tcg_prof::plugin::{tb_coproc_flags, EdgeOutcome, ExitError, InsnData, PluginState};
use tcg_prof::resources::{DeviceAccesses, DisconCounts};
use tcg_prof::state::{PluginConfig, TbMeta};

fn config(tier: u8, streaming: bool, top_n: usize) -> PluginConfig {
    let mut c = PluginConfig::default();
    c.tier = tier;
    c.streaming = streaming;
    c.top_n = top_n;
    c
}

fn tbm(start: u64, end: u64, ft: u64, flags: u32) -> TbMeta {
    TbMeta {
        start_addr: start,
        end_addr: end,
        n_insns: 1,
        sym_id: 0,
        first_seen_seq: 0,
        fall_through_addr: ft,
        ends_with_indirect: false,
        coproc_flags: flags,
    }
}

#[test]
fn new_state_is_empty() {
    let s = PluginState::new(config(1, false, 8), false, 2, "aarch64".to_string());
    assert_eq!(s.target_arch, Arch::Aarch64);
    assert_eq!(s.sequence_counter, 1);
    assert_eq!(s.tbs.len(), 0);
    assert!(s.writer.is_none());
}

#[test]
fn translation_reuses_known_blocks() {
    let mut s = PluginState::new(config(0, false, 8), false, 2, "riscv64".to_string());
    assert_eq!(s.translate_tb(0x1000, 4, 0x100c, 0x1010, Some("main")), (0, true));
    assert_eq!(s.translate_tb(0x1000, 4, 0x100c, 0x1010, Some("main")), (0, false));
    assert_eq!(s.translate_tb(0x1000, 2, 0x1004, 0x1008, None), (1, true));
    assert_eq!(s.translate_tb(0x2000, 1, 0x2000, 0x2004, Some("helper")), (2, true));
    assert_eq!(s.tbs.get(0).sym_id, 1);
    assert_eq!(s.tbs.get(1).sym_id, 0);
    assert_eq!(s.tbs.get(2).sym_id, 2);
    s.mark_first_seen(2);
    s.mark_first_seen(0);
    assert_eq!(s.tbs.get(2).first_seen_seq, 1);
    assert_eq!(s.tbs.get(0).first_seen_seq, 2);
    assert_eq!(s.next_sequence(), 3);
}

#[test]
fn vcpu_state_grows_to_the_count() {
    let mut s = PluginState::new(config(2, false, 8), false, 2, "x86_64".to_string());
    s.ensure_vcpu_state(2);
    assert_eq!(s.edge_accumulators.len(), 2);
    assert_eq!(s.indirect_calls.len(), 2);
    s.ensure_vcpu_state(1);
    assert_eq!(s.edge_accumulators.len(), 2);
    let mut t = PluginState::new(config(1, false, 8), false, 2, "x86_64".to_string());
    t.ensure_vcpu_state(3);
    assert_eq!(t.edge_accumulators.len(), 3);
    assert_eq!(t.indirect_calls.len(), 0);
}

#[test]
fn streaming_edges_flush_at_top_n() {
    let mut s = PluginState::new(config(1, true, 2), false, 2, "x86_64".to_string());
    assert!(matches!(s.record_edge(0, 1, 2), EdgeOutcome::NoAccumulator));
    s.ensure_vcpu_state(1);
    s.init_writer("/bin/guest", 0x1000, 0x2000, 0x1000);
    assert!(matches!(s.record_edge(0, 1, 2), EdgeOutcome::Recorded));
    assert!(matches!(s.record_edge(0, 1, 2), EdgeOutcome::Recorded));
    let edges = match s.record_edge(0, 3, 4) {
        EdgeOutcome::Flush(e) => e,
        _ => panic!("expected a flush"),
    };
    let mut sorted = edges.clone();
    sorted.sort();
    assert_eq!(sorted, vec![(1, 2, 2), (3, 4, 1)]);
    assert_eq!(s.edge_accumulators.get(0).len(), 0);
    assert!(s.flush_edges(0, &edges, 1234));
    let mut entries = s.flushed_branch_entries.entries();
    entries.sort();
    assert_eq!(entries, vec![(2, 2), (4, 1)]);
    let w = s.writer.as_mut().unwrap();
    assert_eq!(w.edges_written(), 2);
}

#[test]
fn indirect_calls_are_counted_per_vcpu() {
    let mut s = PluginState::new(config(2, false, 8), false, 2, "x86_64".to_string());
    assert!(s.record_indirect_call(0, 0x10, 0x20));
    s.ensure_vcpu_state(2);
    assert!(s.record_indirect_call(1, 0x10, 0x20));
    assert!(s.record_indirect_call(1, 0x10, 0x20));
    assert!(s.record_indirect_call(0, 0x10, 0x30));
    assert_eq!(s.indirect_calls.get(1).entries(), vec![(0x10, 0x20, 2)]);
    assert_eq!(s.indirect_calls.get(0).entries(), vec![(0x10, 0x30, 1)]);
}

#[test]
fn block_calls_are_classified() {
    let mut s = PluginState::new(config(2, false, 8), false, 2, "aarch64".to_string());
    let (tb, _) = s.translate_tb(0x1000, 3, 0x1008, 0x100c, None);
    let insns = vec![
        // BL +8
        InsnData { addr: 0x1000, bytes: 0x94000002u32.to_le_bytes().to_vec(), size: 4 },
        // ADD
        InsnData { addr: 0x1004, bytes: 0x8b020020u32.to_le_bytes().to_vec(), size: 4 },
        // BLR x1
        InsnData { addr: 0x1008, bytes: 0xd63f0020u32.to_le_bytes().to_vec(), size: 4 },
    ];
    let sites = s.classify_tb_calls(tb, &insns).unwrap();
    assert_eq!(sites, vec![0x1008]);
    assert_eq!(s.direct_calls.list(), vec![(0x1000, 0x1008)]);
    assert!(s.tbs.get(tb).ends_with_indirect);
}

#[test]
fn coproc_flags_combine() {
    let insns = vec![
        InsnData { addr: 0, bytes: 0x00000053u32.to_le_bytes().to_vec(), size: 4 },
        InsnData { addr: 4, bytes: 0x00000057u32.to_le_bytes().to_vec(), size: 4 },
        InsnData { addr: 8, bytes: 0x00000013u32.to_le_bytes().to_vec(), size: 4 },
    ];
    assert_eq!(tb_coproc_flags(Arch::Riscv, &insns), 0x4 | 0x10);
}

#[test]
fn merging_sums_equal_pairs() {
    let v = vec![(1, 2, 3), (4, 5, 6), (1, 2, 10)];
    assert_eq!(merge_triples(&v), Some(vec![(1, 2, 13), (4, 5, 6)]));
    assert_eq!(merge_triples(&vec![(1, 2, u64::MAX), (1, 2, 1)]), None);
    assert_eq!(merge_triples(&Vec::new()), Some(Vec::new()));
}

#[test]
fn fall_throughs_are_runs_not_entered_by_branches() {
    // A: 0x1000..0x100c falls through to B at 0x1010; B to C at 0x1020.
    let tbs = vec![
        tbm(0x1000, 0x100c, 0x1010, 0),
        tbm(0x1010, 0x101c, 0x1020, 0),
        tbm(0x1020, 0x102c, 0x1030, 0),
    ];
    let execs = vec![10, 8, 3];
    let edges = vec![(0x2000, 0x1010, 5), (0x3000, 0x1020, 1)];
    let extra = vec![(0x1020, 2)];
    let f = compute_fall_throughs(&tbs, &execs, &edges, &extra).unwrap();
    // B: 8 - 5 = 3 from A; C: 3 - (1 + 2) = 0, none; A: no predecessor.
    assert_eq!(f, vec![(0x100c, 0x1010, 3)]);
    let over = vec![(0x2000, 0x1010, u64::MAX), (0x3000, 0x1010, 1)];
    assert!(compute_fall_throughs(&tbs, &execs, &over, &Vec::new()).is_none());
}

#[test]
fn direct_calls_take_the_runs_of_their_block() {
    let tbs = vec![tbm(0x2000, 0x2010, 0x2014, 0), tbm(0x1000, 0x1008, 0x100c, 0)];
    let execs = vec![7, 42];
    let calls = vec![(0x1004, 0x5000), (0x100c, 0x5000), (0x0800, 0x5000), (0x2010, 0x6000)];
    assert_eq!(
        direct_call_counts(&tbs, &execs, &calls),
        vec![(0x1004, 0x5000, 42), (0x100c, 0x5000, 0), (0x0800, 0x5000, 0), (0x2010, 0x6000, 7)]
    );
}

#[test]
fn resources_list_flagged_blocks() {
    let tbs = vec![tbm(0x1000, 0, 0, 0), tbm(0x2000, 0, 0, 4), tbm(0x3000, 0, 0, 0x10)];
    assert_eq!(tb_resources(&tbs), vec![(0x2000, 4), (0x3000, 0x10)]);
}

#[test]
fn finish_writes_a_profile_that_parses_back() {
    let mut s = PluginState::new(config(2, false, 100), true, 2, "aarch64".to_string());
    assert!(s.finish(&Vec::new(), 0).unwrap().is_none());
    s.ensure_vcpu_state(2);
    s.init_writer("/bin/guest", 0x1000, 0x9000, 0x1000);
    s.translate_tb(0x1000, 3, 0x1008, 0x100c, Some("main"));
    s.translate_tb(0x100c, 1, 0x100c, 0x1010, Some("main"));
    s.translate_tb(0x2000, 1, 0x2000, 0x2004, Some("f"));
    s.mark_first_seen(0);
    s.mark_first_seen(1);
    s.record_edge(0, 0x1008, 0x2000);
    s.record_edge(1, 0x1008, 0x2000);
    s.record_edge(1, 0x2000, 0x100c);
    s.add_direct_call(0x1004, 0x2000);
    s.record_indirect_call(0, 0x1008, 0x2000);
    s.record_indirect_call(1, 0x1008, 0x2000);
    let report = s.finish(&vec![5, 6, 2], 999).unwrap().unwrap();
    assert_eq!(report.tb_count, 3);
    assert_eq!(report.branch_edges.len(), 2);
    assert!(report.branch_edges.contains(&(0x1008, 0x2000, 2)));
    assert!(report.branch_edges.contains(&(0x2000, 0x100c, 1)));
    // TB 0x100c ran 6 times, 1 entered by a branch: 5 fall through from 0x1008.
    assert_eq!(report.fall_throughs, vec![(0x1008, 0x100c, 5)]);
    assert_eq!(report.direct_calls, vec![(0x1004, 0x2000, 5)]);
    assert_eq!(report.indirect_calls, vec![(0x1008, 0x2000, 2)]);
    let bytes = s.writer.as_mut().unwrap().take_bytes();
    let p = parse(&bytes).unwrap();
    assert_eq!(p.header.tier, 2);
    assert_eq!(p.header.flags, 1);
    assert_eq!(p.metadata_get("arch").map(|s| s.as_str()), Some("aarch64"));
    assert_eq!(p.metadata_get("mode").map(|s| s.as_str()), Some("sysemu"));
    assert_eq!(p.metadata_get("binary_path").map(|s| s.as_str()), Some("/bin/guest"));
    assert_eq!(p.symbol_for_id(1), Some("main"));
    assert_eq!(p.symbol_for_id(2), Some("f"));
    assert_eq!(p.tb_execs.len(), 3);
    assert_eq!(p.tb_execs[0].first_seen_seq, 1);
    assert_eq!(p.tb_execs[1].first_seen_seq, 2);
    assert_eq!(p.branch_edges.len(), 2);
    assert_eq!(p.fall_through_edges.len(), 1);
    assert_eq!(p.direct_calls.len(), 1);
    assert_eq!(p.indirect_calls.len(), 1);
    let footer = p.footer.unwrap();
    assert_eq!(footer.total_tb_count, 3);
    assert_eq!(footer.total_edge_records, 3);
    assert_eq!(footer.total_exec_count, 13);
    assert_eq!(footer.wall_time_ns, 999);
    assert_eq!(s.edge_accumulators.get(0).len(), 0);
}

#[test]
fn discontinuities_are_counted_per_event() {
    let mut d = DisconCounts::new();
    assert!(d.record(1, 0x10, 0x20));
    assert!(d.record(2, 0x10, 0x20));
    assert!(d.record(1, 0x10, 0x20));
    assert!(d.record(1, 0x10, 0x30));
    let l = d.list();
    assert_eq!(l.len(), 3);
    assert_eq!((l[0].discon_type, l[0].from_pc, l[0].to_pc, l[0].count), (1, 0x10, 0x20, 2));
    assert_eq!((l[1].discon_type, l[1].count), (2, 1));
    assert_eq!((l[2].to_pc, l[2].count), (0x30, 1));
}

#[test]
fn device_accesses_name_each_device_once_per_block() {
    let mut d = DeviceAccesses::new();
    d.record(0x1000, "uart");
    d.record(0x2000, "rtc");
    d.record(0x1000, "uart");
    d.record(0x1000, "gpio");
    assert_eq!(
        d.list(),
        vec![
            (0x1000, "uart".to_string()),
            (0x1000, "gpio".to_string()),
            (0x2000, "rtc".to_string())
        ]
    );
}

#[test]
fn finish_at_tier_three_writes_resources() {
    let mut s = PluginState::new(config(3, false, 100), true, 2, "aarch64".to_string());
    s.ensure_vcpu_state(1);
    s.init_writer("/bin/guest", 0x1000, 0x9000, 0x1000);
    s.translate_tb(0x1000, 1, 0x1000, 0x1004, None);
    s.set_coproc_flags(0, 4);
    s.device_accesses.record(0x1000, "uart");
    s.discon_events.record(0, 0x1000, 0x8000);
    s.discon_events.record(0, 0x1000, 0x8000);
    s.finish(&vec![1], 5).unwrap().unwrap();
    let bytes = s.writer.as_mut().unwrap().take_bytes();
    let p = parse(&bytes).unwrap();
    assert_eq!(p.tb_resources.len(), 1);
    assert_eq!((p.tb_resources[0].tb_addr, p.tb_resources[0].coproc_flags), (0x1000, 4));
    assert_eq!(p.discon_events.len(), 1);
    let e = p.discon_events[0];
    assert_eq!((e.discon_type, e.from_pc, e.to_pc, e.count), (0, 0x1000, 0x8000, 2));
    assert!(p.footer.is_some());
}

#[test]
fn finish_reports_overflowing_run_counts() {
    let mut s = PluginState::new(config(0, false, 100), false, 2, "aarch64".to_string());
    s.init_writer("/bin/guest", 0x1000, 0x9000, 0x1000);
    s.translate_tb(0x1000, 1, 0x1000, 0x1004, None);
    s.translate_tb(0x2000, 1, 0x2000, 0x2004, None);
    assert!(matches!(s.finish(&vec![u64::MAX, 1], 0), Err(ExitError::CountOverflow)));
}
