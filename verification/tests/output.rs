use tcg_prof::output::{ProfileWriter, RecordTag, FILE_MAGIC, FORMAT_VERSION};

/// Write a minimal profile and verify the file header.
#[test]
fn file_header_round_trip() {
    let mut w = ProfileWriter::new(1, false, false, 0x1000, 0x1000, 0x2000, 0x1000);
    w.write_footer(0);
    let buf = w.take_bytes();

    // Verify magic
    let magic = u64::from_le_bytes(buf[0..8].try_into().unwrap());
    assert_eq!(magic, FILE_MAGIC);

    // Verify version
    let version = u16::from_le_bytes([buf[8], buf[9]]);
    assert_eq!(version, FORMAT_VERSION);

    // Verify tier
    assert_eq!(buf[10], 1);

    // Verify pointer size
    assert_eq!(buf[11], 8);

    // Verify load_addr
    let load_addr = u64::from_le_bytes(buf[16..24].try_into().unwrap());
    assert_eq!(load_addr, 0x1000);
}

/// Verify TLV header encoding.
#[test]
fn tlv_header_encoding() {
    let mut w = ProfileWriter::new(0, false, false, 0, 0, 0, 0);
    w.write_string_meta("k", "v");
    w.write_footer(0);
    let data = w.take_bytes();
    // After 64-byte header, first record should be StringMeta
    assert_eq!(data[64], RecordTag::StringMeta.to_byte());
    // len = 1 (key_len) + 1 (key) + 2 (val_len) + 1 (val) = 5
    let len = u32::from_le_bytes([data[65], data[66], data[67], 0]);
    assert_eq!(len, 5);
}

/// Write TB exec batch and verify record count tracking.
#[test]
fn tb_exec_batch_tracking() {
    let mut w = ProfileWriter::new(0, false, false, 0, 0, 0, 0);
    let entries = vec![
        (0x1000u64, 0x100cu64, 4u16, 100u64, 1u64),
        (0x2000, 0x201c, 8, 50, 2),
    ];
    w.write_tb_exec_batch(&entries);
    w.write_footer(0);
    let data = w.take_bytes();
    // Find footer: last record. Read its total_exec_count.
    // The footer tag is 0xFF, preceded by the TLV header.
    let footer_pos = data.windows(1).rposition(|w| w[0] == 0xFF).unwrap();
    let payload = &data[footer_pos + 4..];
    let total_exec = u64::from_le_bytes(payload[16..24].try_into().unwrap());
    assert_eq!(total_exec, 150); // 100 + 50
}

/// Write branch edge batch and verify edge count tracking.
#[test]
fn branch_edge_batch_tracking() {
    let mut w = ProfileWriter::new(1, false, false, 0, 0, 0, 0);
    let edges = vec![(0x1000u64, 0x2000u64, 42u64), (0x3000, 0x4000, 7)];
    w.write_branch_edge_batch(&edges);
    w.write_footer(0);
    let data = w.take_bytes();
    let footer_pos = data.windows(1).rposition(|w| w[0] == 0xFF).unwrap();
    let payload = &data[footer_pos + 4..];
    let total_edges = u64::from_le_bytes(payload[8..16].try_into().unwrap());
    assert_eq!(total_edges, 2);
}

#[test]
fn written_profile_parses_back() {
    let mut w = ProfileWriter::new(2, true, false, 0x4000, 0x4000, 0x8000, 0x4100);
    w.write_string_meta("arch", "riscv64");
    w.write_symbol_entry(1, 0x4100, "main");
    w.write_tb_exec_batch(&[(0x4100, 0x410c, 4, 9, 1)]);
    w.write_branch_edge_batch(&[(0x410c, 0x4200, 3)]);
    w.write_fall_through_batch(&[(0x410c, 0x4110, 6)]);
    w.write_direct_call_batch(&[(0x4104, 0x4300, 9)]);
    w.write_indirect_call_batch(&[(0x4108, 0x4400, 2)]);
    w.write_tb_resource(0x4100, 0x4, 0);
    w.write_discontinuity(1, 0x4108, 0x100, 5);
    w.write_footer(77);
    let data = w.take_bytes();
    let p = tcg_prof::native::parse(&data).unwrap();
    assert_eq!(p.header.tier, 2);
    assert_eq!(p.header.flags, 1);
    assert_eq!(p.header.entry_addr, 0x4100);
    assert_eq!(p.metadata_get("arch").map(|s| s.as_str()), Some("riscv64"));
    assert_eq!(p.symbol_for_id(1), Some("main"));
    assert_eq!(p.tb_execs.len(), 1);
    assert_eq!(p.tb_execs[0].exec_count, 9);
    assert_eq!((p.branch_edges[0].from, p.branch_edges[0].to, p.branch_edges[0].count), (0x410c, 0x4200, 3));
    assert_eq!(p.fall_through_edges[0].count, 6);
    assert_eq!(p.direct_calls[0].target, 0x4300);
    assert_eq!(p.indirect_calls[0].count, 2);
    assert_eq!(p.tb_resources[0].coproc_flags, 0x4);
    assert_eq!(p.discon_events[0].count, 5);
    let footer = p.footer.unwrap();
    assert_eq!(footer.total_tb_count, 1);
    assert_eq!(footer.total_edge_records, 2);
    assert_eq!(footer.total_exec_count, 9);
    assert_eq!(footer.wall_time_ns, 77);
    assert!(footer.clean_exit);
}

#[test]
fn take_bytes_empties_the_buffer() {
    let mut w = ProfileWriter::new(0, false, true, 0, 0, 0, 0);
    assert_eq!(w.take_bytes().len(), 64);
    assert!(w.take_bytes().is_empty());
    w.write_flush_marker(5, 1, 2);
    let b = w.take_bytes();
    assert_eq!(b.len(), 4 + 16);
    assert_eq!(b[0], RecordTag::FlushMarker.to_byte());
}
