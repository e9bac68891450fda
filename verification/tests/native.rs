use tcg_prof::native::{parse, parse_checked, HeaderField, ParseError, FILE_MAGIC};

/// Builds a minimal valid profile in memory.
fn build_test_profile(
    tier: u8,
    tb_execs: &[(u64, u64, u16, u64, u64)],
    branch_edges: &[(u64, u64, u64)],
    fall_throughs: &[(u64, u64, u64)],
) -> Vec<u8> {
    let mut f: Vec<u8> = Vec::new();

    // File header (64 bytes)
    f.extend_from_slice(&FILE_MAGIC.to_le_bytes());
    f.extend_from_slice(&1u16.to_le_bytes()); // version
    f.extend_from_slice(&[tier]); // tier
    f.extend_from_slice(&[8u8]); // pointer_size
    f.extend_from_slice(&0u32.to_le_bytes()); // flags
    f.extend_from_slice(&0x1000u64.to_le_bytes()); // load_addr
    f.extend_from_slice(&0x1000u64.to_le_bytes()); // text_start
    f.extend_from_slice(&0x9000u64.to_le_bytes()); // text_end
    f.extend_from_slice(&0x1000u64.to_le_bytes()); // entry
    f.extend_from_slice(&[0u8; 16]); // build_id

    // String metadata record
    write_tlv(&mut f, 0x01, &build_string_meta("arch", "hexagon"));

    // TB exec batch
    if !tb_execs.is_empty() {
        let mut payload = Vec::new();
        payload.extend_from_slice(&(tb_execs.len() as u32).to_le_bytes());
        for &(addr, end_addr, n_insns, exec, seq) in tb_execs {
            payload.extend_from_slice(&addr.to_le_bytes());
            payload.extend_from_slice(&end_addr.to_le_bytes());
            payload.extend_from_slice(&n_insns.to_le_bytes());
            payload.extend_from_slice(&[0u8; 6]); // pad
            payload.extend_from_slice(&exec.to_le_bytes());
            payload.extend_from_slice(&seq.to_le_bytes());
        }
        write_tlv(&mut f, 0x13, &payload);
    }

    // Branch edge batch
    if !branch_edges.is_empty() {
        let mut payload = Vec::new();
        payload.extend_from_slice(&(branch_edges.len() as u32).to_le_bytes());
        for &(from, to, count) in branch_edges {
            payload.extend_from_slice(&from.to_le_bytes());
            payload.extend_from_slice(&to.to_le_bytes());
            payload.extend_from_slice(&count.to_le_bytes());
        }
        write_tlv(&mut f, 0x21, &payload);
    }

    // Fall-through batch
    if !fall_throughs.is_empty() {
        let mut payload = Vec::new();
        payload.extend_from_slice(&(fall_throughs.len() as u32).to_le_bytes());
        for &(from, to, count) in fall_throughs {
            payload.extend_from_slice(&from.to_le_bytes());
            payload.extend_from_slice(&to.to_le_bytes());
            payload.extend_from_slice(&count.to_le_bytes());
        }
        write_tlv(&mut f, 0x23, &payload);
    }

    // Footer
    let mut footer_payload = Vec::new();
    footer_payload.extend_from_slice(&(tb_execs.len() as u64).to_le_bytes());
    let total_edges = (branch_edges.len() + fall_throughs.len()) as u64;
    footer_payload.extend_from_slice(&total_edges.to_le_bytes());
    let total_exec: u64 = tb_execs.iter().map(|t| t.3).sum();
    footer_payload.extend_from_slice(&total_exec.to_le_bytes());
    footer_payload.extend_from_slice(&1000000u64.to_le_bytes()); // wall_time
    footer_payload.extend_from_slice(&1u32.to_le_bytes()); // clean exit
    footer_payload.extend_from_slice(&[0u8; 4]); // reserved
    write_tlv(&mut f, 0xFF, &footer_payload);

    f
}

fn write_tlv(f: &mut Vec<u8>, tag: u8, payload: &[u8]) {
    let len = payload.len() as u32;
    let len_bytes = len.to_le_bytes();
    f.extend_from_slice(&[tag, len_bytes[0], len_bytes[1], len_bytes[2]]);
    f.extend_from_slice(payload);
}

fn build_string_meta(key: &str, val: &str) -> Vec<u8> {
    let mut payload = Vec::new();
    payload.push(key.len() as u8);
    payload.extend_from_slice(key.as_bytes());
    payload.extend_from_slice(&(val.len() as u16).to_le_bytes());
    payload.extend_from_slice(val.as_bytes());
    payload
}

fn header(tier: u8) -> Vec<u8> {
    let mut f = Vec::new();
    f.extend_from_slice(&FILE_MAGIC.to_le_bytes());
    f.extend_from_slice(&1u16.to_le_bytes()); // version
    f.extend_from_slice(&[tier]); // tier
    f.extend_from_slice(&[8u8]); // ptr_size
    f.extend_from_slice(&0u32.to_le_bytes()); // flags
    f.extend_from_slice(&0u64.to_le_bytes()); // load_addr
    f.extend_from_slice(&0u64.to_le_bytes()); // text_start
    f.extend_from_slice(&0u64.to_le_bytes()); // text_end
    f.extend_from_slice(&0u64.to_le_bytes()); // entry_addr
    f.extend_from_slice(&[0u8; 16]); // build_id
    f
}

#[test]
fn parse_minimal_profile() {
    let data = build_test_profile(1, &[], &[], &[]);
    let profile = parse(&data).unwrap();
    assert_eq!(profile.header.format_version, 1);
    assert_eq!(profile.header.tier, 1);
    assert_eq!(profile.header.load_addr, 0x1000);
    assert_eq!(profile.metadata_get("arch").map(|s| s.as_str()), Some("hexagon"));
    assert!(profile.footer.is_some());
    assert!(profile.footer.unwrap().clean_exit);
}

#[test]
fn parse_tb_exec_data() {
    let tb_execs = vec![
        (0x1000u64, 0x100cu64, 4u16, 100u64, 1u64),
        (0x2000, 0x201c, 8, 50, 2),
        (0x3000, 0x3004, 2, 200, 3),
    ];
    let data = build_test_profile(0, &tb_execs, &[], &[]);
    let profile = parse(&data).unwrap();

    assert_eq!(profile.tb_execs.len(), 3);
    assert_eq!(profile.tb_execs[0].start_addr, 0x1000);
    assert_eq!(profile.tb_execs[0].end_addr, 0x100c);
    assert_eq!(profile.tb_execs[0].n_insns, 4);
    assert_eq!(profile.tb_execs[0].exec_count, 100);
    assert_eq!(profile.tb_execs[0].first_seen_seq, 1);
    assert_eq!(profile.tb_execs[2].exec_count, 200);

    let footer = profile.footer.unwrap();
    assert_eq!(footer.total_tb_count, 3);
    assert_eq!(footer.total_exec_count, 350);
}

#[test]
fn parse_branch_and_fall_through_edges() {
    let branches = vec![(0x100cu64, 0x2000u64, 42u64), (0x200cu64, 0x3000u64, 7u64)];
    let fall_throughs = vec![(0x100cu64, 0x1010u64, 58u64)];
    let data = build_test_profile(1, &[], &branches, &fall_throughs);
    let profile = parse(&data).unwrap();

    assert_eq!(profile.branch_edges.len(), 2);
    assert_eq!(profile.branch_edges[0].from, 0x100c);
    assert_eq!(profile.branch_edges[0].to, 0x2000);
    assert_eq!(profile.branch_edges[0].count, 42);

    assert_eq!(profile.fall_through_edges.len(), 1);
    assert_eq!(profile.fall_through_edges[0].count, 58);
}

#[test]
fn parse_bad_magic_returns_error() {
    let mut data = Vec::new();
    data.extend_from_slice(&0xDEADBEEFu64.to_le_bytes());
    data.extend_from_slice(&[0u8; 56]); // fill rest of header
    let result = parse(&data);
    assert!(result.is_err());
    assert!(result.unwrap_err().message().contains("bad magic"));
}

#[test]
fn parse_header_only_no_records() {
    // A file with just a 64-byte header and no records should
    // parse successfully (no footer).
    let data = header(1);
    let profile = parse(&data).unwrap();
    assert!(profile.footer.is_none());
    assert!(profile.tb_execs.is_empty());
}

#[test]
fn merged_edges_combines_branch_and_fall_through() {
    let data = build_test_profile(1, &[], &[(0x100c, 0x2000, 10)], &[(0x100c, 0x2000, 5)]);
    let profile = parse(&data).unwrap();
    let merged = profile.merged_edges();
    let e = merged.iter().find(|e| e.from == 0x100c && e.to == 0x2000).unwrap();
    assert_eq!(e.count, 15);
}

#[test]
fn unknown_tags_are_skipped() {
    let mut f = Vec::new();
    // Header
    f.extend_from_slice(&FILE_MAGIC.to_le_bytes());
    f.extend_from_slice(&1u16.to_le_bytes());
    f.extend_from_slice(&[1u8, 8u8]);
    f.extend_from_slice(&0u32.to_le_bytes());
    f.extend_from_slice(&[0u8; 40]);
    // Unknown tag 0xAA with 4 bytes of payload
    write_tlv(&mut f, 0xAA, &[1, 2, 3, 4]);
    // Valid footer
    let mut footer = Vec::new();
    footer.extend_from_slice(&0u64.to_le_bytes()); // tb count
    footer.extend_from_slice(&0u64.to_le_bytes()); // edge count
    footer.extend_from_slice(&0u64.to_le_bytes()); // exec count
    footer.extend_from_slice(&0u64.to_le_bytes()); // wall time
    footer.extend_from_slice(&1u32.to_le_bytes()); // flags
    footer.extend_from_slice(&[0u8; 4]);
    write_tlv(&mut f, 0xFF, &footer);
    let profile = parse(&f).unwrap();
    assert!(profile.footer.is_some());
    assert!(profile.footer.unwrap().clean_exit);
}

/// Duplicate edges from multiple streaming flushes are merged.
#[test]
fn streaming_duplicate_edges_merged() {
    let mut f = header(1);

    // First batch: edge A->B count=10, edge C->D count=5
    let mut payload1 = Vec::new();
    payload1.extend_from_slice(&2u32.to_le_bytes());
    for &(from, to, count) in &[(0x1000u64, 0x2000u64, 10u64), (0x3000u64, 0x4000u64, 5u64)] {
        payload1.extend_from_slice(&from.to_le_bytes());
        payload1.extend_from_slice(&to.to_le_bytes());
        payload1.extend_from_slice(&count.to_le_bytes());
    }
    write_tlv(&mut f, 0x21, &payload1);

    // Second batch: edge A->B count=20 (duplicate)
    let mut payload2 = Vec::new();
    payload2.extend_from_slice(&1u32.to_le_bytes());
    payload2.extend_from_slice(&0x1000u64.to_le_bytes());
    payload2.extend_from_slice(&0x2000u64.to_le_bytes());
    payload2.extend_from_slice(&20u64.to_le_bytes());
    write_tlv(&mut f, 0x21, &payload2);

    // Footer
    let mut footer = Vec::new();
    footer.extend_from_slice(&0u64.to_le_bytes());
    footer.extend_from_slice(&3u64.to_le_bytes());
    footer.extend_from_slice(&0u64.to_le_bytes());
    footer.extend_from_slice(&0u64.to_le_bytes());
    footer.extend_from_slice(&1u32.to_le_bytes());
    footer.extend_from_slice(&[0u8; 4]);
    write_tlv(&mut f, 0xFF, &footer);

    let profile = parse(&f).unwrap();

    // A->B should be merged: 10 + 20 = 30
    assert_eq!(profile.branch_edges.len(), 2);
    let ab = profile
        .branch_edges
        .iter()
        .find(|e| e.from == 0x1000 && e.to == 0x2000)
        .expect("A->B edge missing");
    assert_eq!(ab.count, 30);
    let cd = profile
        .branch_edges
        .iter()
        .find(|e| e.from == 0x3000 && e.to == 0x4000)
        .expect("C->D edge missing");
    assert_eq!(cd.count, 5);
}

#[test]
fn header_errors_in_field_order() {
    assert_eq!(parse(&[0u8; 4]).err(), Some(ParseError::TruncatedHeader(HeaderField::Magic)));
    let short = &FILE_MAGIC.to_le_bytes()[..];
    assert_eq!(parse(short).err(), Some(ParseError::TruncatedHeader(HeaderField::Version)));
    let mut v2 = header(1);
    v2[8] = 2;
    assert_eq!(parse(&v2).err(), Some(ParseError::UnsupportedVersion(2)));
    assert_eq!(
        parse(&v2).unwrap_err().message(),
        "unsupported format version: 2 (expected 1)"
    );
    let mut p = header(1);
    p[11] = 5;
    assert_eq!(parse(&p).err(), Some(ParseError::InvalidPointerSize(5)));
    assert_eq!(
        parse(&p).unwrap_err().message(),
        "invalid pointer_size: 5 (expected 4 or 8)"
    );
    let trunc = &header(1)[..40];
    assert_eq!(parse(trunc).unwrap_err().message(), "truncated header: entry");
}

#[test]
fn bad_magic_message_has_both_values() {
    let mut data = header(1);
    data[0..8].copy_from_slice(&0xDEADBEEFu64.to_le_bytes());
    assert_eq!(
        parse(&data).unwrap_err().message(),
        format!("bad magic: expected 0x{:016X}, got 0x{:016X}", FILE_MAGIC, 0xDEADBEEFu64)
    );
}

#[test]
fn truncated_record_ends_parsing() {
    let mut data = build_test_profile(1, &[], &[(1, 2, 3)], &[]);
    // Cut the footer record short: it and anything after are ignored.
    data.truncate(data.len() - 10);
    let profile = parse(&data).unwrap();
    assert_eq!(profile.branch_edges.len(), 1);
    assert!(profile.footer.is_none());
}

#[test]
fn checked_parse_reports_count_overflow() {
    let data = build_test_profile(1, &[], &[(1, 2, u64::MAX), (1, 2, 1)], &[]);
    assert!(parse_checked(&data).is_none());
    let ok = build_test_profile(1, &[], &[(1, 2, u64::MAX - 1), (1, 2, 1)], &[]);
    let p = parse_checked(&ok).unwrap().unwrap();
    assert_eq!(p.branch_edges[0].count, u64::MAX);
}

#[test]
fn symbol_lookup_by_id() {
    let mut data = header(0);
    let mut payload = Vec::new();
    payload.extend_from_slice(&7u16.to_le_bytes());
    payload.extend_from_slice(&0x1234u64.to_le_bytes());
    payload.extend_from_slice(&4u16.to_le_bytes());
    payload.extend_from_slice(b"main");
    write_tlv(&mut data, 0x02, &payload);
    let p = parse(&data).unwrap();
    assert_eq!(p.symbol_for_id(7), Some("main"));
    assert_eq!(p.symbol_for_id(8), None);
}

#[test]
fn invalid_utf8_in_names_is_replaced() {
    let mut data = header(0);
    // Symbol entry: id 1, address 0x1000, name "f\xffg".
    let mut payload = Vec::new();
    payload.extend_from_slice(&1u16.to_le_bytes());
    payload.extend_from_slice(&0x1000u64.to_le_bytes());
    payload.extend_from_slice(&3u16.to_le_bytes());
    payload.extend_from_slice(&[b'f', 0xff, b'g']);
    write_tlv(&mut data, 0x02, &payload);
    let p = parse(&data).unwrap();
    assert_eq!(p.symbol_for_id(1), Some("f\u{fffd}g"));
}

#[test]
fn unknown_record_and_truncated_tail_read_as_without_them() {
    let b = build_test_profile(1, &[(0x1000, 0x1004, 1, 3, 1)], &[(1, 2, 3), (1, 2, 4)], &[(5, 6, 7)]);
    let base = format!("{:?}", parse(&b).unwrap());
    let mut with_record = b.clone();
    write_tlv(&mut with_record, 0x77, &[9, 9, 9]);
    assert_eq!(format!("{:?}", parse(&with_record).unwrap()), base);
    let mut with_tail = b.clone();
    with_tail.extend_from_slice(&[0x21, 0x30, 0x00, 0x00, 1, 2]);
    assert_eq!(format!("{:?}", parse(&with_tail).unwrap()), base);
}
