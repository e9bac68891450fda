use tcg_prof::state::{
    parse_plugin_arg, parse_tier, parse_usize, tier_name, PerVcpuStore, PluginArg, PluginConfig,
    SymbolTable, TbKey, TbMeta, TbTable,
};

#[test]
fn tier_name_all_tiers() {
    assert_eq!(tier_name(0), "hotness");
    assert_eq!(tier_name(1), "edges");
    assert_eq!(tier_name(2), "calls");
    assert_eq!(tier_name(3), "resources");
    assert_eq!(tier_name(4), "unknown");
    assert_eq!(tier_name(255), "unknown");
}

#[test]
fn parse_tier_by_name() {
    assert_eq!(parse_tier("hotness"), Some(0));
    assert_eq!(parse_tier("edges"), Some(1));
    assert_eq!(parse_tier("calls"), Some(2));
    assert_eq!(parse_tier("resources"), Some(3));
}

#[test]
fn parse_tier_by_number() {
    assert_eq!(parse_tier("0"), Some(0));
    assert_eq!(parse_tier("1"), Some(1));
    assert_eq!(parse_tier("2"), Some(2));
    assert_eq!(parse_tier("3"), Some(3));
}

#[test]
fn parse_tier_invalid() {
    assert_eq!(parse_tier(""), None);
    assert_eq!(parse_tier("4"), None);
    assert_eq!(parse_tier("garbage"), None);
    assert_eq!(parse_tier("EDGES"), None);
}

#[test]
fn plugin_config_defaults() {
    let cfg = PluginConfig::default();
    assert_eq!(cfg.tier, 1);
    assert_eq!(cfg.output_path, "tcg_prof.prof");
    assert_eq!(cfg.top_n, 65536);
    assert!(!cfg.streaming);
    assert!(cfg.binary_path.is_none());
}

#[test]
fn parse_tier_round_trips_tier_name() {
    for t in 0u8..4 {
        assert_eq!(parse_tier(tier_name(t)), Some(t));
    }
}

#[test]
fn usize_parsing_follows_from_str() {
    assert_eq!(parse_usize(b"42"), Some(42));
    assert_eq!(parse_usize(b"+42"), Some(42));
    assert_eq!(parse_usize(b"0"), Some(0));
    assert_eq!(parse_usize(b""), None);
    assert_eq!(parse_usize(b"+"), None);
    assert_eq!(parse_usize(b"-1"), None);
    assert_eq!(parse_usize(b"12a"), None);
    assert_eq!(parse_usize(b"18446744073709551615"), Some(usize::MAX));
    assert_eq!(parse_usize(b"18446744073709551616"), None);
    for s in ["7", "65536", "+3", "x", "", "99999999999999999999"] {
        assert_eq!(parse_usize(s.as_bytes()), s.parse::<usize>().ok());
    }
}

#[test]
fn plugin_arguments_set_the_config() {
    let mut cfg = PluginConfig::default();
    for arg in ["tier=calls", "output=/tmp/x.prof", "top_n=128", "binary=/bin/true", "other"] {
        cfg.apply(parse_plugin_arg(arg));
    }
    assert_eq!(cfg.tier, 2);
    assert_eq!(cfg.output_path, "/tmp/x.prof");
    assert_eq!(cfg.top_n, 128);
    assert_eq!(cfg.binary_path.as_deref(), Some("/bin/true"));
    assert!(!cfg.streaming);
}

#[test]
fn plugin_argument_kinds() {
    assert!(matches!(parse_plugin_arg("tier=3"), PluginArg::Tier(3)));
    match parse_plugin_arg("tier=fast") {
        PluginArg::UnknownTier(v) => assert_eq!(v, "fast"),
        _ => panic!("expected an unknown tier"),
    }
    assert!(matches!(parse_plugin_arg("top_n=abc"), PluginArg::TopN(None)));
    match parse_plugin_arg("stream=on") {
        PluginArg::Stream(v) => assert_eq!(v, "on"),
        _ => panic!("expected a stream value"),
    }
    assert!(matches!(parse_plugin_arg("tier"), PluginArg::Ignored));
    let mut cfg = PluginConfig::default();
    cfg.apply(parse_plugin_arg("tier=fast"));
    cfg.apply(parse_plugin_arg("top_n=abc"));
    assert_eq!(cfg.tier, 1);
    assert_eq!(cfg.top_n, 65536);
}

#[test]
fn symbol_table_interns_once() {
    let mut t = SymbolTable::new();
    assert_eq!(t.intern("main"), 1);
    assert_eq!(t.intern("foo"), 2);
    assert_eq!(t.intern("main"), 1);
    let e = t.entries();
    assert_eq!(e, vec![(1, "main".to_string()), (2, "foo".to_string())]);
}

#[test]
fn symbol_table_full_returns_zero() {
    let mut t = SymbolTable::new();
    for i in 0..65535u32 {
        assert_eq!(t.intern(&format!("s{}", i)) as u32, i + 1);
    }
    assert_eq!(t.intern("one more"), 0);
    assert_eq!(t.intern("s0"), 1);
}

fn meta(start: u64, n: u16) -> TbMeta {
    TbMeta {
        start_addr: start,
        end_addr: start + 4 * (n as u64 - 1),
        n_insns: n,
        sym_id: 0,
        first_seen_seq: 0,
        fall_through_addr: start + 4 * n as u64,
        ends_with_indirect: false,
        coproc_flags: 0,
    }
}

#[test]
fn tb_table_finds_by_start_and_size() {
    let mut t = TbTable::new();
    assert_eq!(t.insert(meta(0x1000, 4)), 0);
    assert_eq!(t.insert(meta(0x1000, 2)), 1);
    assert_eq!(t.insert(meta(0x2000, 4)), 2);
    assert_eq!(t.find(TbKey { start_addr: 0x1000, n_insns: 2 }), Some(1));
    assert_eq!(t.find(TbKey { start_addr: 0x2000, n_insns: 4 }), Some(2));
    assert_eq!(t.find(TbKey { start_addr: 0x2000, n_insns: 2 }), None);
    t.set_first_seen(2, 7);
    assert_eq!(t.get(2).first_seen_seq, 7);
    assert_eq!(t.len(), 3);
}

#[test]
fn per_vcpu_store_slots() {
    let mut s: PerVcpuStore<u64> = PerVcpuStore::new();
    s.push(5);
    s.push(6);
    assert_eq!(s.len(), 2);
    if let Some(x) = s.get_mut(1) {
        *x = 9;
    }
    assert_eq!(*s.get(1), 9);
    assert!(s.get_mut(2).is_none());
}

#[test]
fn tier_names_parse_back() {
    for t in 0..=u8::MAX {
        let expected = if t <= 3 { Some(t) } else { None };
        assert_eq!(parse_tier(tier_name(t)), expected);
        assert_eq!(parse_tier(&t.to_string()), expected);
    }
}
