//! The human-readable listing of a native profile: its header,
//! metadata and symbols, the hottest blocks and branch edges, and the
//! sizes of the other record groups.

use vstd::prelude::*;
use crate::native::{EdgeRecord, FileHeader, Footer, Profile, SymbolRecord, TbExec, FLAG_SYSEMU, FLAG_STREAMING};
use crate::sorting::{is_desc_order, rank_desc};
use crate::state::{tier_name, tier_name_spec};
use crate::text::{dec_text, hex_text, pad3, push_dec, push_dec_width3, push_hex, push_str, utf8};

verus! {

// --- The listing ---

/// `true` or `false`, as `{}` prints a `bool`.
pub open spec fn bool_text(b: bool) -> Seq<u8> {
    if b {
        utf8("true"@)
    } else {
        utf8("false"@)
    }
}

/// `  version=<v> tier=<t> (<name>) ptr_size=<p> flags=0x<f>`.
pub open spec fn header_format_line(h: FileHeader) -> Seq<u8> {
    utf8("  version="@) + dec_text(h.format_version as nat) + utf8(" tier="@) + dec_text(
        h.tier as nat,
    ) + utf8(" ("@) + utf8(tier_name_spec(h.tier)) + utf8(") ptr_size="@) + dec_text(
        h.pointer_size as nat,
    ) + utf8(" flags=0x"@) + hex_text(h.flags as nat) + utf8("\n"@)
}

/// `  load_addr=0x<l> text=[0x<s>, 0x<e>) entry=0x<a>`.
pub open spec fn header_layout_line(h: FileHeader) -> Seq<u8> {
    utf8("  load_addr=0x"@) + hex_text(h.load_addr as nat) + utf8(" text=[0x"@) + hex_text(
        h.text_start as nat,
    ) + utf8(", 0x"@) + hex_text(h.text_end as nat) + utf8(") entry=0x"@) + hex_text(
        h.entry_addr as nat,
    ) + utf8("\n"@)
}

/// `  sysemu=<bool> streaming=<bool>`: the two flag bits.
pub open spec fn header_flags_line(h: FileHeader) -> Seq<u8> {
    utf8("  sysemu="@) + bool_text(h.flags & FLAG_SYSEMU != 0) + utf8(" streaming="@) + bool_text(
        h.flags & FLAG_STREAMING != 0,
    ) + utf8("\n"@)
}

/// The header section: format version, tier and its name, pointer
/// size, flags, the address layout, and the two flag bits by name.
pub open spec fn header_text(h: FileHeader) -> Seq<u8> {
    utf8("Header:\n"@) + header_format_line(h) + header_layout_line(h) + header_flags_line(h)
}

/// One `  key=value` line per metadata entry, in order.
pub open spec fn metadata_lines(m: Seq<(String, String)>) -> Seq<u8>
    decreases m.len(),
{
    if m.len() == 0 {
        Seq::empty()
    } else {
        metadata_lines(m.drop_last()) + utf8("  "@) + utf8(m.last().0@) + utf8("="@) + utf8(
            m.last().1@,
        ) + utf8("\n"@)
    }
}

/// `  [id] 0x<addr> <name>`: a symbol.
pub open spec fn symbol_line(s: SymbolRecord) -> Seq<u8> {
    utf8("  ["@) + dec_text(s.sym_id as nat) + utf8("] 0x"@) + hex_text(s.addr as nat) + utf8(
        " "@,
    ) + utf8(s.name@) + utf8("\n"@)
}

/// One line per symbol, in order.
pub open spec fn symbol_lines(s: Seq<SymbolRecord>) -> Seq<u8>
    decreases s.len(),
{
    if s.len() == 0 {
        Seq::empty()
    } else {
        symbol_lines(s.drop_last()) + symbol_line(s.last())
    }
}

/// The number of entries listed of a group of `n`: at most 20.
pub open spec fn shown(n: nat) -> nat {
    if n < 20 {
        n
    } else {
        20
    }
}

/// `  ... and <n - 20> more`, where more than 20 entries were left out
/// of the listing.
pub open spec fn more_line(n: nat) -> Seq<u8> {
    if n > 20 {
        utf8("  ... and "@) + dec_text((n - 20) as nat) + utf8(" more\n"@)
    } else {
        Seq::empty()
    }
}

/// The run counts of blocks.
pub open spec fn exec_counts(tbs: Seq<TbExec>) -> Seq<u64> {
    tbs.map_values(|t: TbExec| t.exec_count)
}

/// The counts of edges.
pub open spec fn edge_counts(es: Seq<EdgeRecord>) -> Seq<u64> {
    es.map_values(|e: EdgeRecord| e.count)
}

/// `  [  i] 0x<start>-0x<end> n_insns=<n> exec=<c> first_seen=<seq>`:
/// the block ranked `i`.
pub open spec fn tb_line(i: nat, t: TbExec) -> Seq<u8> {
    utf8("  ["@) + pad3(dec_text(i)) + utf8("] 0x"@) + hex_text(t.start_addr as nat) + utf8("-0x"@)
        + hex_text(t.end_addr as nat) + utf8(" n_insns="@) + dec_text(t.n_insns as nat) + utf8(
        " exec="@,
    ) + dec_text(t.exec_count as nat) + utf8(" first_seen="@) + dec_text(t.first_seen_seq as nat)
        + utf8("\n"@)
}

/// The lines of the first `k` blocks of `order`.
pub open spec fn tb_lines(tbs: Seq<TbExec>, order: Seq<usize>, k: nat) -> Seq<u8>
    decreases k,
{
    if k == 0 {
        Seq::empty()
    } else {
        tb_lines(tbs, order, (k - 1) as nat) + tb_line((k - 1) as nat, tbs[order[k - 1] as int])
    }
}

/// `  [  i] 0x<from> -> 0x<to> count=<c>`: the edge ranked `i`.
pub open spec fn edge_line(i: nat, e: EdgeRecord) -> Seq<u8> {
    utf8("  ["@) + pad3(dec_text(i)) + utf8("] 0x"@) + hex_text(e.from as nat) + utf8(" -> 0x"@)
        + hex_text(e.to as nat) + utf8(" count="@) + dec_text(e.count as nat) + utf8("\n"@)
}

/// The lines of the first `k` edges of `order`.
pub open spec fn edge_lines(es: Seq<EdgeRecord>, order: Seq<usize>, k: nat) -> Seq<u8>
    decreases k,
{
    if k == 0 {
        Seq::empty()
    } else {
        edge_lines(es, order, (k - 1) as nat) + edge_line((k - 1) as nat, es[order[k - 1] as int])
    }
}

/// `<label><n>` on a line of its own where `n` is not 0; nothing
/// otherwise.
pub open spec fn count_line(label: Seq<char>, n: nat) -> Seq<u8> {
    if n > 0 {
        utf8(label) + dec_text(n) + utf8("\n"@)
    } else {
        Seq::empty()
    }
}

/// The footer section. Of a footer the line ends with `wall_time=`,
/// the elapsed seconds being left to the caller.
pub open spec fn footer_text(f: Option<Footer>) -> Seq<u8> {
    match f {
        Some(f) => utf8("\nFooter:\n  clean_exit="@) + bool_text(f.clean_exit) + utf8(
            " total_tbs="@,
        ) + dec_text(f.total_tb_count as nat) + utf8(" total_edges="@) + dec_text(
            f.total_edge_records as nat,
        ) + utf8(" total_exec="@) + dec_text(f.total_exec_count as nat) + utf8(" wall_time="@),
        None => utf8("\nFooter: MISSING (crash or incomplete write)\n"@),
    }
}

/// The listing of `p` with the blocks ranked by `tb_order` and the
/// branch edges by `edge_order`: the header, the metadata, the
/// symbols, the 20 hottest blocks and branch edges with the number left
/// out, the number of fall-through edges, the sizes of the other
/// groups that are not empty, and the footer.
pub open spec fn dump_text(p: Profile, tb_order: Seq<usize>, edge_order: Seq<usize>) -> Seq<u8> {
    header_text(p.header) + utf8("\nMetadata:\n"@) + metadata_lines(p.metadata@) + utf8(
        "\nSymbols: "@,
    ) + dec_text(p.symbols@.len()) + utf8("\n"@) + symbol_lines(p.symbols@) + utf8(
        "\nTB Execs: "@,
    ) + dec_text(p.tb_execs@.len()) + utf8("\n"@) + tb_lines(
        p.tb_execs@,
        tb_order,
        shown(p.tb_execs@.len()),
    ) + more_line(p.tb_execs@.len()) + utf8("\nBranch Edges: "@) + dec_text(p.branch_edges@.len())
        + utf8("\n"@) + edge_lines(p.branch_edges@, edge_order, shown(p.branch_edges@.len()))
        + more_line(p.branch_edges@.len()) + utf8("\nFall-Through Edges: "@) + dec_text(
        p.fall_through_edges@.len(),
    ) + utf8("\n"@) + count_line("\nDirect Calls: "@, p.direct_calls@.len()) + count_line(
        "Indirect Calls: "@,
        p.indirect_calls@.len(),
    ) + count_line("TB Resources: "@, p.tb_resources@.len()) + count_line(
        "Discontinuities: "@,
        p.discon_events@.len(),
    ) + footer_text(p.footer)
}

fn push_bool(out: &mut Vec<u8>, b: bool)
    ensures
        final(out)@ == old(out)@ + bool_text(b),
{
    if b {
        push_str(out, "true");
    } else {
        push_str(out, "false");
    }
}

fn push_format_line(out: &mut Vec<u8>, h: &FileHeader)
    ensures
        final(out)@ == old(out)@ + header_format_line(*h),
{
    let ghost start = out@;
    push_str(out, "  version=");
    push_dec(out, h.format_version as u64);
    push_str(out, " tier=");
    push_dec(out, h.tier as u64);
    push_str(out, " (");
    push_str(out, tier_name(h.tier));
    push_str(out, ") ptr_size=");
    push_dec(out, h.pointer_size as u64);
    push_str(out, " flags=0x");
    push_hex(out, h.flags as u64);
    push_str(out, "\n");
    assert(out@ =~= start + header_format_line(*h));
}

fn push_layout_line(out: &mut Vec<u8>, h: &FileHeader)
    ensures
        final(out)@ == old(out)@ + header_layout_line(*h),
{
    let ghost start = out@;
    push_str(out, "  load_addr=0x");
    push_hex(out, h.load_addr);
    push_str(out, " text=[0x");
    push_hex(out, h.text_start);
    push_str(out, ", 0x");
    push_hex(out, h.text_end);
    push_str(out, ") entry=0x");
    push_hex(out, h.entry_addr);
    push_str(out, "\n");
    assert(out@ =~= start + header_layout_line(*h));
}

fn push_flags_line(out: &mut Vec<u8>, h: &FileHeader)
    ensures
        final(out)@ == old(out)@ + header_flags_line(*h),
{
    let ghost start = out@;
    push_str(out, "  sysemu=");
    push_bool(out, h.flags & FLAG_SYSEMU != 0);
    push_str(out, " streaming=");
    push_bool(out, h.flags & FLAG_STREAMING != 0);
    push_str(out, "\n");
    assert(out@ =~= start + header_flags_line(*h));
}

fn push_header(out: &mut Vec<u8>, h: &FileHeader)
    ensures
        final(out)@ == old(out)@ + header_text(*h),
{
    let ghost start = out@;
    push_str(out, "Header:\n");
    push_format_line(out, h);
    push_layout_line(out, h);
    push_flags_line(out, h);
    assert(out@ =~= start + header_text(*h));
}

fn push_metadata(out: &mut Vec<u8>, m: &Vec<(String, String)>)
    ensures
        final(out)@ == old(out)@ + metadata_lines(m@),
{
    let ghost start = out@;
    let mut i: usize = 0;
    while i < m.len()
        invariant
            i <= m@.len(),
            out@ == start + metadata_lines(m@.take(i as int)),
        decreases m@.len() - i,
    {
        let ghost before = out@;
        push_str(out, "  ");
        push_str(out, m[i].0.as_str());
        push_str(out, "=");
        push_str(out, m[i].1.as_str());
        push_str(out, "\n");
        proof {
            let t = m@.take(i + 1);
            assert(t.drop_last() =~= m@.take(i as int));
            assert(t.last() == m@[i as int]);
            assert(out@ =~= start + metadata_lines(t));
        }
        i = i + 1;
    }
    assert(m@.take(m@.len() as int) =~= m@);
}

fn push_symbols(out: &mut Vec<u8>, syms: &Vec<SymbolRecord>)
    ensures
        final(out)@ == old(out)@ + symbol_lines(syms@),
{
    let ghost start = out@;
    let mut i: usize = 0;
    while i < syms.len()
        invariant
            i <= syms@.len(),
            out@ == start + symbol_lines(syms@.take(i as int)),
        decreases syms@.len() - i,
    {
        let s = &syms[i];
        push_str(out, "  [");
        push_dec(out, s.sym_id as u64);
        push_str(out, "] 0x");
        push_hex(out, s.addr);
        push_str(out, " ");
        push_str(out, s.name.as_str());
        push_str(out, "\n");
        proof {
            let t = syms@.take(i + 1);
            assert(t.drop_last() =~= syms@.take(i as int));
            assert(t.last() == syms@[i as int]);
            assert(out@ =~= start + symbol_lines(t));
        }
        i = i + 1;
    }
    assert(syms@.take(syms@.len() as int) =~= syms@);
}

fn push_more(out: &mut Vec<u8>, n: usize)
    ensures
        final(out)@ == old(out)@ + more_line(n as nat),
{
    if n > 20 {
        let ghost start = out@;
        push_str(out, "  ... and ");
        push_dec(out, (n - 20) as u64);
        push_str(out, " more\n");
        assert(out@ =~= start + more_line(n as nat));
    }
}

fn push_count_line(out: &mut Vec<u8>, label: &str, n: usize)
    ensures
        final(out)@ == old(out)@ + count_line(label@, n as nat),
{
    if n > 0 {
        let ghost start = out@;
        push_str(out, label);
        push_dec(out, n as u64);
        push_str(out, "\n");
        assert(out@ =~= start + count_line(label@, n as nat));
    }
}

fn push_tb_line(out: &mut Vec<u8>, k: usize, t: &TbExec)
    ensures
        final(out)@ == old(out)@ + tb_line(k as nat, *t),
{
    let ghost start = out@;
    push_str(out, "  [");
    push_dec_width3(out, k as u64);
    push_str(out, "] 0x");
    push_hex(out, t.start_addr);
    push_str(out, "-0x");
    push_hex(out, t.end_addr);
    let ghost a = utf8("  ["@) + pad3(dec_text(k as nat)) + utf8("] 0x"@) + hex_text(
        t.start_addr as nat,
    ) + utf8("-0x"@) + hex_text(t.end_addr as nat);
    assert(out@ =~= start + a);
    let ghost mid = out@;
    push_str(out, " n_insns=");
    push_dec(out, t.n_insns as u64);
    push_str(out, " exec=");
    push_dec(out, t.exec_count);
    push_str(out, " first_seen=");
    push_dec(out, t.first_seen_seq);
    push_str(out, "\n");
    let ghost b = utf8(" n_insns="@) + dec_text(t.n_insns as nat) + utf8(" exec="@) + dec_text(
        t.exec_count as nat,
    ) + utf8(" first_seen="@) + dec_text(t.first_seen_seq as nat) + utf8("\n"@);
    assert(out@ =~= mid + b);
    assert(tb_line(k as nat, *t) =~= a + b);
    assert(out@ =~= start + tb_line(k as nat, *t));
}

fn push_edge_line(out: &mut Vec<u8>, k: usize, e: &EdgeRecord)
    ensures
        final(out)@ == old(out)@ + edge_line(k as nat, *e),
{
    let ghost start = out@;
    push_str(out, "  [");
    push_dec_width3(out, k as u64);
    push_str(out, "] 0x");
    push_hex(out, e.from);
    push_str(out, " -> 0x");
    push_hex(out, e.to);
    push_str(out, " count=");
    push_dec(out, e.count);
    push_str(out, "\n");
    assert(out@ =~= start + edge_line(k as nat, *e));
}

fn push_top_tbs(out: &mut Vec<u8>, tbs: &Vec<TbExec>) -> (order: Ghost<Seq<usize>>)
    ensures
        is_desc_order(exec_counts(tbs@), order@),
        final(out)@ == old(out)@ + tb_lines(tbs@, order@, shown(tbs@.len())),
{
    let n = tbs.len();
    let mut counts: Vec<u64> = Vec::new();
    let mut i: usize = 0;
    while i < n
        invariant
            n == tbs@.len(),
            i <= n,
            counts@ == exec_counts(tbs@.take(i as int)),
        decreases n - i,
    {
        counts.push(tbs[i].exec_count);
        i = i + 1;
        assert(exec_counts(tbs@.take(i as int)) =~= exec_counts(tbs@.take(i - 1)).push(
            tbs@[i - 1].exec_count,
        ));
    }
    assert(tbs@.take(n as int) =~= tbs@);
    let order = rank_desc(&counts);
    let lim: usize = if n < 20 { n } else { 20 };
    let ghost start = out@;
    let mut k: usize = 0;
    while k < lim
        invariant
            n == tbs@.len(),
            lim == shown(n as nat),
            k <= lim,
            is_desc_order(exec_counts(tbs@), order@),
            out@ == start + tb_lines(tbs@, order@, k as nat),
        decreases lim - k,
    {
        push_tb_line(out, k, &tbs[order[k]]);
        assert(out@ =~= start + tb_lines(tbs@, order@, (k + 1) as nat));
        k = k + 1;
    }
    Ghost(order@)
}

fn push_top_edges(out: &mut Vec<u8>, es: &Vec<EdgeRecord>) -> (order: Ghost<Seq<usize>>)
    ensures
        is_desc_order(edge_counts(es@), order@),
        final(out)@ == old(out)@ + edge_lines(es@, order@, shown(es@.len())),
{
    let n = es.len();
    let mut counts: Vec<u64> = Vec::new();
    let mut i: usize = 0;
    while i < n
        invariant
            n == es@.len(),
            i <= n,
            counts@ == edge_counts(es@.take(i as int)),
        decreases n - i,
    {
        counts.push(es[i].count);
        i = i + 1;
        assert(edge_counts(es@.take(i as int)) =~= edge_counts(es@.take(i - 1)).push(
            es@[i - 1].count,
        ));
    }
    assert(es@.take(n as int) =~= es@);
    let order = rank_desc(&counts);
    let lim: usize = if n < 20 { n } else { 20 };
    let ghost start = out@;
    let mut k: usize = 0;
    while k < lim
        invariant
            n == es@.len(),
            lim == shown(n as nat),
            k <= lim,
            is_desc_order(edge_counts(es@), order@),
            out@ == start + edge_lines(es@, order@, k as nat),
        decreases lim - k,
    {
        push_edge_line(out, k, &es[order[k]]);
        assert(out@ =~= start + edge_lines(es@, order@, (k + 1) as nat));
        k = k + 1;
    }
    Ghost(order@)
}

fn push_footer(out: &mut Vec<u8>, f: &Option<Footer>)
    ensures
        final(out)@ == old(out)@ + footer_text(*f),
{
    let ghost start = out@;
    match f {
        Some(f) => {
            push_str(out, "\nFooter:\n  clean_exit=");
            push_bool(out, f.clean_exit);
            push_str(out, " total_tbs=");
            push_dec(out, f.total_tb_count);
            push_str(out, " total_edges=");
            push_dec(out, f.total_edge_records);
            push_str(out, " total_exec=");
            push_dec(out, f.total_exec_count);
            push_str(out, " wall_time=");
        },
        None => {
            push_str(out, "\nFooter: MISSING (crash or incomplete write)\n");
        },
    }
    assert(out@ =~= start + footer_text(*f));
}

/// The listing of a profile for reading. The blocks and the branch
/// edges are each ranked by decreasing count, equal counts in record
/// order, and the first 20 of each are listed. Where the profile has a
/// footer the text ends with `wall_time=`: the elapsed seconds, a
/// fraction, are the caller's to write.
pub fn dump_report(profile: &Profile) -> (out: Vec<u8>)
    ensures
        exists|tb_order: Seq<usize>, edge_order: Seq<usize>|
            is_desc_order(exec_counts(profile.tb_execs@), tb_order) && is_desc_order(
                edge_counts(profile.branch_edges@),
                edge_order,
            ) && out@ == dump_text(*profile, tb_order, edge_order),
{
    let mut out: Vec<u8> = Vec::new();
    push_header(&mut out, &profile.header);
    push_str(&mut out, "\nMetadata:\n");
    push_metadata(&mut out, &profile.metadata);
    push_str(&mut out, "\nSymbols: ");
    push_dec(&mut out, profile.symbols.len() as u64);
    push_str(&mut out, "\n");
    push_symbols(&mut out, &profile.symbols);
    push_str(&mut out, "\nTB Execs: ");
    push_dec(&mut out, profile.tb_execs.len() as u64);
    push_str(&mut out, "\n");
    let tb_order = push_top_tbs(&mut out, &profile.tb_execs);
    push_more(&mut out, profile.tb_execs.len());
    push_str(&mut out, "\nBranch Edges: ");
    push_dec(&mut out, profile.branch_edges.len() as u64);
    push_str(&mut out, "\n");
    let edge_order = push_top_edges(&mut out, &profile.branch_edges);
    push_more(&mut out, profile.branch_edges.len());
    push_str(&mut out, "\nFall-Through Edges: ");
    push_dec(&mut out, profile.fall_through_edges.len() as u64);
    push_str(&mut out, "\n");
    push_count_line(&mut out, "\nDirect Calls: ", profile.direct_calls.len());
    push_count_line(&mut out, "Indirect Calls: ", profile.indirect_calls.len());
    push_count_line(&mut out, "TB Resources: ", profile.tb_resources.len());
    push_count_line(&mut out, "Discontinuities: ", profile.discon_events.len());
    push_footer(&mut out, &profile.footer);
    assert(out@ =~= dump_text(*profile, tb_order@, edge_order@));
    out
}

} // verus!
