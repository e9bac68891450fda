//! Text renderings of a profile for outside tools: BOLT pre-aggregated
//! profiles, llvm-profgen and GCC AutoFDO unsymbolized profiles.

use vstd::prelude::*;
use crate::sorting::{rank_desc, sort_pairs};
use crate::listing::lemma_same_elements;
use crate::decoder::wrap_u64;
use crate::elf_index::{ElfIndex, Symbol, has_symbol_at, name_at_spec};
use crate::native::{CallRecord, EdgeRecord, Profile, TbExec};
use crate::text::{dec_text, hex_text, push_dec, push_hex, push_str, push_str_replacing, replace_byte, utf8};
use crate::bytes::str_eq;
use vstd::string::StringExecFns;

verus! {

/// The base that addresses are made relative to: the profile's load
/// address where it records one, else the image's.
pub open spec fn base_of(profile_load: u64, elf_load: u64) -> u64 {
    if profile_load != 0 {
        profile_load
    } else {
        elf_load
    }
}

/// `a` relative to `base`, modulo 2^64.
pub open spec fn rel(a: u64, base: u64) -> u64 {
    wrap_u64(a - base)
}

fn rel_exec(a: u64, base: u64) -> (r: u64)
    ensures
        r == rel(a, base),
{
    proof {
        crate::decoder::lemma_wrap_u64(a - base);
    }
    if a >= base {
        a - base
    } else {
        a + (u64::MAX - base) + 1
    }
}

fn base_exec(profile: &Profile, elf: &ElfIndex) -> (b: u64)
    ensures
        b == base_of(profile.header.load_addr, elf.load()),
{
    if profile.header.load_addr != 0 {
        profile.header.load_addr
    } else {
        elf.load_addr()
    }
}

// --- BOLT ---

/// `B <from> <to> <count> 0`: a taken branch, with no mispredictions.
pub open spec fn bolt_branch_line(e: EdgeRecord, base: u64) -> Seq<u8> {
    utf8("B "@) + hex_text(rel(e.from, base) as nat) + utf8(" "@) + hex_text(rel(e.to, base) as nat)
        + utf8(" "@) + dec_text(e.count as nat) + utf8(" 0\n"@)
}

/// `F <from> <to> <count>`: a fall-through.
pub open spec fn bolt_fall_through_line(e: EdgeRecord, base: u64) -> Seq<u8> {
    utf8("F "@) + hex_text(rel(e.from, base) as nat) + utf8(" "@) + hex_text(rel(e.to, base) as nat)
        + utf8(" "@) + dec_text(e.count as nat) + utf8("\n"@)
}

/// The `B` lines of `s`.
pub open spec fn bolt_branch_lines(s: Seq<EdgeRecord>, base: u64) -> Seq<u8>
    decreases s.len(),
{
    if s.len() == 0 {
        Seq::empty()
    } else {
        bolt_branch_lines(s.drop_last(), base) + bolt_branch_line(s.last(), base)
    }
}

/// The `F` lines of `s`.
pub open spec fn bolt_fall_through_lines(s: Seq<EdgeRecord>, base: u64) -> Seq<u8>
    decreases s.len(),
{
    if s.len() == 0 {
        Seq::empty()
    } else {
        bolt_fall_through_lines(s.drop_last(), base) + bolt_fall_through_line(s.last(), base)
    }
}

/// The BOLT pre-aggregated profile: the event line, then a `B` line
/// per branch edge and an `F` line per fall-through edge, addresses
/// relative to `base` in hexadecimal.
pub open spec fn bolt_text(branches: Seq<EdgeRecord>, falls: Seq<EdgeRecord>, base: u64) -> Seq<
    u8,
> {
    utf8("E cycles\n"@) + bolt_branch_lines(branches, base) + bolt_fall_through_lines(falls, base)
}

fn push_edge_line(out: &mut Vec<u8>, tag: &str, e: EdgeRecord, base: u64, tail: &str)
    ensures
        final(out)@ == old(out)@ + (utf8(tag@) + hex_text(rel(e.from, base) as nat) + utf8(" "@)
            + hex_text(rel(e.to, base) as nat) + utf8(" "@) + dec_text(e.count as nat) + utf8(
            tail@,
        )),
{
    let ghost start = out@;
    push_str(out, tag);
    push_hex(out, rel_exec(e.from, base));
    push_str(out, " ");
    push_hex(out, rel_exec(e.to, base));
    push_str(out, " ");
    push_dec(out, e.count);
    push_str(out, tail);
    assert(out@ =~= start + (utf8(tag@) + hex_text(rel(e.from, base) as nat) + utf8(" "@) + hex_text(
        rel(e.to, base) as nat,
    ) + utf8(" "@) + dec_text(e.count as nat) + utf8(tail@)));
}

/// Renders the BOLT pre-aggregated profile of `profile`.
pub fn bolt_profile(profile: &Profile, elf: &ElfIndex) -> (out: Vec<u8>)
    ensures
        out@ == bolt_text(
            profile.branch_edges@,
            profile.fall_through_edges@,
            base_of(profile.header.load_addr, elf.load()),
        ),
{
    let base = base_exec(profile, elf);
    let mut out: Vec<u8> = Vec::new();
    push_str(&mut out, "E cycles\n");
    let ghost head = out@;
    let bs = &profile.branch_edges;
    let mut i: usize = 0;
    while i < bs.len()
        invariant
            i <= bs@.len(),
            out@ == head + bolt_branch_lines(bs@.take(i as int), base),
        decreases bs@.len() - i,
    {
        push_edge_line(&mut out, "B ", bs[i], base, " 0\n");
        proof {
            assert(bs@.take(i + 1).drop_last() =~= bs@.take(i as int));
            assert(out@ =~= head + bolt_branch_lines(bs@.take(i + 1), base));
        }
        i = i + 1;
    }
    assert(bs@.take(bs@.len() as int) =~= bs@);
    let ghost mid = out@;
    let fs = &profile.fall_through_edges;
    let mut j: usize = 0;
    while j < fs.len()
        invariant
            j <= fs@.len(),
            out@ == mid + bolt_fall_through_lines(fs@.take(j as int), base),
        decreases fs@.len() - j,
    {
        push_edge_line(&mut out, "F ", fs[j], base, "\n");
        proof {
            assert(fs@.take(j + 1).drop_last() =~= fs@.take(j as int));
            assert(out@ =~= mid + bolt_fall_through_lines(fs@.take(j + 1), base));
        }
        j = j + 1;
    }
    assert(fs@.take(fs@.len() as int) =~= fs@);
    assert(out@ =~= bolt_text(bs@, fs@, base));
    out
}

// --- llvm-profgen and GCC AutoFDO ---

/// `<from>-<to>:<count>`: an executed TB as an address range.
pub open spec fn range_line(t: TbExec, base: u64) -> Seq<u8> {
    hex_text(rel(t.start_addr, base) as nat) + utf8("-"@) + hex_text(rel(t.end_addr, base) as nat)
        + utf8(":"@) + dec_text(t.exec_count as nat) + utf8("\n"@)
}

/// The number of TBs of `s` that ran at least once.
pub open spec fn executed_count(s: Seq<TbExec>) -> nat
    decreases s.len(),
{
    if s.len() == 0 {
        0
    } else {
        executed_count(s.drop_last()) + if s.last().exec_count != 0 {
            1nat
        } else {
            0nat
        }
    }
}

/// The range lines of the TBs of `s` that ran at least once.
pub open spec fn range_lines(s: Seq<TbExec>, base: u64) -> Seq<u8>
    decreases s.len(),
{
    if s.len() == 0 {
        Seq::empty()
    } else if s.last().exec_count != 0 {
        range_lines(s.drop_last(), base) + range_line(s.last(), base)
    } else {
        range_lines(s.drop_last(), base)
    }
}

/// `<src>-><dst>:<count>`: a taken branch.
pub open spec fn branch_entry_line(e: EdgeRecord, base: u64) -> Seq<u8> {
    hex_text(rel(e.from, base) as nat) + utf8("->"@) + hex_text(rel(e.to, base) as nat) + utf8(
        ":"@,
    ) + dec_text(e.count as nat) + utf8("\n"@)
}

/// The branch lines of `s`.
pub open spec fn branch_entry_lines(s: Seq<EdgeRecord>, base: u64) -> Seq<u8>
    decreases s.len(),
{
    if s.len() == 0 {
        Seq::empty()
    } else {
        branch_entry_lines(s.drop_last(), base) + branch_entry_line(s.last(), base)
    }
}

/// The llvm-profgen unsymbolized profile: the number of executed TBs
/// and a range line for each, then the number of branch edges and a
/// branch line for each.
pub open spec fn autofdo_text(tbs: Seq<TbExec>, branches: Seq<EdgeRecord>, base: u64) -> Seq<u8> {
    dec_text(executed_count(tbs)) + utf8("\n"@) + range_lines(tbs, base) + dec_text(
        branches.len(),
    ) + utf8("\n"@) + branch_entry_lines(branches, base)
}

/// The GCC AutoFDO text profile: as the llvm-profgen one, with an empty
/// address section (`0`) between ranges and branches.
pub open spec fn gcc_autofdo_text(tbs: Seq<TbExec>, branches: Seq<EdgeRecord>, base: u64) -> Seq<
    u8,
> {
    dec_text(executed_count(tbs)) + utf8("\n"@) + range_lines(tbs, base) + utf8("0\n"@) + dec_text(
        branches.len(),
    ) + utf8("\n"@) + branch_entry_lines(branches, base)
}

proof fn lemma_executed_count_le(s: Seq<TbExec>)
    ensures
        executed_count(s) <= s.len(),
    decreases s.len(),
{
    if s.len() > 0 {
        lemma_executed_count_le(s.drop_last());
    }
}

/// The number of address ranges the AutoFDO renderings list: the TBs
/// that ran.
pub fn range_count(tbs: &Vec<TbExec>) -> (n: usize)
    ensures
        n == executed_count(tbs@),
{
    let mut n: usize = 0;
    let mut i: usize = 0;
    while i < tbs.len()
        invariant
            i <= tbs@.len(),
            n == executed_count(tbs@.take(i as int)),
        decreases tbs@.len() - i,
    {
        proof {
            assert(tbs@.take(i + 1).drop_last() =~= tbs@.take(i as int));
            lemma_executed_count_le(tbs@.take(i as int));
        }
        if tbs[i].exec_count != 0 {
            n = n + 1;
        }
        i = i + 1;
    }
    assert(tbs@.take(tbs@.len() as int) =~= tbs@);
    n
}

/// The count line and range lines of the executed TBs.
fn push_ranges(out: &mut Vec<u8>, tbs: &Vec<TbExec>, base: u64)
    ensures
        final(out)@ == old(out)@ + dec_text(executed_count(tbs@)) + utf8("\n"@) + range_lines(
            tbs@,
            base,
        ),
{
    let mut sec: Vec<u8> = Vec::new();
    let mut count: u64 = 0;
    let mut i: usize = 0;
    while i < tbs.len()
        invariant
            i <= tbs@.len(),
            sec@ == range_lines(tbs@.take(i as int), base),
            count == executed_count(tbs@.take(i as int)),
        decreases tbs@.len() - i,
    {
        let t = tbs[i];
        proof {
            assert(tbs@.take(i + 1).drop_last() =~= tbs@.take(i as int));
            lemma_executed_count_le(tbs@.take(i as int));
        }
        if t.exec_count != 0 {
            let ghost prev = sec@;
            push_hex(&mut sec, rel_exec(t.start_addr, base));
            push_str(&mut sec, "-");
            push_hex(&mut sec, rel_exec(t.end_addr, base));
            push_str(&mut sec, ":");
            push_dec(&mut sec, t.exec_count);
            push_str(&mut sec, "\n");
            assert(sec@ =~= prev + range_line(t, base));
            count = count + 1;
        }
        i = i + 1;
    }
    assert(tbs@.take(tbs@.len() as int) =~= tbs@);
    let ghost start = out@;
    push_dec(out, count);
    push_str(out, "\n");
    crate::text::push_all(out, sec.as_slice());
    assert(out@ =~= start + dec_text(executed_count(tbs@)) + utf8("\n"@) + range_lines(tbs@, base));
}

/// The count line and branch lines of the branch edges.
fn push_branches(out: &mut Vec<u8>, edges: &Vec<EdgeRecord>, base: u64)
    ensures
        final(out)@ == old(out)@ + dec_text(edges@.len()) + utf8("\n"@) + branch_entry_lines(
            edges@,
            base,
        ),
{
    let ghost start = out@;
    push_dec(out, edges.len() as u64);
    push_str(out, "\n");
    let ghost head = out@;
    let mut i: usize = 0;
    while i < edges.len()
        invariant
            i <= edges@.len(),
            out@ == head + branch_entry_lines(edges@.take(i as int), base),
        decreases edges@.len() - i,
    {
        let e = edges[i];
        let ghost prev = out@;
        push_hex(out, rel_exec(e.from, base));
        push_str(out, "->");
        push_hex(out, rel_exec(e.to, base));
        push_str(out, ":");
        push_dec(out, e.count);
        push_str(out, "\n");
        proof {
            assert(out@ =~= prev + branch_entry_line(e, base));
            assert(edges@.take(i + 1).drop_last() =~= edges@.take(i as int));
            assert(out@ =~= head + branch_entry_lines(edges@.take(i + 1), base));
        }
        i = i + 1;
    }
    assert(edges@.take(edges@.len() as int) =~= edges@);
    assert(out@ =~= start + dec_text(edges@.len()) + utf8("\n"@) + branch_entry_lines(edges@, base));
}

/// Renders the llvm-profgen unsymbolized profile of `profile`.
pub fn autofdo_profile(profile: &Profile, elf: &ElfIndex) -> (out: Vec<u8>)
    ensures
        out@ == autofdo_text(
            profile.tb_execs@,
            profile.branch_edges@,
            base_of(profile.header.load_addr, elf.load()),
        ),
{
    let base = base_exec(profile, elf);
    let mut out: Vec<u8> = Vec::new();
    push_ranges(&mut out, &profile.tb_execs, base);
    push_branches(&mut out, &profile.branch_edges, base);
    assert(out@ =~= autofdo_text(profile.tb_execs@, profile.branch_edges@, base));
    out
}

/// Renders the GCC AutoFDO text profile of `profile`.
pub fn gcc_autofdo_profile(profile: &Profile, elf: &ElfIndex) -> (out: Vec<u8>)
    ensures
        out@ == gcc_autofdo_text(
            profile.tb_execs@,
            profile.branch_edges@,
            base_of(profile.header.load_addr, elf.load()),
        ),
{
    let base = base_exec(profile, elf);
    let mut out: Vec<u8> = Vec::new();
    push_ranges(&mut out, &profile.tb_execs, base);
    push_str(&mut out, "0\n");
    push_branches(&mut out, &profile.branch_edges, base);
    assert(out@ =~= gcc_autofdo_text(profile.tb_execs@, profile.branch_edges@, base));
    out
}

// --- Temporal profile trace ---

/// The function that a TB starts in, by name.
pub open spec fn tb_func(syms: Seq<Symbol>, t: TbExec) -> Seq<char> {
    name_at_spec(syms, t.start_addr)
}

/// A function is known at `a`: a symbol holds it, and its name is not
/// `[unknown]`, which the converters take to name no function.
pub open spec fn known_function(syms: Seq<Symbol>, a: u64) -> bool {
    has_symbol_at(syms, a) && name_at_spec(syms, a) != "[unknown]"@
}

/// The TB ran, was seen at a known point, and lies in a known function.
pub open spec fn orders_function(syms: Seq<Symbol>, t: TbExec) -> bool {
    t.exec_count != 0 && t.first_seen_seq != 0 && known_function(syms, t.start_addr)
}

/// The earliest first-seen number of the TBs of `s` that order the
/// function `name` (`u64::MAX` where there is none).
pub open spec fn first_seen(s: Seq<TbExec>, syms: Seq<Symbol>, name: Seq<char>) -> u64
    decreases s.len(),
{
    if s.len() == 0 {
        u64::MAX
    } else {
        let prev = first_seen(s.drop_last(), syms, name);
        let t = s.last();
        if orders_function(syms, t) && tb_func(syms, t) == name && t.first_seen_seq < prev {
            t.first_seen_seq
        } else {
            prev
        }
    }
}

/// Some TB of `s` orders the function `name`.
pub open spec fn has_ordering_tb(s: Seq<TbExec>, syms: Seq<Symbol>, name: Seq<char>) -> bool {
    exists|k: int| 0 <= k < s.len() && orders_function(syms, #[trigger] s[k]) && tb_func(syms, s[k]) == name
}

/// `funcs` lists each function that some TB orders once, with its
/// earliest first-seen number, by increasing first-seen number (in no
/// promised order among equal numbers).
pub open spec fn is_temporal_order(
    funcs: Seq<(Seq<char>, u64)>,
    tbs: Seq<TbExec>,
    syms: Seq<Symbol>,
) -> bool {
    &&& forall|a: int, b: int|
        0 <= a < funcs.len() && 0 <= b < funcs.len() && a != b ==> (#[trigger] funcs[a]).0 != (
        #[trigger] funcs[b]).0
    &&& forall|a: int|
        0 <= a < funcs.len() ==> has_ordering_tb(tbs, syms, (#[trigger] funcs[a]).0) && funcs[a].1
            == first_seen(tbs, syms, funcs[a].0)
    &&& forall|k: int|
        0 <= k < tbs.len() && orders_function(syms, #[trigger] tbs[k]) ==> exists|a: int|
            0 <= a < funcs.len() && (#[trigger] funcs[a]).0 == tb_func(syms, tbs[k])
    &&& forall|a: int, b: int| 0 <= a < b < funcs.len() ==> (#[trigger] funcs[a]).1 <= (#[trigger] funcs[b]).1
}

/// The function names of a trace, each with commas replaced by
/// underscores and followed by a comma.
pub open spec fn trace_names(funcs: Seq<(Seq<char>, u64)>) -> Seq<u8>
    decreases funcs.len(),
{
    if funcs.len() == 0 {
        Seq::empty()
    } else {
        trace_names(funcs.drop_last()) + replace_byte(utf8(funcs.last().0), 0x2c, 0x5f) + utf8(","@)
    }
}

/// The temporal profile text: one trace of the functions in order, or
/// no trace where there is no function.
pub open spec fn temporal_text(funcs: Seq<(Seq<char>, u64)>) -> Seq<u8> {
    let n: nat = if funcs.len() == 0 {
        0
    } else {
        1
    };
    utf8(":temporal_prof_traces\n# Num Temporal Profile Traces:\n"@) + dec_text(n) + utf8(
        "\n# Temporal Profile Trace Stream Size:\n"@,
    ) + dec_text(n) + utf8("\n"@) + if funcs.len() == 0 {
        Seq::empty()
    } else {
        utf8("# Weight:\n1\n"@) + trace_names(funcs) + utf8("\n"@)
    }
}

/// The position of the name `name` in `names`.
fn find_name(names: &Vec<String>, name: &str) -> (r: Option<usize>)
    ensures
        match r {
            Some(f) => f < names@.len() && names@[f as int]@ == name@,
            None => forall|f: int| 0 <= f < names@.len() ==> names@[f]@ != name@,
        },
{
    let mut f: usize = 0;
    while f < names.len()
        invariant
            f <= names@.len(),
            forall|g: int| 0 <= g < f ==> names@[g]@ != name@,
        decreases names@.len() - f,
    {
        if str_eq(names[f].as_str(), name) {
            return Some(f);
        }
        f = f + 1;
    }
    None
}

/// The functions that the TBs order, with their earliest first-seen
/// numbers, in no particular order.
fn collect_first_seen(tbs: &Vec<TbExec>, elf: &ElfIndex) -> (r: (Vec<String>, Vec<u64>))
    ensures
        r.0@.len() == r.1@.len(),
        forall|a: int, b: int|
            0 <= a < r.0@.len() && 0 <= b < r.0@.len() && a != b ==> (#[trigger] r.0@[a])@ != (
            #[trigger] r.0@[b])@,
        forall|a: int|
            0 <= a < r.0@.len() ==> has_ordering_tb(tbs@, elf.syms(), (#[trigger] r.0@[a])@)
                && r.1@[a] == first_seen(tbs@, elf.syms(), r.0@[a]@),
        forall|k: int|
            0 <= k < tbs@.len() && orders_function(elf.syms(), #[trigger] tbs@[k]) ==> exists|a: int|
                0 <= a < r.0@.len() && (#[trigger] r.0@[a])@ == tb_func(elf.syms(), tbs@[k]),
{
    let ghost syms = elf.syms();
    let mut names: Vec<String> = Vec::new();
    let mut seqs: Vec<u64> = Vec::new();
    let mut i: usize = 0;
    while i < tbs.len()
        invariant
            syms == elf.syms(),
            i <= tbs@.len(),
            names@.len() == seqs@.len(),
            forall|a: int, b: int|
                0 <= a < names@.len() && 0 <= b < names@.len() && a != b ==> (#[trigger] names@[a])@
                    != (#[trigger] names@[b])@,
            forall|a: int|
                0 <= a < names@.len() ==> has_ordering_tb(tbs@.take(i as int), syms, (#[trigger] names@[a])@)
                    && seqs@[a] == first_seen(tbs@.take(i as int), syms, names@[a]@),
            forall|k: int|
                0 <= k < i && orders_function(syms, #[trigger] tbs@[k]) ==> exists|a: int|
                    0 <= a < names@.len() && (#[trigger] names@[a])@ == tb_func(syms, tbs@[k]),
        decreases tbs@.len() - i,
    {
        let t = tbs[i];
        let ghost pre = tbs@.take(i as int);
        let ghost post = tbs@.take(i + 1);
        assert(post.drop_last() =~= pre);
        assert(post.last() == t);
        let ghost n0 = names@;
        let ghost s0 = seqs@;
        let ghost mut w: int = -1;
        if t.exec_count != 0 && t.first_seen_seq != 0 {
            let name = elf.name_at(t.start_addr);
            if known_at(elf, t.start_addr) && !str_eq(name, "[unknown]") {
                match find_name(&names, name) {
                    Some(f) => {
                        if t.first_seen_seq < seqs[f] {
                            seqs.set(f, t.first_seen_seq);
                        }
                        proof {
                            w = f as int;
                        }
                    },
                    None => {
                        names.push(<String as StringExecFns>::from_str(name));
                        seqs.push(t.first_seen_seq);
                        proof {
                            assert(first_seen(pre, syms, name@) == u64::MAX) by {
                                lemma_first_seen_absent(pre, syms, name@);
                            }
                            w = n0.len() as int;
                        }
                    },
                }
            }
        }
        proof {
            assert forall|a: int| 0 <= a < names@.len() implies has_ordering_tb(
                post,
                syms,
                (#[trigger] names@[a])@,
            ) && seqs@[a] == first_seen(post, syms, names@[a]@) by {
                if a < n0.len() {
                    assert(names@[a] == n0[a]);
                    let k = choose|k: int|
                        0 <= k < pre.len() && orders_function(syms, #[trigger] pre[k]) && tb_func(
                            syms,
                            pre[k],
                        ) == n0[a]@;
                    assert(post[k] == pre[k]);
                } else {
                    assert(post[i as int] == t);
                }
            }
            assert forall|k: int|
                0 <= k < i + 1 && orders_function(syms, #[trigger] tbs@[k]) implies exists|a: int|
                0 <= a < names@.len() && (#[trigger] names@[a])@ == tb_func(syms, tbs@[k]) by {
                if k < i {
                    let a = choose|a: int| 0 <= a < n0.len() && (#[trigger] n0[a])@ == tb_func(syms, tbs@[k]);
                    assert(names@[a] == n0[a]);
                } else {
                    assert(tbs@[k] == t);
                    assert(names@[w]@ == tb_func(syms, t));
                }
            }
        }
        i = i + 1;
    }
    assert(tbs@.take(tbs@.len() as int) =~= tbs@);
    (names, seqs)
}

proof fn lemma_first_seen_absent(s: Seq<TbExec>, syms: Seq<Symbol>, name: Seq<char>)
    requires
        !has_ordering_tb(s, syms, name),
    ensures
        first_seen(s, syms, name) == u64::MAX,
    decreases s.len(),
{
    if s.len() > 0 {
        assert(!has_ordering_tb(s.drop_last(), syms, name)) by {
            if has_ordering_tb(s.drop_last(), syms, name) {
                let k = choose|k: int|
                    0 <= k < s.drop_last().len() && orders_function(syms, #[trigger] s.drop_last()[k])
                        && tb_func(syms, s.drop_last()[k]) == name;
                assert(s[k] == s.drop_last()[k]);
            }
        }
        lemma_first_seen_absent(s.drop_last(), syms, name);
        assert(!(orders_function(syms, s[s.len() - 1]) && tb_func(syms, s[s.len() - 1]) == name));
    }
}

proof fn lemma_first_seen_le(s: Seq<TbExec>, syms: Seq<Symbol>, name: Seq<char>, k: int)
    requires
        0 <= k < s.len(),
        orders_function(syms, s[k]),
        tb_func(syms, s[k]) == name,
    ensures
        first_seen(s, syms, name) <= s[k].first_seen_seq,
    decreases s.len(),
{
    if k < s.len() - 1 {
        assert(s.drop_last()[k] == s[k]);
        lemma_first_seen_le(s.drop_last(), syms, name, k);
    }
}

proof fn lemma_first_seen_attained(s: Seq<TbExec>, syms: Seq<Symbol>, name: Seq<char>)
    requires
        has_ordering_tb(s, syms, name),
    ensures
        exists|k: int|
            0 <= k < s.len() && orders_function(syms, #[trigger] s[k]) && tb_func(syms, s[k]) == name
                && s[k].first_seen_seq == first_seen(s, syms, name),
    decreases s.len(),
{
    let p = s.drop_last();
    let t = s.last();
    if orders_function(syms, t) && tb_func(syms, t) == name && t.first_seen_seq < first_seen(p, syms, name) {
        assert(s[s.len() - 1] == t);
    } else if has_ordering_tb(p, syms, name) {
        lemma_first_seen_attained(p, syms, name);
        let k = choose|k: int|
            0 <= k < p.len() && orders_function(syms, #[trigger] p[k]) && tb_func(syms, p[k]) == name
                && p[k].first_seen_seq == first_seen(p, syms, name);
        assert(s[k] == p[k]);
    } else {
        lemma_first_seen_absent(p, syms, name);
        let k = choose|k: int|
            0 <= k < s.len() && orders_function(syms, #[trigger] s[k]) && tb_func(syms, s[k]) == name;
        if k < s.len() - 1 {
            assert(p[k] == s[k]);
        }
        assert(s[s.len() - 1] == t);
    }
}

/// Each function of a temporal order is listed with the earliest
/// first-seen number among the TBs that order it, whatever their order in
/// `tbs`: no such TB was seen before it, and one was seen at it.
pub proof fn law_temporal_earliest(
    funcs: Seq<(Seq<char>, u64)>,
    tbs: Seq<TbExec>,
    syms: Seq<Symbol>,
    a: int,
)
    requires
        is_temporal_order(funcs, tbs, syms),
        0 <= a < funcs.len(),
    ensures
        forall|k: int|
            0 <= k < tbs.len() && orders_function(syms, #[trigger] tbs[k]) && tb_func(syms, tbs[k])
                == funcs[a].0 ==> funcs[a].1 <= tbs[k].first_seen_seq,
        exists|k: int|
            0 <= k < tbs.len() && orders_function(syms, #[trigger] tbs[k]) && tb_func(syms, tbs[k])
                == funcs[a].0 && tbs[k].first_seen_seq == funcs[a].1,
{
    assert(has_ordering_tb(tbs, syms, funcs[a].0) && funcs[a].1 == first_seen(tbs, syms, funcs[a].0));
    assert forall|k: int|
        0 <= k < tbs.len() && orders_function(syms, #[trigger] tbs[k]) && tb_func(syms, tbs[k])
            == funcs[a].0 implies funcs[a].1 <= tbs[k].first_seen_seq by {
        lemma_first_seen_le(tbs, syms, funcs[a].0, k);
    }
    lemma_first_seen_attained(tbs, syms, funcs[a].0);
}

/// The functions of a sorted key list: `(name, first-seen number)` for
/// each `(first-seen number, position)` key.
pub open spec fn keyed_funcs(keys: Seq<(u64, u64)>, names: Seq<String>) -> Seq<(Seq<char>, u64)> {
    keys.map_values(|k: (u64, u64)| (names[k.1 as int]@, k.0))
}

/// Renders the temporal profile trace of `profile`: its text and the
/// number of functions in the trace.
pub fn temporal_profile(profile: &Profile, elf: &ElfIndex) -> (r: (Vec<u8>, usize))
    ensures
        exists|funcs: Seq<(Seq<char>, u64)>|
            is_temporal_order(funcs, profile.tb_execs@, elf.syms()) && r.0@ == temporal_text(funcs)
                && r.1 == funcs.len(),
{
    broadcast use vstd::seq_lib::group_to_multiset_ensures;

    let ghost tbs = profile.tb_execs@;
    let ghost syms = elf.syms();
    let (names, seqs) = collect_first_seen(&profile.tb_execs, elf);
    let n = names.len();
    let mut keys: Vec<(u64, u64)> = Vec::new();
    let mut f: usize = 0;
    while f < n
        invariant
            n == names@.len(),
            n == seqs@.len(),
            f <= n,
            keys@.len() == f,
            forall|a: int| 0 <= a < f ==> #[trigger] keys@[a] == (seqs@[a], a as u64),
        decreases n - f,
    {
        keys.push((seqs[f], f as u64));
        f = f + 1;
    }
    let ghost k0 = keys@;
    sort_pairs(&mut keys);
    let ghost funcs = keyed_funcs(keys@, names@);
    proof {
        assert(k0.no_duplicates()) by {
            assert forall|a: int, b: int| 0 <= a < k0.len() && 0 <= b < k0.len() && a != b implies k0[a]
                != k0[b] by {
                assert(k0[a].1 == a as u64 && k0[b].1 == b as u64);
            }
        }
        k0.lemma_multiset_has_no_duplicates();
        keys@.lemma_multiset_has_no_duplicates_conv();
        assert(keys@.len() == n) by {
            assert(keys@.to_multiset().len() == k0.to_multiset().len());
        }
        assert forall|a: int| 0 <= a < keys@.len() implies (#[trigger] keys@[a]).1 < n && keys@[a]
            == (seqs@[keys@[a].1 as int], keys@[a].1) by {
            assert(keys@.contains(keys@[a]));
            assert(keys@.to_multiset().count(keys@[a]) > 0);
            assert(k0.contains(keys@[a]));
        }
        assert forall|a: int, b: int|
            0 <= a < funcs.len() && 0 <= b < funcs.len() && a != b implies (#[trigger] funcs[a]).0
            != (#[trigger] funcs[b]).0 by {
            assert(keys@[a] != keys@[b]);
            assert(keys@[a].1 != keys@[b].1);
        }
        assert forall|a: int| 0 <= a < funcs.len() implies has_ordering_tb(
            tbs,
            syms,
            (#[trigger] funcs[a]).0,
        ) && funcs[a].1 == first_seen(tbs, syms, funcs[a].0) by {
            assert(keys@[a] == (seqs@[keys@[a].1 as int], keys@[a].1));
        }
        assert forall|k: int| 0 <= k < tbs.len() && orders_function(syms, #[trigger] tbs[k]) implies exists|
            a: int,
        | 0 <= a < funcs.len() && (#[trigger] funcs[a]).0 == tb_func(syms, tbs[k]) by {
            let g = choose|g: int| 0 <= g < names@.len() && (#[trigger] names@[g])@ == tb_func(syms, tbs[k]);
            assert(k0[g] == (seqs@[g], g as u64));
            assert(k0.contains(k0[g]));
            assert(k0.to_multiset().count(k0[g]) > 0);
            assert(keys@.contains(k0[g]));
            let a = choose|a: int| 0 <= a < keys@.len() && keys@[a] == k0[g];
            assert(funcs[a].0 == names@[g]@);
        }
        assert(is_temporal_order(funcs, tbs, syms));
    }
    let mut out: Vec<u8> = Vec::new();
    let traces: u64 = if n == 0 { 0 } else { 1 };
    push_str(&mut out, ":temporal_prof_traces\n# Num Temporal Profile Traces:\n");
    push_dec(&mut out, traces);
    push_str(&mut out, "\n# Temporal Profile Trace Stream Size:\n");
    push_dec(&mut out, traces);
    push_str(&mut out, "\n");
    let ghost head = out@;
    if n > 0 {
        push_str(&mut out, "# Weight:\n1\n");
        let ghost body = out@;
        let mut a: usize = 0;
        while a < n
            invariant
                n == keys@.len(),
                n == names@.len(),
                funcs == keyed_funcs(keys@, names@),
                forall|b: int| 0 <= b < n ==> (#[trigger] keys@[b]).1 < n,
                a <= n,
                out@ == body + trace_names(funcs.take(a as int)),
            decreases n - a,
        {
            let idx = keys[a].1 as usize;
            push_str_replacing(&mut out, names[idx].as_str(), 0x2c, 0x5f);
            push_str(&mut out, ",");
            proof {
                assert(funcs.take(a + 1).drop_last() =~= funcs.take(a as int));
                assert(funcs[a as int].0 == names@[idx as int]@);
                assert(out@ =~= body + trace_names(funcs.take(a + 1)));
            }
            a = a + 1;
        }
        assert(funcs.take(n as int) =~= funcs);
        push_str(&mut out, "\n");
    }
    assert(out@ =~= temporal_text(funcs));
    (out, n)
}

// --- Call graph ordering file ---

/// A weighted edge between two functions, by name.
pub type CgEdge = (Seq<char>, Seq<char>, u64);

/// What a call adds to the call graph: its count, between the
/// functions of its call site and of its target, where both are known.
pub open spec fn call_contrib(syms: Seq<Symbol>, c: CallRecord) -> Option<CgEdge> {
    let a = name_at_spec(syms, c.callsite);
    let b = name_at_spec(syms, c.target);
    if known_function(syms, c.callsite) && known_function(syms, c.target) {
        Some((a, b, c.count))
    } else {
        None
    }
}

/// What a branch edge adds to the call graph: its count, where both its
/// ends lie in symbols with different names.
pub open spec fn branch_contrib(syms: Seq<Symbol>, e: EdgeRecord) -> Option<CgEdge> {
    let a = name_at_spec(syms, e.from);
    let b = name_at_spec(syms, e.to);
    if has_symbol_at(syms, e.from) && has_symbol_at(syms, e.to) && a != b {
        Some((a, b, e.count))
    } else {
        None
    }
}

/// What the direct calls add, in order.
pub open spec fn direct_contribs(s: Seq<CallRecord>, syms: Seq<Symbol>) -> Seq<CgEdge>
    decreases s.len(),
{
    if s.len() == 0 {
        Seq::empty()
    } else {
        let prev = direct_contribs(s.drop_last(), syms);
        match call_contrib(syms, s.last()) {
            Some(x) => prev.push(x),
            None => prev,
        }
    }
}

/// What the indirect calls with a resolved target add, in order.
pub open spec fn indirect_contribs(s: Seq<CallRecord>, syms: Seq<Symbol>) -> Seq<CgEdge>
    decreases s.len(),
{
    if s.len() == 0 {
        Seq::empty()
    } else {
        let prev = indirect_contribs(s.drop_last(), syms);
        if s.last().target == 0 {
            prev
        } else {
            match call_contrib(syms, s.last()) {
                Some(x) => prev.push(x),
                None => prev,
            }
        }
    }
}

/// What the branch edges add, in order.
pub open spec fn branch_contribs(s: Seq<EdgeRecord>, syms: Seq<Symbol>) -> Seq<CgEdge>
    decreases s.len(),
{
    if s.len() == 0 {
        Seq::empty()
    } else {
        let prev = branch_contribs(s.drop_last(), syms);
        match branch_contrib(syms, s.last()) {
            Some(x) => prev.push(x),
            None => prev,
        }
    }
}

/// Everything that goes into the call graph of a profile.
pub open spec fn cg_contribs(
    direct: Seq<CallRecord>,
    indirect: Seq<CallRecord>,
    branches: Seq<EdgeRecord>,
    syms: Seq<Symbol>,
) -> Seq<CgEdge> {
    direct_contribs(direct, syms) + indirect_contribs(indirect, syms) + branch_contribs(branches, syms)
}

/// The summed weight of the function pair `(a, b)` in `cs`.
pub open spec fn pair_total(cs: Seq<CgEdge>, a: Seq<char>, b: Seq<char>) -> int
    decreases cs.len(),
{
    if cs.len() == 0 {
        0
    } else {
        pair_total(cs.drop_last(), a, b) + if cs.last().0 == a && cs.last().1 == b {
            cs.last().2 as int
        } else {
            0
        }
    }
}

/// The pair `(a, b)` occurs in `cs`.
pub open spec fn has_pair(cs: Seq<CgEdge>, a: Seq<char>, b: Seq<char>) -> bool {
    exists|k: int| 0 <= k < cs.len() && (#[trigger] cs[k]).0 == a && cs[k].1 == b
}

/// Every pair's summed weight fits in a `u64`.
pub open spec fn cg_totals_fit(cs: Seq<CgEdge>) -> bool {
    forall|a: Seq<char>, b: Seq<char>| #[trigger] pair_total(cs, a, b) <= u64::MAX
}

/// `es` holds each pair of `cs` once, with its summed weight.
pub open spec fn sums_pairs(es: Seq<CgEdge>, cs: Seq<CgEdge>) -> bool {
    &&& forall|i: int, j: int|
        0 <= i < es.len() && 0 <= j < es.len() && i != j ==> !((#[trigger] es[i]).0 == (
        #[trigger] es[j]).0 && es[i].1 == es[j].1)
    &&& forall|i: int|
        0 <= i < es.len() ==> has_pair(cs, (#[trigger] es[i]).0, es[i].1) && es[i].2 == pair_total(
            cs,
            es[i].0,
            es[i].1,
        )
    &&& forall|k: int| 0 <= k < cs.len() ==> has_pair(es, (#[trigger] cs[k]).0, cs[k].1)
}

/// A line of the ordering file: caller, callee and weight, spaces in
/// names replaced by underscores.
pub open spec fn cg_line(e: CgEdge) -> Seq<u8> {
    replace_byte(utf8(e.0), 0x20, 0x5f) + utf8(" "@) + replace_byte(utf8(e.1), 0x20, 0x5f) + utf8(
        " "@,
    ) + dec_text(e.2 as nat) + utf8("\n"@)
}

/// The lines of an ordering file.
pub open spec fn cg_text(es: Seq<CgEdge>) -> Seq<u8>
    decreases es.len(),
{
    if es.len() == 0 {
        Seq::empty()
    } else {
        cg_text(es.drop_last()) + cg_line(es.last())
    }
}

proof fn lemma_pair_total_absent(cs: Seq<CgEdge>, a: Seq<char>, b: Seq<char>)
    requires
        !has_pair(cs, a, b),
    ensures
        pair_total(cs, a, b) == 0,
    decreases cs.len(),
{
    if cs.len() > 0 {
        assert(!has_pair(cs.drop_last(), a, b)) by {
            if has_pair(cs.drop_last(), a, b) {
                let k = choose|k: int|
                    0 <= k < cs.drop_last().len() && (#[trigger] cs.drop_last()[k]).0 == a
                        && cs.drop_last()[k].1 == b;
                assert(cs[k] == cs.drop_last()[k]);
            }
        }
        lemma_pair_total_absent(cs.drop_last(), a, b);
        assert(!(cs[cs.len() - 1].0 == a && cs[cs.len() - 1].1 == b));
    }
}

proof fn lemma_pair_total_grows(cs: Seq<CgEdge>, rest: Seq<CgEdge>, a: Seq<char>, b: Seq<char>)
    ensures
        pair_total(cs, a, b) <= pair_total(cs + rest, a, b),
        0 <= pair_total(cs, a, b),
    decreases rest.len(),
{
    if rest.len() == 0 {
        assert(cs + rest =~= cs);
        lemma_pair_total_nonneg(cs, a, b);
    } else {
        lemma_pair_total_grows(cs, rest.drop_last(), a, b);
        assert((cs + rest).drop_last() =~= cs + rest.drop_last());
    }
}

proof fn lemma_pair_total_nonneg(cs: Seq<CgEdge>, a: Seq<char>, b: Seq<char>)
    ensures
        0 <= pair_total(cs, a, b),
    decreases cs.len(),
{
    if cs.len() > 0 {
        lemma_pair_total_nonneg(cs.drop_last(), a, b);
    }
}

/// The position in `cs` of the first contribution to the pair `(a, b)`.
pub open spec fn pair_first(cs: Seq<CgEdge>, a: Seq<char>, b: Seq<char>) -> int
    decreases cs.len(),
{
    if cs.len() == 0 {
        0
    } else if has_pair(cs.drop_last(), a, b) {
        pair_first(cs.drop_last(), a, b)
    } else {
        cs.len() - 1
    }
}

/// The pairs of `es` come in the order of their first contributions in
/// `cs`.
pub open spec fn sums_ordered(es: Seq<CgEdge>, cs: Seq<CgEdge>) -> bool {
    forall|p: int, q: int|
        0 <= p < q < es.len() ==> pair_first(cs, (#[trigger] es[p]).0, es[p].1) < pair_first(
            cs,
            (#[trigger] es[q]).0,
            es[q].1,
        )
}

proof fn lemma_pair_first_push(cs: Seq<CgEdge>, x: CgEdge, a: Seq<char>, b: Seq<char>)
    ensures
        pair_first(cs.push(x), a, b) == if has_pair(cs, a, b) {
            pair_first(cs, a, b)
        } else {
            cs.len() as int
        },
{
    assert(cs.push(x).drop_last() =~= cs);
}

proof fn lemma_pair_first_in(cs: Seq<CgEdge>, a: Seq<char>, b: Seq<char>)
    requires
        has_pair(cs, a, b),
    ensures
        0 <= pair_first(cs, a, b) < cs.len(),
        cs[pair_first(cs, a, b)].0 == a && cs[pair_first(cs, a, b)].1 == b,
    decreases cs.len(),
{
    if has_pair(cs.drop_last(), a, b) {
        lemma_pair_first_in(cs.drop_last(), a, b);
        assert(cs[pair_first(cs, a, b)] == cs.drop_last()[pair_first(cs, a, b)]);
    } else {
        let k = choose|k: int| 0 <= k < cs.len() && (#[trigger] cs[k]).0 == a && cs[k].1 == b;
        if k < cs.len() - 1 {
            assert(cs.drop_last()[k] == cs[k]);
        }
    }
}

/// Call-graph edges being summed: parallel lists of callers, callees and
/// weights.
struct CgSums {
    callers: Vec<String>,
    callees: Vec<String>,
    weights: Vec<u64>,
}

impl CgSums {
    spec fn edges(&self) -> Seq<CgEdge> {
        Seq::new(self.weights@.len(), |i: int| (self.callers@[i]@, self.callees@[i]@, self.weights@[i]))
    }

    spec fn wf(&self) -> bool {
        self.callers@.len() == self.weights@.len() && self.callees@.len() == self.weights@.len()
    }

    /// Adds `w` to the pair `(a, b)`; `false` where its sum would
    /// overflow.
    fn add(&mut self, a: &str, b: &str, w: u64, Ghost(cs): Ghost<Seq<CgEdge>>) -> (ok: bool)
        requires
            old(self).wf(),
            sums_pairs(old(self).edges(), cs),
            sums_ordered(old(self).edges(), cs),
        ensures
            ok ==> final(self).wf() && sums_pairs(final(self).edges(), cs.push((a@, b@, w)))
                && sums_ordered(final(self).edges(), cs.push((a@, b@, w))),
            !ok ==> pair_total(cs.push((a@, b@, w)), a@, b@) > u64::MAX,
    {
        let ghost x = (a@, b@, w);
        let ghost cs2 = cs.push(x);
        let ghost e0 = self.edges();
        assert(cs2.drop_last() =~= cs);
        let n = self.weights.len();
        let mut i: usize = 0;
        while i < n
            invariant
                n == self.weights@.len(),
                self.wf(),
                self.edges() == e0,
                sums_pairs(e0, cs),
                sums_ordered(e0, cs),
                cs2 == cs.push(x),
                cs2.drop_last() == cs,
                x == (a@, b@, w),
                i <= n,
                forall|j: int| 0 <= j < i ==> !(e0[j].0 == a@ && e0[j].1 == b@),
            decreases n - i,
        {
            if str_eq(self.callers[i].as_str(), a) && str_eq(self.callees[i].as_str(), b) {
                let old_w = self.weights[i];
                assert(e0[i as int] == (a@, b@, old_w));
                assert(old_w == pair_total(cs, a@, b@));
                if old_w > u64::MAX - w {
                    return false;
                }
                self.weights.set(i, old_w + w);
                proof {
                    let e1 = self.edges();
                    assert forall|j: int| 0 <= j < e1.len() && j != i implies #[trigger] e1[j] == e0[j] by {}
                    assert forall|j: int| 0 <= j < e1.len() implies has_pair(cs2, (#[trigger] e1[j]).0, e1[j].1)
                        && e1[j].2 == pair_total(cs2, e1[j].0, e1[j].1) by {
                        let k = choose|k: int| 0 <= k < cs.len() && (#[trigger] cs[k]).0 == e0[j].0 && cs[k].1 == e0[j].1;
                        assert(cs2[k] == cs[k]);
                    }
                    assert forall|k: int| 0 <= k < cs2.len() implies has_pair(e1, (#[trigger] cs2[k]).0, cs2[k].1) by {
                        if k < cs.len() {
                            assert(cs2[k] == cs[k]);
                            let j = choose|j: int| 0 <= j < e0.len() && (#[trigger] e0[j]).0 == cs[k].0 && e0[j].1 == cs[k].1;
                            assert(e1[j].0 == e0[j].0 && e1[j].1 == e0[j].1);
                        } else {
                            assert(e1[i as int].0 == a@);
                        }
                    }
                    assert forall|p: int, q: int|
                        0 <= p < e1.len() && 0 <= q < e1.len() && p != q implies !((#[trigger] e1[p]).0 == (
                        #[trigger] e1[q]).0 && e1[p].1 == e1[q].1) by {
                        assert(e1[p].0 == e0[p].0 && e1[p].1 == e0[p].1);
                        assert(e1[q].0 == e0[q].0 && e1[q].1 == e0[q].1);
                    }
                    assert forall|p: int, q: int| 0 <= p < q < e1.len() implies pair_first(
                        cs2,
                        (#[trigger] e1[p]).0,
                        e1[p].1,
                    ) < pair_first(cs2, (#[trigger] e1[q]).0, e1[q].1) by {
                        assert(e1[p].0 == e0[p].0 && e1[p].1 == e0[p].1);
                        assert(e1[q].0 == e0[q].0 && e1[q].1 == e0[q].1);
                        assert(has_pair(cs, e0[p].0, e0[p].1));
                        assert(has_pair(cs, e0[q].0, e0[q].1));
                        lemma_pair_first_push(cs, x, e0[p].0, e0[p].1);
                        lemma_pair_first_push(cs, x, e0[q].0, e0[q].1);
                    }
                }
                return true;
            }
            i = i + 1;
        }
        proof {
            assert(!has_pair(cs, a@, b@)) by {
                if has_pair(cs, a@, b@) {
                    let k = choose|k: int| 0 <= k < cs.len() && (#[trigger] cs[k]).0 == a@ && cs[k].1 == b@;
                    let j = choose|j: int| 0 <= j < e0.len() && (#[trigger] e0[j]).0 == cs[k].0 && e0[j].1 == cs[k].1;
                }
            }
            lemma_pair_total_absent(cs, a@, b@);
        }
        self.callers.push(<String as StringExecFns>::from_str(a));
        self.callees.push(<String as StringExecFns>::from_str(b));
        self.weights.push(w);
        proof {
            let e1 = self.edges();
            assert forall|j: int| 0 <= j < e0.len() implies #[trigger] e1[j] == e0[j] by {}
            assert(e1[n as int] == x);
            assert forall|j: int| 0 <= j < e1.len() implies has_pair(cs2, (#[trigger] e1[j]).0, e1[j].1)
                && e1[j].2 == pair_total(cs2, e1[j].0, e1[j].1) by {
                if j < n {
                    let k = choose|k: int| 0 <= k < cs.len() && (#[trigger] cs[k]).0 == e0[j].0 && cs[k].1 == e0[j].1;
                    assert(cs2[k] == cs[k]);
                } else {
                    assert(cs2[cs.len() as int] == x);
                }
            }
            assert forall|k: int| 0 <= k < cs2.len() implies has_pair(e1, (#[trigger] cs2[k]).0, cs2[k].1) by {
                if k < cs.len() {
                    assert(cs2[k] == cs[k]);
                    let j = choose|j: int| 0 <= j < e0.len() && (#[trigger] e0[j]).0 == cs[k].0 && e0[j].1 == cs[k].1;
                    assert(e1[j] == e0[j]);
                } else {
                    assert(e1[n as int] == cs2[k]);
                }
            }
            assert forall|p: int, q: int| 0 <= p < q < e1.len() implies pair_first(
                cs2,
                (#[trigger] e1[p]).0,
                e1[p].1,
            ) < pair_first(cs2, (#[trigger] e1[q]).0, e1[q].1) by {
                assert(e1[p] == e0[p]);
                assert(has_pair(cs, e0[p].0, e0[p].1));
                lemma_pair_first_push(cs, x, e0[p].0, e0[p].1);
                lemma_pair_first_in(cs, e0[p].0, e0[p].1);
                if q < n {
                    assert(e1[q] == e0[q]);
                    assert(has_pair(cs, e0[q].0, e0[q].1));
                    lemma_pair_first_push(cs, x, e0[q].0, e0[q].1);
                } else {
                    lemma_pair_first_push(cs, x, a@, b@);
                }
            }
        }
        true
    }
}

/// `p` is a prefix of `q`.
pub open spec fn is_prefix<T>(p: Seq<T>, q: Seq<T>) -> bool {
    p.len() <= q.len() && p == q.take(p.len() as int)
}

proof fn lemma_prefix_total(p: Seq<CgEdge>, q: Seq<CgEdge>, a: Seq<char>, b: Seq<char>)
    requires
        is_prefix(p, q),
    ensures
        pair_total(p, a, b) <= pair_total(q, a, b),
{
    lemma_pair_total_grows(p, q.skip(p.len() as int), a, b);
    assert(p + q.skip(p.len() as int) =~= q);
}

proof fn lemma_prefix_trans(p: Seq<CgEdge>, q: Seq<CgEdge>, r: Seq<CgEdge>)
    requires
        is_prefix(p, q),
        is_prefix(q, r),
    ensures
        is_prefix(p, r),
{
    assert(p =~= r.take(p.len() as int));
}

proof fn lemma_direct_prefix(s: Seq<CallRecord>, syms: Seq<Symbol>, i: int)
    requires
        0 <= i <= s.len(),
    ensures
        is_prefix(direct_contribs(s.take(i), syms), direct_contribs(s, syms)),
    decreases s.len() - i,
{
    if i == s.len() {
        assert(s.take(i) =~= s);
        let c = direct_contribs(s, syms);
        assert(c.take(c.len() as int) =~= c);
    } else {
        lemma_direct_prefix(s, syms, i + 1);
        assert(s.take(i + 1).drop_last() =~= s.take(i));
        let p = direct_contribs(s.take(i), syms);
        assert(is_prefix(p, direct_contribs(s.take(i + 1), syms))) by {
            assert(p =~= direct_contribs(s.take(i + 1), syms).take(p.len() as int));
        }
        lemma_prefix_trans(p, direct_contribs(s.take(i + 1), syms), direct_contribs(s, syms));
    }
}

proof fn lemma_indirect_prefix(s: Seq<CallRecord>, syms: Seq<Symbol>, i: int)
    requires
        0 <= i <= s.len(),
    ensures
        is_prefix(indirect_contribs(s.take(i), syms), indirect_contribs(s, syms)),
    decreases s.len() - i,
{
    if i == s.len() {
        assert(s.take(i) =~= s);
        let c = indirect_contribs(s, syms);
        assert(c.take(c.len() as int) =~= c);
    } else {
        lemma_indirect_prefix(s, syms, i + 1);
        assert(s.take(i + 1).drop_last() =~= s.take(i));
        let p = indirect_contribs(s.take(i), syms);
        assert(is_prefix(p, indirect_contribs(s.take(i + 1), syms))) by {
            assert(p =~= indirect_contribs(s.take(i + 1), syms).take(p.len() as int));
        }
        lemma_prefix_trans(p, indirect_contribs(s.take(i + 1), syms), indirect_contribs(s, syms));
    }
}

proof fn lemma_branch_prefix(s: Seq<EdgeRecord>, syms: Seq<Symbol>, i: int)
    requires
        0 <= i <= s.len(),
    ensures
        is_prefix(branch_contribs(s.take(i), syms), branch_contribs(s, syms)),
    decreases s.len() - i,
{
    if i == s.len() {
        assert(s.take(i) =~= s);
        let c = branch_contribs(s, syms);
        assert(c.take(c.len() as int) =~= c);
    } else {
        lemma_branch_prefix(s, syms, i + 1);
        assert(s.take(i + 1).drop_last() =~= s.take(i));
        let p = branch_contribs(s.take(i), syms);
        assert(is_prefix(p, branch_contribs(s.take(i + 1), syms))) by {
            assert(p =~= branch_contribs(s.take(i + 1), syms).take(p.len() as int));
        }
        lemma_prefix_trans(p, branch_contribs(s.take(i + 1), syms), branch_contribs(s, syms));
    }
}

proof fn lemma_append_prefix(p: Seq<CgEdge>, q: Seq<CgEdge>, pre: Seq<CgEdge>, post: Seq<CgEdge>)
    requires
        is_prefix(p, q),
    ensures
        is_prefix(pre + p, pre + q + post),
{
    assert(pre + p =~= (pre + q + post).take((pre + p).len() as int));
}

/// Everything that goes into the call graph of `profile`.
pub open spec fn profile_contribs(profile: &Profile, syms: Seq<Symbol>) -> Seq<CgEdge> {
    cg_contribs(profile.direct_calls@, profile.indirect_calls@, profile.branch_edges@, syms)
}

/// `x` comes before `y` in the ordering file of `cs`: it is heavier, or
/// as heavy and contributed to first.
pub open spec fn cg_before(cs: Seq<CgEdge>, x: CgEdge, y: CgEdge) -> bool {
    x.2 > y.2 || (x.2 == y.2 && pair_first(cs, x.0, x.1) < pair_first(cs, y.0, y.1))
}

/// `es` is the call graph of `cs`, heaviest edges first, edges of equal
/// weight in the order of their first contributions.
pub open spec fn is_call_graph(es: Seq<CgEdge>, cs: Seq<CgEdge>) -> bool {
    &&& sums_pairs(es, cs)
    &&& forall|i: int, j: int| 0 <= i < j < es.len() ==> cg_before(cs, #[trigger] es[i], #[trigger] es[j])
}

proof fn lemma_call_graphs_agree(es1: Seq<CgEdge>, es2: Seq<CgEdge>, cs: Seq<CgEdge>, n: int)
    requires
        is_call_graph(es1, cs),
        is_call_graph(es2, cs),
        forall|x: CgEdge| es1.contains(x) <==> es2.contains(x),
        0 <= n <= es1.len(),
        n <= es2.len(),
    ensures
        forall|q: int| 0 <= q < n ==> es1[q] == es2[q],
    decreases n,
{
    if n > 0 {
        lemma_call_graphs_agree(es1, es2, cs, n - 1);
        let q = n - 1;
        if es1[q] != es2[q] {
            assert(es1.contains(es1[q]));
            let jj = choose|jj: int| 0 <= jj < es2.len() && es2[jj] == es1[q];
            assert(es2.contains(es2[q]));
            let j = choose|j: int| 0 <= j < es1.len() && es1[j] == es2[q];
            if j < q {
                assert(es2[j] == es1[j]);
            }
            if jj < q {
                assert(es1[jj] == es2[jj]);
            }
            assert(cg_before(cs, es1[q], es1[j]));
            assert(cg_before(cs, es2[q], es2[jj]));
        }
    }
}

/// The call graph of the contributions, and so the ordering file, is
/// determined: any two results agree.
pub proof fn law_call_graph_unique(es1: Seq<CgEdge>, es2: Seq<CgEdge>, cs: Seq<CgEdge>)
    requires
        is_call_graph(es1, cs),
        is_call_graph(es2, cs),
    ensures
        es1 == es2,
        cg_text(es1) == cg_text(es2),
{
    broadcast use vstd::seq_lib::group_to_multiset_ensures;

    assert forall|x: CgEdge| es1.contains(x) implies es2.contains(x) by {
        let i = choose|i: int| 0 <= i < es1.len() && es1[i] == x;
        assert(has_pair(cs, es1[i].0, es1[i].1));
        let k = choose|k: int| 0 <= k < cs.len() && (#[trigger] cs[k]).0 == x.0 && cs[k].1 == x.1;
        assert(has_pair(es2, cs[k].0, cs[k].1));
        let j = choose|j: int| 0 <= j < es2.len() && (#[trigger] es2[j]).0 == x.0 && es2[j].1 == x.1;
        assert(es2[j] == x);
    }
    assert forall|x: CgEdge| es2.contains(x) implies es1.contains(x) by {
        let i = choose|i: int| 0 <= i < es2.len() && es2[i] == x;
        assert(has_pair(cs, es2[i].0, es2[i].1));
        let k = choose|k: int| 0 <= k < cs.len() && (#[trigger] cs[k]).0 == x.0 && cs[k].1 == x.1;
        assert(has_pair(es1, cs[k].0, cs[k].1));
        let j = choose|j: int| 0 <= j < es1.len() && (#[trigger] es1[j]).0 == x.0 && es1[j].1 == x.1;
        assert(es1[j] == x);
    }
    assert forall|x: int, y: int| 0 <= x < es1.len() && 0 <= y < es1.len() && x != y implies es1[x]
        != es1[y] by {}
    assert forall|x: int, y: int| 0 <= x < es2.len() && 0 <= y < es2.len() && x != y implies es2[x]
        != es2[y] by {}
    lemma_same_elements(es1, es2);
    assert(es1.len() == es2.len()) by {
        assert(es1.to_multiset().len() == es2.to_multiset().len());
    }
    lemma_call_graphs_agree(es1, es2, cs, es1.len() as int);
    assert(es1 =~= es2);
}

/// Two ordering files that `cgprof_profile` may give for the same
/// contributions (the same profile and image) are the same text.
pub proof fn law_call_graph_text_unique(cs: Seq<CgEdge>, t1: Seq<u8>, t2: Seq<u8>)
    requires
        exists|es: Seq<CgEdge>| is_call_graph(es, cs) && t1 == cg_text(es),
        exists|es: Seq<CgEdge>| is_call_graph(es, cs) && t2 == cg_text(es),
    ensures
        t1 == t2,
{
    let es1 = choose|es: Seq<CgEdge>| is_call_graph(es, cs) && t1 == cg_text(es);
    let es2 = choose|es: Seq<CgEdge>| is_call_graph(es, cs) && t2 == cg_text(es);
    law_call_graph_unique(es1, es2, cs);
}

/// Whether a symbol of `elf` holds `addr`.
fn known_at(elf: &ElfIndex, addr: u64) -> (b: bool)
    ensures
        b == has_symbol_at(elf.syms(), addr),
{
    elf.symbol_at(addr).is_some()
}

/// Sums the call graph of `profile`; `None` where some pair's weight
/// overflows.
fn sum_call_graph(profile: &Profile, elf: &ElfIndex) -> (r: Option<CgSums>)
    ensures
        r is Some <==> cg_totals_fit(profile_contribs(profile, elf.syms())),
        r matches Some(sums) ==> sums.wf() && sums_pairs(sums.edges(), profile_contribs(profile, elf.syms()))
            && sums_ordered(sums.edges(), profile_contribs(profile, elf.syms())),
{
    let ghost syms = elf.syms();
    let ghost full = profile_contribs(profile, syms);
    let ghost dfull = direct_contribs(profile.direct_calls@, syms);
    let ghost ifull = indirect_contribs(profile.indirect_calls@, syms);
    let ghost bfull = branch_contribs(profile.branch_edges@, syms);
    let mut sums = CgSums { callers: Vec::new(), callees: Vec::new(), weights: Vec::new() };
    let ghost mut cs: Seq<CgEdge> = Seq::empty();
    let dc = &profile.direct_calls;
    let mut i: usize = 0;
    while i < dc.len()
        invariant
            syms == elf.syms(),
            full == profile_contribs(profile, syms),
            dfull == direct_contribs(dc@, syms),
            full == dfull + ifull + bfull,
            i <= dc@.len(),
            cs == direct_contribs(dc@.take(i as int), syms),
            sums.wf(),
            sums_pairs(sums.edges(), cs),
            sums_ordered(sums.edges(), cs),
        decreases dc@.len() - i,
    {
        let c = dc[i];
        proof {
            assert(dc@.take(i + 1).drop_last() =~= dc@.take(i as int));
            assert(dc@.take(i + 1).last() == c);
        }
        let a = elf.name_at(c.callsite);
        let b = elf.name_at(c.target);
        if known_at(elf, c.callsite) && known_at(elf, c.target) && !str_eq(a, "[unknown]") && !str_eq(
            b,
            "[unknown]",
        ) {
            if !sums.add(a, b, c.count, Ghost(cs)) {
                proof {
                    lemma_direct_prefix(dc@, syms, i + 1);
                    lemma_append_prefix(direct_contribs(dc@.take(i + 1), syms), dfull, Seq::empty(), ifull + bfull);
                    assert(Seq::<CgEdge>::empty() + direct_contribs(dc@.take(i + 1), syms) =~= direct_contribs(dc@.take(i + 1), syms));
                    assert(Seq::<CgEdge>::empty() + dfull + (ifull + bfull) =~= full);
                    lemma_prefix_total(direct_contribs(dc@.take(i + 1), syms), full, a@, b@);
                }
                return None;
            }
            proof {
                cs = cs.push((a@, b@, c.count));
            }
        }
        i = i + 1;
    }
    assert(dc@.take(dc@.len() as int) =~= dc@);
    let ic = &profile.indirect_calls;
    let mut j: usize = 0;
    while j < ic.len()
        invariant
            syms == elf.syms(),
            full == profile_contribs(profile, syms),
            ifull == indirect_contribs(ic@, syms),
            full == dfull + ifull + bfull,
            j <= ic@.len(),
            cs == dfull + indirect_contribs(ic@.take(j as int), syms),
            sums.wf(),
            sums_pairs(sums.edges(), cs),
            sums_ordered(sums.edges(), cs),
        decreases ic@.len() - j,
    {
        let c = ic[j];
        proof {
            assert(ic@.take(j + 1).drop_last() =~= ic@.take(j as int));
            assert(ic@.take(j + 1).last() == c);
        }
        if c.target != 0 {
            let a = elf.name_at(c.callsite);
            let b = elf.name_at(c.target);
            if known_at(elf, c.callsite) && known_at(elf, c.target) && !str_eq(a, "[unknown]") && !str_eq(
            b,
            "[unknown]",
        ) {
                if !sums.add(a, b, c.count, Ghost(cs)) {
                    proof {
                        lemma_indirect_prefix(ic@, syms, j + 1);
                        lemma_append_prefix(indirect_contribs(ic@.take(j + 1), syms), ifull, dfull, bfull);
                        assert(cs.push((a@, b@, c.count)) =~= dfull + indirect_contribs(ic@.take(j + 1), syms));
                        lemma_prefix_total(dfull + indirect_contribs(ic@.take(j + 1), syms), full, a@, b@);
                    }
                    return None;
                }
                proof {
                    assert(cs.push((a@, b@, c.count)) =~= dfull + indirect_contribs(ic@.take(j + 1), syms));
                    cs = cs.push((a@, b@, c.count));
                }
            }
        }
        proof {
            assert(cs =~= dfull + indirect_contribs(ic@.take(j + 1), syms));
        }
        j = j + 1;
    }
    assert(ic@.take(ic@.len() as int) =~= ic@);
    let be = &profile.branch_edges;
    let mut k: usize = 0;
    while k < be.len()
        invariant
            syms == elf.syms(),
            full == profile_contribs(profile, syms),
            bfull == branch_contribs(be@, syms),
            full == dfull + ifull + bfull,
            k <= be@.len(),
            cs == dfull + ifull + branch_contribs(be@.take(k as int), syms),
            sums.wf(),
            sums_pairs(sums.edges(), cs),
            sums_ordered(sums.edges(), cs),
        decreases be@.len() - k,
    {
        let e = be[k];
        proof {
            assert(be@.take(k + 1).drop_last() =~= be@.take(k as int));
            assert(be@.take(k + 1).last() == e);
        }
        match (elf.symbol_at(e.from), elf.symbol_at(e.to)) {
            (Some(_), Some(_)) => {
                let fa = elf.name_at(e.from);
                let ta = elf.name_at(e.to);
                if !str_eq(fa, ta) {
                    if !sums.add(fa, ta, e.count, Ghost(cs)) {
                        proof {
                            lemma_branch_prefix(be@, syms, k + 1);
                            lemma_append_prefix(branch_contribs(be@.take(k + 1), syms), bfull, dfull + ifull, Seq::empty());
                            assert(dfull + ifull + bfull + Seq::<CgEdge>::empty() =~= full);
                            assert(cs.push((fa@, ta@, e.count)) =~= dfull + ifull + branch_contribs(be@.take(k + 1), syms));
                            lemma_prefix_total(dfull + ifull + branch_contribs(be@.take(k + 1), syms), full, fa@, ta@);
                        }
                        return None;
                    }
                    proof {
                        assert(cs.push((fa@, ta@, e.count)) =~= dfull + ifull + branch_contribs(be@.take(k + 1), syms));
                        cs = cs.push((fa@, ta@, e.count));
                    }
                }
            },
            _ => {},
        }
        proof {
            assert(cs =~= dfull + ifull + branch_contribs(be@.take(k + 1), syms));
        }
        k = k + 1;
    }
    assert(be@.take(be@.len() as int) =~= be@);
    assert(cs == full);
    proof {
        let es = sums.edges();
        assert forall|a: Seq<char>, b: Seq<char>| #[trigger] pair_total(full, a, b) <= u64::MAX by {
            if has_pair(full, a, b) {
                let q = choose|q: int| 0 <= q < full.len() && (#[trigger] full[q]).0 == a && full[q].1 == b;
                let x = choose|x: int| 0 <= x < es.len() && (#[trigger] es[x]).0 == full[q].0 && es[x].1 == full[q].1;
            } else {
                lemma_pair_total_absent(full, a, b);
            }
        }
    }
    Some(sums)
}

/// The edges `es` in the order `order`.
pub open spec fn ordered_edges(order: Seq<usize>, es: Seq<CgEdge>) -> Seq<CgEdge> {
    order.map_values(|k: usize| es[k as int])
}

/// Renders the call graph ordering file of `profile`: its text and the
/// number of edges, or `None` where some edge's summed weight overflows
/// a `u64`. Edges come heaviest first, those of equal weight in the
/// order of their first contributions, so the text is determined
/// (`law_call_graph_text_unique`).
pub fn cgprof_profile(profile: &Profile, elf: &ElfIndex) -> (r: Option<(Vec<u8>, usize)>)
    ensures
        r is Some <==> cg_totals_fit(profile_contribs(profile, elf.syms())),
        r matches Some(x) ==> exists|es: Seq<CgEdge>|
            is_call_graph(es, profile_contribs(profile, elf.syms())) && x.0@ == cg_text(es) && x.1
                == es.len(),
{
    let ghost cs = profile_contribs(profile, elf.syms());
    let sums = match sum_call_graph(profile, elf) {
        Some(s) => s,
        None => return None,
    };
    let ghost e0 = sums.edges();
    let n = sums.weights.len();
    let order = rank_desc(&sums.weights);
    let ghost es = ordered_edges(order@, e0);
    proof {
        assert forall|a: int, b: int|
            0 <= a < es.len() && 0 <= b < es.len() && a != b implies !((#[trigger] es[a]).0 == (
            #[trigger] es[b]).0 && es[a].1 == es[b].1) by {
            assert(order@[a] != order@[b]);
            assert(es[a] == e0[order@[a] as int]);
            assert(es[b] == e0[order@[b] as int]);
        }
        assert forall|a: int| 0 <= a < es.len() implies has_pair(cs, (#[trigger] es[a]).0, es[a].1)
            && es[a].2 == pair_total(cs, es[a].0, es[a].1) by {
            assert(es[a] == e0[order@[a] as int]);
        }
        assert forall|q: int| 0 <= q < cs.len() implies has_pair(es, (#[trigger] cs[q]).0, cs[q].1) by {
            let g = choose|g: int| 0 <= g < e0.len() && (#[trigger] e0[g]).0 == cs[q].0 && e0[g].1 == cs[q].1;
            assert(order@.contains(g as usize));
            let a = choose|a: int| 0 <= a < order@.len() && order@[a] == g as usize;
            assert(es[a] == e0[g]);
        }
        assert forall|a: int, b: int| 0 <= a < b < es.len() implies cg_before(cs, #[trigger] es[a], #[trigger] es[b]) by {
            assert(es[a] == e0[order@[a] as int]);
            assert(es[b] == e0[order@[b] as int]);
            if sums.weights@[order@[a] as int] == sums.weights@[order@[b] as int] {
                assert(order@[a] < order@[b]);
                assert(pair_first(cs, e0[order@[a] as int].0, e0[order@[a] as int].1) < pair_first(
                    cs,
                    e0[order@[b] as int].0,
                    e0[order@[b] as int].1,
                ));
            }
        }
        assert(sums_pairs(es, cs));
    }
    let mut out: Vec<u8> = Vec::new();
    let mut a: usize = 0;
    while a < n
        invariant
            n == order@.len(),
            n == sums.weights@.len(),
            sums.wf(),
            e0 == sums.edges(),
            es == ordered_edges(order@, e0),
            forall|b: int| 0 <= b < n ==> (#[trigger] order@[b]) < n,
            a <= n,
            out@ == cg_text(es.take(a as int)),
        decreases n - a,
    {
        let idx = order[a];
        let ghost prev = out@;
        push_str_replacing(&mut out, sums.callers[idx].as_str(), 0x20, 0x5f);
        push_str(&mut out, " ");
        push_str_replacing(&mut out, sums.callees[idx].as_str(), 0x20, 0x5f);
        push_str(&mut out, " ");
        push_dec(&mut out, sums.weights[idx]);
        push_str(&mut out, "\n");
        proof {
            assert(es[a as int] == e0[idx as int]);
            assert(out@ =~= prev + cg_line(es[a as int]));
            assert(es.take(a + 1).drop_last() =~= es.take(a as int));
        }
        a = a + 1;
    }
    assert(es.take(n as int) =~= es);
    Some((out, n))
}

} // verus!
