//! Parser for the native profile format: a 64-byte file header
//! followed by an append-only log of TLV records
//! (`[tag: u8][len: u24 LE][payload]`).

use vstd::prelude::*;
use std::collections::HashMap;
use crate::bytes::{
    read_u16_le, read_u24_le, read_u32_le, read_u64_le, str_eq, string_from_utf8_lossy, u16_at,
    u24_at, u32_at, u64_at, lossy_text,
};

verus! {

/// Magic number: "QEMU_PGO" in ASCII.
pub const FILE_MAGIC: u64 = 0x4F47505F554D4551;

/// Header flag: the profile was collected under system emulation.
pub const FLAG_SYSEMU: u32 = 0x1;

/// Header flag: edges were streamed in several flushes.
pub const FLAG_STREAMING: u32 = 0x2;

/// TB execution data.
#[derive(Debug, Clone, Copy, PartialEq, Eq, Structural)]
pub struct TbExec {
    pub start_addr: u64,
    pub end_addr: u64,
    pub n_insns: u16,
    pub exec_count: u64,
    pub first_seen_seq: u64,
}

/// Edge record (branch or fall-through).
#[derive(Debug, Clone, Copy, PartialEq, Eq, Structural)]
pub struct EdgeRecord {
    pub from: u64,
    pub to: u64,
    pub count: u64,
}

/// Call record (direct or indirect).
#[derive(Debug, Clone, Copy, PartialEq, Eq, Structural)]
pub struct CallRecord {
    pub callsite: u64,
    pub target: u64,
    pub count: u64,
}

/// Symbol entry.
#[derive(Debug, Clone)]
pub struct SymbolRecord {
    pub sym_id: u16,
    pub addr: u64,
    pub name: String,
}

/// TB resource annotation.
#[derive(Debug, Clone, Copy, PartialEq, Eq, Structural)]
pub struct TbResourceRecord {
    pub tb_addr: u64,
    pub coproc_flags: u32,
    pub vcpu_mask: u64,
}

/// Discontinuity event.
#[derive(Debug, Clone, Copy, PartialEq, Eq, Structural)]
pub struct DisconRecord {
    pub discon_type: u32,
    pub from_pc: u64,
    pub to_pc: u64,
    pub count: u64,
}

/// Footer statistics.
#[derive(Debug, Clone, Copy, PartialEq, Eq, Structural)]
pub struct Footer {
    pub total_tb_count: u64,
    pub total_edge_records: u64,
    pub total_exec_count: u64,
    pub wall_time_ns: u64,
    pub clean_exit: bool,
}

// --- Payload decoding ---

/// The number of fixed-size entries a batch payload yields: the
/// count field, cut short where the payload ends.
pub open spec fn batch_len(p: Seq<u8>, width: int) -> int {
    if p.len() < 4 {
        0
    } else {
        let fit = (p.len() - 4) / width;
        if (u32_at(p, 0) as int) < fit {
            u32_at(p, 0) as int
        } else {
            fit
        }
    }
}

/// The TB execution entry at `off`: start(8) end(8) n_insns(2)
/// pad(6) exec_count(8) first_seen(8).
pub open spec fn tb_exec_at(p: Seq<u8>, off: int) -> TbExec {
    TbExec {
        start_addr: u64_at(p, off),
        end_addr: u64_at(p, off + 8),
        n_insns: u16_at(p, off + 16),
        exec_count: u64_at(p, off + 24),
        first_seen_seq: u64_at(p, off + 32),
    }
}

/// The edge entry at `off`: from(8) to(8) count(8).
pub open spec fn edge_at(p: Seq<u8>, off: int) -> EdgeRecord {
    EdgeRecord { from: u64_at(p, off), to: u64_at(p, off + 8), count: u64_at(p, off + 16) }
}

/// The call entry at `off`: callsite(8) target(8) count(8).
pub open spec fn call_at(p: Seq<u8>, off: int) -> CallRecord {
    CallRecord { callsite: u64_at(p, off), target: u64_at(p, off + 8), count: u64_at(p, off + 16) }
}

/// TB execution entries of a TB exec batch payload.
pub open spec fn spec_tb_exec_batch(p: Seq<u8>) -> Seq<TbExec> {
    Seq::new(batch_len(p, 40) as nat, |i: int| tb_exec_at(p, 4 + 40 * i))
}

/// Edges of a branch or fall-through batch payload.
pub open spec fn spec_edge_batch(p: Seq<u8>) -> Seq<EdgeRecord> {
    Seq::new(batch_len(p, 24) as nat, |i: int| edge_at(p, 4 + 24 * i))
}

/// Calls of a direct or indirect call batch payload.
pub open spec fn spec_call_batch(p: Seq<u8>) -> Seq<CallRecord> {
    Seq::new(batch_len(p, 24) as nat, |i: int| call_at(p, 4 + 24 * i))
}

/// A TB resource payload: tb_addr(8) coproc_flags(4) vcpu_mask(8).
pub open spec fn spec_tb_resource(p: Seq<u8>) -> Option<TbResourceRecord> {
    if p.len() < 20 {
        None
    } else {
        Some(
            TbResourceRecord {
                tb_addr: u64_at(p, 0),
                coproc_flags: u32_at(p, 8),
                vcpu_mask: u64_at(p, 12),
            },
        )
    }
}

/// A discontinuity payload: type(4) from(8) to(8) count(8).
pub open spec fn spec_discontinuity(p: Seq<u8>) -> Option<DisconRecord> {
    if p.len() < 28 {
        None
    } else {
        Some(
            DisconRecord {
                discon_type: u32_at(p, 0),
                from_pc: u64_at(p, 4),
                to_pc: u64_at(p, 12),
                count: u64_at(p, 20),
            },
        )
    }
}

/// A footer payload: totals(3 x 8) wall_time(8) flags(4) reserved(4);
/// flag bit 0 marks a clean exit.
pub open spec fn spec_footer(p: Seq<u8>) -> Option<Footer> {
    if p.len() < 40 {
        None
    } else {
        Some(
            Footer {
                total_tb_count: u64_at(p, 0),
                total_edge_records: u64_at(p, 8),
                total_exec_count: u64_at(p, 16),
                wall_time_ns: u64_at(p, 24),
                clean_exit: u32_at(p, 32) % 2 == 1,
            },
        )
    }
}

/// A string metadata payload: key_len(1) key val_len(2) val, as the
/// key bytes and the value bytes.
pub open spec fn spec_string_meta(p: Seq<u8>) -> Option<(Seq<u8>, Seq<u8>)> {
    if p.len() == 0 || p.len() < 1 + p[0] + 2 {
        None
    } else {
        let key_len = p[0] as int;
        let val_len = u16_at(p, 1 + key_len) as int;
        if p.len() < 3 + key_len + val_len {
            None
        } else {
            Some((p.subrange(1, 1 + key_len), p.subrange(3 + key_len, 3 + key_len + val_len)))
        }
    }
}

/// A symbol entry payload: sym_id(2) addr(8) name_len(2) name.
pub open spec fn spec_symbol_entry(p: Seq<u8>) -> Option<(u16, u64, Seq<u8>)> {
    if p.len() < 12 || p.len() < 12 + u16_at(p, 10) {
        None
    } else {
        Some((u16_at(p, 0), u64_at(p, 2), p.subrange(12, 12 + u16_at(p, 10))))
    }
}

proof fn lemma_batch_end(len: int, width: int, k: int, count: int)
    requires
        width == 24 || width == 40,
        0 <= k <= count,
        len >= 4,
        4 + width * k <= len,
        k == count || len - (4 + width * k) < width,
    ensures
        k == if count < (len - 4) / width {
            count
        } else {
            (len - 4) / width
        },
{
    assert(width * k <= len - 4);
    if k < count {
        assert(len - 4 < width * (k + 1));
        assert((len - 4) / width == k) by (nonlinear_arith)
            requires
                width > 0,
                width * k <= len - 4,
                len - 4 < width * (k + 1),
        ;
    } else {
        assert((len - 4) / width >= k) by (nonlinear_arith)
            requires
                width > 0,
                k >= 0,
                width * k <= len - 4,
        ;
    }
}

fn read_tb_exec(p: &[u8], off: usize) -> (t: TbExec)
    requires
        off + 40 <= p@.len(),
    ensures
        t == tb_exec_at(p@, off as int),
{
    let len = p.len();
    assert(off + 40 <= len);
    TbExec {
        start_addr: read_u64_le(p, off),
        end_addr: read_u64_le(p, off + 8),
        n_insns: read_u16_le(p, off + 16),
        exec_count: read_u64_le(p, off + 24),
        first_seen_seq: read_u64_le(p, off + 32),
    }
}

/// Decodes the entries of a TB exec batch payload.
pub fn decode_tb_exec_batch(payload: &[u8]) -> (v: Vec<TbExec>)
    ensures
        v@ == spec_tb_exec_batch(payload@),
{
    let mut out: Vec<TbExec> = Vec::new();
    let len = payload.len();
    if len < 4 {
        assert(out@ =~= spec_tb_exec_batch(payload@));
        return out;
    }
    let count = read_u32_le(payload, 0) as usize;
    let mut off: usize = 4;
    let mut k: usize = 0;
    while k < count && len - off >= 40
        invariant
            len == payload@.len(),
            len >= 4,
            count == u32_at(payload@, 0),
            k <= count,
            off == 4 + 40 * k,
            off <= len,
            out@.len() == k,
            forall|i: int| 0 <= i < k ==> out@[i] == tb_exec_at(payload@, 4 + 40 * i),
        decreases count - k,
    {
        let t = read_tb_exec(payload, off);
        out.push(t);
        off = off + 40;
        k = k + 1;
    }
    proof {
        lemma_batch_end(len as int, 40, k as int, count as int);
    }
    assert(out@ =~= spec_tb_exec_batch(payload@));
    out
}

/// Decodes the edges of a branch or fall-through batch payload.
pub fn decode_edge_batch(payload: &[u8]) -> (v: Vec<EdgeRecord>)
    ensures
        v@ == spec_edge_batch(payload@),
{
    let mut out: Vec<EdgeRecord> = Vec::new();
    let len = payload.len();
    if len < 4 {
        assert(out@ =~= spec_edge_batch(payload@));
        return out;
    }
    let count = read_u32_le(payload, 0) as usize;
    let mut off: usize = 4;
    let mut k: usize = 0;
    while k < count && len - off >= 24
        invariant
            len == payload@.len(),
            len >= 4,
            count == u32_at(payload@, 0),
            k <= count,
            off == 4 + 24 * k,
            off <= len,
            out@.len() == k,
            forall|i: int| 0 <= i < k ==> out@[i] == edge_at(payload@, 4 + 24 * i),
        decreases count - k,
    {
        let e = EdgeRecord {
            from: read_u64_le(payload, off),
            to: read_u64_le(payload, off + 8),
            count: read_u64_le(payload, off + 16),
        };
        out.push(e);
        off = off + 24;
        k = k + 1;
    }
    proof {
        lemma_batch_end(len as int, 24, k as int, count as int);
    }
    assert(out@ =~= spec_edge_batch(payload@));
    out
}

/// Decodes the calls of a direct or indirect call batch payload.
pub fn decode_call_batch(payload: &[u8]) -> (v: Vec<CallRecord>)
    ensures
        v@ == spec_call_batch(payload@),
{
    let mut out: Vec<CallRecord> = Vec::new();
    let len = payload.len();
    if len < 4 {
        assert(out@ =~= spec_call_batch(payload@));
        return out;
    }
    let count = read_u32_le(payload, 0) as usize;
    let mut off: usize = 4;
    let mut k: usize = 0;
    while k < count && len - off >= 24
        invariant
            len == payload@.len(),
            len >= 4,
            count == u32_at(payload@, 0),
            k <= count,
            off == 4 + 24 * k,
            off <= len,
            out@.len() == k,
            forall|i: int| 0 <= i < k ==> out@[i] == call_at(payload@, 4 + 24 * i),
        decreases count - k,
    {
        let c = CallRecord {
            callsite: read_u64_le(payload, off),
            target: read_u64_le(payload, off + 8),
            count: read_u64_le(payload, off + 16),
        };
        out.push(c);
        off = off + 24;
        k = k + 1;
    }
    proof {
        lemma_batch_end(len as int, 24, k as int, count as int);
    }
    assert(out@ =~= spec_call_batch(payload@));
    out
}

/// Decodes a TB resource payload.
pub fn decode_tb_resource(payload: &[u8]) -> (r: Option<TbResourceRecord>)
    ensures
        r == spec_tb_resource(payload@),
{
    if payload.len() < 20 {
        return None;
    }
    Some(
        TbResourceRecord {
            tb_addr: read_u64_le(payload, 0),
            coproc_flags: read_u32_le(payload, 8),
            vcpu_mask: read_u64_le(payload, 12),
        },
    )
}

/// Decodes a discontinuity payload.
pub fn decode_discontinuity(payload: &[u8]) -> (r: Option<DisconRecord>)
    ensures
        r == spec_discontinuity(payload@),
{
    if payload.len() < 28 {
        return None;
    }
    Some(
        DisconRecord {
            discon_type: read_u32_le(payload, 0),
            from_pc: read_u64_le(payload, 4),
            to_pc: read_u64_le(payload, 12),
            count: read_u64_le(payload, 20),
        },
    )
}

/// Decodes a footer payload.
pub fn decode_footer(payload: &[u8]) -> (r: Option<Footer>)
    ensures
        r == spec_footer(payload@),
{
    if payload.len() < 40 {
        return None;
    }
    let flags = read_u32_le(payload, 32);
    Some(
        Footer {
            total_tb_count: read_u64_le(payload, 0),
            total_edge_records: read_u64_le(payload, 8),
            total_exec_count: read_u64_le(payload, 16),
            wall_time_ns: read_u64_le(payload, 24),
            clean_exit: flags % 2 == 1,
        },
    )
}


// --- Metadata: key/value strings, one entry per key ---

/// Whether some entry of `m` has key `k`.
pub open spec fn meta_has(m: Seq<(String, String)>, k: Seq<char>) -> bool {
    exists|i: int| 0 <= i < m.len() && (#[trigger] m[i]).0@ == k
}

/// No two entries of `m` share a key.
pub open spec fn meta_keys_distinct(m: Seq<(String, String)>) -> bool {
    forall|i: int, j: int|
        0 <= i < m.len() && 0 <= j < m.len() && i != j ==> (#[trigger] m[i]).0@ != (#[trigger] m[j]).0@
}

/// The key/value map that the entries of `m` hold.
pub open spec fn meta_map(m: Seq<(String, String)>) -> Map<Seq<char>, Seq<char>> {
    Map::new(
        |k: Seq<char>| meta_has(m, k),
        |k: Seq<char>| m[choose|i: int| 0 <= i < m.len() && (#[trigger] m[i]).0@ == k].1@,
    )
}

proof fn lemma_meta_map_at(m: Seq<(String, String)>, i: int)
    requires
        meta_keys_distinct(m),
        0 <= i < m.len(),
    ensures
        meta_map(m).contains_key(m[i].0@),
        meta_map(m)[m[i].0@] == m[i].1@,
{
    assert(meta_has(m, m[i].0@));
    let j = choose|j: int| 0 <= j < m.len() && (#[trigger] m[j]).0@ == m[i].0@;
    assert(j == i);
}

/// Index of the entry with key `key`, if any.
fn meta_find(m: &Vec<(String, String)>, key: &str) -> (r: Option<usize>)
    ensures
        match r {
            Some(i) => i < m@.len() && m@[i as int].0@ == key@,
            None => !meta_has(m@, key@),
        },
{
    let mut i: usize = 0;
    while i < m.len()
        invariant
            i <= m@.len(),
            forall|j: int| 0 <= j < i ==> (#[trigger] m@[j]).0@ != key@,
        decreases m@.len() - i,
    {
        if str_eq(m[i].0.as_str(), key) {
            return Some(i);
        }
        i = i + 1;
    }
    None
}

/// Sets the value of `key`, replacing an earlier value of that key.
pub fn meta_insert(m: &mut Vec<(String, String)>, key: String, value: String)
    requires
        meta_keys_distinct(old(m)@),
    ensures
        meta_keys_distinct(final(m)@),
        meta_map(final(m)@) == meta_map(old(m)@).insert(key@, value@),
{
    let ghost k = key@;
    let ghost v = value@;
    let ghost om = m@;
    match meta_find(m, key.as_str()) {
        Some(i) => {
            m.set(i, (key, value));
            let ghost nm = m@;
            assert(meta_keys_distinct(nm)) by {
                assert forall|a: int, b: int|
                    0 <= a < nm.len() && 0 <= b < nm.len() && a != b implies (
                    #[trigger] nm[a]).0@ != (#[trigger] nm[b]).0@ by {
                    if a != i && b != i {
                        assert(nm[a] == om[a] && nm[b] == om[b]);
                    } else if a == i {
                        assert(nm[b] == om[b]);
                    } else {
                        assert(nm[a] == om[a]);
                    }
                }
            }
            assert(meta_map(nm) =~= meta_map(om).insert(k, v)) by {
                assert forall|kk: Seq<char>| #[trigger]
                    meta_map(nm).contains_key(kk) == meta_map(om).insert(k, v).contains_key(kk) by {
                    if meta_has(nm, kk) {
                        let a = choose|a: int| 0 <= a < nm.len() && (#[trigger] nm[a]).0@ == kk;
                        if a != i {
                            assert(om[a] == nm[a]);
                        }
                    }
                    if meta_has(om, kk) {
                        let a = choose|a: int| 0 <= a < om.len() && (#[trigger] om[a]).0@ == kk;
                        if a != i {
                            assert(om[a] == nm[a]);
                        } else {
                            assert(nm[i as int].0@ == k);
                        }
                    }
                    if kk == k {
                        assert(nm[i as int].0@ == k);
                    }
                }
                assert forall|kk: Seq<char>| #[trigger]
                    meta_map(nm).contains_key(kk) implies meta_map(nm)[kk] == meta_map(om).insert(
                    k,
                    v,
                )[kk] by {
                    let a = choose|a: int| 0 <= a < nm.len() && (#[trigger] nm[a]).0@ == kk;
                    lemma_meta_map_at(nm, a);
                    if a != i {
                        assert(om[a] == nm[a]);
                        lemma_meta_map_at(om, a);
                    }
                }
            }
        },
        None => {
            m.push((key, value));
            let ghost nm = m@;
            assert(meta_keys_distinct(nm)) by {
                assert forall|a: int, b: int|
                    0 <= a < nm.len() && 0 <= b < nm.len() && a != b implies (
                    #[trigger] nm[a]).0@ != (#[trigger] nm[b]).0@ by {
                    if a < om.len() && b < om.len() {
                        assert(nm[a] == om[a] && nm[b] == om[b]);
                    } else if a < om.len() {
                        assert(nm[a] == om[a]);
                    } else {
                        assert(nm[b] == om[b]);
                    }
                }
            }
            assert(meta_map(nm) =~= meta_map(om).insert(k, v)) by {
                assert forall|kk: Seq<char>| #[trigger]
                    meta_map(nm).contains_key(kk) == meta_map(om).insert(k, v).contains_key(kk) by {
                    if meta_has(nm, kk) {
                        let a = choose|a: int| 0 <= a < nm.len() && (#[trigger] nm[a]).0@ == kk;
                        if a < om.len() {
                            assert(om[a] == nm[a]);
                        }
                    }
                    if meta_has(om, kk) {
                        let a = choose|a: int| 0 <= a < om.len() && (#[trigger] om[a]).0@ == kk;
                        assert(om[a] == nm[a]);
                    }
                    if kk == k {
                        assert(nm[om.len() as int].0@ == k);
                    }
                }
                assert forall|kk: Seq<char>| #[trigger]
                    meta_map(nm).contains_key(kk) implies meta_map(nm)[kk] == meta_map(om).insert(
                    k,
                    v,
                )[kk] by {
                    let a = choose|a: int| 0 <= a < nm.len() && (#[trigger] nm[a]).0@ == kk;
                    lemma_meta_map_at(nm, a);
                    if a < om.len() {
                        assert(om[a] == nm[a]);
                        lemma_meta_map_at(om, a);
                    }
                }
            }
        },
    }
}

/// The value stored for `key`, if any.
pub fn meta_get<'a>(m: &'a Vec<(String, String)>, key: &str) -> (r: Option<&'a String>)
    requires
        meta_keys_distinct(m@),
    ensures
        match r {
            Some(v) => meta_map(m@).contains_key(key@) && v@ == meta_map(m@)[key@],
            None => !meta_map(m@).contains_key(key@),
        },
{
    match meta_find(m, key) {
        Some(i) => {
            proof {
                lemma_meta_map_at(m@, i as int);
            }
            Some(&m[i].1)
        },
        None => None,
    }
}


// --- Header and profile ---

/// Parsed file header.
#[derive(Debug)]
pub struct FileHeader {
    pub format_version: u16,
    pub tier: u8,
    pub pointer_size: u8,
    pub flags: u32,
    pub load_addr: u64,
    pub text_start: u64,
    pub text_end: u64,
    pub entry_addr: u64,
    pub build_id: [u8; 16],
}

/// Complete parsed profile.
#[derive(Debug)]
pub struct Profile {
    pub header: FileHeader,
    /// Key/value metadata, one entry per key.
    pub metadata: Vec<(String, String)>,
    pub symbols: Vec<SymbolRecord>,
    pub tb_execs: Vec<TbExec>,
    pub branch_edges: Vec<EdgeRecord>,
    pub fall_through_edges: Vec<EdgeRecord>,
    pub direct_calls: Vec<CallRecord>,
    pub indirect_calls: Vec<CallRecord>,
    pub tb_resources: Vec<TbResourceRecord>,
    pub discon_events: Vec<DisconRecord>,
    pub footer: Option<Footer>,
}

/// The records of a profile, with strings taken by their characters.
pub struct ProfileModel {
    pub metadata: Map<Seq<char>, Seq<char>>,
    pub symbols: Seq<(u16, u64, Seq<char>)>,
    pub tb_execs: Seq<TbExec>,
    pub branch_edges: Seq<EdgeRecord>,
    pub fall_through_edges: Seq<EdgeRecord>,
    pub direct_calls: Seq<CallRecord>,
    pub indirect_calls: Seq<CallRecord>,
    pub tb_resources: Seq<TbResourceRecord>,
    pub discon_events: Seq<DisconRecord>,
    pub footer: Option<Footer>,
}

/// A symbol record by its values.
pub open spec fn symbol_view(s: SymbolRecord) -> (u16, u64, Seq<char>) {
    (s.sym_id, s.addr, s.name@)
}

impl View for Profile {
    type V = ProfileModel;

    open spec fn view(&self) -> ProfileModel {
        ProfileModel {
            metadata: meta_map(self.metadata@),
            symbols: self.symbols@.map_values(|s: SymbolRecord| symbol_view(s)),
            tb_execs: self.tb_execs@,
            branch_edges: self.branch_edges@,
            fall_through_edges: self.fall_through_edges@,
            direct_calls: self.direct_calls@,
            indirect_calls: self.indirect_calls@,
            tb_resources: self.tb_resources@,
            discon_events: self.discon_events@,
            footer: self.footer,
        }
    }
}

impl Profile {
    /// The metadata holds one entry per key.
    pub open spec fn wf(&self) -> bool {
        meta_keys_distinct(self.metadata@)
    }
}

/// A profile with no records.
pub open spec fn empty_model() -> ProfileModel {
    ProfileModel {
        metadata: Map::empty(),
        symbols: Seq::empty(),
        tb_execs: Seq::empty(),
        branch_edges: Seq::empty(),
        fall_through_edges: Seq::empty(),
        direct_calls: Seq::empty(),
        indirect_calls: Seq::empty(),
        tb_resources: Seq::empty(),
        discon_events: Seq::empty(),
        footer: None,
    }
}

/// The profile `p` after the TLV record `tag`/`payload`. Unknown tags
/// and payloads too short for their record are skipped.
#[verifier::opaque]
pub open spec fn apply_record(p: ProfileModel, tag: u8, payload: Seq<u8>) -> ProfileModel {
    if tag == 0x01 {
        match spec_string_meta(payload) {
            Some((k, v)) => ProfileModel {
                metadata: p.metadata.insert(lossy_text(k), lossy_text(v)),
                ..p
            },
            None => p,
        }
    } else if tag == 0x02 {
        match spec_symbol_entry(payload) {
            Some((id, addr, name)) => ProfileModel {
                symbols: p.symbols.push((id, addr, lossy_text(name))),
                ..p
            },
            None => p,
        }
    } else if tag == 0x13 {
        ProfileModel { tb_execs: p.tb_execs + spec_tb_exec_batch(payload), ..p }
    } else if tag == 0x21 {
        ProfileModel { branch_edges: p.branch_edges + spec_edge_batch(payload), ..p }
    } else if tag == 0x23 {
        ProfileModel { fall_through_edges: p.fall_through_edges + spec_edge_batch(payload), ..p }
    } else if tag == 0x32 {
        ProfileModel { direct_calls: p.direct_calls + spec_call_batch(payload), ..p }
    } else if tag == 0x33 {
        ProfileModel { indirect_calls: p.indirect_calls + spec_call_batch(payload), ..p }
    } else if tag == 0x40 {
        match spec_tb_resource(payload) {
            Some(r) => ProfileModel { tb_resources: p.tb_resources.push(r), ..p },
            None => p,
        }
    } else if tag == 0x42 {
        match spec_discontinuity(payload) {
            Some(d) => ProfileModel { discon_events: p.discon_events.push(d), ..p },
            None => p,
        }
    } else if tag == 0xFF {
        match spec_footer(payload) {
            Some(f) => ProfileModel { footer: Some(f), ..p },
            None => p,
        }
    } else {
        p
    }
}

/// Whether a whole TLV record starts at `off`.
pub open spec fn record_at(data: Seq<u8>, off: int) -> bool {
    0 <= off && off + 4 <= data.len() && off + 4 + u24_at(data, off + 1) <= data.len()
}

/// The profile `p` after every whole record from `off` on, up to the
/// end of the data or the first truncated record.
pub open spec fn apply_records(p: ProfileModel, data: Seq<u8>, off: int) -> ProfileModel
    decreases data.len() - off,
{
    if record_at(data, off) {
        let end = off + 4 + u24_at(data, off + 1);
        apply_records(apply_record(p, data[off], data.subrange(off + 4, end)), data, end)
    } else {
        p
    }
}

fn parse_string_meta(payload: &[u8], profile: &mut Profile)
    requires
        old(profile).wf(),
    ensures
        final(profile).wf(),
        final(profile)@ == apply_record(old(profile)@, 0x01, payload@),
        final(profile).header == old(profile).header,
{
    reveal(apply_record);
    let len = payload.len();
    if len == 0 {
        return;
    }
    let key_len = payload[0] as usize;
    if len < 1 + key_len + 2 {
        return;
    }
    let key = string_from_utf8_lossy(&payload[1..1 + key_len]);
    let val_len = read_u16_le(payload, 1 + key_len) as usize;
    let val_start = 3 + key_len;
    if len < val_start + val_len {
        return;
    }
    let val = string_from_utf8_lossy(&payload[val_start..val_start + val_len]);
    let ghost old_meta = profile.metadata@;
    meta_insert(&mut profile.metadata, key, val);
    assert(profile@.symbols == old(profile)@.symbols);
}

fn parse_symbol_entry(payload: &[u8], profile: &mut Profile)
    requires
        old(profile).wf(),
    ensures
        final(profile).wf(),
        final(profile)@ == apply_record(old(profile)@, 0x02, payload@),
        final(profile).header == old(profile).header,
{
    reveal(apply_record);
    let len = payload.len();
    if len < 12 {
        return;
    }
    let sym_id = read_u16_le(payload, 0);
    let addr = read_u64_le(payload, 2);
    let name_len = read_u16_le(payload, 10) as usize;
    if len < 12 + name_len {
        return;
    }
    let name = string_from_utf8_lossy(&payload[12..12 + name_len]);
    let ghost old_syms = profile.symbols@;
    profile.symbols.push(SymbolRecord { sym_id, addr, name });
    assert(profile.symbols@.map_values(|s: SymbolRecord| symbol_view(s)) =~= old_syms.map_values(
        |s: SymbolRecord| symbol_view(s),
    ).push((sym_id, addr, lossy_text(payload@.subrange(12, 12 + name_len as int)))));
}

/// Applies one TLV record to the profile.
fn apply_tlv(tag: u8, payload: &[u8], profile: &mut Profile)
    requires
        old(profile).wf(),
    ensures
        final(profile).wf(),
        final(profile)@ == apply_record(old(profile)@, tag, payload@),
        final(profile).header == old(profile).header,
{
    reveal(apply_record);
    if tag == 0x01 {
        parse_string_meta(payload, profile);
    } else if tag == 0x02 {
        parse_symbol_entry(payload, profile);
    } else if tag == 0x13 {
        let mut v = decode_tb_exec_batch(payload);
        profile.tb_execs.append(&mut v);
    } else if tag == 0x21 {
        let mut v = decode_edge_batch(payload);
        profile.branch_edges.append(&mut v);
    } else if tag == 0x23 {
        let mut v = decode_edge_batch(payload);
        profile.fall_through_edges.append(&mut v);
    } else if tag == 0x32 {
        let mut v = decode_call_batch(payload);
        profile.direct_calls.append(&mut v);
    } else if tag == 0x33 {
        let mut v = decode_call_batch(payload);
        profile.indirect_calls.append(&mut v);
    } else if tag == 0x40 {
        if let Some(r) = decode_tb_resource(payload) {
            profile.tb_resources.push(r);
        }
    } else if tag == 0x42 {
        if let Some(d) = decode_discontinuity(payload) {
            profile.discon_events.push(d);
        }
    } else if tag == 0xFF {
        if let Some(f) = decode_footer(payload) {
            profile.footer = Some(f);
        }
    }
}

fn whole_record_at(data: &[u8], off: usize) -> (r: bool)
    requires
        off <= data@.len(),
    ensures
        r == record_at(data@, off as int),
{
    let len = data.len();
    if len - off < 4 {
        return false;
    }
    let plen = read_u24_le(data, off + 1) as usize;
    len - off - 4 >= plen
}


// --- Header parsing ---

/// A field of the 64-byte file header.
#[derive(Debug, Clone, Copy, PartialEq, Eq, Structural)]
pub enum HeaderField {
    Magic,
    Version,
    Tier,
    PointerSize,
    Flags,
    LoadAddr,
    TextStart,
    TextEnd,
    Entry,
    BuildId,
}

/// Why a profile was rejected.
#[derive(Debug, Clone, Copy, PartialEq, Eq, Structural)]
pub enum ParseError {
    /// The data ends inside the named header field.
    TruncatedHeader(HeaderField),
    /// The magic number is not `FILE_MAGIC`; holds the value found.
    BadMagic(u64),
    /// The format version is not 1; holds the version found.
    UnsupportedVersion(u16),
    /// The pointer size is neither 4 nor 8; holds the size found.
    InvalidPointerSize(u8),
}

/// The error that the header of `data` is rejected with, checking the
/// fields in file order, or `None` for a valid header.
pub open spec fn spec_header_error(data: Seq<u8>) -> Option<ParseError> {
    if data.len() < 8 {
        Some(ParseError::TruncatedHeader(HeaderField::Magic))
    } else if u64_at(data, 0) != FILE_MAGIC {
        Some(ParseError::BadMagic(u64_at(data, 0)))
    } else if data.len() < 10 {
        Some(ParseError::TruncatedHeader(HeaderField::Version))
    } else if u16_at(data, 8) != 1 {
        Some(ParseError::UnsupportedVersion(u16_at(data, 8)))
    } else if data.len() < 11 {
        Some(ParseError::TruncatedHeader(HeaderField::Tier))
    } else if data.len() < 12 {
        Some(ParseError::TruncatedHeader(HeaderField::PointerSize))
    } else if data[11] != 4 && data[11] != 8 {
        Some(ParseError::InvalidPointerSize(data[11]))
    } else if data.len() < 16 {
        Some(ParseError::TruncatedHeader(HeaderField::Flags))
    } else if data.len() < 24 {
        Some(ParseError::TruncatedHeader(HeaderField::LoadAddr))
    } else if data.len() < 32 {
        Some(ParseError::TruncatedHeader(HeaderField::TextStart))
    } else if data.len() < 40 {
        Some(ParseError::TruncatedHeader(HeaderField::TextEnd))
    } else if data.len() < 48 {
        Some(ParseError::TruncatedHeader(HeaderField::Entry))
    } else if data.len() < 64 {
        Some(ParseError::TruncatedHeader(HeaderField::BuildId))
    } else {
        None
    }
}

/// `h` holds the header fields stored in the first 64 bytes of `data`.
pub open spec fn header_matches(h: FileHeader, data: Seq<u8>) -> bool {
    &&& h.format_version == u16_at(data, 8)
    &&& h.tier == data[10]
    &&& h.pointer_size == data[11]
    &&& h.flags == u32_at(data, 12)
    &&& h.load_addr == u64_at(data, 16)
    &&& h.text_start == u64_at(data, 24)
    &&& h.text_end == u64_at(data, 32)
    &&& h.entry_addr == u64_at(data, 40)
    &&& h.build_id@ == data.subrange(48, 64)
}

/// Parses the 64-byte file header at the start of `data`.
pub fn parse_header(data: &[u8]) -> (r: Result<FileHeader, ParseError>)
    ensures
        match r {
            Ok(h) => spec_header_error(data@) is None && header_matches(h, data@),
            Err(e) => spec_header_error(data@) == Some(e),
        },
{
    let len = data.len();
    if len < 8 {
        return Err(ParseError::TruncatedHeader(HeaderField::Magic));
    }
    let magic = read_u64_le(data, 0);
    if magic != FILE_MAGIC {
        return Err(ParseError::BadMagic(magic));
    }
    if len < 10 {
        return Err(ParseError::TruncatedHeader(HeaderField::Version));
    }
    let format_version = read_u16_le(data, 8);
    if format_version != 1 {
        return Err(ParseError::UnsupportedVersion(format_version));
    }
    if len < 11 {
        return Err(ParseError::TruncatedHeader(HeaderField::Tier));
    }
    let tier = data[10];
    if len < 12 {
        return Err(ParseError::TruncatedHeader(HeaderField::PointerSize));
    }
    let pointer_size = data[11];
    if pointer_size != 4 && pointer_size != 8 {
        return Err(ParseError::InvalidPointerSize(pointer_size));
    }
    if len < 16 {
        return Err(ParseError::TruncatedHeader(HeaderField::Flags));
    }
    let flags = read_u32_le(data, 12);
    if len < 24 {
        return Err(ParseError::TruncatedHeader(HeaderField::LoadAddr));
    }
    let load_addr = read_u64_le(data, 16);
    if len < 32 {
        return Err(ParseError::TruncatedHeader(HeaderField::TextStart));
    }
    let text_start = read_u64_le(data, 24);
    if len < 40 {
        return Err(ParseError::TruncatedHeader(HeaderField::TextEnd));
    }
    let text_end = read_u64_le(data, 32);
    if len < 48 {
        return Err(ParseError::TruncatedHeader(HeaderField::Entry));
    }
    let entry_addr = read_u64_le(data, 40);
    if len < 64 {
        return Err(ParseError::TruncatedHeader(HeaderField::BuildId));
    }
    let build_id: [u8; 16] = [
        data[48],
        data[49],
        data[50],
        data[51],
        data[52],
        data[53],
        data[54],
        data[55],
        data[56],
        data[57],
        data[58],
        data[59],
        data[60],
        data[61],
        data[62],
        data[63],
    ];
    assert(build_id@ =~= data@.subrange(48, 64));
    Ok(
        FileHeader {
            format_version,
            tier,
            pointer_size,
            flags,
            load_addr,
            text_start,
            text_end,
            entry_addr,
            build_id,
        },
    )
}

/// Parses a native profile from its bytes: the header, then every
/// whole TLV record up to the end of the data or the first truncated
/// record. Duplicate edges are kept as they were logged.
pub fn parse_records(data: &[u8]) -> (r: Result<Profile, ParseError>)
    ensures
        match r {
            Ok(p) => {
                &&& spec_header_error(data@) is None
                &&& header_matches(p.header, data@)
                &&& p.wf()
                &&& p@ == apply_records(empty_model(), data@, 64)
            },
            Err(e) => spec_header_error(data@) == Some(e),
        },
{
    let header = parse_header(data)?;
    let mut profile = Profile {
        header,
        metadata: Vec::new(),
        symbols: Vec::new(),
        tb_execs: Vec::new(),
        branch_edges: Vec::new(),
        fall_through_edges: Vec::new(),
        direct_calls: Vec::new(),
        indirect_calls: Vec::new(),
        tb_resources: Vec::new(),
        discon_events: Vec::new(),
        footer: None,
    };
    assert(profile@.metadata =~= Map::empty());
    assert(profile@.symbols =~= Seq::empty());
    assert(profile@ == empty_model());
    let len = data.len();
    let mut off: usize = 64;
    while whole_record_at(data, off)
        invariant
            len == data@.len(),
            64 <= off <= len,
            profile.wf(),
            header_matches(profile.header, data@),
            apply_records(profile@, data@, off as int) == apply_records(
                empty_model(),
                data@,
                64,
            ),
        decreases len - off,
    {
        let tag = data[off];
        let plen = read_u24_le(data, off + 1) as usize;
        let end = off + 4 + plen;
        apply_tlv(tag, &data[off + 4..end], &mut profile);
        off = end;
    }
    Ok(profile)
}


// --- Merging duplicate edges ---

/// Sum of the counts of the edges `from -> to` in `edges`.
pub open spec fn edge_total(edges: Seq<EdgeRecord>, from: u64, to: u64) -> int
    decreases edges.len(),
{
    if edges.len() == 0 {
        0
    } else {
        edge_total(edges.drop_last(), from, to) + if edges.last().from == from && edges.last().to
            == to {
            edges.last().count as int
        } else {
            0
        }
    }
}

/// Whether `edges` holds an edge `from -> to`.
pub open spec fn has_edge(edges: Seq<EdgeRecord>, from: u64, to: u64) -> bool {
    exists|i: int| 0 <= i < edges.len() && (#[trigger] edges[i]).from == from && edges[i].to == to
}

/// No two edges of `edges` join the same pair of addresses.
pub open spec fn edge_keys_distinct(edges: Seq<EdgeRecord>) -> bool {
    forall|i: int, j: int|
        0 <= i < edges.len() && 0 <= j < edges.len() && i != j ==> !((#[trigger] edges[i]).from
            == (#[trigger] edges[j]).from && edges[i].to == edges[j].to)
}

/// The summed count of every address pair fits in a `u64`.
pub open spec fn edge_totals_fit(edges: Seq<EdgeRecord>) -> bool {
    forall|from: u64, to: u64| #[trigger] edge_total(edges, from, to) <= u64::MAX
}

/// `merged` holds each address pair of `edges` once, with the summed
/// count; where `edges` has no duplicates it is `edges` itself.
pub open spec fn is_merge_of(merged: Seq<EdgeRecord>, edges: Seq<EdgeRecord>) -> bool {
    &&& edge_keys_distinct(merged)
    &&& forall|i: int|
        0 <= i < merged.len() ==> has_edge(edges, (#[trigger] merged[i]).from, merged[i].to)
            && merged[i].count == edge_total(edges, merged[i].from, merged[i].to)
    &&& forall|i: int|
        0 <= i < edges.len() ==> has_edge(merged, (#[trigger] edges[i]).from, edges[i].to)
    &&& edge_keys_distinct(edges) ==> merged == edges
}

proof fn lemma_edge_total_prefix(edges: Seq<EdgeRecord>, i: int, from: u64, to: u64)
    requires
        0 <= i <= edges.len(),
    ensures
        0 <= edge_total(edges.take(i), from, to) <= edge_total(edges, from, to),
    decreases edges.len() - i,
{
    if i == edges.len() {
        assert(edges.take(i) =~= edges);
        lemma_edge_total_nonneg(edges, from, to);
    } else {
        lemma_edge_total_prefix(edges, i + 1, from, to);
        assert(edges.take(i + 1).drop_last() =~= edges.take(i));
        lemma_edge_total_nonneg(edges.take(i), from, to);
    }
}

proof fn lemma_edge_total_nonneg(edges: Seq<EdgeRecord>, from: u64, to: u64)
    ensures
        0 <= edge_total(edges, from, to),
    decreases edges.len(),
{
    if edges.len() > 0 {
        lemma_edge_total_nonneg(edges.drop_last(), from, to);
    }
}

/// Index in the merged list of the edge `f -> t`, per the two-level
/// lookup table.
spec fn idx_of(index: Map<u64, HashMap<u64, usize>>, f: u64, t: u64) -> Option<usize> {
    if index.contains_key(f) && index[f]@.contains_key(t) {
        Some(index[f]@[t])
    } else {
        None
    }
}

fn index_lookup(index: &HashMap<u64, HashMap<u64, usize>>, f: u64, t: u64) -> (r: Option<usize>)
    ensures
        r == idx_of(index@, f, t),
{
    broadcast use vstd::std_specs::hash::group_hash_axioms;

    match index.get(&f) {
        Some(inner) => match inner.get(&t) {
            Some(j) => Some(*j),
            None => None,
        },
        None => None,
    }
}

fn index_insert(index: &mut HashMap<u64, HashMap<u64, usize>>, f: u64, t: u64, j: usize)
    ensures
        forall|f2: u64, t2: u64|
            #[trigger] idx_of(final(index)@, f2, t2) == if f2 == f && t2 == t {
                Some(j)
            } else {
                idx_of(old(index)@, f2, t2)
            },
{
    broadcast use vstd::std_specs::hash::group_hash_axioms;

    let mut inner = match index.remove(&f) {
        Some(m) => m,
        None => HashMap::new(),
    };
    inner.insert(t, j);
    index.insert(f, inner);
}

/// Merges duplicate edges by summing their counts, unless a sum
/// overflows a `u64`: then the edges are left as they were and `false`
/// is returned. Edges are kept in the order in which each address pair
/// first occurs; where there is no duplicate the list is unchanged.
pub fn try_merge_edges(edges: &mut Vec<EdgeRecord>) -> (ok: bool)
    ensures
        ok == edge_totals_fit(old(edges)@),
        ok ==> is_merge_of(final(edges)@, old(edges)@),
        !ok ==> final(edges)@ == old(edges)@,
{
    let ghost all = edges@;
    let n = edges.len();
    let mut merged: Vec<EdgeRecord> = Vec::new();
    let mut index: HashMap<u64, HashMap<u64, usize>> = HashMap::new();
    proof {
        broadcast use vstd::std_specs::hash::group_hash_axioms;
        assert(index@ == Map::<u64, HashMap<u64, usize>>::empty());
    }
    let mut i: usize = 0;
    while i < n
        invariant
            n == all.len(),
            edges@ == all,
            0 <= i <= n,
            merged@.len() <= i,
            forall|j: int|
                0 <= j < merged@.len() ==> idx_of(index@, (#[trigger] merged@[j]).from, merged@[j].to)
                    == Some(j as usize),
            forall|f: u64, t: u64|
                #[trigger] idx_of(index@, f, t) is Some ==> idx_of(index@, f, t).unwrap()
                    < merged@.len() && merged@[idx_of(index@, f, t).unwrap() as int].from == f
                    && merged@[idx_of(index@, f, t).unwrap() as int].to == t,
            forall|j: int|
                0 <= j < merged@.len() ==> has_edge(
                    all.take(i as int),
                    (#[trigger] merged@[j]).from,
                    merged@[j].to,
                ) && merged@[j].count == edge_total(all.take(i as int), merged@[j].from, merged@[j].to),
            forall|k: int| 0 <= k < i ==> has_edge(merged@, (#[trigger] all[k]).from, all[k].to),
            merged@.len() == i ==> merged@ == all.take(i as int),
            edge_keys_distinct(all.take(i as int)) ==> merged@.len() == i,
        decreases n - i,
    {
        let e = edges[i];
        let ghost pre = all.take(i as int);
        let ghost post = all.take(i + 1);
        assert(post.drop_last() =~= pre);
        assert(post.last() == e);
        proof {
            lemma_edge_total_prefix(all, i + 1, e.from, e.to);
        }
        match index_lookup(&index, e.from, e.to) {
            Some(j) => {
                let old_rec = merged[j];
                assert(edge_total(post, e.from, e.to) == old_rec.count + e.count);
                let c = match old_rec.count.checked_add(e.count) {
                    Some(c) => c,
                    None => {
                        assert(!edge_totals_fit(all)) by {
                            assert(edge_total(all, e.from, e.to) > u64::MAX);
                        }
                        return false;
                    },
                };
                let ghost om = merged@;
                merged.set(j, EdgeRecord { from: old_rec.from, to: old_rec.to, count: c });
                assert forall|jj: int| 0 <= jj < merged@.len() implies has_edge(
                    post,
                    (#[trigger] merged@[jj]).from,
                    merged@[jj].to,
                ) && merged@[jj].count == edge_total(post, merged@[jj].from, merged@[jj].to) by {
                    let w = choose|w: int|
                        0 <= w < pre.len() && (#[trigger] pre[w]).from == om[jj].from && pre[w].to
                            == om[jj].to;
                    assert(post[w] == pre[w]);
                }
                assert forall|k: int| 0 <= k < i + 1 implies has_edge(
                    merged@,
                    (#[trigger] all[k]).from,
                    all[k].to,
                ) by {
                    if k < i {
                        let w = choose|w: int|
                            0 <= w < om.len() && (#[trigger] om[w]).from == all[k].from && om[w].to
                                == all[k].to;
                        assert(merged@[w].from == om[w].from && merged@[w].to == om[w].to);
                    } else {
                        assert(merged@[j as int].from == e.from && merged@[j as int].to == e.to);
                    }
                }
                assert(!edge_keys_distinct(post)) by {
                    let w = choose|w: int|
                        0 <= w < pre.len() && (#[trigger] pre[w]).from == e.from && pre[w].to
                            == e.to;
                    assert(post[w] == pre[w]);
                    assert(post[i as int] == e);
                }
            },
            None => {
                let ghost om = merged@;
                index_insert(&mut index, e.from, e.to, merged.len());
                merged.push(e);
                assert forall|jj: int| 0 <= jj < merged@.len() implies has_edge(
                    post,
                    (#[trigger] merged@[jj]).from,
                    merged@[jj].to,
                ) && merged@[jj].count == edge_total(post, merged@[jj].from, merged@[jj].to) by {
                    if jj < om.len() {
                        assert(merged@[jj] == om[jj]);
                        let w = choose|w: int|
                            0 <= w < pre.len() && (#[trigger] pre[w]).from == om[jj].from
                                && pre[w].to == om[jj].to;
                        assert(post[w] == pre[w]);
                        assert(!(om[jj].from == e.from && om[jj].to == e.to));
                    } else {
                        assert(post[i as int] == e);
                        if has_edge(pre, e.from, e.to) {
                            let w = choose|w: int|
                                0 <= w < pre.len() && (#[trigger] pre[w]).from == e.from
                                    && pre[w].to == e.to;
                            let w2 = choose|w2: int|
                                0 <= w2 < om.len() && (#[trigger] om[w2]).from == pre[w].from
                                    && om[w2].to == pre[w].to;
                            assert(all[w] == pre[w]);
                            assert(false);
                        }
                        lemma_edge_total_absent(pre, e.from, e.to);
                    }
                }
                assert forall|k: int| 0 <= k < i + 1 implies has_edge(
                    merged@,
                    (#[trigger] all[k]).from,
                    all[k].to,
                ) by {
                    if k < i {
                        let w = choose|w: int|
                            0 <= w < om.len() && (#[trigger] om[w]).from == all[k].from && om[w].to
                                == all[k].to;
                        assert(merged@[w] == om[w]);
                    } else {
                        assert(merged@[om.len() as int] == e);
                    }
                }
                assert(om.len() == i ==> merged@ =~= post);
                assert(edge_keys_distinct(post) ==> edge_keys_distinct(pre)) by {
                    if edge_keys_distinct(post) {
                        assert forall|a: int, b: int|
                            0 <= a < pre.len() && 0 <= b < pre.len() && a != b implies !((
                            #[trigger] pre[a]).from == (#[trigger] pre[b]).from && pre[a].to
                            == pre[b].to) by {
                            assert(post[a] == pre[a] && post[b] == pre[b]);
                        }
                    }
                }
            },
        }
        i = i + 1;
    }
    assert(all.take(n as int) =~= all);
    assert(edge_keys_distinct(merged@)) by {
        assert forall|a: int, b: int|
            0 <= a < merged@.len() && 0 <= b < merged@.len() && a != b implies !((
            #[trigger] merged@[a]).from == (#[trigger] merged@[b]).from && merged@[a].to
            == merged@[b].to) by {
            if merged@[a].from == merged@[b].from && merged@[a].to == merged@[b].to {
                assert(idx_of(index@, merged@[a].from, merged@[a].to) == Some(a as usize));
                assert(idx_of(index@, merged@[b].from, merged@[b].to) == Some(b as usize));
            }
        }
    }
    assert(edge_totals_fit(all)) by {
        assert forall|f: u64, t: u64| #[trigger] edge_total(all, f, t) <= u64::MAX by {
            if has_edge(all, f, t) {
                let w = choose|w: int| 0 <= w < all.len() && (#[trigger] all[w]).from == f && all[w].to == t;
                let j = choose|j: int|
                    0 <= j < merged@.len() && (#[trigger] merged@[j]).from == all[w].from
                        && merged@[j].to == all[w].to;
                assert(merged@[j].count == edge_total(all, f, t));
            } else {
                lemma_edge_total_absent(all, f, t);
            }
        }
    }
    if merged.len() == n {
        return true;
    }
    *edges = merged;
    true
}

/// Merges duplicate edges by summing their counts. Edges are kept in
/// the order in which each address pair first occurs; where there is
/// no duplicate the list is left as it was.
pub fn merge_edges(edges: &mut Vec<EdgeRecord>)
    requires
        edge_totals_fit(old(edges)@),
    ensures
        is_merge_of(final(edges)@, old(edges)@),
{
    let _ = try_merge_edges(edges);
}

proof fn lemma_edge_total_absent(edges: Seq<EdgeRecord>, from: u64, to: u64)
    requires
        !has_edge(edges, from, to),
    ensures
        edge_total(edges, from, to) == 0,
    decreases edges.len(),
{
    if edges.len() > 0 {
        let d = edges.drop_last();
        if has_edge(d, from, to) {
            let w = choose|w: int| 0 <= w < d.len() && (#[trigger] d[w]).from == from && d[w].to == to;
            assert(edges[w] == d[w]);
        }
        lemma_edge_total_absent(d, from, to);
        assert(edges[edges.len() - 1] == edges.last());
    }
}


// --- Whole-file parsing and profile queries ---

/// The logged edges of the profile in `data` can be merged: every
/// summed count fits in a `u64`.
pub open spec fn parse_requires(data: Seq<u8>) -> bool {
    let raw = apply_records(empty_model(), data, 64);
    spec_header_error(data) is None ==> edge_totals_fit(raw.branch_edges) && edge_totals_fit(
        raw.fall_through_edges,
    )
}

/// `p` is `raw` with duplicate branch and fall-through edges merged.
pub open spec fn is_merged_profile(p: ProfileModel, raw: ProfileModel) -> bool {
    &&& is_merge_of(p.branch_edges, raw.branch_edges)
    &&& is_merge_of(p.fall_through_edges, raw.fall_through_edges)
    &&& p.metadata == raw.metadata
    &&& p.symbols == raw.symbols
    &&& p.tb_execs == raw.tb_execs
    &&& p.direct_calls == raw.direct_calls
    &&& p.indirect_calls == raw.indirect_calls
    &&& p.tb_resources == raw.tb_resources
    &&& p.discon_events == raw.discon_events
    &&& p.footer == raw.footer
}

/// Parses the native profile format: the header, every whole TLV
/// record up to the end of the data or the first truncated record,
/// and then merges duplicate edges that streaming flushes can log
/// across several records.
pub fn parse(data: &[u8]) -> (r: Result<Profile, ParseError>)
    requires
        parse_requires(data@),
    ensures
        match r {
            Ok(p) => {
                &&& spec_header_error(data@) is None
                &&& header_matches(p.header, data@)
                &&& p.wf()
                &&& is_merged_profile(p@, apply_records(empty_model(), data@, 64))
            },
            Err(e) => spec_header_error(data@) == Some(e),
        },
{
    let mut profile = parse_records(data)?;
    merge_edges(&mut profile.branch_edges);
    merge_edges(&mut profile.fall_through_edges);
    Ok(profile)
}

/// As `parse`, for any data: `None` where a merged edge count would
/// overflow a `u64` (which `parse` rules out by its precondition).
pub fn parse_checked(data: &[u8]) -> (r: Option<Result<Profile, ParseError>>)
    ensures
        r is None <==> !parse_requires(data@),
        r matches Some(Ok(p)) ==> spec_header_error(data@) is None && header_matches(p.header, data@)
            && p.wf() && is_merged_profile(p@, apply_records(empty_model(), data@, 64)),
        r matches Some(Err(e)) ==> spec_header_error(data@) == Some(e),
{
    let mut profile = match parse_records(data) {
        Ok(p) => p,
        Err(e) => return Some(Err(e)),
    };
    let ghost raw = profile@;
    if !try_merge_edges(&mut profile.branch_edges) {
        return None;
    }
    if !try_merge_edges(&mut profile.fall_through_edges) {
        return None;
    }
    Some(Ok(profile))
}

impl Profile {
    /// All edges (branch, then fall-through), with duplicates merged.
    pub fn merged_edges(&self) -> (m: Vec<EdgeRecord>)
        requires
            edge_totals_fit(self.branch_edges@ + self.fall_through_edges@),
        ensures
            is_merge_of(m@, self.branch_edges@ + self.fall_through_edges@),
    {
        let mut all: Vec<EdgeRecord> = Vec::new();
        let mut i: usize = 0;
        while i < self.branch_edges.len()
            invariant
                i <= self.branch_edges@.len(),
                all@ == self.branch_edges@.take(i as int),
            decreases self.branch_edges@.len() - i,
        {
            all.push(self.branch_edges[i]);
            i = i + 1;
            assert(all@ =~= self.branch_edges@.take(i as int));
        }
        assert(self.branch_edges@.take(i as int) =~= self.branch_edges@);
        let mut k: usize = 0;
        while k < self.fall_through_edges.len()
            invariant
                k <= self.fall_through_edges@.len(),
                all@ == self.branch_edges@ + self.fall_through_edges@.take(k as int),
            decreases self.fall_through_edges@.len() - k,
        {
            all.push(self.fall_through_edges[k]);
            k = k + 1;
            assert(all@ =~= self.branch_edges@ + self.fall_through_edges@.take(k as int));
        }
        assert(self.fall_through_edges@.take(k as int) =~= self.fall_through_edges@);
        merge_edges(&mut all);
        all
    }

    /// Name of the first symbol with id `sym_id`, if any.
    pub fn symbol_for_id(&self, sym_id: u16) -> (r: Option<&str>)
        ensures
            match r {
                Some(name) => exists|i: int|
                    0 <= i < self.symbols@.len() && self.symbols@[i].sym_id == sym_id
                        && name@ == self.symbols@[i].name@ && forall|j: int|
                        0 <= j < i ==> (#[trigger] self.symbols@[j]).sym_id != sym_id,
                None => forall|i: int|
                    0 <= i < self.symbols@.len() ==> (#[trigger] self.symbols@[i]).sym_id != sym_id,
            },
    {
        let mut i: usize = 0;
        while i < self.symbols.len()
            invariant
                i <= self.symbols@.len(),
                forall|j: int| 0 <= j < i ==> (#[trigger] self.symbols@[j]).sym_id != sym_id,
            decreases self.symbols@.len() - i,
        {
            if self.symbols[i].sym_id == sym_id {
                return Some(self.symbols[i].name.as_str());
            }
            i = i + 1;
        }
        None
    }

    /// The metadata value stored under `key`, if any.
    pub fn metadata_get(&self, key: &str) -> (r: Option<&String>)
        requires
            self.wf(),
        ensures
            match r {
                Some(v) => self@.metadata.contains_key(key@) && v@ == self@.metadata[key@],
                None => !self@.metadata.contains_key(key@),
            },
    {
        meta_get(&self.metadata, key)
    }
}

} // verus!
