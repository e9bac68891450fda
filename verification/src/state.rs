//! Plugin configuration and bookkeeping: tier names, plugin arguments,
//! the symbol table, the table of translated blocks and per-vCPU
//! storage.

use vstd::prelude::*;
use std::collections::HashMap;
use crate::bytes::{lossy_text, str_eq, string_from_utf8_lossy};
use crate::text::utf8;
use vstd::string::StringExecFns;

verus! {

// --- Tiers ---

/// The name of a tier.
pub open spec fn tier_name_spec(tier: u8) -> Seq<char> {
    if tier == 0 {
        "hotness"@
    } else if tier == 1 {
        "edges"@
    } else if tier == 2 {
        "calls"@
    } else if tier == 3 {
        "resources"@
    } else {
        "unknown"@
    }
}

/// Human-readable tier name for a given tier number.
pub fn tier_name(tier: u8) -> (r: &'static str)
    ensures
        r@ == tier_name_spec(tier),
{
    match tier {
        0 => "hotness",
        1 => "edges",
        2 => "calls",
        3 => "resources",
        _ => "unknown",
    }
}

/// The tier that a name or a number names.
pub open spec fn parse_tier_spec(s: Seq<char>) -> Option<u8> {
    if s == "hotness"@ || s == "0"@ {
        Some(0)
    } else if s == "edges"@ || s == "1"@ {
        Some(1)
    } else if s == "calls"@ || s == "2"@ {
        Some(2)
    } else if s == "resources"@ || s == "3"@ {
        Some(3)
    } else {
        None
    }
}

/// Parses a tier name (`hotness`, `edges`, `calls`, `resources`) or
/// number (`0` to `3`); `None` for anything else.
pub fn parse_tier(s: &str) -> (r: Option<u8>)
    ensures
        r == parse_tier_spec(s@),
{
    if str_eq(s, "hotness") || str_eq(s, "0") {
        Some(0)
    } else if str_eq(s, "edges") || str_eq(s, "1") {
        Some(1)
    } else if str_eq(s, "calls") || str_eq(s, "2") {
        Some(2)
    } else if str_eq(s, "resources") || str_eq(s, "3") {
        Some(3)
    } else {
        None
    }
}

/// `n` written in decimal, as `{}` prints it.
pub open spec fn decimal_chars(n: nat) -> Seq<char>
    decreases n,
{
    if n < 10 {
        seq![(48 + n) as char]
    } else {
        decimal_chars(n / 10).push((48 + n % 10) as char)
    }
}

proof fn lemma_decimal_chars(n: nat)
    ensures
        decimal_chars(n).len() >= 1,
        n >= 10 ==> decimal_chars(n).len() >= 2,
        forall|i: int|
            0 <= i < decimal_chars(n).len() ==> '0' <= #[trigger] decimal_chars(n)[i] <= '9',
    decreases n,
{
    if n >= 10 {
        lemma_decimal_chars(n / 10);
        assert forall|i: int| 0 <= i < decimal_chars(n).len() implies '0' <= #[trigger] decimal_chars(
            n,
        )[i] <= '9' by {
            if i < decimal_chars(n / 10).len() {
                assert(decimal_chars(n)[i] == decimal_chars(n / 10)[i]);
            }
        }
    }
}

/// Tier names and numbers read back: parsing the name that `tier_name`
/// gives for a tier, or the tier written in decimal, returns the tier
/// for tiers 0 to 3 and nothing for any other `u8`; and whatever text
/// is parsed, a tier read from it is at most 3.
pub proof fn law_tier_name_roundtrip(tier: u8, text: Seq<char>)
    ensures
        parse_tier_spec(tier_name_spec(tier)) == (if tier <= 3 {
            Some(tier)
        } else {
            None::<u8>
        }),
        parse_tier_spec(decimal_chars(tier as nat)) == (if tier <= 3 {
            Some(tier)
        } else {
            None::<u8>
        }),
        parse_tier_spec(text) matches Some(t) ==> t <= 3,
{
    reveal_strlit("hotness");
    reveal_strlit("edges");
    reveal_strlit("calls");
    reveal_strlit("resources");
    reveal_strlit("unknown");
    reveal_strlit("0");
    reveal_strlit("1");
    reveal_strlit("2");
    reveal_strlit("3");
    if tier == 1 {
        assert("edges"@ != "hotness"@ && "edges"@ != "0"@) by {
            assert("edges"@.len() != "hotness"@.len() && "edges"@.len() != "0"@.len());
        }
    } else if tier == 2 {
        assert("calls"@ != "hotness"@ && "calls"@ != "0"@ && "calls"@ != "1"@) by {
            assert("calls"@.len() != "hotness"@.len());
            assert("calls"@.len() != "0"@.len() && "calls"@.len() != "1"@.len());
        }
        assert("calls"@ != "edges"@) by {
            assert("calls"@[0] != "edges"@[0]);
        }
    } else if tier == 3 {
        assert("resources"@ != "hotness"@ && "resources"@ != "edges"@ && "resources"@ != "calls"@)
            by {
            assert("resources"@.len() != "hotness"@.len() && "resources"@.len() != "edges"@.len());
            assert("resources"@.len() != "calls"@.len());
        }
        assert("resources"@ != "0"@ && "resources"@ != "1"@ && "resources"@ != "2"@) by {
            assert("resources"@.len() != "0"@.len());
        }
    } else if tier > 3 {
        let u = "unknown"@;
        assert(u != "hotness"@) by {
            assert(u[0] != "hotness"@[0]);
        }
        assert(u != "edges"@ && u != "calls"@ && u != "resources"@) by {
            assert(u.len() != "edges"@.len() && u.len() != "resources"@.len());
        }
        assert(u != "0"@ && u != "1"@ && u != "2"@ && u != "3"@) by {
            assert(u.len() != "0"@.len());
        }
    }
    let d = decimal_chars(tier as nat);
    lemma_decimal_chars(tier as nat);
    if tier < 10 {
        assert(d == seq![(48 + tier) as char]);
    }
    if tier > 3 {
        assert('0' <= d[0] <= '9');
        assert(d != "hotness"@ && d != "edges"@ && d != "calls"@ && d != "resources"@) by {
            assert(d[0] != "hotness"@[0] && d[0] != "edges"@[0]);
            assert(d[0] != "calls"@[0] && d[0] != "resources"@[0]);
        }
        if tier < 10 {
            assert(d != "0"@ && d != "1"@ && d != "2"@ && d != "3"@) by {
                assert(d[0] != "0"@[0] && d[0] != "1"@[0]);
                assert(d[0] != "2"@[0] && d[0] != "3"@[0]);
            }
        } else {
            assert(d != "0"@ && d != "1"@ && d != "2"@ && d != "3"@) by {
                assert(d.len() != "0"@.len());
            }
        }
    } else {
        assert(d =~= if tier == 0 {
            "0"@
        } else if tier == 1 {
            "1"@
        } else if tier == 2 {
            "2"@
        } else {
            "3"@
        });
        assert("0"@ != "hotness"@) by {
            assert("0"@.len() != "hotness"@.len());
        }
        assert("1"@ != "hotness"@ && "1"@ != "edges"@ && "1"@ != "0"@) by {
            assert("1"@.len() != "hotness"@.len() && "1"@.len() != "edges"@.len());
            assert("1"@[0] != "0"@[0]);
        }
        assert("2"@ != "hotness"@ && "2"@ != "edges"@ && "2"@ != "calls"@ && "2"@ != "0"@ && "2"@ != "1"@) by {
            assert("2"@.len() != "hotness"@.len() && "2"@.len() != "edges"@.len());
            assert("2"@[0] != "0"@[0] && "2"@[0] != "1"@[0]);
        }
        assert("3"@ != "hotness"@ && "3"@ != "edges"@ && "3"@ != "calls"@ && "3"@ != "0"@ && "3"@ != "1"@ && "3"@ != "2"@) by {
            assert("3"@.len() != "hotness"@.len() && "3"@.len() != "edges"@.len());
            assert("3"@[0] != "0"@[0] && "3"@[0] != "1"@[0] && "3"@[0] != "2"@[0]);
        }
    }
}

// --- Configuration ---

/// Configuration parsed from plugin arguments.
pub struct PluginConfig {
    pub tier: u8,
    pub output_path: String,
    pub top_n: usize,
    pub streaming: bool,
    pub binary_path: Option<String>,
}

impl Default for PluginConfig {
    /// Tier 1 (edges), output to `tcg_prof.prof`, the 65536 hottest
    /// edges kept, no streaming, the binary path taken from QEMU.
    fn default() -> (c: Self)
        ensures
            c.tier == 1,
            c.output_path@ == "tcg_prof.prof"@,
            c.top_n == 65536,
            !c.streaming,
            c.binary_path is None,
    {
        PluginConfig {
            tier: 1,
            output_path: <String as StringExecFns>::from_str("tcg_prof.prof"),
            top_n: 65536,
            streaming: false,
            binary_path: None,
        }
    }
}

// --- Translated blocks ---

/// Key for looking up TBs: a TB is identified by its start address and
/// instruction count (QEMU may retranslate at different sizes).
#[derive(Hash, PartialEq, Eq, Clone, Copy, Structural)]
pub struct TbKey {
    pub start_addr: u64,
    pub n_insns: u16,
}

/// Per-TB metadata collected at translation time.
#[derive(Clone, Copy)]
pub struct TbMeta {
    pub start_addr: u64,
    /// Address of the last instruction.
    pub end_addr: u64,
    pub n_insns: u16,
    pub sym_id: u16,
    /// Sequence number of the first execution (0 until it runs).
    pub first_seen_seq: u64,
    /// Fall-through address (start of the next sequential TB).
    pub fall_through_addr: u64,
    /// Whether this TB ends with an indirect call or branch (tier 2).
    pub ends_with_indirect: bool,
    /// Coprocessor flags bitmask (tier 3).
    pub coproc_flags: u32,
}

/// Per-vCPU state that inline operations update: three 64-bit words.
pub struct VcpuState {
    /// End address of the last-executed TB.
    pub last_tb_end: u64,
    /// Expected next-sequential address after the last TB.
    pub fall_through_addr: u64,
    /// Call site of a pending indirect call or jump of the previous TB.
    pub pending_indirect_callsite: u64,
}

/// The table of translated blocks: their metadata in order of first
/// translation, found by key.
pub struct TbTable {
    metas: Vec<TbMeta>,
    index: HashMap<u64, HashMap<u16, usize>>,
}

/// The position in `index` of the block `(start, n)`.
pub open spec fn tb_idx(index: Map<u64, HashMap<u16, usize>>, start: u64, n: u16) -> Option<usize> {
    if index.contains_key(start) && index[start]@.contains_key(n) {
        Some(index[start]@[n])
    } else {
        None
    }
}

impl TbTable {
    /// The blocks, in order of first translation.
    pub closed spec fn metas(&self) -> Seq<TbMeta> {
        self.metas@
    }

    /// The index finds each block by key, and only the blocks.
    pub closed spec fn wf(&self) -> bool {
        &&& forall|i: int|
            0 <= i < self.metas@.len() ==> tb_idx(
                self.index@,
                (#[trigger] self.metas@[i]).start_addr,
                self.metas@[i].n_insns,
            ) == Some(i as usize)
        &&& forall|s: u64, n: u16| #[trigger]
            tb_idx(self.index@, s, n) is Some ==> tb_idx(self.index@, s, n).unwrap()
                < self.metas@.len() && self.metas@[tb_idx(self.index@, s, n).unwrap() as int].start_addr
                == s && self.metas@[tb_idx(self.index@, s, n).unwrap() as int].n_insns == n
    }

    /// An empty table.
    pub fn new() -> (t: Self)
        ensures
            t.wf(),
            t.metas() == Seq::<TbMeta>::empty(),
    {
        broadcast use vstd::std_specs::hash::group_hash_axioms;

        let t = TbTable { metas: Vec::new(), index: HashMap::new() };
        assert(t.index@ == Map::<u64, HashMap<u16, usize>>::empty());
        t
    }

    /// The number of blocks.
    pub fn len(&self) -> (n: usize)
        ensures
            n == self.metas().len(),
    {
        self.metas.len()
    }

    /// The position of the block with key `key`, if it is known.
    pub fn find(&self, key: TbKey) -> (r: Option<usize>)
        requires
            self.wf(),
        ensures
            match r {
                Some(i) => i < self.metas().len() && self.metas()[i as int].start_addr == key.start_addr
                    && self.metas()[i as int].n_insns == key.n_insns,
                None => forall|i: int|
                    0 <= i < self.metas().len() ==> !((#[trigger] self.metas()[i]).start_addr
                        == key.start_addr && self.metas()[i].n_insns == key.n_insns),
            },
    {
        broadcast use vstd::std_specs::hash::group_hash_axioms;

        let r = match self.index.get(&key.start_addr) {
            Some(inner) => match inner.get(&key.n_insns) {
                Some(i) => Some(*i),
                None => None,
            },
            None => None,
        };
        assert(r == tb_idx(self.index@, key.start_addr, key.n_insns));
        proof {
            if r is None {
                assert forall|i: int|
                    0 <= i < self.metas@.len() implies !((#[trigger] self.metas@[i]).start_addr
                    == key.start_addr && self.metas@[i].n_insns == key.n_insns) by {
                    assert(tb_idx(self.index@, self.metas@[i].start_addr, self.metas@[i].n_insns)
                        == Some(i as usize));
                }
            }
        }
        r
    }

    /// The metadata of the block at position `i`.
    pub fn get(&self, i: usize) -> (m: TbMeta)
        requires
            i < self.metas().len(),
        ensures
            m == self.metas()[i as int],
    {
        self.metas[i]
    }

    /// Records a newly translated block and returns its position.
    pub fn insert(&mut self, meta: TbMeta) -> (i: usize)
        requires
            old(self).wf(),
            forall|j: int|
                0 <= j < old(self).metas().len() ==> !((#[trigger] old(self).metas()[j]).start_addr
                    == meta.start_addr && old(self).metas()[j].n_insns == meta.n_insns),
            old(self).metas().len() < usize::MAX,
        ensures
            final(self).wf(),
            final(self).metas() == old(self).metas().push(meta),
            i == old(self).metas().len(),
    {
        broadcast use vstd::std_specs::hash::group_hash_axioms;

        let i = self.metas.len();
        let ghost idx0 = self.index@;
        let ghost m0 = self.metas@;
        let mut inner = match self.index.remove(&meta.start_addr) {
            Some(m) => m,
            None => HashMap::new(),
        };
        inner.insert(meta.n_insns, i);
        self.index.insert(meta.start_addr, inner);
        self.metas.push(meta);
        proof {
            assert forall|s: u64, n: u16|
                #[trigger] tb_idx(self.index@, s, n) == if s == meta.start_addr && n == meta.n_insns {
                    Some(i)
                } else {
                    tb_idx(idx0, s, n)
                } by {}
            assert forall|j: int| 0 <= j < self.metas@.len() implies tb_idx(
                self.index@,
                (#[trigger] self.metas@[j]).start_addr,
                self.metas@[j].n_insns,
            ) == Some(j as usize) by {
                if j < m0.len() {
                    assert(self.metas@[j] == m0[j]);
                    assert(tb_idx(idx0, m0[j].start_addr, m0[j].n_insns) == Some(j as usize));
                }
            }
        }
        i
    }

    /// Sets the first-seen number of the block at position `i`.
    pub fn set_first_seen(&mut self, i: usize, seq: u64)
        requires
            old(self).wf(),
            i < old(self).metas().len(),
        ensures
            final(self).wf(),
            final(self).metas() == old(self).metas().update(
                i as int,
                TbMeta { first_seen_seq: seq, ..old(self).metas()[i as int] },
            ),
    {
        let mut m = self.metas[i];
        m.first_seen_seq = seq;
        self.metas.set(i, m);
        proof {
            assert forall|j: int| 0 <= j < self.metas@.len() implies tb_idx(
                self.index@,
                (#[trigger] self.metas@[j]).start_addr,
                self.metas@[j].n_insns,
            ) == Some(j as usize) by {
                assert(old(self).metas@[j].start_addr == self.metas@[j].start_addr);
            }
        }
    }

    /// Marks the block at position `i` as ending with an indirect call or
    /// branch.
    pub fn set_ends_with_indirect(&mut self, i: usize)
        requires
            old(self).wf(),
            i < old(self).metas().len(),
        ensures
            final(self).wf(),
            final(self).metas() == old(self).metas().update(
                i as int,
                TbMeta { ends_with_indirect: true, ..old(self).metas()[i as int] },
            ),
    {
        let mut m = self.metas[i];
        m.ends_with_indirect = true;
        self.metas.set(i, m);
        proof {
            assert forall|j: int| 0 <= j < self.metas@.len() implies tb_idx(
                self.index@,
                (#[trigger] self.metas@[j]).start_addr,
                self.metas@[j].n_insns,
            ) == Some(j as usize) by {
                assert(old(self).metas@[j].start_addr == self.metas@[j].start_addr);
            }
        }
    }

    /// The blocks, in order of first translation.
    pub fn all(&self) -> (v: &Vec<TbMeta>)
        ensures
            v@ == self.metas(),
    {
        &self.metas
    }

    /// Sets the coprocessor flags of the block at position `i`.
    pub fn set_coproc_flags(&mut self, i: usize, flags: u32)
        requires
            old(self).wf(),
            i < old(self).metas().len(),
        ensures
            final(self).wf(),
            final(self).metas() == old(self).metas().update(
                i as int,
                TbMeta { coproc_flags: flags, ..old(self).metas()[i as int] },
            ),
    {
        let mut m = self.metas[i];
        m.coproc_flags = flags;
        self.metas.set(i, m);
        proof {
            assert forall|j: int| 0 <= j < self.metas@.len() implies tb_idx(
                self.index@,
                (#[trigger] self.metas@[j]).start_addr,
                self.metas@[j].n_insns,
            ) == Some(j as usize) by {
                assert(old(self).metas@[j].start_addr == self.metas@[j].start_addr);
            }
        }
    }
}

// --- Per-vCPU storage ---

/// The most vCPUs that per-vCPU storage holds.
pub const MAX_VCPUS: usize = 256;

/// Per-vCPU storage: one slot per vCPU index, up to `MAX_VCPUS`.
pub struct PerVcpuStore<T> {
    slots: Vec<T>,
}

impl<T> PerVcpuStore<T> {
    /// The slots, by vCPU index.
    pub closed spec fn items(&self) -> Seq<T> {
        self.slots@
    }

    /// An empty store.
    pub fn new() -> (s: Self)
        ensures
            s.items() == Seq::<T>::empty(),
    {
        PerVcpuStore { slots: Vec::new() }
    }

    /// Adds the slot of the next vCPU.
    pub fn push(&mut self, val: T)
        requires
            old(self).items().len() < MAX_VCPUS,
        ensures
            final(self).items() == old(self).items().push(val),
    {
        self.slots.push(val);
    }

    /// The number of slots.
    pub fn len(&self) -> (n: usize)
        ensures
            n == self.items().len(),
    {
        self.slots.len()
    }

    /// The slot of vCPU `idx`.
    pub fn get(&self, idx: usize) -> (r: &T)
        requires
            idx < self.items().len(),
        ensures
            *r == self.items()[idx as int],
    {
        &self.slots[idx]
    }

    /// The slot of vCPU `idx`, for update.
    pub fn get_mut(&mut self, idx: usize) -> (r: Option<&mut T>)
        ensures
            idx < old(self).items().len() ==> (r matches Some(x) && *x == old(self).items()[idx as int]
                && final(self).items() == old(self).items().update(idx as int, *final(x))),
            idx >= old(self).items().len() ==> r is None && final(self).items() == old(self).items(),
    {
        if idx < self.slots.len() {
            Some(&mut self.slots[idx])
        } else {
            None
        }
    }
}

// --- Symbols ---

/// The most symbols the table holds: ids run from 1 to 65535, and 0
/// stands for an unknown symbol.
pub const MAX_SYMBOLS: usize = 65535;

/// FNV-1a over `b`: the bucket a name is filed under.
pub open spec fn name_hash(b: Seq<u8>) -> u64
    decreases b.len(),
{
    if b.len() == 0 {
        0xcbf2_9ce4_8422_2325
    } else {
        crate::decoder::wrap_u64((name_hash(b.drop_last()) ^ (b.last() as u64)) as int * 0x100_0000_01b3)
    }
}

fn hash_name(b: &[u8]) -> (h: u64)
    ensures
        h == name_hash(b@),
{
    let mut h: u64 = 0xcbf2_9ce4_8422_2325;
    let mut i: usize = 0;
    while i < b.len()
        invariant
            i <= b@.len(),
            h == name_hash(b@.take(i as int)),
        decreases b@.len() - i,
    {
        proof {
            assert(b@.take(i + 1).drop_last() =~= b@.take(i as int));
        }
        let x: u128 = (h ^ (b[i] as u64)) as u128 * 0x100_0000_01b3u128;
        h = (x % 0x1_0000_0000_0000_0000u128) as u64;
        i = i + 1;
    }
    assert(b@.take(b@.len() as int) =~= b@);
    h
}

/// The position among `names` of the name `name`, looking only at the
/// positions in `bucket`.
fn scan_bucket(names: &Vec<String>, bucket: &Vec<usize>, name: &str) -> (r: Option<usize>)
    requires
        forall|k: int| 0 <= k < bucket@.len() ==> #[trigger] bucket@[k] < names@.len(),
    ensures
        match r {
            Some(c) => c < names@.len() && names@[c as int]@ == name@,
            None => forall|x: int| 0 <= x < bucket@.len() ==> names@[#[trigger] bucket@[x] as int]@ != name@,
        },
{
    let mut k: usize = 0;
    while k < bucket.len()
        invariant
            forall|k: int| 0 <= k < bucket@.len() ==> #[trigger] bucket@[k] < names@.len(),
            k <= bucket@.len(),
            forall|x: int| 0 <= x < k ==> names@[#[trigger] bucket@[x] as int]@ != name@,
        decreases bucket@.len() - k,
    {
        let c = bucket[k];
        if str_eq(names[c].as_str(), name) {
            return Some(c);
        }
        k = k + 1;
    }
    None
}

/// Symbol table: ids from 1, in order of first sight, with names filed
/// by hash for lookup.
pub struct SymbolTable {
    names: Vec<String>,
    buckets: HashMap<u64, Vec<usize>>,
}

impl SymbolTable {
    /// The names, the one with id `i + 1` at position `i`.
    pub closed spec fn names(&self) -> Seq<Seq<char>> {
        self.names@.map_values(|s: String| s@)
    }

    /// No name occurs twice, there are at most `MAX_SYMBOLS`, and each
    /// name is filed under its hash.
    pub closed spec fn wf(&self) -> bool {
        &&& self.names().len() <= MAX_SYMBOLS
        &&& forall|i: int, j: int|
            0 <= i < self.names().len() && 0 <= j < self.names().len() && i != j ==> (
            #[trigger] self.names()[i]) != (#[trigger] self.names()[j])
        &&& forall|i: int|
            0 <= i < self.names@.len() ==> self.buckets@.contains_key(
                name_hash(utf8((#[trigger] self.names@[i])@)),
            ) && self.buckets@[name_hash(utf8(self.names@[i]@))]@.contains(i as usize)
        &&& forall|h: u64, k: int|
            #[trigger] self.buckets@.contains_key(h) && 0 <= k < self.buckets@[h]@.len()
                ==> #[trigger] self.buckets@[h]@[k] < self.names@.len()
    }

    /// An empty table.
    pub fn new() -> (t: Self)
        ensures
            t.wf(),
            t.names() == Seq::<Seq<char>>::empty(),
    {
        broadcast use vstd::std_specs::hash::group_hash_axioms;

        let t = SymbolTable { names: Vec::new(), buckets: HashMap::new() };
        assert(t.names() =~= Seq::<Seq<char>>::empty());
        t
    }

    /// Looks up or adds a symbol and returns its id; 0 once the table is
    /// full and the name is new.
    pub fn intern(&mut self, name: &str) -> (id: u16)
        requires
            old(self).wf(),
        ensures
            final(self).wf(),
            old(self).names().contains(name@) ==> final(self).names() == old(self).names() && id
                >= 1 && old(self).names()[id - 1] == name@,
            !old(self).names().contains(name@) && old(self).names().len() < MAX_SYMBOLS
                ==> final(self).names() == old(self).names().push(name@) && id == old(self).names().len() + 1,
            !old(self).names().contains(name@) && old(self).names().len() >= MAX_SYMBOLS
                ==> final(self).names() == old(self).names() && id == 0,
    {
        broadcast use vstd::std_specs::hash::group_hash_axioms;

        let ghost n0 = self.names();
        let n = self.names.len();
        let h = hash_name(name.as_bytes());
        let found = match self.buckets.get(&h) {
            None => None,
            Some(bucket) => {
                assert(self.buckets@.contains_key(h));
                let hit = scan_bucket(&self.names, bucket, name);
                proof {
                    if hit is None {
                        assert forall|i: int| 0 <= i < n0.len() implies n0[i] != name@ by {
                            if n0[i] == name@ {
                                assert(self.names@[i]@ == name@);
                                assert(self.buckets@[name_hash(utf8(self.names@[i]@))]@.contains(i as usize));
                                let x = choose|x: int| 0 <= x < bucket@.len() && bucket@[x] == i as usize;
                                assert(self.names@[bucket@[x] as int]@ != name@);
                            }
                        }
                    }
                }
                hit
            },
        };
        match found {
            Some(c) => {
                assert(n0[c as int] == name@);
                return (c + 1) as u16;
            },
            None => {},
        }
        proof {
            if self.buckets@.contains_key(h) {
            } else {
                assert forall|i: int| 0 <= i < n0.len() implies n0[i] != name@ by {
                    if n0[i] == name@ {
                        assert(self.buckets@.contains_key(name_hash(utf8(self.names@[i]@))));
                    }
                }
            }
        }
        assert(!n0.contains(name@));
        if n >= MAX_SYMBOLS {
            return 0;
        }
        let mut bucket = match self.buckets.remove(&h) {
            Some(b) => b,
            None => Vec::new(),
        };
        let ghost b0 = bucket@;
        bucket.push(n);
        let ghost old_buckets = self.buckets@;
        self.buckets.insert(h, bucket);
        self.names.push(<String as StringExecFns>::from_str(name));
        proof {
            assert(self.names() =~= n0.push(name@));
            assert forall|i: int| 0 <= i < self.names@.len() implies self.buckets@.contains_key(
                name_hash(utf8((#[trigger] self.names@[i])@)),
            ) && self.buckets@[name_hash(utf8(self.names@[i]@))]@.contains(i as usize) by {
                if i < n {
                    assert(self.names@[i] == old(self).names@[i]);
                    let hi = name_hash(utf8(self.names@[i]@));
                    assert(old(self).buckets@[hi]@.contains(i as usize));
                    if hi == h {
                        let x = choose|x: int| 0 <= x < b0.len() && b0[x] == i as usize;
                        assert(self.buckets@[h]@[x] == i as usize);
                    }
                } else {
                    assert(self.buckets@[h]@[b0.len() as int] == n);
                }
            }
        }
        (n + 1) as u16
    }

    /// The symbols as `(id, name)`, by id.
    pub fn entries(&self) -> (v: Vec<(u16, String)>)
        requires
            self.wf(),
        ensures
            v@.len() == self.names().len(),
            forall|i: int|
                0 <= i < v@.len() ==> (#[trigger] v@[i]).0 == i + 1 && v@[i].1@ == self.names()[i],
    {
        let n = self.names.len();
        let mut v: Vec<(u16, String)> = Vec::new();
        let mut i: usize = 0;
        while i < n
            invariant
                n == self.names@.len(),
                n <= MAX_SYMBOLS,
                i <= n,
                v@.len() == i,
                forall|j: int|
                    0 <= j < i ==> (#[trigger] v@[j]).0 == j + 1 && v@[j].1@ == self.names()[j],
            decreases n - i,
        {
            v.push(((i + 1) as u16, self.names[i].clone()));
            i = i + 1;
        }
        v
    }
}

// --- Plugin arguments ---

/// What one plugin argument sets.
pub enum PluginArg {
    /// `tier=` with a known tier name or number.
    Tier(u8),
    /// `tier=` with anything else: a warning, and the tier unchanged.
    UnknownTier(String),
    /// `output=<path>`.
    Output(String),
    /// `top_n=<n>`; `None` where the value is no `usize` (then ignored).
    TopN(Option<usize>),
    /// `stream=<value>`, a boolean in QEMU's syntax.
    Stream(String),
    /// `binary=<path>`.
    Binary(String),
    /// Anything else.
    Ignored,
}

/// A plugin argument as a value.
pub enum PluginArgView {
    Tier(u8),
    UnknownTier(Seq<char>),
    Output(Seq<char>),
    TopN(Option<usize>),
    Stream(Seq<char>),
    Binary(Seq<char>),
    Ignored,
}

impl View for PluginArg {
    type V = PluginArgView;

    open spec fn view(&self) -> PluginArgView {
        match self {
            PluginArg::Tier(t) => PluginArgView::Tier(*t),
            PluginArg::UnknownTier(v) => PluginArgView::UnknownTier(v@),
            PluginArg::Output(v) => PluginArgView::Output(v@),
            PluginArg::TopN(n) => PluginArgView::TopN(*n),
            PluginArg::Stream(v) => PluginArgView::Stream(v@),
            PluginArg::Binary(v) => PluginArgView::Binary(v@),
            PluginArg::Ignored => PluginArgView::Ignored,
        }
    }
}

/// The bytes of `b` after the prefix `p`, if `b` starts with it.
pub open spec fn rest_after(b: Seq<u8>, p: Seq<u8>) -> Option<Seq<u8>> {
    if p.len() <= b.len() && b.subrange(0, p.len() as int) == p {
        Some(b.subrange(p.len() as int, b.len() as int))
    } else {
        None
    }
}

/// An ASCII decimal digit.
pub open spec fn is_digit(c: u8) -> bool {
    0x30 <= c <= 0x39
}

/// The value of a string of decimal digits.
pub open spec fn digits_value(d: Seq<u8>) -> nat
    decreases d.len(),
{
    if d.len() == 0 {
        0
    } else {
        digits_value(d.drop_last()) * 10 + (d.last() - 0x30) as nat
    }
}

/// What `usize::from_str` makes of `b`: an optional `+`, then one or
/// more decimal digits whose value fits in a `usize`.
pub open spec fn parse_usize_spec(b: Seq<u8>) -> Option<usize> {
    let d = unsigned_digits(b);
    if d.len() > 0 && all_digits(d) && digits_value(d) <= usize::MAX {
        Some(digits_value(d) as usize)
    } else {
        None
    }
}

/// `b` without a leading `+`.
pub open spec fn unsigned_digits(b: Seq<u8>) -> Seq<u8> {
    if b.len() > 0 && b[0] == 0x2b {
        b.drop_first()
    } else {
        b
    }
}

/// Every byte of `d` is a decimal digit.
pub open spec fn all_digits(d: Seq<u8>) -> bool {
    forall|i: int| 0 <= i < d.len() ==> is_digit(#[trigger] d[i])
}

/// What the argument with bytes `b` sets, checking the prefixes
/// `tier=`, `output=`, `top_n=`, `stream=` and `binary=` in turn.
pub open spec fn plugin_arg_spec(b: Seq<u8>) -> PluginArgView {
    if let Some(v) = rest_after(b, utf8("tier="@)) {
        match parse_tier_spec(lossy_text(v)) {
            Some(t) => PluginArgView::Tier(t),
            None => PluginArgView::UnknownTier(lossy_text(v)),
        }
    } else if let Some(v) = rest_after(b, utf8("output="@)) {
        PluginArgView::Output(lossy_text(v))
    } else if let Some(v) = rest_after(b, utf8("top_n="@)) {
        PluginArgView::TopN(parse_usize_spec(v))
    } else if let Some(v) = rest_after(b, utf8("stream="@)) {
        PluginArgView::Stream(lossy_text(v))
    } else if let Some(v) = rest_after(b, utf8("binary="@)) {
        PluginArgView::Binary(lossy_text(v))
    } else {
        PluginArgView::Ignored
    }
}

/// The bytes of `b` after the prefix `p`, if `b` starts with it.
fn strip_prefix_bytes(b: &[u8], p: &str) -> (r: Option<Vec<u8>>)
    ensures
        match r {
            Some(v) => rest_after(b@, utf8(p@)) == Some(v@),
            None => rest_after(b@, utf8(p@)) is None,
        },
{
    let pb = p.as_bytes();
    if pb.len() > b.len() {
        return None;
    }
    let mut i: usize = 0;
    while i < pb.len()
        invariant
            pb@ == utf8(p@),
            pb@.len() <= b@.len(),
            i <= pb@.len(),
            forall|j: int| 0 <= j < i ==> b@[j] == pb@[j],
        decreases pb@.len() - i,
    {
        if b[i] != pb[i] {
            assert(b@.subrange(0, pb@.len() as int)[i as int] != pb@[i as int]);
            return None;
        }
        i = i + 1;
    }
    assert(b@.subrange(0, pb@.len() as int) =~= pb@);
    let mut v: Vec<u8> = Vec::new();
    let mut k: usize = pb.len();
    while k < b.len()
        invariant
            pb@.len() <= k <= b@.len(),
            v@ == b@.subrange(pb@.len() as int, k as int),
        decreases b@.len() - k,
    {
        v.push(b[k]);
        k = k + 1;
        proof {
            assert(b@.subrange(pb@.len() as int, k as int) =~= b@.subrange(pb@.len() as int, k - 1).push(
                b@[k - 1],
            ));
        }
    }
    Some(v)
}

proof fn lemma_digits_prefix_grows(d: Seq<u8>, k: int)
    requires
        0 <= k <= d.len(),
        all_digits(d),
    ensures
        digits_value(d.take(k)) <= digits_value(d),
    decreases d.len() - k,
{
    if k < d.len() {
        lemma_digits_prefix_grows(d, k + 1);
        assert(d.take(k + 1).drop_last() =~= d.take(k));
        assert(digits_value(d.take(k)) <= digits_value(d.take(k + 1))) by (nonlinear_arith)
            requires
                digits_value(d.take(k + 1)) == digits_value(d.take(k)) * 10 + (d.take(k + 1).last()
                    - 0x30) as nat,
        ;
    } else {
        assert(d.take(k) =~= d);
    }
}

/// Parses a `usize` as `usize::from_str` does.
pub fn parse_usize(b: &[u8]) -> (r: Option<usize>)
    ensures
        r == parse_usize_spec(b@),
{
    let start: usize = if b.len() > 0 && b[0] == 0x2b { 1 } else { 0 };
    let ghost d = unsigned_digits(b@);
    assert(d =~= b@.skip(start as int));
    if start >= b.len() {
        return None;
    }
    let mut value: usize = 0;
    let mut i: usize = start;
    while i < b.len()
        invariant
            start <= i <= b@.len(),
            d == b@.skip(start as int),
            d == unsigned_digits(b@),
            forall|j: int| 0 <= j < i - start ==> is_digit(#[trigger] d[j]),
            value == digits_value(d.take(i - start)),
        decreases b@.len() - i,
    {
        let c = b[i];
        assert(d[i - start] == c);
        if c < 0x30 || c > 0x39 {
            assert(!is_digit(d[i - start]));
            assert(!all_digits(d));
            return None;
        }
        assert(d.take(i - start + 1).drop_last() =~= d.take(i - start));
        assert(d.take(i - start + 1).last() == c);
        let digit = (c - 0x30) as usize;
        if value > (usize::MAX - digit) / 10 {
            proof {
                assert(value * 10 + digit > usize::MAX) by (nonlinear_arith)
                    requires
                        value > (usize::MAX - digit) / 10,
                        digit <= 9,
                ;
                assert(digits_value(d.take(i - start + 1)) == value * 10 + digit);
                if all_digits(d) {
                    lemma_digits_prefix_grows(d, i - start + 1);
                }
            }
            return None;
        }
        proof {
            assert(value * 10 + digit <= usize::MAX) by (nonlinear_arith)
                requires
                    value <= (usize::MAX - digit) / 10,
                    digit <= 9,
            ;
        }
        value = value * 10 + digit;
        i = i + 1;
    }
    assert(d.take(i - start) =~= d);
    Some(value)
}

/// Parses one plugin argument.
pub fn parse_plugin_arg(arg: &str) -> (r: PluginArg)
    ensures
        r@ == plugin_arg_spec(utf8(arg@)),
{
    let b = arg.as_bytes();
    if let Some(v) = strip_prefix_bytes(b, "tier=") {
        let val = string_from_utf8_lossy(v.as_slice());
        return match parse_tier(val.as_str()) {
            Some(t) => PluginArg::Tier(t),
            None => PluginArg::UnknownTier(val),
        };
    }
    if let Some(v) = strip_prefix_bytes(b, "output=") {
        return PluginArg::Output(string_from_utf8_lossy(v.as_slice()));
    }
    if let Some(v) = strip_prefix_bytes(b, "top_n=") {
        return PluginArg::TopN(parse_usize(v.as_slice()));
    }
    if let Some(v) = strip_prefix_bytes(b, "stream=") {
        return PluginArg::Stream(string_from_utf8_lossy(v.as_slice()));
    }
    if let Some(v) = strip_prefix_bytes(b, "binary=") {
        return PluginArg::Binary(string_from_utf8_lossy(v.as_slice()));
    }
    PluginArg::Ignored
}

impl PluginConfig {
    /// Applies a parsed argument: a known tier, an output path, a
    /// `top_n` that parsed, or a binary path replaces the setting; an
    /// unknown tier, a `top_n` that did not parse, a `stream` value
    /// (which QEMU's parser decides) and other arguments change nothing.
    pub fn apply(&mut self, arg: PluginArg)
        ensures
            final(self).tier == (if let PluginArg::Tier(t) = arg {
                t
            } else {
                old(self).tier
            }),
            final(self).output_path == (if let PluginArg::Output(p) = arg {
                p
            } else {
                old(self).output_path
            }),
            final(self).top_n == (if let PluginArg::TopN(Some(n)) = arg {
                n
            } else {
                old(self).top_n
            }),
            final(self).binary_path == (if let PluginArg::Binary(p) = arg {
                Some(p)
            } else {
                old(self).binary_path
            }),
            final(self).streaming == old(self).streaming,
    {
        match arg {
            PluginArg::Tier(t) => self.tier = t,
            PluginArg::Output(p) => self.output_path = p,
            PluginArg::TopN(Some(n)) => self.top_n = n,
            PluginArg::Binary(p) => self.binary_path = Some(p),
            _ => {},
        }
    }
}

} // verus!
