//! The state of a profiling run and what the plugin does with it:
//! translated blocks, symbols, per-vCPU edge and call counters, the
//! streaming flushes and the records written when the guest exits.

use vstd::prelude::*;
use crate::counters::{entry_count, BranchEntries, DirectCalls, IndirectCalls, bump_pair, no_call_pairs, no_pairs, no_targets};
use crate::decoder::{Arch, spec_arch_from_name};
use crate::edge_storage::{EdgeAccumulator, EdgeTriple, bump, is_top_selection, lists_entries, no_edges};
use crate::exit::edges_into;
use crate::output::{MAX_EDGES_PER_RECORD, MAX_TB_EXEC_PER_RECORD, batch_records, triple_bytes, tb_entry_bytes, sum_exec, symbol_payload, resource_payload, footer_payload, device_payload, discon_payload};
use crate::native::DisconRecord;
use crate::resources::{DeviceAccesses, DisconCounts, pairs_of};
use crate::exit::{as_edges, compute_fall_throughs, direct_call_counts, fall_throughs_spec, is_call_weight, merge_triples, resources_spec, tb_exec_entries, entries_fit};
use crate::native::{edge_totals_fit, is_merge_of};
use crate::counters::lists_targets;
use crate::decoder::{InsnClass, classify, classify_ok, classify_requires, spec_classify, classify_resources, spec_classify_resources};
use crate::output::{ProfileWriter, RecordTag, flush_payload, meta_payload, tlv, writer_header};
use crate::state::{MAX_VCPUS, PerVcpuStore, PluginConfig, SymbolTable, TbKey, TbMeta, TbTable};
use crate::text::utf8;
use crate::native::edge_total;
use crate::exit::{entries_into, lemma_edges_into_prefix};
use crate::listing::{lemma_edge_total_permutation, lemma_edges_into_permutation, lemma_extra_into_permutation, lemma_fall_throughs_same, lemma_listed_permute, lemma_merges_permute, lemma_target_listings_permute};

verus! {

/// The state of a profiling run.
pub struct PluginState {
    pub config: PluginConfig,
    pub sysemu: bool,
    pub api_version: i32,
    pub arch: String,
    /// Target architecture for opcode-based classification.
    pub target_arch: Arch,
    /// Every translated block, by key.
    pub tbs: TbTable,
    /// Symbol table: id -> name.
    pub symbols: SymbolTable,
    /// Next first-seen sequence number.
    pub sequence_counter: u64,
    /// Per-vCPU edge accumulators (tier 1+).
    pub edge_accumulators: PerVcpuStore<EdgeAccumulator>,
    /// Per-vCPU indirect call counts (tier 2+).
    pub indirect_calls: PerVcpuStore<IndirectCalls>,
    /// Direct calls found at translation time (tier 2+).
    pub direct_calls: DirectCalls,
    /// Branch-entry counts accumulated over streaming flushes.
    pub flushed_branch_entries: BranchEntries,
    /// Discontinuity events and their counts (tier 3).
    pub discon_events: DisconCounts,
    /// The devices each block touched through MMIO (tier 3).
    pub device_accesses: DeviceAccesses,
    /// Profile output writer, once created.
    pub writer: Option<ProfileWriter>,
}

/// Every accumulator of `accs` is well formed, in the configured mode.
pub open spec fn accumulators_ok(accs: Seq<EdgeAccumulator>, config: PluginConfig) -> bool {
    forall|v: int|
        0 <= v < accs.len() ==> (#[trigger] accs[v]).wf() && accs[v].is_streaming()
            == config.streaming && (!config.streaming ==> accs[v].capacity() == config.top_n)
}

impl PluginState {
    /// The tables keep their invariants, and every accumulator is in the
    /// configured mode.
    pub open spec fn wf(&self) -> bool {
        &&& self.tbs.wf()
        &&& self.symbols.wf()
        &&& accumulators_ok(self.edge_accumulators.items(), self.config)
        &&& self.discon_events.wf()
        &&& self.device_accesses.wf()
    }

    /// A run with nothing recorded yet: no blocks, no symbols, no vCPUs,
    /// first-seen numbers from 1, and no writer.
    pub fn new(config: PluginConfig, sysemu: bool, api_version: i32, arch: String) -> (s: Self)
        ensures
            s.wf(),
            s.config == config,
            s.sysemu == sysemu,
            s.api_version == api_version,
            s.arch == arch,
            s.target_arch == spec_arch_from_name(arch@),
            s.tbs.metas() == Seq::<TbMeta>::empty(),
            s.symbols.names() == Seq::<Seq<char>>::empty(),
            s.sequence_counter == 1,
            s.edge_accumulators.items() == Seq::<EdgeAccumulator>::empty(),
            s.indirect_calls.items() == Seq::<IndirectCalls>::empty(),
            s.direct_calls.pairs() == no_call_pairs(),
            s.flushed_branch_entries.counts() == no_targets(),
            s.discon_events.events() == Seq::<DisconRecord>::empty(),
            s.device_accesses.entries() == Seq::<(u64, Seq<Seq<char>>)>::empty(),
            s.writer is None,
    {
        let target_arch = Arch::from_name(arch.as_str());
        PluginState {
            config,
            sysemu,
            api_version,
            arch,
            target_arch,
            tbs: TbTable::new(),
            symbols: SymbolTable::new(),
            sequence_counter: 1,
            edge_accumulators: PerVcpuStore::new(),
            indirect_calls: PerVcpuStore::new(),
            direct_calls: DirectCalls::new(),
            flushed_branch_entries: BranchEntries::new(),
            discon_events: DisconCounts::new(),
            device_accesses: DeviceAccesses::new(),
            writer: None,
        }
    }

    /// Creates the writer: the file header, with the text start as load
    /// address, then the `binary_path` (the configured one, else
    /// `qemu_binary`), `arch` and `mode` metadata.
    pub fn init_writer(&mut self, qemu_binary: &str, text_start: u64, text_end: u64, entry_addr: u64)
        ensures
            final(self).config == old(self).config,
            final(self).tbs == old(self).tbs,
            final(self).symbols == old(self).symbols,
            final(self).edge_accumulators == old(self).edge_accumulators,
            final(self).arch == old(self).arch,
            final(self).sysemu == old(self).sysemu,
            final(self).writer matches Some(w) && w.pending() == writer_header(
                old(self).config.tier,
                old(self).sysemu,
                old(self).config.streaming,
                text_start,
                text_start,
                text_end,
                entry_addr,
            ) + tlv(
                RecordTag::StringMeta.spec_byte(),
                meta_payload(
                    utf8("binary_path"@),
                    utf8(
                        match old(self).config.binary_path {
                            Some(p) => p@,
                            None => qemu_binary@,
                        },
                    ),
                ),
            ) + tlv(
                RecordTag::StringMeta.spec_byte(),
                meta_payload(utf8("arch"@), utf8(old(self).arch@)),
            ) + tlv(
                RecordTag::StringMeta.spec_byte(),
                meta_payload(
                    utf8("mode"@),
                    utf8(
                        if old(self).sysemu {
                            "sysemu"@
                        } else {
                            "linux-user"@
                        },
                    ),
                ),
            ) && w.tb_count() == 0 && w.edge_count() == 0 && w.exec_count() == 0,
    {
        let mut w = ProfileWriter::new(
            self.config.tier,
            self.sysemu,
            self.config.streaming,
            text_start,
            text_start,
            text_end,
            entry_addr,
        );
        match &self.config.binary_path {
            Some(p) => w.write_string_meta("binary_path", p.as_str()),
            None => w.write_string_meta("binary_path", qemu_binary),
        }
        w.write_string_meta("arch", self.arch.as_str());
        let mode = if self.sysemu {
            "sysemu"
        } else {
            "linux-user"
        };
        w.write_string_meta("mode", mode);
        self.writer = Some(w);
    }

    /// Looks up or adds a symbol and returns its id (0 once the table is
    /// full).
    pub fn intern_symbol(&mut self, name: &str) -> (id: u16)
        requires
            old(self).wf(),
        ensures
            final(self).wf(),
            final(self).tbs == old(self).tbs,
            final(self).config == old(self).config,
            final(self).edge_accumulators == old(self).edge_accumulators,
            old(self).symbols.names().contains(name@) ==> final(self).symbols.names() == old(self).symbols.names() && id >= 1 && old(self).symbols.names()[id - 1] == name@,
            !old(self).symbols.names().contains(name@) && old(self).symbols.names().len() < 65535
                ==> final(self).symbols.names() == old(self).symbols.names().push(name@) && id
                == old(self).symbols.names().len() + 1,
            !old(self).symbols.names().contains(name@) && old(self).symbols.names().len() >= 65535
                ==> final(self).symbols.names() == old(self).symbols.names() && id == 0,
    {
        self.symbols.intern(name)
    }

    /// Hands out the next first-seen number (wrapping as an atomic
    /// counter does).
    pub fn next_sequence(&mut self) -> (seq: u64)
        ensures
            seq == old(self).sequence_counter,
            final(self).sequence_counter == crate::decoder::wrap_u64(old(self).sequence_counter + 1),
            final(self).tbs == old(self).tbs,
            final(self).config == old(self).config,
            final(self).symbols == old(self).symbols,
            final(self).edge_accumulators == old(self).edge_accumulators,
            final(self).discon_events == old(self).discon_events,
            final(self).device_accesses == old(self).device_accesses,
    {
        let seq = self.sequence_counter;
        proof {
            crate::decoder::lemma_wrap_u64(seq + 1);
        }
        self.sequence_counter = if seq == u64::MAX {
            0
        } else {
            seq + 1
        };
        seq
    }

    /// Records a translated block: interns the symbol of its first
    /// instruction (if any), then finds the block by key or adds it with
    /// that symbol. Returns its position and whether it is new.
    pub fn translate_tb(
        &mut self,
        start_addr: u64,
        n_insns: u16,
        end_addr: u64,
        fall_through_addr: u64,
        symbol: Option<&str>,
    ) -> (r: (usize, bool))
        requires
            old(self).wf(),
            old(self).tbs.metas().len() < usize::MAX,
        ensures
            final(self).wf(),
            final(self).config == old(self).config,
            final(self).edge_accumulators == old(self).edge_accumulators,
            !r.1 ==> final(self).tbs.metas() == old(self).tbs.metas() && r.0 < old(self).tbs.metas().len() && old(self).tbs.metas()[r.0 as int].start_addr == start_addr
                && old(self).tbs.metas()[r.0 as int].n_insns == n_insns,
            r.1 ==> (forall|j: int|
                0 <= j < old(self).tbs.metas().len() ==> !((#[trigger] old(self).tbs.metas()[j]).start_addr
                    == start_addr && old(self).tbs.metas()[j].n_insns == n_insns)) && r.0 == old(self).tbs.metas().len() && final(self).tbs.metas().len() == r.0 + 1 && final(self).tbs.metas().take(r.0 as int) == old(self).tbs.metas() && final(self).tbs.metas()[r.0 as int]
                == (TbMeta {
                start_addr,
                end_addr,
                n_insns,
                sym_id: final(self).tbs.metas()[r.0 as int].sym_id,
                first_seen_seq: 0,
                fall_through_addr,
                ends_with_indirect: false,
                coproc_flags: 0,
            }),
            symbol is None ==> final(self).symbols == old(self).symbols && (r.1 ==> final(self).tbs.metas()[r.0 as int].sym_id == 0),
            symbol matches Some(name) ==> ({
                let names = old(self).symbols.names();
                let id = final(self).tbs.metas()[r.0 as int].sym_id;
                &&& names.contains(name@) ==> final(self).symbols.names() == names && (r.1 ==> id >= 1
                    && names[id - 1] == name@)
                &&& !names.contains(name@) && names.len() < 65535 ==> final(self).symbols.names()
                    == names.push(name@) && (r.1 ==> id == names.len() + 1)
                &&& !names.contains(name@) && names.len() >= 65535 ==> final(self).symbols.names()
                    == names && (r.1 ==> id == 0)
            }),
    {
        let sym_id = match symbol {
            Some(name) => self.intern_symbol(name),
            None => 0,
        };
        let key = TbKey { start_addr, n_insns };
        match self.tbs.find(key) {
            Some(i) => (i, false),
            None => {
                let meta = TbMeta {
                    start_addr,
                    end_addr,
                    n_insns,
                    sym_id,
                    first_seen_seq: 0,
                    fall_through_addr,
                    ends_with_indirect: false,
                    coproc_flags: 0,
                };
                let i = self.tbs.insert(meta);
                assert(self.tbs.metas().take(i as int) =~= old(self).tbs.metas());
                (i, true)
            },
        }
    }

    /// Records the first execution of the block at position `i`: it gets
    /// the next first-seen number.
    pub fn mark_first_seen(&mut self, i: usize)
        requires
            old(self).wf(),
            i < old(self).tbs.metas().len(),
        ensures
            final(self).wf(),
            final(self).config == old(self).config,
            final(self).tbs.metas() == old(self).tbs.metas().update(
                i as int,
                TbMeta { first_seen_seq: old(self).sequence_counter, ..old(self).tbs.metas()[i as int] },
            ),
    {
        let seq = self.next_sequence();
        self.tbs.set_first_seen(i, seq);
    }

    /// Makes sure that `vcpu_count` vCPUs have edge accumulators (in the
    /// configured mode and capacity) and, from tier 2, indirect call
    /// counters.
    pub fn ensure_vcpu_state(&mut self, vcpu_count: usize)
        requires
            old(self).wf(),
            vcpu_count <= MAX_VCPUS,
        ensures
            final(self).wf(),
            final(self).config == old(self).config,
            final(self).tbs == old(self).tbs,
            final(self).edge_accumulators.items().len() == if old(self).edge_accumulators.items().len()
                < vcpu_count {
                vcpu_count as int
            } else {
                old(self).edge_accumulators.items().len() as int
            },
            forall|v: int|
                0 <= v < old(self).edge_accumulators.items().len() ==> #[trigger] final(self).edge_accumulators.items()[v] == old(self).edge_accumulators.items()[v],
            forall|v: int|
                old(self).edge_accumulators.items().len() <= v < final(self).edge_accumulators.items().len()
                    ==> (#[trigger] final(self).edge_accumulators.items()[v]).counts() == no_edges(),
            old(self).config.tier >= 2 && old(self).indirect_calls.items().len() < vcpu_count
                ==> final(self).indirect_calls.items().len() == vcpu_count,
            forall|v: int|
                0 <= v < old(self).indirect_calls.items().len() ==> #[trigger] final(self).indirect_calls.items()[v] == old(self).indirect_calls.items()[v],
            forall|v: int|
                old(self).indirect_calls.items().len() <= v < final(self).indirect_calls.items().len()
                    ==> (#[trigger] final(self).indirect_calls.items()[v]).counts() == no_pairs(),
            old(self).config.tier < 2 ==> final(self).indirect_calls == old(self).indirect_calls,
    {
        let ghost a0 = self.edge_accumulators.items();
        while self.edge_accumulators.len() < vcpu_count
            invariant
                vcpu_count <= MAX_VCPUS,
                self.wf(),
                self.config == old(self).config,
                self.tbs == old(self).tbs,
                self.indirect_calls == old(self).indirect_calls,
                a0 == old(self).edge_accumulators.items(),
                a0.len() <= self.edge_accumulators.items().len(),
                a0.len() < vcpu_count ==> self.edge_accumulators.items().len() <= vcpu_count,
                a0.len() >= vcpu_count ==> self.edge_accumulators.items() == a0,
                forall|v: int| 0 <= v < a0.len() ==> #[trigger] self.edge_accumulators.items()[v] == a0[v],
                forall|v: int|
                    a0.len() <= v < self.edge_accumulators.items().len()
                        ==> (#[trigger] self.edge_accumulators.items()[v]).counts() == no_edges(),
            decreases vcpu_count - self.edge_accumulators.items().len(),
        {
            let acc = EdgeAccumulator::new(self.config.top_n, self.config.streaming);
            self.edge_accumulators.push(acc);
        }
        let ghost e1 = self.edge_accumulators;
        if self.config.tier >= 2 {
            let ghost c0 = self.indirect_calls.items();
            while self.indirect_calls.len() < vcpu_count
                invariant
                    vcpu_count <= MAX_VCPUS,
                    self.wf(),
                    self.config == old(self).config,
                    self.tbs == old(self).tbs,
                    self.edge_accumulators == e1,
                    c0 == old(self).indirect_calls.items(),
                    c0.len() <= self.indirect_calls.items().len(),
                    c0.len() < vcpu_count ==> self.indirect_calls.items().len() <= vcpu_count,
                    forall|v: int| 0 <= v < c0.len() ==> #[trigger] self.indirect_calls.items()[v] == c0[v],
                    forall|v: int|
                        c0.len() <= v < self.indirect_calls.items().len()
                            ==> (#[trigger] self.indirect_calls.items()[v]).counts() == no_pairs(),
                decreases vcpu_count - self.indirect_calls.items().len(),
            {
                self.indirect_calls.push(IndirectCalls::new());
            }
        }
    }
}

/// What recording a branch edge led to.
pub enum EdgeOutcome {
    /// The edge was counted.
    Recorded,
    /// The edge was counted and the streaming accumulator reached its
    /// threshold: its edges were taken out and are to be flushed.
    Flush(Vec<EdgeTriple>),
    /// The vCPU has no accumulator: nothing was recorded.
    NoAccumulator,
    /// The edge's count has reached `u64::MAX`: nothing was recorded.
    CountOverflow,
}

/// The counts of every accumulator.
pub open spec fn acc_counts(accs: Seq<EdgeAccumulator>) -> Seq<Map<(u64, u64), u64>> {
    accs.map_values(|a: EdgeAccumulator| a.counts())
}

impl PluginState {
    /// Records a taken branch `from -> to` on a vCPU. In streaming mode,
    /// once the vCPU's accumulator holds `top_n` edges or more, its
    /// edges are taken out for a flush.
    pub fn record_edge(&mut self, vcpu_index: u32, from: u64, to: u64) -> (r: EdgeOutcome)
        requires
            old(self).wf(),
        ensures
            final(self).wf(),
            final(self).config == old(self).config,
            final(self).tbs == old(self).tbs,
            final(self).symbols == old(self).symbols,
            final(self).writer == old(self).writer,
            final(self).flushed_branch_entries == old(self).flushed_branch_entries,
            final(self).edge_accumulators.items().len() == old(self).edge_accumulators.items().len(),
            forall|v: int|
                0 <= v < old(self).edge_accumulators.items().len() && v != vcpu_index ==> #[trigger] final(self).edge_accumulators.items()[v]
                    == old(self).edge_accumulators.items()[v],
            vcpu_index >= old(self).edge_accumulators.items().len() ==> r is NoAccumulator,
            vcpu_index < old(self).edge_accumulators.items().len() ==> ({
                let a0 = old(self).edge_accumulators.items()[vcpu_index as int];
                let a1 = final(self).edge_accumulators.items()[vcpu_index as int];
                let b = bump(a0.counts(), (from, to));
                &&& (a0.counts().contains_key((from, to)) && a0.counts()[(from, to)] == u64::MAX)
                    <==> r is CountOverflow
                &&& r is CountOverflow ==> a1 == a0
                &&& !(r is CountOverflow) && old(self).config.streaming && b.len() >= old(self).config.top_n
                    ==> (r matches EdgeOutcome::Flush(e) && lists_entries(e@, b) && a1.counts() == no_edges())
                &&& !(r is CountOverflow) && old(self).config.streaming && b.len() < old(self).config.top_n
                    ==> r is Recorded && a1.counts() == b
                &&& !(r is CountOverflow) && !old(self).config.streaming ==> r is Recorded && (b.len()
                    <= 2 * a0.capacity() ==> a1.counts() == b) && (b.len() > 2 * a0.capacity()
                    ==> is_top_selection(a1.counts(), b, a0.capacity()))
            }),
    {
        let streaming = self.config.streaming;
        let top_n = self.config.top_n;
        let ghost cfg = self.config;
        let ghost items0 = self.edge_accumulators.items();
        let ghost v = vcpu_index as int;
        match self.edge_accumulators.get_mut(vcpu_index as usize) {
            None => EdgeOutcome::NoAccumulator,
            Some(acc) => {
                assert(accumulators_ok(items0, cfg));
                assert(items0[v].wf());
                if !acc.try_record(from, to) {
                    return EdgeOutcome::CountOverflow;
                }
                if streaming && acc.should_flush(top_n) {
                    let edges = acc.drain();
                    EdgeOutcome::Flush(edges)
                } else {
                    EdgeOutcome::Recorded
                }
            },
        }
    }

    /// Flushes edges taken out of vCPU `vcpu_index`'s accumulator: adds
    /// their counts to the branch-entry counts of their targets, then, if
    /// there is a writer, writes them as a branch edge batch and a flush
    /// marker (with the time since the run began). Returns `false` where
    /// an entry count or the writer's edge total would overflow; the
    /// entry counts may then hold part of the batch.
    pub fn flush_edges(&mut self, vcpu_index: u32, edges: &Vec<EdgeTriple>, elapsed_ns: u64) -> (ok: bool)
        ensures
            ok <==> (forall|t: u64|
                entry_count(old(self).flushed_branch_entries.counts(), t) + #[trigger] edges_into(edges@, t)
                    <= u64::MAX) && (old(self).writer matches Some(w0) ==> w0.edge_count() + edges@.len()
                <= u64::MAX),
            final(self).config == old(self).config,
            final(self).tbs == old(self).tbs,
            final(self).symbols == old(self).symbols,
            final(self).edge_accumulators == old(self).edge_accumulators,
            ok ==> forall|t: u64| #[trigger] entry_count(final(self).flushed_branch_entries.counts(), t)
                == entry_count(old(self).flushed_branch_entries.counts(), t) + edges_into(edges@, t),
            ok && old(self).writer is None ==> final(self).writer is None,
            ok && old(self).writer is Some ==> (final(self).writer matches Some(w) && ({
                let w0 = old(self).writer->0;
                &&& w.pending() == w0.pending() + batch_records(
                    RecordTag::BranchEdgeBatch.spec_byte(),
                    edges@,
                    MAX_EDGES_PER_RECORD as nat,
                    |t: (u64, u64, u64)| triple_bytes(t),
                ) + tlv(
                    RecordTag::FlushMarker.spec_byte(),
                    flush_payload(elapsed_ns, vcpu_index, #[verifier::truncate] (edges@.len() as u32)),
                )
                &&& w.tb_count() == w0.tb_count()
                &&& w.edge_count() == w0.edge_count() + edges@.len()
                &&& w.exec_count() == w0.exec_count()
            })),
    {
        let mut i: usize = 0;
        while i < edges.len()
            invariant
                self.config == old(self).config,
                self.tbs == old(self).tbs,
                self.symbols == old(self).symbols,
                self.edge_accumulators == old(self).edge_accumulators,
                self.writer == old(self).writer,
                i <= edges@.len(),
                forall|t: u64| #[trigger] entry_count(self.flushed_branch_entries.counts(), t)
                    == entry_count(old(self).flushed_branch_entries.counts(), t) + edges_into(edges@.take(i as int), t),
            decreases edges@.len() - i,
        {
            let (_, to, count) = edges[i];
            proof {
                assert(edges@.take(i + 1).drop_last() =~= edges@.take(i as int));
            }
            let ghost m0 = self.flushed_branch_entries.counts();
            if !self.flushed_branch_entries.add(to, count) {
                proof {
                    lemma_edges_into_prefix(edges@, i + 1, to);
                    assert(edges@.take(i + 1).last() == edges@[i as int]);
                    assert(edges_into(edges@.take(i + 1), to) == edges_into(edges@.take(i as int), to)
                        + count);
                    assert(entry_count(m0, to) == m0[to]);
                    assert(entry_count(old(self).flushed_branch_entries.counts(), to) + edges_into(
                        edges@,
                        to,
                    ) > u64::MAX);
                }
                return false;
            }
            proof {
                assert forall|t: u64| #[trigger] entry_count(self.flushed_branch_entries.counts(), t)
                    == entry_count(m0, t) + if t == to {
                    count as int
                } else {
                    0
                } by {}
                assert forall|t: u64| #[trigger] edges_into(edges@.take(i + 1), t) == edges_into(
                    edges@.take(i as int),
                    t,
                ) + if t == to {
                    count as int
                } else {
                    0
                } by {}
            }
            i = i + 1;
        }
        assert(edges@.take(edges@.len() as int) =~= edges@);
        assert forall|t: u64|
            entry_count(old(self).flushed_branch_entries.counts(), t) + #[trigger] edges_into(edges@, t)
                <= u64::MAX by {
            assert(entry_count(self.flushed_branch_entries.counts(), t) <= u64::MAX);
        }
        match &mut self.writer {
            None => true,
            Some(w) => {
                if w.edges_written() > u64::MAX - edges.len() as u64 {
                    return false;
                }
                w.write_branch_edge_batch(edges.as_slice());
                w.write_flush_marker(elapsed_ns, vcpu_index, #[verifier::truncate] (edges.len() as u32));
                true
            },
        }
    }

    /// Counts an indirect call from `callsite` to `target` on a vCPU
    /// (nothing where the vCPU has no counters). Returns `false`, with
    /// nothing changed, where the count has reached `u64::MAX`.
    pub fn record_indirect_call(&mut self, vcpu_index: u32, callsite: u64, target: u64) -> (ok: bool)
        ensures
            final(self).config == old(self).config,
            final(self).tbs == old(self).tbs,
            final(self).symbols == old(self).symbols,
            final(self).edge_accumulators == old(self).edge_accumulators,
            final(self).writer == old(self).writer,
            final(self).indirect_calls.items().len() == old(self).indirect_calls.items().len(),
            vcpu_index >= old(self).indirect_calls.items().len() ==> ok && final(self).indirect_calls.items()
                == old(self).indirect_calls.items(),
            vcpu_index < old(self).indirect_calls.items().len() ==> ({
                let c0 = old(self).indirect_calls.items()[vcpu_index as int].counts();
                let c1 = final(self).indirect_calls.items()[vcpu_index as int].counts();
                &&& ok == !(c0.contains_key((callsite, target)) && c0[(callsite, target)] == u64::MAX)
                &&& ok ==> c1 == bump_pair(c0, (callsite, target))
                &&& !ok ==> c1 == c0
            }),
            forall|v: int|
                0 <= v < old(self).indirect_calls.items().len() && v != vcpu_index ==> #[trigger] final(self).indirect_calls.items()[v]
                    == old(self).indirect_calls.items()[v],
    {
        match self.indirect_calls.get_mut(vcpu_index as usize) {
            None => true,
            Some(m) => m.record(callsite, target),
        }
    }

    /// Records a direct call found at translation time.
    pub fn add_direct_call(&mut self, callsite: u64, target: u64)
        ensures
            final(self).direct_calls.pairs() == old(self).direct_calls.pairs().insert((callsite, target)),
            final(self).config == old(self).config,
            final(self).target_arch == old(self).target_arch,
            final(self).tbs == old(self).tbs,
            final(self).symbols == old(self).symbols,
            final(self).edge_accumulators == old(self).edge_accumulators,
            final(self).indirect_calls == old(self).indirect_calls,
            final(self).writer == old(self).writer,
            final(self).discon_events == old(self).discon_events,
            final(self).device_accesses == old(self).device_accesses,
    {
        self.direct_calls.insert(callsite, target);
    }
}

/// One guest instruction of a translated block: its address, its bytes
/// (as QEMU hands them out) and its size.
pub struct InsnData {
    pub addr: u64,
    pub bytes: Vec<u8>,
    pub size: usize,
}

/// Every instruction of `insns` can be classified.
pub open spec fn insns_classifiable(arch: Arch, insns: Seq<InsnData>) -> bool {
    forall|i: int|
        0 <= i < insns.len() ==> classify_requires(
            arch,
            (#[trigger] insns[i]).bytes@,
            insns[i].addr,
            insns[i].size,
        )
}

/// The class of an instruction.
#[verifier::opaque]
pub open spec fn insn_class(arch: Arch, d: InsnData) -> InsnClass {
    spec_classify(arch, d.bytes@, d.addr, d.size)
}

/// The addresses of the indirect calls and jumps of `insns`, in order.
pub open spec fn indirect_sites(arch: Arch, insns: Seq<InsnData>) -> Seq<u64>
    decreases insns.len(),
{
    if insns.len() == 0 {
        Seq::empty()
    } else {
        let prev = indirect_sites(arch, insns.drop_last());
        if insn_class(arch, insns.last()) is Indirect {
            prev.push(insns.last().addr)
        } else {
            prev
        }
    }
}

/// The direct calls and jumps of `insns`, as `(address, target)`.
pub open spec fn direct_sites(arch: Arch, insns: Seq<InsnData>) -> Set<(u64, u64)>
    decreases insns.len(),
{
    if insns.len() == 0 {
        Set::empty()
    } else {
        let prev = direct_sites(arch, insns.drop_last());
        match insn_class(arch, insns.last()) {
            InsnClass::Direct { target } => prev.insert((insns.last().addr, target)),
            _ => prev,
        }
    }
}

/// The coprocessor flags of `insns`, combined.
pub open spec fn insns_coproc_flags(arch: Arch, insns: Seq<InsnData>) -> u32
    decreases insns.len(),
{
    if insns.len() == 0 {
        0
    } else {
        insns_coproc_flags(arch, insns.drop_last()) | spec_classify_resources(arch, insns.last().bytes@)
    }
}

/// Whether every instruction of `insns` can be classified.
fn all_classifiable(arch: Arch, insns: &Vec<InsnData>) -> (b: bool)
    ensures
        b == insns_classifiable(arch, insns@),
{
    let n = insns.len();
    let mut k: usize = 0;
    while k < n
        invariant
            n == insns@.len(),
            k <= n,
            forall|j: int|
                0 <= j < k ==> classify_requires(
                    arch,
                    (#[trigger] insns@[j]).bytes@,
                    insns@[j].addr,
                    insns@[j].size,
                ),
        decreases n - k,
    {
        let d = &insns[k];
        if !classify_ok(arch, d.bytes.as_slice(), d.addr, d.size) {
            assert(insns@[k as int] == *d);
            return false;
        }
        k = k + 1;
    }
    true
}

/// The coprocessor flags of a block's instructions, combined.
pub fn tb_coproc_flags(arch: Arch, insns: &Vec<InsnData>) -> (f: u32)
    ensures
        f == insns_coproc_flags(arch, insns@),
{
    let mut flags: u32 = 0;
    let mut i: usize = 0;
    while i < insns.len()
        invariant
            i <= insns@.len(),
            flags == insns_coproc_flags(arch, insns@.take(i as int)),
        decreases insns@.len() - i,
    {
        proof {
            assert(insns@.take(i + 1).drop_last() =~= insns@.take(i as int));
        }
        flags = flags | classify_resources(arch, insns[i].bytes.as_slice());
        i = i + 1;
    }
    assert(insns@.take(insns@.len() as int) =~= insns@);
    flags
}

impl PluginState {
    /// Classifies one instruction: records it if it is a direct call or
    /// jump, adds its address to `sites` if it is an indirect one, and
    /// returns whether it is.
    fn note_insn(&mut self, d: &InsnData, sites: &mut Vec<u64>) -> (indirect: bool)
        requires
            classify_requires(old(self).target_arch, d.bytes@, d.addr, d.size),
        ensures
            indirect == insn_class(old(self).target_arch, *d) is Indirect,
            final(sites)@ == (if indirect {
                old(sites)@.push(d.addr)
            } else {
                old(sites)@
            }),
            final(self).direct_calls.pairs() == (match insn_class(old(self).target_arch, *d) {
                InsnClass::Direct { target } => old(self).direct_calls.pairs().insert((d.addr, target)),
                _ => old(self).direct_calls.pairs(),
            }),
            final(self).discon_events == old(self).discon_events,
            final(self).device_accesses == old(self).device_accesses,
            final(self).config == old(self).config,
            final(self).target_arch == old(self).target_arch,
            final(self).tbs == old(self).tbs,
            final(self).symbols == old(self).symbols,
            final(self).edge_accumulators == old(self).edge_accumulators,
    {
        proof {
            reveal(insn_class);
        }
        match classify(self.target_arch, d.bytes.as_slice(), d.addr, d.size) {
            InsnClass::Direct { target } => {
                self.add_direct_call(d.addr, target);
                false
            },
            InsnClass::Indirect => {
                sites.push(d.addr);
                true
            },
            InsnClass::Other => false,
        }
    }

    /// Classifies the instructions of the block at position `tb`: records
    /// its direct calls and jumps, marks it where its last instruction is
    /// an indirect call or jump, and returns the addresses of its
    /// indirect ones (to be watched at run time). `None`, with nothing
    /// changed, where some instruction cannot be classified (its end
    /// address overflows).
    pub fn classify_tb_calls(&mut self, tb: usize, insns: &Vec<InsnData>) -> (r: Option<Vec<u64>>)
        requires
            old(self).wf(),
            tb < old(self).tbs.metas().len(),
        ensures
            final(self).wf(),
            final(self).config == old(self).config,
            final(self).edge_accumulators == old(self).edge_accumulators,
            r is Some <==> insns_classifiable(old(self).target_arch, insns@),
            r is None ==> final(self).tbs == old(self).tbs && final(self).direct_calls
                == old(self).direct_calls,
            r matches Some(v) ==> v@ == indirect_sites(old(self).target_arch, insns@)
                && final(self).direct_calls.pairs() == old(self).direct_calls.pairs().union(
                direct_sites(old(self).target_arch, insns@),
            ) && final(self).tbs.metas() == (if insns@.len() > 0 && insn_class(
                old(self).target_arch,
                insns@.last(),
            ) is Indirect {
                old(self).tbs.metas().update(
                    tb as int,
                    TbMeta { ends_with_indirect: true, ..old(self).tbs.metas()[tb as int] },
                )
            } else {
                old(self).tbs.metas()
            }),
    {
        let arch = self.target_arch;
        let n = insns.len();
        let ghost d0 = self.direct_calls.pairs();
        let mut sites: Vec<u64> = Vec::new();
        if !all_classifiable(arch, insns) {
            return None;
        }
        let mut last_indirect = false;
        let mut i: usize = 0;
        while i < n
            invariant
                n == insns@.len(),
                arch == self.target_arch,
                arch == old(self).target_arch,
                self.wf(),
                self.config == old(self).config,
                self.edge_accumulators == old(self).edge_accumulators,
                self.tbs == old(self).tbs,
                d0 == old(self).direct_calls.pairs(),
                i <= n,
                insns_classifiable(arch, insns@),
                insns_classifiable(arch, insns@.take(i as int)),
                sites@ == indirect_sites(arch, insns@.take(i as int)),
                self.direct_calls.pairs() == d0.union(direct_sites(arch, insns@.take(i as int))),
                i > 0 ==> last_indirect == insn_class(arch, insns@[i - 1]) is Indirect,
            decreases n - i,
        {
            let d = &insns[i];
            proof {
                assert(insns@.take(i + 1).drop_last() =~= insns@.take(i as int));
                assert(insns@.take(i + 1).last() == *d);
            }
            assert(insns@[i as int] == *d);
            let ghost p0 = self.direct_calls.pairs();
            last_indirect = self.note_insn(d, &mut sites);
            proof {
                assert(self.direct_calls.pairs() =~= d0.union(direct_sites(arch, insns@.take(i + 1))));
                assert forall|j: int| 0 <= j < i + 1 implies classify_requires(
                    arch,
                    (#[trigger] insns@.take(i + 1)[j]).bytes@,
                    insns@.take(i + 1)[j].addr,
                    insns@.take(i + 1)[j].size,
                ) by {
                    if j < i {
                        assert(insns@.take(i + 1)[j] == insns@.take(i as int)[j]);
                    }
                }
            }
            i = i + 1;
        }
        assert(insns@.take(n as int) =~= insns@);
        if n > 0 && last_indirect {
            self.tbs.set_ends_with_indirect(tb);
        }
        Some(sites)
    }

    /// Sets the coprocessor flags of the block at position `tb`.
    pub fn set_coproc_flags(&mut self, tb: usize, flags: u32)
        requires
            old(self).wf(),
            tb < old(self).tbs.metas().len(),
        ensures
            final(self).wf(),
            final(self).config == old(self).config,
            final(self).tbs.metas() == old(self).tbs.metas().update(
                tb as int,
                TbMeta { coproc_flags: flags, ..old(self).tbs.metas()[tb as int] },
            ),
    {
        self.tbs.set_coproc_flags(tb, flags);
    }
}

// --- At exit ---

/// The lists one after another.
pub open spec fn flatten(lists: Seq<Seq<EdgeTriple>>) -> Seq<EdgeTriple>
    decreases lists.len(),
{
    if lists.len() == 0 {
        Seq::empty()
    } else {
        flatten(lists.drop_last()) + lists.last()
    }
}

/// `d` lists the entries of each map of `counts` in turn, each map's
/// entries in some order.
pub open spec fn listed_from(d: Seq<EdgeTriple>, counts: Seq<Map<(u64, u64), u64>>) -> bool {
    exists|lists: Seq<Seq<EdgeTriple>>|
        lists.len() == counts.len() && (forall|v: int|
            0 <= v < lists.len() ==> lists_entries(#[trigger] lists[v], counts[v])) && d == flatten(lists)
}

/// The symbol records of a table: id `i + 1`, address 0, name `names[i]`.
pub open spec fn symbol_records(names: Seq<Seq<char>>) -> Seq<u8>
    decreases names.len(),
{
    if names.len() == 0 {
        Seq::empty()
    } else {
        symbol_records(names.drop_last()) + tlv(
            RecordTag::SymbolEntry.spec_byte(),
            symbol_payload(names.len() as u16, 0, utf8(names.last())),
        )
    }
}

/// The resource records of `res`, with an empty vCPU mask.
pub open spec fn resource_records(res: Seq<(u64, u32)>) -> Seq<u8>
    decreases res.len(),
{
    if res.len() == 0 {
        Seq::empty()
    } else {
        resource_records(res.drop_last()) + tlv(
            RecordTag::TbResource.spec_byte(),
            resource_payload(res.last().0, res.last().1, 0),
        )
    }
}

/// The TB execution entries of `tbs` run `execs` times.
pub open spec fn tb_entries_spec(tbs: Seq<TbMeta>, execs: Seq<u64>) -> Seq<(u64, u64, u16, u64, u64)> {
    Seq::new(
        tbs.len(),
        |i: int|
            (tbs[i].start_addr, tbs[i].end_addr, tbs[i].n_insns, execs[i], tbs[i].first_seen_seq),
    )
}

/// The batch records of a list of triples with tag `tag`.
pub open spec fn triple_records(tag: u8, items: Seq<EdgeTriple>) -> Seq<u8> {
    batch_records(tag, items, MAX_EDGES_PER_RECORD as nat, |t: (u64, u64, u64)| triple_bytes(t))
}

/// What the plugin derived and wrote at exit.
pub struct ExitReport {
    /// Number of TBs written.
    pub tb_count: usize,
    /// Branch edges, merged over the vCPUs (tier 1+).
    pub branch_edges: Vec<EdgeTriple>,
    /// Fall-through edges (tier 1+).
    pub fall_throughs: Vec<EdgeTriple>,
    /// Direct calls weighted by the runs of their TB (tier 2+).
    pub direct_calls: Vec<EdgeTriple>,
    /// Indirect calls, merged over the vCPUs (tier 2+).
    pub indirect_calls: Vec<EdgeTriple>,
}

/// Why the records could not be written at exit.
#[derive(Debug, PartialEq, Eq, Structural)]
pub enum ExitError {
    /// A count or total does not fit in a `u64`.
    CountOverflow,
}

fn write_symbols(w: &mut ProfileWriter, table: &SymbolTable)
    requires
        table.wf(),
    ensures
        final(w).pending() == old(w).pending() + symbol_records(table.names()),
        final(w).tb_count() == old(w).tb_count(),
        final(w).edge_count() == old(w).edge_count(),
        final(w).exec_count() == old(w).exec_count(),
{
    let entries = table.entries();
    let ghost names = table.names();
    let ghost p0 = w.pending();
    let mut i: usize = 0;
    while i < entries.len()
        invariant
            entries@.len() == names.len(),
            forall|j: int|
                0 <= j < entries@.len() ==> (#[trigger] entries@[j]).0 == j + 1 && entries@[j].1@
                    == names[j],
            i <= entries@.len(),
            w.pending() == p0 + symbol_records(names.take(i as int)),
            w.tb_count() == old(w).tb_count(),
            w.edge_count() == old(w).edge_count(),
            w.exec_count() == old(w).exec_count(),
        decreases entries@.len() - i,
    {
        let (id, name) = &entries[i];
        w.write_symbol_entry(*id, 0, name.as_str());
        proof {
            assert(names.take(i + 1).drop_last() =~= names.take(i as int));
            assert(names.take(i + 1).last() == names[i as int]);
            assert(names.take(i + 1).len() as u16 == *id);
            assert(w.pending() =~= p0 + symbol_records(names.take(i + 1)));
        }
        i = i + 1;
    }
    assert(names.take(names.len() as int) =~= names);
}

fn write_resources(w: &mut ProfileWriter, res: &Vec<(u64, u32)>)
    ensures
        final(w).pending() == old(w).pending() + resource_records(res@),
        final(w).tb_count() == old(w).tb_count(),
        final(w).edge_count() == old(w).edge_count(),
        final(w).exec_count() == old(w).exec_count(),
{
    let ghost p0 = w.pending();
    let mut i: usize = 0;
    while i < res.len()
        invariant
            i <= res@.len(),
            w.pending() == p0 + resource_records(res@.take(i as int)),
            w.tb_count() == old(w).tb_count(),
            w.edge_count() == old(w).edge_count(),
            w.exec_count() == old(w).exec_count(),
        decreases res@.len() - i,
    {
        let (addr, flags) = res[i];
        w.write_tb_resource(addr, flags, 0);
        proof {
            assert(res@.take(i + 1).drop_last() =~= res@.take(i as int));
            assert(w.pending() =~= p0 + resource_records(res@.take(i + 1)));
        }
        i = i + 1;
    }
    assert(res@.take(res@.len() as int) =~= res@);
}

/// A device access record per `(block, device)` pair.
pub open spec fn device_records(d: Seq<(u64, Seq<char>)>) -> Seq<u8>
    decreases d.len(),
{
    if d.len() == 0 {
        Seq::empty()
    } else {
        device_records(d.drop_last()) + tlv(
            RecordTag::DeviceAccess.spec_byte(),
            device_payload(d.last().0, utf8(d.last().1)),
        )
    }
}

/// A discontinuity record per event.
pub open spec fn discon_records(e: Seq<DisconRecord>) -> Seq<u8>
    decreases e.len(),
{
    if e.len() == 0 {
        Seq::empty()
    } else {
        discon_records(e.drop_last()) + tlv(
            RecordTag::Discontinuity.spec_byte(),
            discon_payload(e.last().discon_type, e.last().from_pc, e.last().to_pc, e.last().count),
        )
    }
}

fn write_devices(w: &mut ProfileWriter, d: &Vec<(u64, String)>)
    ensures
        final(w).pending() == old(w).pending() + device_records(
            d@.map_values(|x: (u64, String)| (x.0, x.1@)),
        ),
        final(w).tb_count() == old(w).tb_count(),
        final(w).edge_count() == old(w).edge_count(),
        final(w).exec_count() == old(w).exec_count(),
{
    let ghost p0 = w.pending();
    let ghost dv = d@.map_values(|x: (u64, String)| (x.0, x.1@));
    let mut i: usize = 0;
    while i < d.len()
        invariant
            i <= d@.len(),
            dv == d@.map_values(|x: (u64, String)| (x.0, x.1@)),
            w.pending() == p0 + device_records(dv.take(i as int)),
            w.tb_count() == old(w).tb_count(),
            w.edge_count() == old(w).edge_count(),
            w.exec_count() == old(w).exec_count(),
        decreases d@.len() - i,
    {
        w.write_device_access(d[i].0, d[i].1.as_str());
        proof {
            assert(dv.take(i + 1).drop_last() =~= dv.take(i as int));
            assert(dv.take(i + 1).last() == dv[i as int]);
            assert(w.pending() =~= p0 + device_records(dv.take(i + 1)));
        }
        i = i + 1;
    }
    assert(dv.take(d@.len() as int) =~= dv);
}

fn write_discontinuities(w: &mut ProfileWriter, e: &Vec<DisconRecord>)
    ensures
        final(w).pending() == old(w).pending() + discon_records(e@),
        final(w).tb_count() == old(w).tb_count(),
        final(w).edge_count() == old(w).edge_count(),
        final(w).exec_count() == old(w).exec_count(),
{
    let ghost p0 = w.pending();
    let mut i: usize = 0;
    while i < e.len()
        invariant
            i <= e@.len(),
            w.pending() == p0 + discon_records(e@.take(i as int)),
            w.tb_count() == old(w).tb_count(),
            w.edge_count() == old(w).edge_count(),
            w.exec_count() == old(w).exec_count(),
        decreases e@.len() - i,
    {
        let r = e[i];
        w.write_discontinuity(r.discon_type, r.from_pc, r.to_pc, r.count);
        proof {
            assert(e@.take(i + 1).drop_last() =~= e@.take(i as int));
            assert(w.pending() =~= p0 + discon_records(e@.take(i + 1)));
        }
        i = i + 1;
    }
    assert(e@.take(e@.len() as int) =~= e@);
}

/// The sum of the run counts of TB entries; `None` where it overflows.
fn total_execs(entries: &Vec<(u64, u64, u16, u64, u64)>) -> (r: Option<u64>)
    ensures
        r is Some <==> sum_exec(entries@) <= u64::MAX,
        r matches Some(t) ==> t == sum_exec(entries@),
{
    let mut total: u64 = 0;
    let mut i: usize = 0;
    while i < entries.len()
        invariant
            i <= entries@.len(),
            total == sum_exec(entries@.take(i as int)),
        decreases entries@.len() - i,
    {
        proof {
            assert(entries@.take(i + 1).drop_last() =~= entries@.take(i as int));
        }
        let e = entries[i].3;
        if total > u64::MAX - e {
            proof {
                crate::output::lemma_sum_exec_prefix(entries@, i + 1);
            }
            return None;
        }
        total = total + e;
        i = i + 1;
    }
    assert(entries@.take(entries@.len() as int) =~= entries@);
    Some(total)
}

impl PluginState {
    /// Takes every edge out of the accumulators, vCPU by vCPU.
    fn drain_edges(&mut self) -> (d: Vec<EdgeTriple>)
        requires
            old(self).wf(),
        ensures
            final(self).wf(),
            final(self).config == old(self).config,
            final(self).tbs == old(self).tbs,
            final(self).symbols == old(self).symbols,
            final(self).writer == old(self).writer,
            final(self).indirect_calls == old(self).indirect_calls,
            final(self).direct_calls == old(self).direct_calls,
            final(self).flushed_branch_entries == old(self).flushed_branch_entries,
            final(self).discon_events == old(self).discon_events,
            final(self).device_accesses == old(self).device_accesses,
            listed_from(d@, acc_counts(old(self).edge_accumulators.items())),
            final(self).edge_accumulators.items().len() == old(self).edge_accumulators.items().len(),
            forall|v: int|
                0 <= v < final(self).edge_accumulators.items().len() ==> (#[trigger] final(self).edge_accumulators.items()[v]).counts()
                    == no_edges(),
    {
        let ghost items0 = self.edge_accumulators.items();
        let ghost counts0 = acc_counts(items0);
        let n = self.edge_accumulators.len();
        let mut all: Vec<EdgeTriple> = Vec::new();
        let ghost mut lists: Seq<Seq<EdgeTriple>> = Seq::empty();
        let mut v: usize = 0;
        while v < n
            invariant
                n == items0.len(),
                counts0 == acc_counts(items0),
                self.wf(),
                self.config == old(self).config,
                self.tbs == old(self).tbs,
                self.symbols == old(self).symbols,
                self.writer == old(self).writer,
                self.indirect_calls == old(self).indirect_calls,
                self.direct_calls == old(self).direct_calls,
                self.flushed_branch_entries == old(self).flushed_branch_entries,
                self.discon_events == old(self).discon_events,
                self.device_accesses == old(self).device_accesses,
                self.edge_accumulators.items().len() == n,
                v <= n,
                forall|u: int| v <= u < n ==> #[trigger] self.edge_accumulators.items()[u] == items0[u],
                forall|u: int| 0 <= u < v ==> (#[trigger] self.edge_accumulators.items()[u]).counts() == no_edges(),
                lists.len() == v,
                forall|u: int| 0 <= u < v ==> lists_entries(#[trigger] lists[u], counts0[u]),
                all@ == flatten(lists),
            decreases n - v,
        {
            let ghost items_before = self.edge_accumulators.items();
            assert(accumulators_ok(items_before, self.config));
            assert(items_before[v as int].wf());
            match self.edge_accumulators.get_mut(v) {
                Some(acc) => {
                    let mut d = acc.drain();
                    let ghost dv = d@;
                    proof {
                        assert(counts0[v as int] == items0[v as int].counts());
                        let l0 = lists;
                        lists = l0.push(dv);
                        assert(lists.drop_last() =~= l0);
                        assert(flatten(lists) == flatten(l0) + dv);
                        assert forall|u: int| 0 <= u < v + 1 implies lists_entries(#[trigger] lists[u], counts0[u]) by {
                            if u < v {
                                assert(lists[u] == l0[u]);
                            }
                        }
                    }
                    all.append(&mut d);
                },
                None => {},
            }
            v = v + 1;
        }
        proof {
            assert(listed_from(all@, counts0));
        }
        all
    }

    /// The indirect call counts of every vCPU, listed in turn.
    fn list_indirect_calls(&self) -> (d: Vec<EdgeTriple>)
        ensures
            listed_from(d@, self.indirect_calls.items().map_values(|c: IndirectCalls| c.counts())),
    {
        let ghost counts0 = self.indirect_calls.items().map_values(|c: IndirectCalls| c.counts());
        let n = self.indirect_calls.len();
        let mut all: Vec<EdgeTriple> = Vec::new();
        let ghost mut lists: Seq<Seq<EdgeTriple>> = Seq::empty();
        let mut v: usize = 0;
        while v < n
            invariant
                n == self.indirect_calls.items().len(),
                counts0 == self.indirect_calls.items().map_values(|c: IndirectCalls| c.counts()),
                v <= n,
                lists.len() == v,
                forall|u: int| 0 <= u < v ==> lists_entries(#[trigger] lists[u], counts0[u]),
                all@ == flatten(lists),
            decreases n - v,
        {
            let mut d = self.indirect_calls.get(v).entries();
            let ghost dv = d@;
            proof {
                let l0 = lists;
                lists = l0.push(dv);
                assert(lists.drop_last() =~= l0);
                assert(flatten(lists) == flatten(l0) + dv);
                assert forall|u: int| 0 <= u < v + 1 implies lists_entries(#[trigger] lists[u], counts0[u]) by {
                    if u < v {
                        assert(lists[u] == l0[u]);
                    }
                }
            }
            all.append(&mut d);
            v = v + 1;
        }
        proof {
            assert(listed_from(all@, counts0));
        }
        all
    }
}

/// The bytes written at exit after the metadata: symbols, TB entries,
/// then by tier the edges, the calls and the resources (block
/// annotations, device accesses, discontinuities), then the footer.
pub open spec fn exit_bytes(
    names: Seq<Seq<char>>,
    entries: Seq<(u64, u64, u16, u64, u64)>,
    tier: u8,
    branch: Seq<EdgeTriple>,
    falls: Seq<EdgeTriple>,
    direct: Seq<EdgeTriple>,
    indirect: Seq<EdgeTriple>,
    res: Seq<(u64, u32)>,
    devices: Seq<(u64, Seq<char>)>,
    events: Seq<DisconRecord>,
    footer: Seq<u8>,
) -> Seq<u8> {
    symbol_records(names) + batch_records(
        RecordTag::TbExecBatch.spec_byte(),
        entries,
        MAX_TB_EXEC_PER_RECORD as nat,
        |e: (u64, u64, u16, u64, u64)| tb_entry_bytes(e),
    ) + (if tier >= 1 {
        triple_records(RecordTag::BranchEdgeBatch.spec_byte(), branch) + triple_records(
            RecordTag::FallThroughBatch.spec_byte(),
            falls,
        )
    } else {
        Seq::empty()
    }) + (if tier >= 2 {
        triple_records(RecordTag::DirectCallBatch.spec_byte(), direct) + triple_records(
            RecordTag::IndirectCallBatch.spec_byte(),
            indirect,
        )
    } else {
        Seq::empty()
    }) + (if tier >= 3 {
        resource_records(res) + device_records(devices) + discon_records(events)
    } else {
        Seq::empty()
    }) + footer
}

/// The indirect call counts of each vCPU.
pub open spec fn indirect_counts(calls: Seq<IndirectCalls>) -> Seq<Map<(u64, u64), u64>> {
    calls.map_values(|c: IndirectCalls| c.counts())
}

/// The branch edges `b` merge what the accumulators held, and the
/// fall-through edges `f` follow from them and the flushed entry counts.
pub open spec fn edge_stage_ok(
    b: Seq<EdgeTriple>,
    f: Seq<EdgeTriple>,
    accs: Seq<Map<(u64, u64), u64>>,
    flushed: Map<u64, u64>,
    tbs: Seq<TbMeta>,
    execs: Seq<u64>,
) -> bool {
    &&& exists|d: Seq<EdgeTriple>| listed_from(d, accs) && is_merge_of(as_edges(b), as_edges(d))
    &&& exists|x: Seq<(u64, u64)>|
        lists_targets(x, flushed) && f == fall_throughs_spec(tbs, execs, x, b, tbs.len() as int)
}

/// The direct calls `dc` weight each direct call pair once, and the
/// indirect calls `ic` merge what the vCPUs counted.
pub open spec fn call_stage_ok(
    dc: Seq<EdgeTriple>,
    ic: Seq<EdgeTriple>,
    pairs: Set<(u64, u64)>,
    indirect: Seq<Map<(u64, u64), u64>>,
    tbs: Seq<TbMeta>,
    execs: Seq<u64>,
) -> bool {
    &&& exists|calls: Seq<(u64, u64)>|
        calls.no_duplicates() && calls.to_set() == pairs && dc.len() == calls.len() && forall|i: int|
            0 <= i < calls.len() ==> (#[trigger] dc[i]).0 == calls[i].0 && dc[i].1 == calls[i].1
                && is_call_weight(tbs, execs, calls[i].0, dc[i].2)
    &&& exists|d: Seq<EdgeTriple>| listed_from(d, indirect) && is_merge_of(as_edges(ic), as_edges(d))
}

/// The TB entries fit: their run counts sum to a `u64`, and the
/// writer's totals stay within a `u64` once they are added.
pub open spec fn tb_stage_fits(tb_count: u64, exec_count: u64, tbs: Seq<TbMeta>, execs: Seq<u64>) -> bool {
    let total = sum_exec(tb_entries_spec(tbs, execs));
    &&& total <= u64::MAX
    &&& tb_count + tbs.len() <= u64::MAX
    &&& exec_count + total <= u64::MAX
}

/// The edge records fit: for every listing of the accumulators (and of
/// the flushed entry counts), the pair totals fit in a `u64`, so do the
/// entries into every address, and the writer's edge total stays within
/// a `u64` once the merged and the fall-through edges are added.
pub open spec fn edge_stage_fits(
    accs: Seq<Map<(u64, u64), u64>>,
    flushed: Map<u64, u64>,
    tbs: Seq<TbMeta>,
    execs: Seq<u64>,
    edge_count: u64,
) -> bool {
    &&& forall|d: Seq<EdgeTriple>| #[trigger] listed_from(d, accs) ==> edge_totals_fit(as_edges(d))
    &&& forall|d: Seq<EdgeTriple>, x: Seq<(u64, u64)>, m: Seq<EdgeTriple>|
        #![trigger listed_from(d, accs), lists_targets(x, flushed), is_merge_of(as_edges(m), as_edges(d))]
        listed_from(d, accs) && lists_targets(x, flushed) && is_merge_of(as_edges(m), as_edges(d))
            ==> entries_fit(x, m) && edge_count + m.len() + fall_throughs_spec(
            tbs,
            execs,
            x,
            m,
            tbs.len() as int,
        ).len() <= u64::MAX
}

/// The indirect call totals fit in a `u64`, for every listing of the
/// vCPUs' counts.
pub open spec fn call_stage_fits(indirect: Seq<Map<(u64, u64), u64>>) -> bool {
    forall|d: Seq<EdgeTriple>| #[trigger] listed_from(d, indirect) ==> edge_totals_fit(as_edges(d))
}

/// Every count and total written at exit fits in a `u64`.
pub open spec fn exit_fits(s: PluginState, execs: Seq<u64>) -> bool {
    let w0 = s.writer->0;
    let tbs = s.tbs.metas();
    &&& tb_stage_fits(w0.tb_count(), w0.exec_count(), tbs, execs)
    &&& s.config.tier >= 1 ==> edge_stage_fits(
        acc_counts(s.edge_accumulators.items()),
        s.flushed_branch_entries.counts(),
        tbs,
        execs,
        w0.edge_count(),
    )
    &&& s.config.tier >= 2 ==> call_stage_fits(indirect_counts(s.indirect_calls.items()))
}

/// What holds of one listing, merge and fall-through list holds of all.
proof fn lemma_edge_stage_fits(
    accs: Seq<Map<(u64, u64), u64>>,
    flushed: Map<u64, u64>,
    tbs: Seq<TbMeta>,
    execs: Seq<u64>,
    edge_count: u64,
    all: Seq<EdgeTriple>,
    extra: Seq<(u64, u64)>,
    merged: Seq<EdgeTriple>,
)
    requires
        listed_from(all, accs),
        lists_targets(extra, flushed),
        is_merge_of(as_edges(merged), as_edges(all)),
        edge_totals_fit(as_edges(all)),
        entries_fit(extra, merged),
        edge_count + merged.len() + fall_throughs_spec(tbs, execs, extra, merged, tbs.len() as int).len()
            <= u64::MAX,
    ensures
        edge_stage_fits(accs, flushed, tbs, execs, edge_count),
{
    broadcast use vstd::seq_lib::group_to_multiset_ensures;

    assert forall|d: Seq<EdgeTriple>| #[trigger] listed_from(d, accs) implies edge_totals_fit(as_edges(d)) by {
        lemma_listed_permute(d, all, accs);
        assert forall|f: u64, t: u64| #[trigger] edge_total(as_edges(d), f, t) <= u64::MAX by {
            lemma_edge_total_permutation(d, all, f, t);
        }
    }
    assert forall|d: Seq<EdgeTriple>, x: Seq<(u64, u64)>, m: Seq<EdgeTriple>|
        #![trigger listed_from(d, accs), lists_targets(x, flushed), is_merge_of(as_edges(m), as_edges(d))]
        listed_from(d, accs) && lists_targets(x, flushed) && is_merge_of(as_edges(m), as_edges(d))
            implies entries_fit(x, m) && edge_count + m.len() + fall_throughs_spec(
            tbs,
            execs,
            x,
            m,
            tbs.len() as int,
        ).len() <= u64::MAX by {
        lemma_listed_permute(d, all, accs);
        lemma_merges_permute(m, d, merged, all);
        lemma_target_listings_permute(x, extra, flushed);
        assert forall|a: u64| #[trigger] entries_into(x, m, a) == entries_into(extra, merged, a) by {
            lemma_extra_into_permutation(x, extra, a);
            lemma_edges_into_permutation(m, merged, a);
        }
        assert(m.len() == merged.len()) by {
            assert(m.to_multiset().len() == merged.to_multiset().len());
        }
        lemma_fall_throughs_same(tbs, execs, x, m, extra, merged, tbs.len() as int);
    }
}

/// What holds of one listing of the indirect counts holds of all.
proof fn lemma_call_stage_fits(indirect: Seq<Map<(u64, u64), u64>>, all: Seq<EdgeTriple>)
    requires
        listed_from(all, indirect),
        edge_totals_fit(as_edges(all)),
    ensures
        call_stage_fits(indirect),
{
    assert forall|d: Seq<EdgeTriple>| #[trigger] listed_from(d, indirect) implies edge_totals_fit(as_edges(d)) by {
        lemma_listed_permute(d, all, indirect);
        assert forall|f: u64, t: u64| #[trigger] edge_total(as_edges(d), f, t) <= u64::MAX by {
            lemma_edge_total_permutation(d, all, f, t);
        }
    }
}

/// Writes the TB execution entries; `false`, with nothing written,
/// where the writer's totals would overflow.
fn write_tb_stage(w: &mut ProfileWriter, tbs: &Vec<TbMeta>, execs: &Vec<u64>) -> (ok: bool)
    requires
        execs@.len() == tbs@.len(),
    ensures
        ok <==> tb_stage_fits(old(w).tb_count(), old(w).exec_count(), tbs@, execs@),
        ok ==> final(w).pending() == old(w).pending() + batch_records(
            RecordTag::TbExecBatch.spec_byte(),
            tb_entries_spec(tbs@, execs@),
            MAX_TB_EXEC_PER_RECORD as nat,
            |e: (u64, u64, u16, u64, u64)| tb_entry_bytes(e),
        ) && final(w).tb_count() == old(w).tb_count() + tbs@.len() && final(w).edge_count()
            == old(w).edge_count() && final(w).exec_count() == old(w).exec_count() + sum_exec(
            tb_entries_spec(tbs@, execs@),
        ),
{
    let entries = tb_exec_entries(tbs, execs);
    assert(entries@ =~= tb_entries_spec(tbs@, execs@));
    let total = match total_execs(&entries) {
        Some(t) => t,
        None => return false,
    };
    if w.tbs_written() > u64::MAX - entries.len() as u64 || w.execs_written() > u64::MAX - total {
        return false;
    }
    w.write_tb_exec_batch(entries.as_slice());
    true
}

impl PluginState {
    /// Writes the merged branch edges and the fall-through edges, taking
    /// the edges out of the accumulators; `None` where a sum or the
    /// writer's edge total would overflow.
    fn edge_stage(&mut self, w: &mut ProfileWriter, execs: &Vec<u64>) -> (r: Option<(Vec<EdgeTriple>, Vec<EdgeTriple>)>)
        requires
            old(self).wf(),
            execs@.len() == old(self).tbs.metas().len(),
        ensures
            r is None <==> !edge_stage_fits(
                acc_counts(old(self).edge_accumulators.items()),
                old(self).flushed_branch_entries.counts(),
                old(self).tbs.metas(),
                execs@,
                old(w).edge_count(),
            ),
            final(self).wf(),
            final(self).config == old(self).config,
            final(self).tbs == old(self).tbs,
            final(self).symbols == old(self).symbols,
            final(self).writer == old(self).writer,
            final(self).indirect_calls == old(self).indirect_calls,
            final(self).direct_calls == old(self).direct_calls,
            final(self).discon_events == old(self).discon_events,
            final(self).device_accesses == old(self).device_accesses,
            r matches Some(x) ==> final(w).pending() == old(w).pending() + triple_records(
                RecordTag::BranchEdgeBatch.spec_byte(),
                x.0@,
            ) + triple_records(RecordTag::FallThroughBatch.spec_byte(), x.1@) && final(w).tb_count()
                == old(w).tb_count() && final(w).edge_count() == old(w).edge_count() + x.0@.len()
                + x.1@.len() && final(w).exec_count() == old(w).exec_count() && edge_stage_ok(
                x.0@,
                x.1@,
                acc_counts(old(self).edge_accumulators.items()),
                old(self).flushed_branch_entries.counts(),
                old(self).tbs.metas(),
                execs@,
            ) && forall|v: int|
                0 <= v < final(self).edge_accumulators.items().len() ==> (#[trigger] final(self).edge_accumulators.items()[v]).counts()
                    == no_edges(),
    {
        let ghost accs = acc_counts(self.edge_accumulators.items());
        let ghost flushed = self.flushed_branch_entries.counts();
        let ghost tbs = self.tbs.metas();
        let ghost e0 = w.edge_count();
        let all = self.drain_edges();
        let extra = self.flushed_branch_entries.entries();
        let merged = match merge_triples(&all) {
            Some(m) => m,
            None => {
                assert(!edge_stage_fits(accs, flushed, tbs, execs@, e0)) by {
                    assert(listed_from(all@, accs));
                }
                return None;
            },
        };
        if w.edges_written() > u64::MAX - merged.len() as u64 {
            assert(!edge_stage_fits(accs, flushed, tbs, execs@, e0)) by {
                assert(listed_from(all@, accs) && lists_targets(extra@, flushed) && is_merge_of(
                    as_edges(merged@),
                    as_edges(all@),
                ));
            }
            return None;
        }
        w.write_branch_edge_batch(merged.as_slice());
        let fts = match compute_fall_throughs(self.tbs.all(), execs, &merged, &extra) {
            Some(f) => f,
            None => {
                assert(!edge_stage_fits(accs, flushed, tbs, execs@, e0)) by {
                    assert(listed_from(all@, accs) && lists_targets(extra@, flushed) && is_merge_of(
                        as_edges(merged@),
                        as_edges(all@),
                    ));
                }
                return None;
            },
        };
        if w.edges_written() > u64::MAX - fts.len() as u64 {
            assert(!edge_stage_fits(accs, flushed, tbs, execs@, e0)) by {
                assert(listed_from(all@, accs) && lists_targets(extra@, flushed) && is_merge_of(
                    as_edges(merged@),
                    as_edges(all@),
                ));
            }
            return None;
        }
        w.write_fall_through_batch(fts.as_slice());
        proof {
            lemma_edge_stage_fits(accs, flushed, tbs, execs@, e0, all@, extra@, merged@);
        }
        Some((merged, fts))
    }

    fn call_stage(&self, w: &mut ProfileWriter, execs: &Vec<u64>) -> (r: Option<(Vec<EdgeTriple>, Vec<EdgeTriple>)>)
        requires
            self.wf(),
            execs@.len() == self.tbs.metas().len(),
        ensures
            r is None <==> !call_stage_fits(indirect_counts(self.indirect_calls.items())),
            r matches Some(x) ==> final(w).pending() == old(w).pending() + triple_records(
                RecordTag::DirectCallBatch.spec_byte(),
                x.0@,
            ) + triple_records(RecordTag::IndirectCallBatch.spec_byte(), x.1@) && final(w).tb_count()
                == old(w).tb_count() && final(w).edge_count() == old(w).edge_count()
                && final(w).exec_count() == old(w).exec_count() && call_stage_ok(
                x.0@,
                x.1@,
                self.direct_calls.pairs(),
                indirect_counts(self.indirect_calls.items()),
                self.tbs.metas(),
                execs@,
            ),
    {
        let calls = self.direct_calls.list();
        let direct = direct_call_counts(self.tbs.all(), execs, &calls);
        let all = self.list_indirect_calls();
        let ghost counts = indirect_counts(self.indirect_calls.items());
        assert(listed_from(all@, counts));
        let indirect = match merge_triples(&all) {
            Some(m) => m,
            None => return None,
        };
        proof {
            lemma_call_stage_fits(counts, all@);
        }
        w.write_direct_call_batch(direct.as_slice());
        w.write_indirect_call_batch(indirect.as_slice());
        Some((direct, indirect))
    }

    /// Writes the block resource annotations, the device accesses and
    /// the discontinuities.
    fn resource_stage(&self, w: &mut ProfileWriter)
        ensures
            final(w).pending() == old(w).pending() + resource_records(resources_spec(self.tbs.metas()))
                + device_records(pairs_of(self.device_accesses.entries())) + discon_records(
                self.discon_events.events(),
            ),
            final(w).tb_count() == old(w).tb_count(),
            final(w).edge_count() == old(w).edge_count(),
            final(w).exec_count() == old(w).exec_count(),
    {
        let ghost p0 = w.pending();
        let res = crate::exit::tb_resources(self.tbs.all());
        write_resources(w, &res);
        let ghost p1 = w.pending();
        let devices = self.device_accesses.list();
        write_devices(w, &devices);
        let ghost p2 = w.pending();
        let events = self.discon_events.list();
        write_discontinuities(w, &events);
        assert(w.pending() =~= p0 + resource_records(resources_spec(self.tbs.metas()))
            + device_records(pairs_of(self.device_accesses.entries())) + discon_records(
            self.discon_events.events(),
        ));
    }

    /// Writes everything collected, as the plugin does when the guest
    /// exits: the symbol table, one execution entry per TB (`execs[i]`
    /// being the runs of TB `i`); from tier 1 the branch edges merged
    /// over the vCPUs (which are emptied) and the fall-through edges;
    /// from tier 2 the direct calls weighted by the runs of their TB and
    /// the indirect calls merged over the vCPUs; at tier 3 the TB
    /// resource annotations, each device access of each block and each
    /// discontinuity with its count; then the footer with the writer's
    /// totals and `wall_time_ns`. Nothing is written without a writer;
    /// `CountOverflow` exactly where some count or total written would
    /// not fit in a `u64`.
    #[verifier::rlimit(100)]
    #[verifier::spinoff_prover]
    pub fn finish(&mut self, execs: &Vec<u64>, wall_time_ns: u64) -> (r: Result<Option<ExitReport>, ExitError>)
        requires
            old(self).wf(),
            execs@.len() == old(self).tbs.metas().len(),
        ensures
            final(self).config == old(self).config,
            final(self).tbs == old(self).tbs,
            final(self).symbols == old(self).symbols,
            old(self).writer is None <==> r matches Ok(None),
            r is Err <==> old(self).writer is Some && !exit_fits(*old(self), execs@),
            r matches Ok(None) ==> final(self).writer is None,
            r matches Ok(Some(rep)) ==> ({
                let w0 = old(self).writer->0;
                let tbs = old(self).tbs.metas();
                let tier = old(self).config.tier;
                let edges_out: int = if tier >= 1 {
                    (rep.branch_edges@.len() + rep.fall_throughs@.len()) as int
                } else {
                    0
                };
                &&& final(self).writer matches Some(w) && w.pending() == w0.pending() + exit_bytes(
                    old(self).symbols.names(),
                    tb_entries_spec(tbs, execs@),
                    tier,
                    rep.branch_edges@,
                    rep.fall_throughs@,
                    rep.direct_calls@,
                    rep.indirect_calls@,
                    resources_spec(tbs),
                    pairs_of(old(self).device_accesses.entries()),
                    old(self).discon_events.events(),
                    tlv(
                        RecordTag::Footer.spec_byte(),
                        footer_payload(
                            (w0.tb_count() + tbs.len()) as u64,
                            (w0.edge_count() + edges_out) as u64,
                            (w0.exec_count() + sum_exec(tb_entries_spec(tbs, execs@))) as u64,
                            wall_time_ns,
                        ),
                    ),
                )
                &&& rep.tb_count == tbs.len()
                &&& tier >= 1 ==> edge_stage_ok(
                    rep.branch_edges@,
                    rep.fall_throughs@,
                    acc_counts(old(self).edge_accumulators.items()),
                    old(self).flushed_branch_entries.counts(),
                    tbs,
                    execs@,
                )
                &&& tier >= 1 ==> forall|v: int|
                    0 <= v < final(self).edge_accumulators.items().len() ==> (#[trigger] final(self).edge_accumulators.items()[v]).counts()
                        == no_edges()
                &&& tier >= 2 ==> call_stage_ok(
                    rep.direct_calls@,
                    rep.indirect_calls@,
                    old(self).direct_calls.pairs(),
                    indirect_counts(old(self).indirect_calls.items()),
                    tbs,
                    execs@,
                )
            }),
    {
        let mut w = match self.writer.take() {
            Some(w) => w,
            None => return Ok(None),
        };
        let ghost w0 = w;
        let ghost s0 = *self;
        let tier = self.config.tier;
        write_symbols(&mut w, &self.symbols);
        let ghost p1 = w.pending();
        if !write_tb_stage(&mut w, self.tbs.all(), execs) {
            return Err(ExitError::CountOverflow);
        }
        let ghost p2 = w.pending();
        let mut branch_edges: Vec<EdgeTriple> = Vec::new();
        let mut fall_throughs: Vec<EdgeTriple> = Vec::new();
        if tier >= 1 {
            match self.edge_stage(&mut w, execs) {
                Some((b, f)) => {
                    branch_edges = b;
                    fall_throughs = f;
                },
                None => return Err(ExitError::CountOverflow),
            }
        }
        let ghost p3 = w.pending();
        let mut direct: Vec<EdgeTriple> = Vec::new();
        let mut indirect: Vec<EdgeTriple> = Vec::new();
        if tier >= 2 {
            match self.call_stage(&mut w, execs) {
                Some((d, i)) => {
                    direct = d;
                    indirect = i;
                },
                None => return Err(ExitError::CountOverflow),
            }
        }
        let ghost p4 = w.pending();
        if tier >= 3 {
            self.resource_stage(&mut w);
        }
        let ghost p5 = w.pending();
        w.write_footer(wall_time_ns);
        let tb_count = self.tbs.len();
        let rep = ExitReport {
            tb_count,
            branch_edges,
            fall_throughs,
            direct_calls: direct,
            indirect_calls: indirect,
        };
        proof {
            let names = s0.symbols.names();
            let entries = tb_entries_spec(s0.tbs.metas(), execs@);
            let mid = if tier >= 1 {
                triple_records(RecordTag::BranchEdgeBatch.spec_byte(), rep.branch_edges@) + triple_records(
                    RecordTag::FallThroughBatch.spec_byte(),
                    rep.fall_throughs@,
                )
            } else {
                Seq::empty()
            };
            assert(p3 =~= p2 + mid);
            let calls = if tier >= 2 {
                triple_records(RecordTag::DirectCallBatch.spec_byte(), rep.direct_calls@) + triple_records(
                    RecordTag::IndirectCallBatch.spec_byte(),
                    rep.indirect_calls@,
                )
            } else {
                Seq::empty()
            };
            assert(p4 =~= p3 + calls);
            let res = if tier >= 3 {
                resource_records(resources_spec(s0.tbs.metas())) + device_records(
                    pairs_of(s0.device_accesses.entries()),
                ) + discon_records(s0.discon_events.events())
            } else {
                Seq::empty()
            };
            assert(p5 =~= p4 + res);
        }
        self.writer = Some(w);
        Ok(Some(rep))
    }
}

} // verus!
