//! Encoder for the native profile format: the 64-byte file header and
//! the append-only log of TLV (tag, 24-bit length, value) records.
//! The writer accumulates the encoded bytes; the caller hands them to
//! the output file.

use vstd::prelude::*;
use vstd::utf8::encode_utf8;
use crate::bytes::{le16, le24, le32, le64, push_bytes, push_u16_le, push_u24_le, push_u32_le, push_u64_le};

verus! {

/// Magic number: "QEMU_PGO" in ASCII.
pub const FILE_MAGIC: u64 = 0x4F47505F554D4551;

/// Current format version.
pub const FORMAT_VERSION: u16 = 1;

/// Header flag: system emulation.
pub const FLAG_SYSEMU: u32 = 0x1;

/// Header flag: streaming edge flushes.
pub const FLAG_STREAMING: u32 = 0x2;

/// Maximum payload length of a single TLV record (24-bit field).
pub const MAX_TLV_PAYLOAD: u32 = 0xFF_FFFF;

/// Maximum entries per TB exec batch record (40 bytes each, after the
/// 4-byte count).
pub const MAX_TB_EXEC_PER_RECORD: usize = 419430;

/// Maximum entries per edge or call batch record (24 bytes each, after
/// the 4-byte count).
pub const MAX_EDGES_PER_RECORD: usize = 699050;

/// Record tag values. Tag ranges: 0x00-0x0F metadata, 0x10-0x1F
/// hotness, 0x20-0x2F edges, 0x30-0x3F calls, 0x40-0x4F resources,
/// 0xF0-0xFF control.
#[derive(Copy, Clone, Debug, PartialEq, Eq, Structural)]
pub enum RecordTag {
    StringMeta,
    SymbolEntry,
    TbExecBatch,
    FirstSeenOrder,
    BranchEdgeBatch,
    FallThroughBatch,
    FlushMarker,
    DirectCallBatch,
    IndirectCallBatch,
    TbResource,
    DeviceAccess,
    Discontinuity,
    Footer,
}

impl RecordTag {
    /// The byte that encodes the tag.
    pub open spec fn spec_byte(self) -> u8 {
        match self {
            RecordTag::StringMeta => 0x01,
            RecordTag::SymbolEntry => 0x02,
            RecordTag::TbExecBatch => 0x13,
            RecordTag::FirstSeenOrder => 0x14,
            RecordTag::BranchEdgeBatch => 0x21,
            RecordTag::FallThroughBatch => 0x23,
            RecordTag::FlushMarker => 0x2F,
            RecordTag::DirectCallBatch => 0x32,
            RecordTag::IndirectCallBatch => 0x33,
            RecordTag::TbResource => 0x40,
            RecordTag::DeviceAccess => 0x41,
            RecordTag::Discontinuity => 0x42,
            RecordTag::Footer => 0xFF,
        }
    }

    /// The byte that encodes the tag.
    pub fn to_byte(self) -> (b: u8)
        ensures
            b == self.spec_byte(),
    {
        match self {
            RecordTag::StringMeta => 0x01,
            RecordTag::SymbolEntry => 0x02,
            RecordTag::TbExecBatch => 0x13,
            RecordTag::FirstSeenOrder => 0x14,
            RecordTag::BranchEdgeBatch => 0x21,
            RecordTag::FallThroughBatch => 0x23,
            RecordTag::FlushMarker => 0x2F,
            RecordTag::DirectCallBatch => 0x32,
            RecordTag::IndirectCallBatch => 0x33,
            RecordTag::TbResource => 0x40,
            RecordTag::DeviceAccess => 0x41,
            RecordTag::Discontinuity => 0x42,
            RecordTag::Footer => 0xFF,
        }
    }
}

/// Fixed 64-byte file header.
pub struct FileHeader {
    pub magic: u64,
    pub format_version: u16,
    pub tier: u8,
    pub pointer_size: u8,
    pub flags: u32,
    pub load_addr: u64,
    pub text_start: u64,
    pub text_end: u64,
    pub entry_addr: u64,
    pub build_id: [u8; 16],
}

/// The 64 bytes of a header, fields in order, little-endian.
pub open spec fn header_bytes(h: FileHeader) -> Seq<u8> {
    le64(h.magic) + le16(h.format_version as u64) + seq![h.tier, h.pointer_size] + le32(
        h.flags as u64,
    ) + le64(h.load_addr) + le64(h.text_start) + le64(h.text_end) + le64(h.entry_addr)
        + h.build_id@
}

impl FileHeader {
    /// The encoded header.
    pub fn to_bytes(&self) -> (b: Vec<u8>)
        ensures
            b@ == header_bytes(*self),
    {
        let mut b: Vec<u8> = Vec::new();
        push_u64_le(&mut b, self.magic);
        push_u16_le(&mut b, self.format_version);
        b.push(self.tier);
        b.push(self.pointer_size);
        push_u32_le(&mut b, self.flags);
        push_u64_le(&mut b, self.load_addr);
        push_u64_le(&mut b, self.text_start);
        push_u64_le(&mut b, self.text_end);
        push_u64_le(&mut b, self.entry_addr);
        push_bytes(&mut b, self.build_id.as_slice());
        assert(b@ =~= header_bytes(*self));
        b
    }
}

/// A TLV record: tag byte, 24-bit little-endian payload length, payload.
pub open spec fn tlv(tag: u8, payload: Seq<u8>) -> Seq<u8> {
    seq![tag] + le24(payload.len() as u64) + payload
}

/// The encodings of the items of `s`, one after another.
pub open spec fn concat_map<T>(s: Seq<T>, f: spec_fn(T) -> Seq<u8>) -> Seq<u8>
    decreases s.len(),
{
    if s.len() == 0 {
        Seq::empty()
    } else {
        concat_map(s.drop_last(), f) + f(s.last())
    }
}

pub proof fn lemma_concat_map_push<T>(s: Seq<T>, f: spec_fn(T) -> Seq<u8>, x: T)
    ensures
        concat_map(s.push(x), f) == concat_map(s, f) + f(x),
{
    assert(s.push(x).drop_last() =~= s);
}

proof fn lemma_concat_map_len<T>(s: Seq<T>, f: spec_fn(T) -> Seq<u8>, w: nat)
    requires
        forall|x: T| #[trigger] f(x).len() == w,
    ensures
        concat_map(s, f).len() == w * s.len(),
    decreases s.len(),
{
    if s.len() > 0 {
        lemma_concat_map_len(s.drop_last(), f, w);
        assert(w * (s.len() - 1) + w == w * s.len()) by (nonlinear_arith);
    }
}

/// A batch payload: 32-bit item count, then the items.
pub open spec fn batch_payload<T>(s: Seq<T>, f: spec_fn(T) -> Seq<u8>) -> Seq<u8> {
    le32(s.len() as u64) + concat_map(s, f)
}

/// Batch records for `s`, split into records of at most `max` items.
pub open spec fn batch_records<T>(tag: u8, s: Seq<T>, max: nat, f: spec_fn(T) -> Seq<u8>) -> Seq<
    u8,
>
    decreases s.len(),
{
    if s.len() == 0 || max == 0 {
        Seq::empty()
    } else if s.len() <= max {
        tlv(tag, batch_payload(s, f))
    } else {
        tlv(tag, batch_payload(s.take(max as int), f)) + batch_records(tag, s.skip(max as int), max, f)
    }
}

/// An edge or call entry: three little-endian `u64`s.
pub open spec fn triple_bytes(t: (u64, u64, u64)) -> Seq<u8> {
    le64(t.0) + le64(t.1) + le64(t.2)
}

/// A TB exec entry: start(8) end(8) n_insns(2) pad(6) exec(8) first_seen(8).
pub open spec fn tb_entry_bytes(e: (u64, u64, u16, u64, u64)) -> Seq<u8> {
    le64(e.0) + le64(e.1) + le16(e.2 as u64) + Seq::new(6, |i: int| 0u8) + le64(e.3) + le64(e.4)
}

/// Sum of the execution counts of TB exec entries.
pub open spec fn sum_exec(s: Seq<(u64, u64, u16, u64, u64)>) -> int
    decreases s.len(),
{
    if s.len() == 0 {
        0
    } else {
        sum_exec(s.drop_last()) + s.last().3
    }
}

pub proof fn lemma_sum_exec_prefix(s: Seq<(u64, u64, u16, u64, u64)>, i: int)
    requires
        0 <= i <= s.len(),
    ensures
        sum_exec(s.take(i)) <= sum_exec(s),
        0 <= sum_exec(s.take(i)),
    decreases s.len() - i,
{
    if i == s.len() {
        assert(s.take(i) =~= s);
        lemma_sum_exec_nonneg(s);
    } else {
        lemma_sum_exec_prefix(s, i + 1);
        assert(s.take(i + 1).drop_last() =~= s.take(i));
        lemma_sum_exec_nonneg(s.take(i));
    }
}

pub proof fn lemma_sum_exec_nonneg(s: Seq<(u64, u64, u16, u64, u64)>)
    ensures
        0 <= sum_exec(s),
    decreases s.len(),
{
    if s.len() > 0 {
        lemma_sum_exec_nonneg(s.drop_last());
    }
}

/// The first `n` bytes of `b` (all of `b` when it is shorter).
pub open spec fn clip(b: Seq<u8>, n: int) -> Seq<u8> {
    if b.len() <= n {
        b
    } else {
        b.take(n)
    }
}

/// A string metadata payload: key length (at most 255), key, value
/// length (at most 65535), value; longer strings are cut.
pub open spec fn meta_payload(key: Seq<u8>, value: Seq<u8>) -> Seq<u8> {
    let k = clip(key, 255);
    let v = clip(value, 65535);
    seq![k.len() as u8] + k + le16(v.len() as u64) + v
}

/// A symbol payload: id, address, name length (at most 65535), name.
pub open spec fn symbol_payload(sym_id: u16, addr: u64, name: Seq<u8>) -> Seq<u8> {
    let n = clip(name, 65535);
    le16(sym_id as u64) + le64(addr) + le16(n.len() as u64) + n
}

/// A device access payload: TB address, name length (at most 255), name.
pub open spec fn device_payload(tb_addr: u64, name: Seq<u8>) -> Seq<u8> {
    let n = clip(name, 255);
    le64(tb_addr) + seq![n.len() as u8] + n
}

/// A flush marker payload: elapsed time, vCPU index, edge count.
pub open spec fn flush_payload(elapsed_ns: u64, vcpu_index: u32, num_edges: u32) -> Seq<u8> {
    le64(elapsed_ns) + le32(vcpu_index as u64) + le32(num_edges as u64)
}

/// A TB resource payload.
pub open spec fn resource_payload(tb_addr: u64, coproc_flags: u32, vcpu_mask: u64) -> Seq<u8> {
    le64(tb_addr) + le32(coproc_flags as u64) + le64(vcpu_mask)
}

/// A discontinuity payload.
pub open spec fn discon_payload(discon_type: u32, from_pc: u64, to_pc: u64, count: u64) -> Seq<u8> {
    le32(discon_type as u64) + le64(from_pc) + le64(to_pc) + le64(count)
}

/// A footer payload: the three totals, wall time, flags (clean exit)
/// and four reserved bytes.
pub open spec fn footer_payload(tbs: u64, edges: u64, execs: u64, wall_time_ns: u64) -> Seq<u8> {
    le64(tbs) + le64(edges) + le64(execs) + le64(wall_time_ns) + le32(1) + Seq::new(
        4,
        |i: int| 0u8,
    )
}


/// Header flags for the emulation mode and the edge storage mode.
pub open spec fn header_flags(sysemu: bool, streaming: bool) -> u32 {
    (if sysemu {
        FLAG_SYSEMU
    } else {
        0
    }) | (if streaming {
        FLAG_STREAMING
    } else {
        0
    })
}

/// The header that a writer puts at the start of the file.
pub open spec fn writer_header(
    tier: u8,
    sysemu: bool,
    streaming: bool,
    load_addr: u64,
    text_start: u64,
    text_end: u64,
    entry_addr: u64,
) -> Seq<u8> {
    le64(FILE_MAGIC) + le16(FORMAT_VERSION as u64) + seq![tier, 8u8] + le32(
        header_flags(sysemu, streaming) as u64,
    ) + le64(load_addr) + le64(text_start) + le64(text_end) + le64(entry_addr) + Seq::new(
        16,
        |i: int| 0u8,
    )
}

/// Error of the record framing: a payload longer than 24 bits allow.
#[derive(Debug, Clone, Copy, PartialEq, Eq, Structural)]
pub enum WriteError {
    PayloadTooLarge(u32),
}

/// Writer for the native profile format. Encoded bytes accumulate in
/// a buffer until the caller takes them; running totals for the footer
/// are kept alongside.
pub struct ProfileWriter {
    pending: Vec<u8>,
    total_tb_count: u64,
    total_edge_records: u64,
    total_exec_count: u64,
}

impl ProfileWriter {
    /// Bytes encoded and not yet taken.
    pub closed spec fn pending(&self) -> Seq<u8> {
        self.pending@
    }

    /// TB exec entries written so far.
    pub closed spec fn tb_count(&self) -> u64 {
        self.total_tb_count
    }

    /// Branch and fall-through edges written so far.
    pub closed spec fn edge_count(&self) -> u64 {
        self.total_edge_records
    }

    /// Sum of the execution counts written so far.
    pub closed spec fn exec_count(&self) -> u64 {
        self.total_exec_count
    }

    /// TB exec entries written so far.
    pub fn tbs_written(&self) -> (n: u64)
        ensures
            n == self.tb_count(),
    {
        self.total_tb_count
    }

    /// Branch and fall-through edges written so far.
    pub fn edges_written(&self) -> (n: u64)
        ensures
            n == self.edge_count(),
    {
        self.total_edge_records
    }

    /// Sum of the execution counts written so far.
    pub fn execs_written(&self) -> (n: u64)
        ensures
            n == self.exec_count(),
    {
        self.total_exec_count
    }

    /// Creates a writer whose first bytes are the file header:
    /// magic, version 1, the tier, 8-byte pointers, the flags and the
    /// addresses, and an all-zero build id.
    pub fn new(
        tier: u8,
        sysemu: bool,
        streaming: bool,
        load_addr: u64,
        text_start: u64,
        text_end: u64,
        entry_addr: u64,
    ) -> (w: Self)
        ensures
            w.pending() == writer_header(
                tier,
                sysemu,
                streaming,
                load_addr,
                text_start,
                text_end,
                entry_addr,
            ),
            w.tb_count() == 0,
            w.edge_count() == 0,
            w.exec_count() == 0,
    {
        let sysemu_flag: u32 = if sysemu {
            FLAG_SYSEMU
        } else {
            0
        };
        let streaming_flag: u32 = if streaming {
            FLAG_STREAMING
        } else {
            0
        };
        let flags = sysemu_flag | streaming_flag;
        let header = FileHeader {
            magic: FILE_MAGIC,
            format_version: FORMAT_VERSION,
            tier,
            pointer_size: 8,
            flags,
            load_addr,
            text_start,
            text_end,
            entry_addr,
            build_id: [0u8; 16],
        };
        let pending = header.to_bytes();
        assert(header.build_id@ =~= Seq::new(16, |i: int| 0u8));
        assert(pending@ =~= writer_header(
            tier,
            sysemu,
            streaming,
            load_addr,
            text_start,
            text_end,
            entry_addr,
        ));
        ProfileWriter { pending, total_tb_count: 0, total_edge_records: 0, total_exec_count: 0 }
    }

    /// Hands over the encoded bytes, leaving the buffer empty.
    pub fn take_bytes(&mut self) -> (b: Vec<u8>)
        ensures
            b@ == old(self).pending(),
            final(self).pending() == Seq::<u8>::empty(),
            final(self).tb_count() == old(self).tb_count(),
            final(self).edge_count() == old(self).edge_count(),
            final(self).exec_count() == old(self).exec_count(),
    {
        let mut b: Vec<u8> = Vec::new();
        std::mem::swap(&mut b, &mut self.pending);
        b
    }

    /// Writes a TLV record header: tag byte and 24-bit length.
    fn write_tlv_header(&mut self, tag: RecordTag, payload_len: u32) -> (r: Result<(), WriteError>)
        ensures
            r is Ok <==> payload_len <= MAX_TLV_PAYLOAD,
            r is Ok ==> final(self).pending() == old(self).pending() + seq![tag.spec_byte()] + le24(
                payload_len as u64,
            ),
            r is Err ==> final(self).pending() == old(self).pending(),
            final(self).tb_count() == old(self).tb_count(),
            final(self).edge_count() == old(self).edge_count(),
            final(self).exec_count() == old(self).exec_count(),
    {
        if payload_len > MAX_TLV_PAYLOAD {
            return Err(WriteError::PayloadTooLarge(payload_len));
        }
        self.pending.push(tag.to_byte());
        push_u24_le(&mut self.pending, payload_len);
        Ok(())
    }

    /// Writes a record header whose length is known to fit.
    fn start_record(&mut self, tag: RecordTag, payload_len: u32)
        requires
            payload_len <= MAX_TLV_PAYLOAD,
        ensures
            final(self).pending() == old(self).pending() + seq![tag.spec_byte()] + le24(
                payload_len as u64,
            ),
            final(self).tb_count() == old(self).tb_count(),
            final(self).edge_count() == old(self).edge_count(),
            final(self).exec_count() == old(self).exec_count(),
    {
        match self.write_tlv_header(tag, payload_len) {
            Ok(()) => {},
            Err(_) => {},
        }
    }

    /// Writes a string metadata record (key-value pair). Keys longer
    /// than 255 bytes and values longer than 65535 bytes are cut.
    pub fn write_string_meta(&mut self, key: &str, value: &str)
        ensures
            final(self).pending() == old(self).pending() + tlv(
                RecordTag::StringMeta.spec_byte(),
                meta_payload(encode_utf8(key@), encode_utf8(value@)),
            ),
            final(self).tb_count() == old(self).tb_count(),
            final(self).edge_count() == old(self).edge_count(),
            final(self).exec_count() == old(self).exec_count(),
    {
        let key_bytes = key.as_bytes();
        let val_bytes = value.as_bytes();
        let key_len: usize = if key_bytes.len() < 255 {
            key_bytes.len()
        } else {
            255
        };
        let val_len: usize = if val_bytes.len() < 65535 {
            val_bytes.len()
        } else {
            65535
        };
        let payload_len: u32 = 1 + key_len as u32 + 2 + val_len as u32;
        let ghost p0 = self.pending@;
        self.start_record(RecordTag::StringMeta, payload_len);
        self.pending.push(key_len as u8);
        push_bytes(&mut self.pending, &key_bytes[0..key_len]);
        push_u16_le(&mut self.pending, val_len as u16);
        push_bytes(&mut self.pending, &val_bytes[0..val_len]);
        let ghost k = clip(key_bytes@, 255);
        let ghost v = clip(val_bytes@, 65535);
        assert(key_bytes@.subrange(0, key_len as int) =~= k);
        assert(val_bytes@.subrange(0, val_len as int) =~= v);
        assert(self.pending@ =~= p0 + tlv(
            RecordTag::StringMeta.spec_byte(),
            meta_payload(key_bytes@, val_bytes@),
        ));
    }

    /// Writes a symbol entry record. Names longer than 65535 bytes are
    /// cut.
    pub fn write_symbol_entry(&mut self, sym_id: u16, addr: u64, name: &str)
        ensures
            final(self).pending() == old(self).pending() + tlv(
                RecordTag::SymbolEntry.spec_byte(),
                symbol_payload(sym_id, addr, encode_utf8(name@)),
            ),
            final(self).tb_count() == old(self).tb_count(),
            final(self).edge_count() == old(self).edge_count(),
            final(self).exec_count() == old(self).exec_count(),
    {
        let name_bytes = name.as_bytes();
        let name_len: usize = if name_bytes.len() < 65535 {
            name_bytes.len()
        } else {
            65535
        };
        let payload_len: u32 = 2 + 8 + 2 + name_len as u32;
        let ghost p0 = self.pending@;
        self.start_record(RecordTag::SymbolEntry, payload_len);
        push_u16_le(&mut self.pending, sym_id);
        push_u64_le(&mut self.pending, addr);
        push_u16_le(&mut self.pending, name_len as u16);
        push_bytes(&mut self.pending, &name_bytes[0..name_len]);
        assert(name_bytes@.subrange(0, name_len as int) =~= clip(name_bytes@, 65535));
        assert(self.pending@ =~= p0 + tlv(
            RecordTag::SymbolEntry.spec_byte(),
            symbol_payload(sym_id, addr, name_bytes@),
        ));
    }

    /// Writes a batch of TB execution counts, split into records of at
    /// most `MAX_TB_EXEC_PER_RECORD` entries to stay within the 24-bit
    /// length limit.
    pub fn write_tb_exec_batch(&mut self, entries: &[(u64, u64, u16, u64, u64)])
        requires
            old(self).tb_count() + entries@.len() <= u64::MAX,
            old(self).exec_count() + sum_exec(entries@) <= u64::MAX,
        ensures
            final(self).pending() == old(self).pending() + batch_records(
                RecordTag::TbExecBatch.spec_byte(),
                entries@,
                MAX_TB_EXEC_PER_RECORD as nat,
                |e: (u64, u64, u16, u64, u64)| tb_entry_bytes(e),
            ),
            final(self).tb_count() == old(self).tb_count() + entries@.len(),
            final(self).edge_count() == old(self).edge_count(),
            final(self).exec_count() == old(self).exec_count() + sum_exec(entries@),
    {
        let ghost f = |e: (u64, u64, u16, u64, u64)| tb_entry_bytes(e);
        let ghost tag = RecordTag::TbExecBatch.spec_byte();
        let ghost max = MAX_TB_EXEC_PER_RECORD as nat;
        let n = entries.len();
        let mut start: usize = 0;
        proof {
            assert(entries@.skip(0) =~= entries@);
            lemma_sum_exec_prefix(entries@, 0);
            assert(entries@.take(0) =~= Seq::<(u64, u64, u16, u64, u64)>::empty());
        }
        while start < n
            invariant
                n == entries@.len(),
                start <= n,
                old(self).pending() + batch_records(tag, entries@, max, f) == self.pending@
                    + batch_records(tag, entries@.skip(start as int), max, f),
                self.total_tb_count == old(self).tb_count() + start,
                self.total_exec_count == old(self).exec_count() + sum_exec(
                    entries@.take(start as int),
                ),
                self.total_edge_records == old(self).edge_count(),
                old(self).tb_count() + n <= u64::MAX,
                old(self).exec_count() + sum_exec(entries@) <= u64::MAX,
                f == (|e: (u64, u64, u16, u64, u64)| tb_entry_bytes(e)),
                max == MAX_TB_EXEC_PER_RECORD as nat,
                tag == RecordTag::TbExecBatch.spec_byte(),
            decreases n - start,
        {
            let end: usize = if n - start > MAX_TB_EXEC_PER_RECORD {
                start + MAX_TB_EXEC_PER_RECORD
            } else {
                n
            };
            let count: u32 = (end - start) as u32;
            let ghost rest = entries@.skip(start as int);
            let ghost chunk = entries@.subrange(start as int, end as int);
            proof {
                assert(rest.take((end - start) as int) =~= chunk);
                if end < n {
                    assert(rest.skip(max as int) =~= entries@.skip(end as int));
                } else {
                    assert(entries@.skip(end as int) =~= Seq::<(u64, u64, u16, u64, u64)>::empty());
                    assert(rest =~= chunk);
                }
            }
            let ghost p0 = self.pending@;
            self.start_record(RecordTag::TbExecBatch, 4 + count * 40);
            push_u32_le(&mut self.pending, count);
            let ghost p1 = self.pending@;
            let mut k: usize = start;
            while k < end
                invariant
                    n == entries@.len(),
                    start <= k <= end <= n,
                    end - start <= MAX_TB_EXEC_PER_RECORD,
                    self.pending@ == p1 + concat_map(entries@.subrange(start as int, k as int), f),
                    self.total_tb_count == old(self).tb_count() + start,
                    self.total_exec_count == old(self).exec_count() + sum_exec(
                        entries@.take(k as int),
                    ),
                    self.total_edge_records == old(self).edge_count(),
                    old(self).tb_count() + n <= u64::MAX,
                    old(self).exec_count() + sum_exec(entries@) <= u64::MAX,
                    f == (|e: (u64, u64, u16, u64, u64)| tb_entry_bytes(e)),
                decreases end - k,
            {
                let (start_addr, end_addr, n_insns, exec_count, first_seen) = entries[k];
                let ghost prev = entries@.subrange(start as int, k as int);
                let ghost q0 = self.pending@;
                assert(entries@.subrange(start as int, k + 1) =~= prev.push(entries@[k as int]));
                proof {
                    lemma_concat_map_push(prev, f, entries@[k as int]);
                }
                assert(entries@.take(k + 1).drop_last() =~= entries@.take(k as int));
                proof {
                    lemma_sum_exec_prefix(entries@, k + 1);
                }
                push_u64_le(&mut self.pending, start_addr);
                push_u64_le(&mut self.pending, end_addr);
                push_u16_le(&mut self.pending, n_insns);
                push_bytes(&mut self.pending, &[0u8; 6]);
                push_u64_le(&mut self.pending, exec_count);
                push_u64_le(&mut self.pending, first_seen);
                assert(self.pending@ =~= q0 + tb_entry_bytes(entries@[k as int]));
                self.total_exec_count = self.total_exec_count + exec_count;
                k = k + 1;
            }
            self.total_tb_count = self.total_tb_count + count as u64;
            proof {
                assert forall|x: (u64, u64, u16, u64, u64)| #[trigger] f(x).len() == 40 by {}
                lemma_concat_map_len(chunk, f, 40);
                assert(batch_payload(chunk, f).len() == 4 + 40 * count);
                assert(self.pending@ =~= p0 + tlv(tag, batch_payload(chunk, f)));
            }
            start = end;
        }
        assert(entries@.take(n as int) =~= entries@);
    }

    /// Writes a batch of edge or call triples as records of the given
    /// tag, at most `MAX_EDGES_PER_RECORD` entries per record.
    fn write_triple_batch(&mut self, tag: RecordTag, items: &[(u64, u64, u64)], counted: bool)
        requires
            counted ==> old(self).edge_count() + items@.len() <= u64::MAX,
        ensures
            final(self).pending() == old(self).pending() + batch_records(
                tag.spec_byte(),
                items@,
                MAX_EDGES_PER_RECORD as nat,
                |t: (u64, u64, u64)| triple_bytes(t),
            ),
            final(self).tb_count() == old(self).tb_count(),
            final(self).edge_count() == old(self).edge_count() + if counted {
                items@.len() as int
            } else {
                0
            },
            final(self).exec_count() == old(self).exec_count(),
    {
        let ghost f = |t: (u64, u64, u64)| triple_bytes(t);
        let ghost tb = tag.spec_byte();
        let ghost max = MAX_EDGES_PER_RECORD as nat;
        let n = items.len();
        let mut start: usize = 0;
        assert(items@.skip(0) =~= items@);
        while start < n
            invariant
                n == items@.len(),
                start <= n,
                old(self).pending() + batch_records(tb, items@, max, f) == self.pending@
                    + batch_records(tb, items@.skip(start as int), max, f),
                self.total_tb_count == old(self).tb_count(),
                self.total_exec_count == old(self).exec_count(),
                self.total_edge_records == old(self).edge_count() + if counted {
                    start as int
                } else {
                    0
                },
                counted ==> old(self).edge_count() + n <= u64::MAX,
                f == (|t: (u64, u64, u64)| triple_bytes(t)),
                max == MAX_EDGES_PER_RECORD as nat,
                tb == tag.spec_byte(),
            decreases n - start,
        {
            let end: usize = if n - start > MAX_EDGES_PER_RECORD {
                start + MAX_EDGES_PER_RECORD
            } else {
                n
            };
            let count: u32 = (end - start) as u32;
            let ghost rest = items@.skip(start as int);
            let ghost chunk = items@.subrange(start as int, end as int);
            proof {
                assert(rest.take((end - start) as int) =~= chunk);
                if end < n {
                    assert(rest.skip(max as int) =~= items@.skip(end as int));
                } else {
                    assert(items@.skip(end as int) =~= Seq::<(u64, u64, u64)>::empty());
                    assert(rest =~= chunk);
                }
            }
            let ghost p0 = self.pending@;
            self.start_record(tag, 4 + count * 24);
            push_u32_le(&mut self.pending, count);
            let ghost p1 = self.pending@;
            let mut k: usize = start;
            while k < end
                invariant
                    n == items@.len(),
                    start <= k <= end <= n,
                    self.pending@ == p1 + concat_map(items@.subrange(start as int, k as int), f),
                    self.total_tb_count == old(self).tb_count(),
                    self.total_exec_count == old(self).exec_count(),
                    self.total_edge_records == old(self).edge_count() + if counted {
                        start as int
                    } else {
                        0
                    },
                    f == (|t: (u64, u64, u64)| triple_bytes(t)),
                decreases end - k,
            {
                let (a, b, c) = items[k];
                let ghost prev = items@.subrange(start as int, k as int);
                let ghost q0 = self.pending@;
                assert(items@.subrange(start as int, k + 1) =~= prev.push(items@[k as int]));
                proof {
                    lemma_concat_map_push(prev, f, items@[k as int]);
                }
                push_u64_le(&mut self.pending, a);
                push_u64_le(&mut self.pending, b);
                push_u64_le(&mut self.pending, c);
                assert(self.pending@ =~= q0 + triple_bytes(items@[k as int]));
                k = k + 1;
            }
            if counted {
                self.total_edge_records = self.total_edge_records + count as u64;
            }
            proof {
                assert forall|x: (u64, u64, u64)| #[trigger] f(x).len() == 24 by {}
                lemma_concat_map_len(chunk, f, 24);
                assert(batch_payload(chunk, f).len() == 4 + 24 * count);
                assert(self.pending@ =~= p0 + tlv(tb, batch_payload(chunk, f)));
            }
            start = end;
        }
    }

    /// Writes a batch of branch edges `(from, to, count)`.
    pub fn write_branch_edge_batch(&mut self, edges: &[(u64, u64, u64)])
        requires
            old(self).edge_count() + edges@.len() <= u64::MAX,
        ensures
            final(self).pending() == old(self).pending() + batch_records(
                RecordTag::BranchEdgeBatch.spec_byte(),
                edges@,
                MAX_EDGES_PER_RECORD as nat,
                |t: (u64, u64, u64)| triple_bytes(t),
            ),
            final(self).tb_count() == old(self).tb_count(),
            final(self).edge_count() == old(self).edge_count() + edges@.len(),
            final(self).exec_count() == old(self).exec_count(),
    {
        self.write_triple_batch(RecordTag::BranchEdgeBatch, edges, true);
    }

    /// Writes a batch of fall-through edges `(from, to, count)`.
    pub fn write_fall_through_batch(&mut self, edges: &[(u64, u64, u64)])
        requires
            old(self).edge_count() + edges@.len() <= u64::MAX,
        ensures
            final(self).pending() == old(self).pending() + batch_records(
                RecordTag::FallThroughBatch.spec_byte(),
                edges@,
                MAX_EDGES_PER_RECORD as nat,
                |t: (u64, u64, u64)| triple_bytes(t),
            ),
            final(self).tb_count() == old(self).tb_count(),
            final(self).edge_count() == old(self).edge_count() + edges@.len(),
            final(self).exec_count() == old(self).exec_count(),
    {
        self.write_triple_batch(RecordTag::FallThroughBatch, edges, true);
    }

    /// Writes a batch of direct call records `(callsite, target, count)`.
    pub fn write_direct_call_batch(&mut self, calls: &[(u64, u64, u64)])
        ensures
            final(self).pending() == old(self).pending() + batch_records(
                RecordTag::DirectCallBatch.spec_byte(),
                calls@,
                MAX_EDGES_PER_RECORD as nat,
                |t: (u64, u64, u64)| triple_bytes(t),
            ),
            final(self).tb_count() == old(self).tb_count(),
            final(self).edge_count() == old(self).edge_count(),
            final(self).exec_count() == old(self).exec_count(),
    {
        self.write_triple_batch(RecordTag::DirectCallBatch, calls, false);
    }

    /// Writes a batch of indirect call records `(callsite, target, count)`.
    pub fn write_indirect_call_batch(&mut self, calls: &[(u64, u64, u64)])
        ensures
            final(self).pending() == old(self).pending() + batch_records(
                RecordTag::IndirectCallBatch.spec_byte(),
                calls@,
                MAX_EDGES_PER_RECORD as nat,
                |t: (u64, u64, u64)| triple_bytes(t),
            ),
            final(self).tb_count() == old(self).tb_count(),
            final(self).edge_count() == old(self).edge_count(),
            final(self).exec_count() == old(self).exec_count(),
    {
        self.write_triple_batch(RecordTag::IndirectCallBatch, calls, false);
    }

    /// Writes a streaming flush marker: the time since the writer was
    /// created (measured by the caller), the vCPU and the edge count.
    pub fn write_flush_marker(&mut self, elapsed_ns: u64, vcpu_index: u32, num_edges: u32)
        ensures
            final(self).pending() == old(self).pending() + tlv(
                RecordTag::FlushMarker.spec_byte(),
                flush_payload(elapsed_ns, vcpu_index, num_edges),
            ),
            final(self).tb_count() == old(self).tb_count(),
            final(self).edge_count() == old(self).edge_count(),
            final(self).exec_count() == old(self).exec_count(),
    {
        let ghost p0 = self.pending@;
        self.start_record(RecordTag::FlushMarker, 16);
        push_u64_le(&mut self.pending, elapsed_ns);
        push_u32_le(&mut self.pending, vcpu_index);
        push_u32_le(&mut self.pending, num_edges);
        assert(self.pending@ =~= p0 + tlv(
            RecordTag::FlushMarker.spec_byte(),
            flush_payload(elapsed_ns, vcpu_index, num_edges),
        ));
    }

    /// Writes a TB resource annotation.
    pub fn write_tb_resource(&mut self, tb_addr: u64, coproc_flags: u32, vcpu_mask: u64)
        ensures
            final(self).pending() == old(self).pending() + tlv(
                RecordTag::TbResource.spec_byte(),
                resource_payload(tb_addr, coproc_flags, vcpu_mask),
            ),
            final(self).tb_count() == old(self).tb_count(),
            final(self).edge_count() == old(self).edge_count(),
            final(self).exec_count() == old(self).exec_count(),
    {
        let ghost p0 = self.pending@;
        self.start_record(RecordTag::TbResource, 20);
        push_u64_le(&mut self.pending, tb_addr);
        push_u32_le(&mut self.pending, coproc_flags);
        push_u64_le(&mut self.pending, vcpu_mask);
        assert(self.pending@ =~= p0 + tlv(
            RecordTag::TbResource.spec_byte(),
            resource_payload(tb_addr, coproc_flags, vcpu_mask),
        ));
    }

    /// Writes a device access record. Names longer than 255 bytes are
    /// cut.
    pub fn write_device_access(&mut self, tb_addr: u64, device_name: &str)
        ensures
            final(self).pending() == old(self).pending() + tlv(
                RecordTag::DeviceAccess.spec_byte(),
                device_payload(tb_addr, encode_utf8(device_name@)),
            ),
            final(self).tb_count() == old(self).tb_count(),
            final(self).edge_count() == old(self).edge_count(),
            final(self).exec_count() == old(self).exec_count(),
    {
        let name_bytes = device_name.as_bytes();
        let name_len: usize = if name_bytes.len() < 255 {
            name_bytes.len()
        } else {
            255
        };
        let ghost p0 = self.pending@;
        self.start_record(RecordTag::DeviceAccess, 8 + 1 + name_len as u32);
        push_u64_le(&mut self.pending, tb_addr);
        self.pending.push(name_len as u8);
        push_bytes(&mut self.pending, &name_bytes[0..name_len]);
        assert(name_bytes@.subrange(0, name_len as int) =~= clip(name_bytes@, 255));
        assert(self.pending@ =~= p0 + tlv(
            RecordTag::DeviceAccess.spec_byte(),
            device_payload(tb_addr, name_bytes@),
        ));
    }

    /// Writes a discontinuity event record.
    pub fn write_discontinuity(&mut self, discon_type: u32, from_pc: u64, to_pc: u64, count: u64)
        ensures
            final(self).pending() == old(self).pending() + tlv(
                RecordTag::Discontinuity.spec_byte(),
                discon_payload(discon_type, from_pc, to_pc, count),
            ),
            final(self).tb_count() == old(self).tb_count(),
            final(self).edge_count() == old(self).edge_count(),
            final(self).exec_count() == old(self).exec_count(),
    {
        let ghost p0 = self.pending@;
        self.start_record(RecordTag::Discontinuity, 28);
        push_u32_le(&mut self.pending, discon_type);
        push_u64_le(&mut self.pending, from_pc);
        push_u64_le(&mut self.pending, to_pc);
        push_u64_le(&mut self.pending, count);
        assert(self.pending@ =~= p0 + tlv(
            RecordTag::Discontinuity.spec_byte(),
            discon_payload(discon_type, from_pc, to_pc, count),
        ));
    }

    /// Writes the footer: the running totals, the wall time (measured
    /// by the caller) and the clean-exit flag.
    pub fn write_footer(&mut self, wall_time_ns: u64)
        ensures
            final(self).pending() == old(self).pending() + tlv(
                RecordTag::Footer.spec_byte(),
                footer_payload(
                    old(self).tb_count(),
                    old(self).edge_count(),
                    old(self).exec_count(),
                    wall_time_ns,
                ),
            ),
            final(self).tb_count() == old(self).tb_count(),
            final(self).edge_count() == old(self).edge_count(),
            final(self).exec_count() == old(self).exec_count(),
    {
        let ghost p0 = self.pending@;
        self.start_record(RecordTag::Footer, 40);
        let tbs = self.total_tb_count;
        let edges = self.total_edge_records;
        let execs = self.total_exec_count;
        push_u64_le(&mut self.pending, tbs);
        push_u64_le(&mut self.pending, edges);
        push_u64_le(&mut self.pending, execs);
        push_u64_le(&mut self.pending, wall_time_ns);
        push_u32_le(&mut self.pending, 1);
        push_bytes(&mut self.pending, &[0u8; 4]);
        assert(self.pending@ =~= p0 + tlv(
            RecordTag::Footer.spec_byte(),
            footer_payload(tbs, edges, execs, wall_time_ns),
        ));
    }
}

} // verus!
