//! What the parser reads back of what the writer writes: the file
//! header, the record framing, and every record kind.

use vstd::prelude::*;
use crate::bytes::{
    lossy_text, le16, le24, le32, le64, lemma_le16_roundtrip, lemma_le24_roundtrip, lemma_le32_roundtrip,
    lemma_le64_roundtrip, u16_at, u24_at, u32_at, u64_at,
};
use crate::native::{
    apply_record, apply_records, batch_len, call_at, edge_at, record_at, spec_call_batch,
    spec_edge_batch, spec_header_error, spec_tb_exec_batch, tb_exec_at, empty_model, parse_requires, CallRecord,
    DisconRecord, EdgeRecord, Footer, ProfileModel, TbExec, TbResourceRecord, FILE_MAGIC,
};
use crate::output::{
    batch_payload, batch_records, clip, concat_map, discon_payload, footer_payload,
    header_flags, meta_payload, resource_payload, symbol_payload, tb_entry_bytes, tlv,
    triple_bytes, writer_header,
};
use vstd::utf8::{encode_utf8, encode_utf8_decode_utf8, encode_utf8_valid_utf8};

verus! {

proof fn lemma_u16_in(s: Seq<u8>, off: int, v: u64)
    requires
        0 <= off,
        off + 2 <= s.len(),
        v < 0x1_0000,
        s.subrange(off, off + 2) == le16(v),
    ensures
        u16_at(s, off) == v,
{
    assert(s =~= s.take(off) + le16(v) + s.skip(off + 2));
    lemma_le16_roundtrip(v, s.take(off), s.skip(off + 2));
}

proof fn lemma_u24_in(s: Seq<u8>, off: int, v: u64)
    requires
        0 <= off,
        off + 3 <= s.len(),
        v < 0x100_0000,
        s.subrange(off, off + 3) == le24(v),
    ensures
        u24_at(s, off) == v,
{
    assert(s =~= s.take(off) + le24(v) + s.skip(off + 3));
    lemma_le24_roundtrip(v, s.take(off), s.skip(off + 3));
}

proof fn lemma_u32_in(s: Seq<u8>, off: int, v: u64)
    requires
        0 <= off,
        off + 4 <= s.len(),
        v < 0x1_0000_0000,
        s.subrange(off, off + 4) == le32(v),
    ensures
        u32_at(s, off) == v,
{
    assert(s =~= s.take(off) + le32(v) + s.skip(off + 4));
    lemma_le32_roundtrip(v, s.take(off), s.skip(off + 4));
}

proof fn lemma_u64_in(s: Seq<u8>, off: int, v: u64)
    requires
        0 <= off,
        off + 8 <= s.len(),
        s.subrange(off, off + 8) == le64(v),
    ensures
        u64_at(s, off) == v,
{
    assert(s =~= s.take(off) + le64(v) + s.skip(off + 8));
    lemma_le64_roundtrip(v, s.take(off), s.skip(off + 8));
}

/// Item `i` of a list of equal-width encodings sits at `w * i`.
proof fn lemma_concat_map_at<T>(s: Seq<T>, f: spec_fn(T) -> Seq<u8>, w: nat, i: int)
    requires
        forall|x: T| #[trigger] f(x).len() == w,
        0 <= i < s.len(),
    ensures
        concat_map(s, f).len() == w * s.len(),
        w * i + w <= w * s.len(),
        concat_map(s, f).subrange(w * i, w * i + w) == f(s[i]),
    decreases s.len(),
{
    let d = s.drop_last();
    lemma_concat_map_len(d, f, w);
    assert(w * (s.len() - 1) + w == w * s.len()) by (nonlinear_arith);
    if i == s.len() - 1 {
        assert(concat_map(s, f).subrange(w * i, w * i + w) =~= f(s[i]));
    } else {
        lemma_concat_map_at(d, f, w, i);
        assert(w * i + w <= w * (s.len() - 1)) by (nonlinear_arith)
            requires
                i + 1 <= s.len() - 1,
                w >= 0,
        ;
        assert(concat_map(s, f).subrange(w * i, w * i + w) =~= concat_map(d, f).subrange(
            w * i,
            w * i + w,
        ));
        assert(d[i] == s[i]);
    }
}

proof fn lemma_concat_map_len<T>(s: Seq<T>, f: spec_fn(T) -> Seq<u8>, w: nat)
    requires
        forall|x: T| #[trigger] f(x).len() == w,
    ensures
        concat_map(s, f).len() == w * s.len(),
    decreases s.len(),
{
    if s.len() > 0 {
        lemma_concat_map_len(s.drop_last(), f, w);
        assert(w * (s.len() - 1) + w == w * s.len()) by (nonlinear_arith);
    }
}

/// The TB exec record that the parser makes of a written entry.
pub open spec fn tb_exec_of(e: (u64, u64, u16, u64, u64)) -> TbExec {
    TbExec { start_addr: e.0, end_addr: e.1, n_insns: e.2, exec_count: e.3, first_seen_seq: e.4 }
}

/// The edge record that the parser makes of a written triple.
pub open spec fn edge_of(t: (u64, u64, u64)) -> EdgeRecord {
    EdgeRecord { from: t.0, to: t.1, count: t.2 }
}

/// The call record that the parser makes of a written triple.
pub open spec fn call_of(t: (u64, u64, u64)) -> CallRecord {
    CallRecord { callsite: t.0, target: t.1, count: t.2 }
}

proof fn lemma_batch_len_exact<T>(s: Seq<T>, f: spec_fn(T) -> Seq<u8>, w: nat)
    requires
        w == 24 || w == 40,
        forall|x: T| #[trigger] f(x).len() == w,
        s.len() < 0x1_0000_0000,
    ensures
        batch_payload(s, f).len() == 4 + w * s.len(),
        batch_len(batch_payload(s, f), w as int) == s.len(),
{
    let p = batch_payload(s, f);
    lemma_concat_map_len(s, f, w);
    assert(p.subrange(0, 4) =~= le32(s.len() as u64));
    lemma_u32_in(p, 0, s.len() as u64);
    assert((p.len() - 4) / (w as int) == s.len()) by (nonlinear_arith)
        requires
            p.len() - 4 == w * s.len(),
            w > 0,
    ;
}

/// Reading a written TB exec batch payload gives back its entries.
pub proof fn law_tb_exec_batch_roundtrip(s: Seq<(u64, u64, u16, u64, u64)>)
    requires
        s.len() < 0x1_0000_0000,
    ensures
        spec_tb_exec_batch(batch_payload(s, |e: (u64, u64, u16, u64, u64)| tb_entry_bytes(e)))
            == s.map_values(|e: (u64, u64, u16, u64, u64)| tb_exec_of(e)),
{
    let f = |e: (u64, u64, u16, u64, u64)| tb_entry_bytes(e);
    let p = batch_payload(s, f);
    assert forall|x: (u64, u64, u16, u64, u64)| #[trigger] f(x).len() == 40 by {}
    lemma_batch_len_exact(s, f, 40);
    assert forall|i: int| 0 <= i < s.len() implies tb_exec_at(p, 4 + 40 * i) == tb_exec_of(
        s[i],
    ) by {
        lemma_concat_map_at(s, f, 40, i);
        let o = 4 + 40 * i;
        let e = s[i];
        let q = p.subrange(o, o + 40);
        assert(q =~= tb_entry_bytes(e));
        assert(p.subrange(o, o + 8) =~= q.subrange(0, 8));
        assert(p.subrange(o + 8, o + 16) =~= q.subrange(8, 16));
        assert(p.subrange(o + 16, o + 18) =~= q.subrange(16, 18));
        assert(p.subrange(o + 24, o + 32) =~= q.subrange(24, 32));
        assert(p.subrange(o + 32, o + 40) =~= q.subrange(32, 40));
        assert(q.subrange(0, 8) =~= le64(e.0));
        assert(q.subrange(8, 16) =~= le64(e.1));
        assert(q.subrange(16, 18) =~= le16(e.2 as u64));
        assert(q.subrange(24, 32) =~= le64(e.3));
        assert(q.subrange(32, 40) =~= le64(e.4));
        lemma_u64_in(p, o, e.0);
        lemma_u64_in(p, o + 8, e.1);
        lemma_u16_in(p, o + 16, e.2 as u64);
        lemma_u64_in(p, o + 24, e.3);
        lemma_u64_in(p, o + 32, e.4);
    }
    assert(spec_tb_exec_batch(p) =~= s.map_values(|e: (u64, u64, u16, u64, u64)| tb_exec_of(e)));
}

proof fn lemma_triple_at(p: Seq<u8>, o: int, t: (u64, u64, u64))
    requires
        0 <= o,
        o + 24 <= p.len(),
        p.subrange(o, o + 24) == triple_bytes(t),
    ensures
        u64_at(p, o) == t.0,
        u64_at(p, o + 8) == t.1,
        u64_at(p, o + 16) == t.2,
{
    let q = p.subrange(o, o + 24);
    assert(p.subrange(o, o + 8) =~= q.subrange(0, 8));
    assert(p.subrange(o + 8, o + 16) =~= q.subrange(8, 16));
    assert(p.subrange(o + 16, o + 24) =~= q.subrange(16, 24));
    assert(q.subrange(0, 8) =~= le64(t.0));
    assert(q.subrange(8, 16) =~= le64(t.1));
    assert(q.subrange(16, 24) =~= le64(t.2));
    lemma_u64_in(p, o, t.0);
    lemma_u64_in(p, o + 8, t.1);
    lemma_u64_in(p, o + 16, t.2);
}

/// Reading a written edge batch payload gives back its edges.
pub proof fn law_edge_batch_roundtrip(s: Seq<(u64, u64, u64)>)
    requires
        s.len() < 0x1_0000_0000,
    ensures
        spec_edge_batch(batch_payload(s, |t: (u64, u64, u64)| triple_bytes(t))) == s.map_values(
            |t: (u64, u64, u64)| edge_of(t),
        ),
{
    let f = |t: (u64, u64, u64)| triple_bytes(t);
    let p = batch_payload(s, f);
    assert forall|x: (u64, u64, u64)| #[trigger] f(x).len() == 24 by {}
    lemma_batch_len_exact(s, f, 24);
    assert forall|i: int| 0 <= i < s.len() implies edge_at(p, 4 + 24 * i) == edge_of(s[i]) by {
        lemma_concat_map_at(s, f, 24, i);
        let o = 4 + 24 * i;
        assert(p.subrange(o, o + 24) =~= triple_bytes(s[i]));
        lemma_triple_at(p, o, s[i]);
    }
    assert(spec_edge_batch(p) =~= s.map_values(|t: (u64, u64, u64)| edge_of(t)));
}

/// Reading a written call batch payload gives back its calls.
pub proof fn law_call_batch_roundtrip(s: Seq<(u64, u64, u64)>)
    requires
        s.len() < 0x1_0000_0000,
    ensures
        spec_call_batch(batch_payload(s, |t: (u64, u64, u64)| triple_bytes(t))) == s.map_values(
            |t: (u64, u64, u64)| call_of(t),
        ),
{
    let f = |t: (u64, u64, u64)| triple_bytes(t);
    let p = batch_payload(s, f);
    assert forall|x: (u64, u64, u64)| #[trigger] f(x).len() == 24 by {}
    lemma_batch_len_exact(s, f, 24);
    assert forall|i: int| 0 <= i < s.len() implies call_at(p, 4 + 24 * i) == call_of(s[i]) by {
        lemma_concat_map_at(s, f, 24, i);
        let o = 4 + 24 * i;
        assert(p.subrange(o, o + 24) =~= triple_bytes(s[i]));
        lemma_triple_at(p, o, s[i]);
    }
    assert(spec_call_batch(p) =~= s.map_values(|t: (u64, u64, u64)| call_of(t)));
}

/// A written TLV record is read back whole: the parser applies its tag
/// and payload and continues right after it.
pub proof fn law_tlv_framing(
    p: ProfileModel,
    pre: Seq<u8>,
    tag: u8,
    payload: Seq<u8>,
    rest: Seq<u8>,
)
    requires
        payload.len() <= 0xFF_FFFF,
    ensures
        apply_records(p, pre + tlv(tag, payload) + rest, pre.len() as int) == apply_records(
            apply_record(p, tag, payload),
            pre + tlv(tag, payload) + rest,
            (pre.len() + 4 + payload.len()) as int,
        ),
{
    let data = pre + tlv(tag, payload) + rest;
    let o = pre.len() as int;
    assert(data.subrange(o + 1, o + 4) =~= le24(payload.len() as u64));
    lemma_u24_in(data, o + 1, payload.len() as u64);
    assert(record_at(data, o));
    assert(data[o] == tag);
    assert(data.subrange(o + 4, o + 4 + payload.len()) =~= payload);
}


/// Text of a string's UTF-8 bytes, read back, is the string.
proof fn lemma_text_of_encoding(c: Seq<char>)
    ensures
        lossy_text(encode_utf8(c)) == c,
{
    encode_utf8_valid_utf8(c);
    encode_utf8_decode_utf8(c);
}

/// A written string metadata record sets the key to the value, for a
/// key of at most 255 and a value of at most 65535 UTF-8 bytes.
pub proof fn law_string_meta_roundtrip(p: ProfileModel, key: Seq<char>, value: Seq<char>)
    requires
        encode_utf8(key).len() <= 255,
        encode_utf8(value).len() <= 65535,
    ensures
        apply_record(p, 0x01, meta_payload(encode_utf8(key), encode_utf8(value))) == (ProfileModel {
            metadata: p.metadata.insert(key, value),
            ..p
        }),
{
    reveal(apply_record);
    let kb = encode_utf8(key);
    let vb = encode_utf8(value);
    let pl = meta_payload(kb, vb);
    let kl = kb.len() as int;
    let vl = vb.len() as int;
    assert(clip(kb, 255) == kb);
    assert(clip(vb, 65535) == vb);
    assert(pl[0] == kb.len() as u8);
    assert(pl.subrange(1 + kl, 3 + kl) =~= le16(vb.len() as u64));
    lemma_u16_in(pl, 1 + kl, vb.len() as u64);
    assert(pl.subrange(1, 1 + kl) =~= kb);
    assert(pl.subrange(3 + kl, 3 + kl + vl) =~= vb);
    lemma_text_of_encoding(key);
    lemma_text_of_encoding(value);
}

/// A written symbol entry record adds the symbol, for a name of at
/// most 65535 UTF-8 bytes.
pub proof fn law_symbol_entry_roundtrip(p: ProfileModel, sym_id: u16, addr: u64, name: Seq<char>)
    requires
        encode_utf8(name).len() <= 65535,
    ensures
        apply_record(p, 0x02, symbol_payload(sym_id, addr, encode_utf8(name))) == (ProfileModel {
            symbols: p.symbols.push((sym_id, addr, name)),
            ..p
        }),
{
    reveal(apply_record);
    let nb = encode_utf8(name);
    let pl = symbol_payload(sym_id, addr, nb);
    assert(clip(nb, 65535) == nb);
    assert(pl.subrange(0, 2) =~= le16(sym_id as u64));
    assert(pl.subrange(2, 10) =~= le64(addr));
    assert(pl.subrange(10, 12) =~= le16(nb.len() as u64));
    lemma_u16_in(pl, 0, sym_id as u64);
    lemma_u64_in(pl, 2, addr);
    lemma_u16_in(pl, 10, nb.len() as u64);
    assert(pl.subrange(12, 12 + nb.len() as int) =~= nb);
    lemma_text_of_encoding(name);
}

/// A written TB resource record adds the annotation.
pub proof fn law_tb_resource_roundtrip(p: ProfileModel, tb_addr: u64, flags: u32, mask: u64)
    ensures
        apply_record(p, 0x40, resource_payload(tb_addr, flags, mask)) == (ProfileModel {
            tb_resources: p.tb_resources.push(
                TbResourceRecord { tb_addr, coproc_flags: flags, vcpu_mask: mask },
            ),
            ..p
        }),
{
    reveal(apply_record);
    let pl = resource_payload(tb_addr, flags, mask);
    assert(pl.subrange(0, 8) =~= le64(tb_addr));
    assert(pl.subrange(8, 12) =~= le32(flags as u64));
    assert(pl.subrange(12, 20) =~= le64(mask));
    lemma_u64_in(pl, 0, tb_addr);
    lemma_u32_in(pl, 8, flags as u64);
    lemma_u64_in(pl, 12, mask);
}

/// A written discontinuity record adds the event.
pub proof fn law_discontinuity_roundtrip(
    p: ProfileModel,
    discon_type: u32,
    from_pc: u64,
    to_pc: u64,
    count: u64,
)
    ensures
        apply_record(p, 0x42, discon_payload(discon_type, from_pc, to_pc, count)) == (ProfileModel {
            discon_events: p.discon_events.push(DisconRecord { discon_type, from_pc, to_pc, count }),
            ..p
        }),
{
    reveal(apply_record);
    let pl = discon_payload(discon_type, from_pc, to_pc, count);
    assert(pl.subrange(0, 4) =~= le32(discon_type as u64));
    assert(pl.subrange(4, 12) =~= le64(from_pc));
    assert(pl.subrange(12, 20) =~= le64(to_pc));
    assert(pl.subrange(20, 28) =~= le64(count));
    lemma_u32_in(pl, 0, discon_type as u64);
    lemma_u64_in(pl, 4, from_pc);
    lemma_u64_in(pl, 12, to_pc);
    lemma_u64_in(pl, 20, count);
}

/// A written footer is read back with its totals and wall time, and as
/// a clean exit.
pub proof fn law_footer_roundtrip(p: ProfileModel, tbs: u64, edges: u64, execs: u64, wall: u64)
    ensures
        apply_record(p, 0xFF, footer_payload(tbs, edges, execs, wall)) == (ProfileModel {
            footer: Some(
                Footer {
                    total_tb_count: tbs,
                    total_edge_records: edges,
                    total_exec_count: execs,
                    wall_time_ns: wall,
                    clean_exit: true,
                },
            ),
            ..p
        }),
{
    reveal(apply_record);
    let pl = footer_payload(tbs, edges, execs, wall);
    assert(pl.subrange(0, 8) =~= le64(tbs));
    assert(pl.subrange(8, 16) =~= le64(edges));
    assert(pl.subrange(16, 24) =~= le64(execs));
    assert(pl.subrange(24, 32) =~= le64(wall));
    assert(pl.subrange(32, 36) =~= le32(1));
    lemma_u64_in(pl, 0, tbs);
    lemma_u64_in(pl, 8, edges);
    lemma_u64_in(pl, 16, execs);
    lemma_u64_in(pl, 24, wall);
    lemma_u32_in(pl, 32, 1);
}

/// Flush markers, device accesses and first-seen-order records carry
/// nothing that the parser keeps: reading one leaves the profile as
/// it was.
pub proof fn law_skipped_records(p: ProfileModel, payload: Seq<u8>)
    ensures
        apply_record(p, 0x2F, payload) == p,
        apply_record(p, 0x41, payload) == p,
        apply_record(p, 0x14, payload) == p,
{
    reveal(apply_record);
}

/// Records one after another.
pub open spec fn tlv_stream(records: Seq<(u8, Seq<u8>)>) -> Seq<u8>
    decreases records.len(),
{
    if records.len() == 0 {
        Seq::empty()
    } else {
        tlv(records[0].0, records[0].1) + tlv_stream(records.drop_first())
    }
}

/// The profile `p` after the records, in order.
pub open spec fn apply_all(p: ProfileModel, records: Seq<(u8, Seq<u8>)>) -> ProfileModel
    decreases records.len(),
{
    if records.len() == 0 {
        p
    } else {
        apply_all(apply_record(p, records[0].0, records[0].1), records.drop_first())
    }
}

/// The tags whose records the parser reads.
pub open spec fn known_tag(tag: u8) -> bool {
    tag == 0x01 || tag == 0x02 || tag == 0x13 || tag == 0x21 || tag == 0x23 || tag == 0x32 || tag
        == 0x33 || tag == 0x40 || tag == 0x42 || tag == 0xFF
}

/// A record whose tag the parser does not read is skipped, whatever its
/// payload: the profile is left as it was.
pub proof fn law_unknown_tag_skipped(p: ProfileModel, tag: u8, payload: Seq<u8>)
    requires
        !known_tag(tag),
    ensures
        apply_record(p, tag, payload) == p,
{
    reveal(apply_record);
}

/// Applying records one after another, the last one last.
proof fn lemma_apply_all_push(p: ProfileModel, records: Seq<(u8, Seq<u8>)>, r: (u8, Seq<u8>))
    ensures
        apply_all(p, records.push(r)) == apply_record(apply_all(p, records), r.0, r.1),
    decreases records.len(),
{
    let s = records.push(r);
    if records.len() > 0 {
        assert(s.drop_first() =~= records.drop_first().push(r));
        assert(s[0] == records[0]);
        lemma_apply_all_push(apply_record(p, records[0].0, records[0].1), records.drop_first(), r);
    } else {
        assert(s.drop_first() =~= Seq::<(u8, Seq<u8>)>::empty());
        assert(s[0] == r);
        assert(apply_all(apply_record(p, r.0, r.1), s.drop_first()) == apply_record(p, r.0, r.1));
    }
}

/// Adding a record with a tag the parser does not read to a stream
/// leaves what the stream reads back to unchanged.
pub proof fn law_unknown_record_in_stream(
    p: ProfileModel,
    records: Seq<(u8, Seq<u8>)>,
    tag: u8,
    payload: Seq<u8>,
)
    requires
        !known_tag(tag),
    ensures
        apply_all(p, records.push((tag, payload))) == apply_all(p, records),
{
    lemma_apply_all_push(p, records, (tag, payload));
    law_unknown_tag_skipped(apply_all(p, records), tag, payload);
}

/// A truncated record at the end is dropped: after any prefix, a stream
/// of whole records followed by bytes that do not make a whole record
/// (too short for the header, or for the length the header gives)
/// reads back as the stream alone.
pub proof fn law_truncated_tail_dropped(
    p: ProfileModel,
    pre: Seq<u8>,
    records: Seq<(u8, Seq<u8>)>,
    tail: Seq<u8>,
)
    requires
        payloads_fit(records),
        !record_at(tail, 0),
    ensures
        apply_records(p, pre + tlv_stream(records) + tail, pre.len() as int) == apply_all(p, records),
    decreases records.len(),
{
    if records.len() == 0 {
        let data = pre + tlv_stream(records) + tail;
        let o = pre.len() as int;
        assert(data =~= pre + tail);
        if o + 4 <= data.len() {
            assert(data[o + 1] == tail[1] && data[o + 2] == tail[2] && data[o + 3] == tail[3]);
            assert(u24_at(data, o + 1) == u24_at(tail, 1));
        }
        assert(!record_at(data, o));
    } else {
        let r = records[0];
        let rest = records.drop_first();
        assert(r.1.len() <= 0xFF_FFFF);
        assert(pre + tlv_stream(records) + tail =~= pre + tlv(r.0, r.1) + (tlv_stream(rest) + tail));
        law_tlv_framing(p, pre, r.0, r.1, tlv_stream(rest) + tail);
        assert(payloads_fit(rest)) by {
            assert forall|i: int| 0 <= i < rest.len() implies (#[trigger] rest[i]).1.len()
                <= 0xFF_FFFF by {
                assert(rest[i] == records[i + 1]);
            }
        }
        let pre2 = pre + tlv(r.0, r.1);
        assert(pre2 + tlv_stream(rest) + tail =~= pre + tlv(r.0, r.1) + (tlv_stream(rest) + tail));
        law_truncated_tail_dropped(apply_record(p, r.0, r.1), pre2, rest, tail);
    }
}

/// A stream with one more record ends with that record.
proof fn lemma_tlv_stream_push(records: Seq<(u8, Seq<u8>)>, r: (u8, Seq<u8>))
    ensures
        tlv_stream(records.push(r)) == tlv_stream(records) + tlv(r.0, r.1),
    decreases records.len(),
{
    let s = records.push(r);
    if records.len() == 0 {
        assert(s.drop_first() =~= Seq::<(u8, Seq<u8>)>::empty());
        assert(s[0] == r);
        assert(tlv_stream(s) =~= tlv(r.0, r.1) + tlv_stream(s.drop_first()));
        assert(tlv_stream(s) =~= tlv_stream(records) + tlv(r.0, r.1));
    } else {
        assert(s.drop_first() =~= records.drop_first().push(r));
        assert(s[0] == records[0]);
        lemma_tlv_stream_push(records.drop_first(), r);
        assert(tlv_stream(s) =~= tlv_stream(records) + tlv(r.0, r.1));
    }
}

/// Data that starts with the same 64 header bytes has the same header
/// outcome.
proof fn lemma_header_error_prefix(d1: Seq<u8>, d2: Seq<u8>)
    requires
        d1.len() >= 64,
        d2.len() >= 64,
        d1.subrange(0, 64) == d2.subrange(0, 64),
    ensures
        spec_header_error(d1) == spec_header_error(d2),
{
    assert forall|i: int| 0 <= i < 64 implies d1[i] == d2[i] by {
        assert(d1[i] == d1.subrange(0, 64)[i]);
        assert(d2[i] == d2.subrange(0, 64)[i]);
    }
    assert(u64_at(d1, 0) == u64_at(d2, 0));
    assert(u16_at(d1, 8) == u16_at(d2, 8));
}

/// What the parser makes of a file (the header check, whether edge
/// totals fit, and the records it reads) is not changed by one more
/// record with a tag it does not read, nor by a truncated record at the
/// end: after the 64-byte header `hdr` and whole records, both files
/// read back as the file without them. By `parse`'s contract, the two
/// calls then fail alike, or give the same header and the merge of the
/// same records.
pub proof fn law_parse_ignores_unknown_and_truncated(
    hdr: Seq<u8>,
    records: Seq<(u8, Seq<u8>)>,
    tag: u8,
    payload: Seq<u8>,
    tail: Seq<u8>,
)
    requires
        hdr.len() == 64,
        payloads_fit(records),
        !known_tag(tag),
        payload.len() <= 0xFF_FFFF,
        !record_at(tail, 0),
    ensures
        ({
            let b = hdr + tlv_stream(records);
            let with_record = b + tlv(tag, payload);
            let with_tail = b + tail;
            &&& spec_header_error(with_record) == spec_header_error(b)
            &&& spec_header_error(with_tail) == spec_header_error(b)
            &&& apply_records(empty_model(), with_record, 64) == apply_records(empty_model(), b, 64)
            &&& apply_records(empty_model(), with_tail, 64) == apply_records(empty_model(), b, 64)
            &&& parse_requires(with_record) == parse_requires(b)
            &&& parse_requires(with_tail) == parse_requires(b)
        }),
{
    let b = hdr + tlv_stream(records);
    let with_record = b + tlv(tag, payload);
    let with_tail = b + tail;
    assert(b.subrange(0, 64) =~= hdr);
    assert(with_record.subrange(0, 64) =~= hdr);
    assert(with_tail.subrange(0, 64) =~= hdr);
    lemma_header_error_prefix(with_record, b);
    lemma_header_error_prefix(with_tail, b);
    law_stream_roundtrip(empty_model(), hdr, records);
    let r = (tag, payload);
    let more = records.push(r);
    assert(payloads_fit(more)) by {
        assert forall|i: int| 0 <= i < more.len() implies (#[trigger] more[i]).1.len() <= 0xFF_FFFF by {
            if i < records.len() {
                assert(more[i] == records[i]);
            }
        }
    }
    lemma_tlv_stream_push(records, r);
    assert(hdr + tlv_stream(more) =~= with_record);
    law_stream_roundtrip(empty_model(), hdr, more);
    law_unknown_record_in_stream(empty_model(), records, tag, payload);
    law_truncated_tail_dropped(empty_model(), hdr, records, tail);
}

/// Every payload fits the 24-bit length field.
pub open spec fn payloads_fit(records: Seq<(u8, Seq<u8>)>) -> bool {
    forall|i: int| 0 <= i < records.len() ==> (#[trigger] records[i]).1.len() <= 0xFF_FFFF
}

/// A stream of written records, after any prefix, is read back record
/// by record to its end.
pub proof fn law_stream_roundtrip(p: ProfileModel, pre: Seq<u8>, records: Seq<(u8, Seq<u8>)>)
    requires
        payloads_fit(records),
    ensures
        apply_records(p, pre + tlv_stream(records), pre.len() as int) == apply_all(p, records),
    decreases records.len(),
{
    if records.len() == 0 {
        assert(pre + tlv_stream(records) =~= pre);
        assert(!record_at(pre, pre.len() as int));
    } else {
        let r = records[0];
        let tail = records.drop_first();
        assert(r.1.len() <= 0xFF_FFFF);
        assert(pre + tlv_stream(records) =~= pre + tlv(r.0, r.1) + tlv_stream(tail));
        law_tlv_framing(p, pre, r.0, r.1, tlv_stream(tail));
        assert(payloads_fit(tail)) by {
            assert forall|i: int| 0 <= i < tail.len() implies (#[trigger] tail[i]).1.len()
                <= 0xFF_FFFF by {
                assert(tail[i] == records[i + 1]);
            }
        }
        let pre2 = pre + tlv(r.0, r.1);
        assert(pre2 + tlv_stream(tail) =~= pre + tlv(r.0, r.1) + tlv_stream(tail));
        law_stream_roundtrip(apply_record(p, r.0, r.1), pre2, tail);
    }
}

/// The writer's file header reads back as valid, with version 1, the
/// tier, 8-byte pointers, the flags, the addresses and a zero build id.
pub proof fn law_header_roundtrip(
    tier: u8,
    sysemu: bool,
    streaming: bool,
    load_addr: u64,
    text_start: u64,
    text_end: u64,
    entry_addr: u64,
    rest: Seq<u8>,
)
    ensures
        ({
            let data = writer_header(
                tier,
                sysemu,
                streaming,
                load_addr,
                text_start,
                text_end,
                entry_addr,
            ) + rest;
            &&& spec_header_error(data) is None
            &&& u16_at(data, 8) == 1
            &&& data[10] == tier
            &&& data[11] == 8
            &&& u32_at(data, 12) == header_flags(sysemu, streaming)
            &&& u64_at(data, 16) == load_addr
            &&& u64_at(data, 24) == text_start
            &&& u64_at(data, 32) == text_end
            &&& u64_at(data, 40) == entry_addr
            &&& data.subrange(48, 64) == Seq::new(16, |i: int| 0u8)
        }),
{
    let data = writer_header(tier, sysemu, streaming, load_addr, text_start, text_end, entry_addr)
        + rest;
    assert(data.subrange(0, 8) =~= le64(FILE_MAGIC));
    assert(data.subrange(8, 10) =~= le16(1));
    assert(data.subrange(12, 16) =~= le32(header_flags(sysemu, streaming) as u64));
    assert(data.subrange(16, 24) =~= le64(load_addr));
    assert(data.subrange(24, 32) =~= le64(text_start));
    assert(data.subrange(32, 40) =~= le64(text_end));
    assert(data.subrange(40, 48) =~= le64(entry_addr));
    assert(data.subrange(48, 64) =~= Seq::new(16, |i: int| 0u8));
    lemma_u64_in(data, 0, FILE_MAGIC);
    lemma_u16_in(data, 8, 1);
    lemma_u32_in(data, 12, header_flags(sysemu, streaming) as u64);
    lemma_u64_in(data, 16, load_addr);
    lemma_u64_in(data, 24, text_start);
    lemma_u64_in(data, 32, text_end);
    lemma_u64_in(data, 40, entry_addr);
}

/// The flags of the writer's header hold bit 0 (system emulation)
/// exactly when `sysemu`, bit 1 (streamed edges) exactly when
/// `streaming`, and no other bit.
pub proof fn law_header_flags(
    tier: u8,
    sysemu: bool,
    streaming: bool,
    load_addr: u64,
    text_start: u64,
    text_end: u64,
    entry_addr: u64,
)
    ensures
        ({
            let flags = u32_at(
                writer_header(tier, sysemu, streaming, load_addr, text_start, text_end, entry_addr),
                12,
            );
            &&& (flags & 1u32 != 0) <==> sysemu
            &&& (flags & 2u32 != 0) <==> streaming
            &&& flags & 0xFFFF_FFFCu32 == 0
        }),
{
    let h = writer_header(tier, sysemu, streaming, load_addr, text_start, text_end, entry_addr);
    law_header_roundtrip(tier, sysemu, streaming, load_addr, text_start, text_end, entry_addr, Seq::empty());
    assert(h + Seq::<u8>::empty() =~= h);
    let f = header_flags(sysemu, streaming);
    assert(u32_at(h, 12) == f);
    assert(0u32 | 0u32 == 0u32 && 1u32 | 0u32 == 1u32 && 0u32 | 2u32 == 2u32 && 1u32 | 2u32 == 3u32
        && 0u32 & 1u32 == 0 && 0u32 & 2u32 == 0 && 0u32 & 0xFFFF_FFFCu32 == 0
        && 1u32 & 1u32 != 0 && 1u32 & 2u32 == 0 && 1u32 & 0xFFFF_FFFCu32 == 0
        && 2u32 & 1u32 == 0 && 2u32 & 2u32 != 0 && 2u32 & 0xFFFF_FFFCu32 == 0
        && 3u32 & 1u32 != 0 && 3u32 & 2u32 != 0 && 3u32 & 0xFFFF_FFFCu32 == 0) by (bit_vector);
}

/// The records a batch is split into.
pub open spec fn batch_chunks<T>(tag: u8, s: Seq<T>, max: nat, f: spec_fn(T) -> Seq<u8>) -> Seq<
    (u8, Seq<u8>),
>
    decreases s.len(),
{
    if s.len() == 0 || max == 0 {
        Seq::empty()
    } else if s.len() <= max {
        seq![(tag, batch_payload(s, f))]
    } else {
        seq![(tag, batch_payload(s.take(max as int), f))] + batch_chunks(
            tag,
            s.skip(max as int),
            max,
            f,
        )
    }
}

/// A written batch is the stream of its chunk records, each holding
/// at most `max` items; where an item is `w` bytes and `max` items fit
/// a record, every payload fits the length field.
pub proof fn law_batch_is_stream<T>(
    tag: u8,
    s: Seq<T>,
    max: nat,
    f: spec_fn(T) -> Seq<u8>,
    w: nat,
)
    requires
        forall|x: T| #[trigger] f(x).len() == w,
        max < 0x1_0000_0000,
        4 + w * max <= 0xFF_FFFF,
    ensures
        batch_records(tag, s, max, f) == tlv_stream(batch_chunks(tag, s, max, f)),
        payloads_fit(batch_chunks(tag, s, max, f)),
    decreases s.len(),
{
    let c = batch_chunks(tag, s, max, f);
    if s.len() == 0 || max == 0 {
        assert(tlv_stream(c) =~= Seq::<u8>::empty());
    } else if s.len() <= max {
        assert(c.drop_first() =~= Seq::<(u8, Seq<u8>)>::empty());
        assert(tlv_stream(c.drop_first()) =~= Seq::<u8>::empty());
        assert(tlv_stream(c) =~= tlv(tag, batch_payload(s, f)));
        lemma_concat_map_len(s, f, w);
        assert(w * s.len() <= w * max) by (nonlinear_arith)
            requires
                s.len() <= max,
        ;
    } else {
        law_batch_is_stream(tag, s.skip(max as int), max, f, w);
        let rest = batch_chunks(tag, s.skip(max as int), max, f);
        assert(c.drop_first() =~= rest);
        lemma_concat_map_len(s.take(max as int), f, w);
        assert forall|i: int| 0 <= i < c.len() implies (#[trigger] c[i]).1.len() <= 0xFF_FFFF by {
            if i > 0 {
                assert(c[i] == rest[i - 1]);
            }
        }
    }
}

proof fn lemma_apply_tb_batch(p: ProfileModel, pl: Seq<u8>)
    ensures
        apply_record(p, 0x13, pl) == (ProfileModel {
            tb_execs: p.tb_execs + spec_tb_exec_batch(pl),
            ..p
        }),
{
    reveal(apply_record);
}

proof fn lemma_apply_edge_batch(p: ProfileModel, tag: u8, pl: Seq<u8>)
    requires
        tag == 0x21 || tag == 0x23,
    ensures
        apply_record(p, tag, pl) == (if tag == 0x21 {
            ProfileModel { branch_edges: p.branch_edges + spec_edge_batch(pl), ..p }
        } else {
            ProfileModel { fall_through_edges: p.fall_through_edges + spec_edge_batch(pl), ..p }
        }),
{
    reveal(apply_record);
}

proof fn lemma_apply_call_batch(p: ProfileModel, tag: u8, pl: Seq<u8>)
    requires
        tag == 0x32 || tag == 0x33,
    ensures
        apply_record(p, tag, pl) == (if tag == 0x32 {
            ProfileModel { direct_calls: p.direct_calls + spec_call_batch(pl), ..p }
        } else {
            ProfileModel { indirect_calls: p.indirect_calls + spec_call_batch(pl), ..p }
        }),
{
    reveal(apply_record);
}

proof fn lemma_apply_all_cons(p: ProfileModel, c: Seq<(u8, Seq<u8>)>)
    requires
        c.len() > 0,
    ensures
        apply_all(p, c) == apply_all(apply_record(p, c[0].0, c[0].1), c.drop_first()),
{
}

proof fn lemma_apply_all_empty(p: ProfileModel, c: Seq<(u8, Seq<u8>)>)
    requires
        c.len() == 0,
    ensures
        apply_all(p, c) == p,
{
}

/// Reading the chunk records of a written TB exec batch appends all of
/// its entries, in order.
#[verifier::spinoff_prover]
#[verifier::rlimit(40)]
pub proof fn law_tb_exec_chunks(p: ProfileModel, s: Seq<(u64, u64, u16, u64, u64)>, max: nat)
    requires
        0 < max < 0x1_0000_0000,
    ensures
        apply_all(
            p,
            batch_chunks(0x13, s, max, |e: (u64, u64, u16, u64, u64)| tb_entry_bytes(e)),
        ) == (ProfileModel {
            tb_execs: p.tb_execs + s.map_values(|e: (u64, u64, u16, u64, u64)| tb_exec_of(e)),
            ..p
        }),
    decreases s.len(),
{
    let f = |e: (u64, u64, u16, u64, u64)| tb_entry_bytes(e);
    let g = |e: (u64, u64, u16, u64, u64)| tb_exec_of(e);
    let c = batch_chunks(0x13, s, max, f);
    if s.len() == 0 {
        assert(s.map_values(g) =~= Seq::<TbExec>::empty());
        assert(p.tb_execs + s.map_values(g) =~= p.tb_execs);
    } else if s.len() <= max {
        law_tb_exec_batch_roundtrip(s);
        assert(c.drop_first() =~= Seq::<(u8, Seq<u8>)>::empty());
        lemma_apply_all_cons(p, c);
        lemma_apply_tb_batch(p, batch_payload(s, f));
        lemma_apply_all_empty(apply_record(p, 0x13, batch_payload(s, f)), c.drop_first());
    } else {
        let head = s.take(max as int);
        let tail = s.skip(max as int);
        law_tb_exec_batch_roundtrip(head);
        assert(c.drop_first() =~= batch_chunks(0x13, tail, max, f));
        lemma_apply_all_cons(p, c);
        let p1 = ProfileModel { tb_execs: p.tb_execs + head.map_values(g), ..p };
        lemma_apply_tb_batch(p, batch_payload(head, f));
        assert(apply_record(p, 0x13, batch_payload(head, f)) == p1);
        law_tb_exec_chunks(p1, tail, max);
        assert(p.tb_execs + head.map_values(g) + tail.map_values(g) =~= p.tb_execs + s.map_values(
            g,
        ));
    }
}

/// Reading the chunk records of a written edge batch (branch, 0x21, or
/// fall-through, 0x23) appends all of its edges, in order.
#[verifier::spinoff_prover]
#[verifier::rlimit(40)]
pub proof fn law_edge_chunks(p: ProfileModel, tag: u8, s: Seq<(u64, u64, u64)>, max: nat)
    requires
        0 < max < 0x1_0000_0000,
        tag == 0x21 || tag == 0x23,
    ensures
        apply_all(p, batch_chunks(tag, s, max, |t: (u64, u64, u64)| triple_bytes(t))) == (if tag
            == 0x21 {
            ProfileModel {
                branch_edges: p.branch_edges + s.map_values(|t: (u64, u64, u64)| edge_of(t)),
                ..p
            }
        } else {
            ProfileModel {
                fall_through_edges: p.fall_through_edges + s.map_values(
                    |t: (u64, u64, u64)| edge_of(t),
                ),
                ..p
            }
        }),
    decreases s.len(),
{
    let f = |t: (u64, u64, u64)| triple_bytes(t);
    let g = |t: (u64, u64, u64)| edge_of(t);
    let c = batch_chunks(tag, s, max, f);
    if s.len() == 0 {
        assert(s.map_values(g) =~= Seq::<EdgeRecord>::empty());
        assert(p.branch_edges + s.map_values(g) =~= p.branch_edges);
        assert(p.fall_through_edges + s.map_values(g) =~= p.fall_through_edges);
    } else if s.len() <= max {
        law_edge_batch_roundtrip(s);
        assert(c.drop_first() =~= Seq::<(u8, Seq<u8>)>::empty());
        lemma_apply_all_cons(p, c);
        lemma_apply_edge_batch(p, tag, batch_payload(s, f));
        lemma_apply_all_empty(apply_record(p, tag, batch_payload(s, f)), c.drop_first());
    } else {
        let head = s.take(max as int);
        let tail = s.skip(max as int);
        law_edge_batch_roundtrip(head);
        lemma_apply_edge_batch(p, tag, batch_payload(head, f));
        assert(c.drop_first() =~= batch_chunks(tag, tail, max, f));
        lemma_apply_all_cons(p, c);
        let p1 = if tag == 0x21 {
            ProfileModel { branch_edges: p.branch_edges + head.map_values(g), ..p }
        } else {
            ProfileModel { fall_through_edges: p.fall_through_edges + head.map_values(g), ..p }
        };
        assert(apply_record(p, tag, batch_payload(head, f)) == p1);
        law_edge_chunks(p1, tag, tail, max);
        assert(p.branch_edges + head.map_values(g) + tail.map_values(g) =~= p.branch_edges
            + s.map_values(g));
        assert(p.fall_through_edges + head.map_values(g) + tail.map_values(g)
            =~= p.fall_through_edges + s.map_values(g));
    }
}

/// Reading the chunk records of a written call batch (direct, 0x32, or
/// indirect, 0x33) appends all of its calls, in order.
#[verifier::spinoff_prover]
#[verifier::rlimit(40)]
pub proof fn law_call_chunks(p: ProfileModel, tag: u8, s: Seq<(u64, u64, u64)>, max: nat)
    requires
        0 < max < 0x1_0000_0000,
        tag == 0x32 || tag == 0x33,
    ensures
        apply_all(p, batch_chunks(tag, s, max, |t: (u64, u64, u64)| triple_bytes(t))) == (if tag
            == 0x32 {
            ProfileModel {
                direct_calls: p.direct_calls + s.map_values(|t: (u64, u64, u64)| call_of(t)),
                ..p
            }
        } else {
            ProfileModel {
                indirect_calls: p.indirect_calls + s.map_values(|t: (u64, u64, u64)| call_of(t)),
                ..p
            }
        }),
    decreases s.len(),
{
    let f = |t: (u64, u64, u64)| triple_bytes(t);
    let g = |t: (u64, u64, u64)| call_of(t);
    let c = batch_chunks(tag, s, max, f);
    if s.len() == 0 {
        assert(s.map_values(g) =~= Seq::<CallRecord>::empty());
        assert(p.direct_calls + s.map_values(g) =~= p.direct_calls);
        assert(p.indirect_calls + s.map_values(g) =~= p.indirect_calls);
    } else if s.len() <= max {
        law_call_batch_roundtrip(s);
        assert(c.drop_first() =~= Seq::<(u8, Seq<u8>)>::empty());
        lemma_apply_all_cons(p, c);
        lemma_apply_call_batch(p, tag, batch_payload(s, f));
        lemma_apply_all_empty(apply_record(p, tag, batch_payload(s, f)), c.drop_first());
    } else {
        let head = s.take(max as int);
        let tail = s.skip(max as int);
        law_call_batch_roundtrip(head);
        lemma_apply_call_batch(p, tag, batch_payload(head, f));
        assert(c.drop_first() =~= batch_chunks(tag, tail, max, f));
        lemma_apply_all_cons(p, c);
        let p1 = if tag == 0x32 {
            ProfileModel { direct_calls: p.direct_calls + head.map_values(g), ..p }
        } else {
            ProfileModel { indirect_calls: p.indirect_calls + head.map_values(g), ..p }
        };
        assert(apply_record(p, tag, batch_payload(head, f)) == p1);
        law_call_chunks(p1, tag, tail, max);
        assert(p.direct_calls + head.map_values(g) + tail.map_values(g) =~= p.direct_calls
            + s.map_values(g));
        assert(p.indirect_calls + head.map_values(g) + tail.map_values(g) =~= p.indirect_calls
            + s.map_values(g));
    }
}


/// What the parser reads back of a written file: the writer's header
/// followed by any stream of records (each payload within the 24-bit
/// length) is accepted, and its records are applied in order.
#[verifier::spinoff_prover]
#[verifier::rlimit(40)]
pub proof fn law_profile_roundtrip(
    tier: u8,
    sysemu: bool,
    streaming: bool,
    load_addr: u64,
    text_start: u64,
    text_end: u64,
    entry_addr: u64,
    records: Seq<(u8, Seq<u8>)>,
)
    requires
        payloads_fit(records),
    ensures
        ({
            let data = writer_header(
                tier,
                sysemu,
                streaming,
                load_addr,
                text_start,
                text_end,
                entry_addr,
            ) + tlv_stream(records);
            &&& spec_header_error(data) is None
            &&& apply_records(empty_model(), data, 64) == apply_all(empty_model(), records)
        }),
{
    let h = writer_header(tier, sysemu, streaming, load_addr, text_start, text_end, entry_addr);
    let data = h + tlv_stream(records);
    assert(spec_header_error(data) is None) by {
        law_header_roundtrip(
            tier,
            sysemu,
            streaming,
            load_addr,
            text_start,
            text_end,
            entry_addr,
            tlv_stream(records),
        );
    }
    assert(h.len() == 64);
    law_stream_roundtrip(empty_model(), h, records);
}

} // verus!
