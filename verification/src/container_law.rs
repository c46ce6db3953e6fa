//! Reading back a whole container: what `decode_binary` gives for the bytes
//! `encode_binary` writes.
use crate::binary::{enc_bytes, enc_str, enc_value, encodable};
use crate::bytes::{le_bytes, le_value, lemma_le_bytes_len, lemma_le_roundtrip, lemma_pow256_values, pow256};
use crate::codec::{
    binary_decode, columnar_seg, container_bytes, entry_bytes, payload_of, seg_if, segments_of, table_bytes,
    value_data, SegV,
};
use crate::columnar_enc::{columnar_table_bytes, event_batch_bytes};
use crate::container::{
    container_entries, container_magic, first_of_kind, header_at, metadata_check, raw_entry, segment_bytes,
    segment_kind_byte, segment_kind_of, string_list_end, string_list_ok, table_at, SegmentEntry, SegmentKind,
    FLAG_LOGICAL_HASH, FLAG_SCHEMA_HASH, SX_BINARY_VERSION,
};
use crate::decode::bytes_at;
use crate::digest::spec_checksum32;
use crate::error::SxErrorCode;
use crate::metadata::{dictionary_bytes, enc_str_list, enc_strs, shape_table_bytes};
use crate::roundtrip::{decoded_form, holds, law_value_roundtrip, lemma_bytes_window, lemma_holds_split, roundtrips};
use crate::value::V;
use crate::columnar_law::{law_columnar_table_roundtrip, law_event_batch_roundtrip, lemma_batch_decoded, table_read_form};
use crate::fastpath::{first_codec_segment, hot_field_values, pick_field};
use crate::fastpath_law::law_batch_field;
use crate::container::{CODEC_COLUMNAR_EVENT_BATCH_V1, CODEC_COLUMNAR_TABLE_V1};
use crate::varint::{lemma_varint_window, spec_read_varint, varint_bytes};
use vstd::prelude::*;
use vstd::utf8::{encode_utf8, encode_utf8_valid_utf8};

verus! {

// ---------------------------------------------------------------------------
// String lists
// ---------------------------------------------------------------------------

pub proof fn lemma_enc_strs_first(l: Seq<Seq<char>>)
    requires
        l.len() > 0,
    ensures
        enc_strs(l) == enc_str(l[0]) + enc_strs(l.drop_first()),
    decreases l.len(),
{
    if l.len() == 1 {
        assert(l.drop_last() =~= Seq::<Seq<char>>::empty());
        assert(l.drop_first() =~= Seq::<Seq<char>>::empty());
        assert(enc_strs(l) =~= enc_str(l[0]) + enc_strs(l.drop_first()));
    } else {
        let d = l.drop_last();
        lemma_enc_strs_first(d);
        assert(d.drop_first() =~= l.drop_first().drop_last());
        assert(l.drop_first().last() == l.last());
        assert(d[0] == l[0]);
        assert(enc_strs(l) =~= enc_str(l[0]) + enc_strs(l.drop_first()));
    }
}

proof fn lemma_strs_read(b: Seq<u8>, pos: int, l: Seq<Seq<char>>)
    requires
        holds(b, pos, enc_strs(l)),
        b.len() <= usize::MAX,
    ensures
        string_list_end(b, pos, l.len()) == Some(pos + enc_strs(l).len()),
    decreases l.len(),
{
    if l.len() > 0 {
        lemma_enc_strs_first(l);
        lemma_holds_split(b, pos, enc_str(l[0]), enc_strs(l.drop_first()));
        lemma_bytes_window(b, pos, encode_utf8(l[0]));
        encode_utf8_valid_utf8(l[0]);
        lemma_strs_read(b, pos + enc_str(l[0]).len(), l.drop_first());
    }
}

proof fn lemma_enc_strs_len(l: Seq<Seq<char>>)
    ensures
        enc_strs(l).len() >= l.len(),
    decreases l.len(),
{
    if l.len() > 0 {
        lemma_enc_strs_len(l.drop_last());
        let u = encode_utf8(l.last());
        assert(varint_bytes(u.len()).len() >= 1);
    }
}

/// A written string list passes the string-list check.
proof fn lemma_string_list_ok(l: Seq<Seq<char>>)
    requires
        enc_str_list(l).len() <= usize::MAX,
    ensures
        string_list_ok(enc_str_list(l)),
{
    let e = enc_str_list(l);
    let vb = varint_bytes(l.len());
    assert(e.subrange(0, vb.len() as int) =~= vb);
    lemma_enc_strs_len(l);
    assert(l.len() <= usize::MAX);
    lemma_varint_window(e, 0, l.len() as u64);
    assert(e.subrange(vb.len() as int, (vb.len() + enc_strs(l).len()) as int) =~= enc_strs(l));
    lemma_strs_read(e, vb.len() as int, l);
}

// ---------------------------------------------------------------------------
// Layout of the payloads and the segment table
// ---------------------------------------------------------------------------

proof fn lemma_payload_concat(a: Seq<SegV>, c: Seq<SegV>)
    ensures
        payload_of(a + c) == payload_of(a) + payload_of(c),
    decreases c.len(),
{
    if c.len() == 0 {
        assert(a + c =~= a);
        assert(payload_of(a) + payload_of(c) =~= payload_of(a));
    } else {
        lemma_payload_concat(a, c.drop_last());
        assert((a + c).drop_last() =~= a + c.drop_last());
        assert((a + c).last() == c.last());
        assert(payload_of(a + c) =~= payload_of(a) + payload_of(c));
    }
}

/// The offset of segment `j`'s payload among the payloads.
pub open spec fn payload_offset(segs: Seq<SegV>, j: int) -> nat {
    payload_of(segs.take(j)).len()
}

proof fn lemma_payload_at(segs: Seq<SegV>, j: int)
    requires
        0 <= j < segs.len(),
    ensures
        payload_offset(segs, j) + segs[j].data.len() <= payload_of(segs).len(),
        payload_of(segs).subrange(
            payload_offset(segs, j) as int,
            (payload_offset(segs, j) + segs[j].data.len()) as int,
        ) == segs[j].data,
        payload_offset(segs, j + 1) == payload_offset(segs, j) + segs[j].data.len(),
{
    let a = segs.take(j);
    let one = seq![segs[j]];
    let c = segs.skip(j + 1);
    assert(segs =~= a + one + c);
    lemma_payload_concat(a + one, c);
    lemma_payload_concat(a, one);
    assert(one.drop_last() =~= Seq::<SegV>::empty());
    assert(one.last() == segs[j]);
    assert(payload_of(Seq::<SegV>::empty()) =~= Seq::<u8>::empty());
    assert(payload_of(one) =~= segs[j].data);
    assert(segs.take(j + 1) =~= a + one);
    let p = payload_of(segs);
    assert(p =~= payload_of(a) + segs[j].data + payload_of(c));
    assert(p.subrange(payload_of(a).len() as int, (payload_of(a).len() + segs[j].data.len()) as int) =~= segs[j].data);
}

proof fn lemma_entry_len(s: SegV, off: nat)
    ensures
        entry_bytes(s, off).len() == 16,
{
    lemma_le_bytes_len(s.id as nat, 2);
    lemma_le_bytes_len(off, 4);
    lemma_le_bytes_len(s.data.len(), 4);
    lemma_le_bytes_len(spec_checksum32(s.data) as nat, 4);
}

proof fn lemma_table_len(segs: Seq<SegV>, base: nat)
    ensures
        table_bytes(segs, base).len() == 16 * segs.len(),
    decreases segs.len(),
{
    if segs.len() > 0 {
        lemma_table_len(segs.drop_last(), base);
        lemma_entry_len(segs.last(), base + payload_of(segs.drop_last()).len());
    }
}

proof fn lemma_table_prefix(segs: Seq<SegV>, base: nat, k: int)
    requires
        0 <= k <= segs.len(),
    ensures
        16 * k <= table_bytes(segs, base).len(),
        table_bytes(segs, base).subrange(0, 16 * k) == table_bytes(segs.take(k), base),
    decreases segs.len(),
{
    lemma_table_len(segs, base);
    lemma_table_len(segs.take(k), base);
    if k == segs.len() {
        assert(segs.take(k) =~= segs);
        assert(table_bytes(segs, base).subrange(0, 16 * k) =~= table_bytes(segs, base));
    } else {
        let d = segs.drop_last();
        lemma_table_prefix(d, base, k);
        assert(d.take(k) =~= segs.take(k));
        lemma_table_len(d, base);
        assert(table_bytes(segs, base).subrange(0, 16 * k) =~= table_bytes(d, base).subrange(0, 16 * k));
    }
}

/// The table entry of segment `j`.
proof fn lemma_table_entry(segs: Seq<SegV>, base: nat, j: int)
    requires
        0 <= j < segs.len(),
    ensures
        16 * j + 16 <= table_bytes(segs, base).len(),
        table_bytes(segs, base).subrange(16 * j, 16 * j + 16) == entry_bytes(
            segs[j],
            base + payload_offset(segs, j),
        ),
{
    lemma_table_prefix(segs, base, j + 1);
    let t = segs.take(j + 1);
    assert(t.drop_last() =~= segs.take(j));
    assert(t.last() == segs[j]);
    lemma_table_len(segs.take(j), base);
    lemma_entry_len(segs[j], base + payload_offset(segs, j));
    let whole = table_bytes(segs, base);
    assert(whole.subrange(16 * j, 16 * j + 16) =~= whole.subrange(0, 16 * (j + 1)).subrange(16 * j, 16 * j + 16));
    assert(table_bytes(t, base).subrange(16 * j, 16 * j + 16) =~= entry_bytes(segs[j], base + payload_offset(segs, j)));
}

/// The fields of an entry read back.
proof fn lemma_raw_entry(b: Seq<u8>, q: int, s: SegV, off: nat)
    requires
        0 <= q,
        q + 16 <= b.len(),
        b.subrange(q, q + 16) == entry_bytes(s, off),
        off < 0x1_0000_0000,
        s.data.len() < 0x1_0000_0000,
    ensures
        raw_entry(b, q) == (
            s.id as nat,
            segment_kind_byte(s.kind),
            s.codec,
            off,
            s.data.len(),
            spec_checksum32(s.data) as nat,
        ),
{
    lemma_pow256_values();
    lemma_le_roundtrip(s.id as nat, 2);
    lemma_le_roundtrip(off, 4);
    lemma_le_roundtrip(s.data.len(), 4);
    lemma_le_roundtrip(spec_checksum32(s.data) as nat, 4);
    let e = entry_bytes(s, off);
    assert(b.subrange(q, q + 2) =~= e.subrange(0, 2));
    assert(e.subrange(0, 2) =~= le_bytes(s.id as nat, 2));
    assert(b[q + 2] == e[2]);
    assert(b[q + 3] == e[3]);
    assert(b.subrange(q + 4, q + 8) =~= e.subrange(4, 8));
    assert(e.subrange(4, 8) =~= le_bytes(off, 4));
    assert(b.subrange(q + 8, q + 12) =~= e.subrange(8, 12));
    assert(e.subrange(8, 12) =~= le_bytes(s.data.len(), 4));
    assert(b.subrange(q + 12, q + 16) =~= e.subrange(12, 16));
    assert(e.subrange(12, 16) =~= le_bytes(spec_checksum32(s.data) as nat, 4));
}

} // verus!

verus! {

// ---------------------------------------------------------------------------
// The header and the segment table read back
// ---------------------------------------------------------------------------

pub open spec fn hashes_of(sh: Option<Seq<u8>>, lh: Option<Seq<u8>>) -> Seq<u8> {
    (match sh {
        Some(h) => h,
        None => Seq::empty(),
    }) + (match lh {
        Some(h) => h,
        None => Seq::empty(),
    })
}

pub open spec fn header_len(sh: Option<Seq<u8>>, lh: Option<Seq<u8>>) -> nat {
    11 + hashes_of(sh, lh).len()
}

pub open spec fn table_base(segs: Seq<SegV>, sh: Option<Seq<u8>>, lh: Option<Seq<u8>>) -> nat {
    header_len(sh, lh) + 16 * segs.len()
}

/// Where the parts of a container lie.
proof fn lemma_container_layout(segs: Seq<SegV>, sh: Option<Seq<u8>>, lh: Option<Seq<u8>>)
    ensures
        ({
            let b = container_bytes(segs, sh, lh);
            let hl = header_len(sh, lh) as int;
            let base = table_base(segs, sh, lh) as int;
            let p = payload_of(segs);
            &&& b.len() == base + p.len()
            &&& b.subrange(0, 3) == container_magic()
            &&& b[3] == SX_BINARY_VERSION
            &&& b[4] == ((if sh is Some {
                FLAG_SCHEMA_HASH as int
            } else {
                0
            }) + (if lh is Some {
                FLAG_LOGICAL_HASH as int
            } else {
                0
            })) as u8
            &&& b.subrange(5, 9) == le_bytes(base as nat + p.len(), 4)
            &&& b.subrange(9, 11) == le_bytes(segs.len(), 2)
            &&& b.subrange(hl, base) == table_bytes(segs, base as nat)
            &&& b.subrange(base, base + p.len()) == p
        }),
{
    let b = container_bytes(segs, sh, lh);
    let base = table_base(segs, sh, lh);
    let p = payload_of(segs);
    let h = hashes_of(sh, lh);
    let t = table_bytes(segs, base);
    lemma_le_bytes_len(base + p.len(), 4);
    lemma_le_bytes_len(segs.len(), 2);
    lemma_table_len(segs, base);
    let head = container_magic() + seq![SX_BINARY_VERSION, b[4]] + le_bytes(base + p.len(), 4) + le_bytes(segs.len(), 2);
    assert(b =~= head + h + t + p);
    assert(b.subrange(0, 3) =~= container_magic());
    assert(b.subrange(5, 9) =~= le_bytes(base + p.len(), 4));
    assert(b.subrange(9, 11) =~= le_bytes(segs.len(), 2));
    assert(b.subrange((11 + h.len()) as int, base as int) =~= t);
    assert(b.subrange(base as int, (base + p.len()) as int) =~= p);
}

proof fn lemma_flag_bits(sh: bool, lh: bool)
    ensures
        ({
            let f = ((if sh {
                FLAG_SCHEMA_HASH as int
            } else {
                0
            }) + (if lh {
                FLAG_LOGICAL_HASH as int
            } else {
                0
            })) as u8;
            &&& (f & FLAG_SCHEMA_HASH != 0) == sh
            &&& (f & FLAG_LOGICAL_HASH != 0) == lh
        }),
{
    assert(0u8 & 1u8 == 0u8 && 0u8 & 2u8 == 0u8) by (bit_vector);
    assert(1u8 & 1u8 != 0u8 && 1u8 & 2u8 == 0u8) by (bit_vector);
    assert(2u8 & 1u8 == 0u8 && 2u8 & 2u8 != 0u8) by (bit_vector);
    assert(3u8 & 1u8 != 0u8 && 3u8 & 2u8 != 0u8) by (bit_vector);
}

/// The header of a written container reads back.
proof fn lemma_header(segs: Seq<SegV>, sh: Option<Seq<u8>>, lh: Option<Seq<u8>>)
    requires
        sh matches Some(h) ==> h.len() == 32,
        lh matches Some(h) ==> h.len() == 32,
        segs.len() <= 6,
        container_bytes(segs, sh, lh).len() < 0x1_0000_0000,
    ensures
        header_at(container_bytes(segs, sh, lh)) == Ok::<(int, nat), SxErrorCode>(
            (header_len(sh, lh) as int, segs.len()),
        ),
{
    let b = container_bytes(segs, sh, lh);
    lemma_container_layout(segs, sh, lh);
    lemma_pow256_values();
    lemma_le_roundtrip(b.len(), 4);
    lemma_le_roundtrip(segs.len(), 2);
    lemma_flag_bits(sh is Some, lh is Some);
    let hl = 11 + (if b[4] & FLAG_SCHEMA_HASH != 0 {
        32int
    } else {
        0int
    }) + (if b[4] & FLAG_LOGICAL_HASH != 0 {
        32int
    } else {
        0int
    });
    assert(hl == header_len(sh, lh));
}

/// The table entry read for segment `i` at `base`.
pub open spec fn entry_of(segs: Seq<SegV>, base: nat, i: int) -> SegmentEntry {
    SegmentEntry {
        id: segs[i].id,
        kind: segs[i].kind,
        codec: segs[i].codec & 0x7f,
        offset: (base + payload_offset(segs, i)) as u32,
        length: segs[i].data.len() as u32,
        checksum: spec_checksum32(segs[i].data),
    }
}

pub open spec fn entries_of(segs: Seq<SegV>, base: nat) -> Seq<SegmentEntry> {
    Seq::new(segs.len(), |i: int| entry_of(segs, base, i))
}

/// A kind the table parser takes as it is and does not skip.
pub open spec fn plain_kind(k: SegmentKind) -> bool {
    segment_kind_of(segment_kind_byte(k)) == Some(k) && k != SegmentKind::Extension
}

#[verifier::spinoff_prover]
#[verifier::rlimit(50)]
proof fn lemma_table_read(segs: Seq<SegV>, sh: Option<Seq<u8>>, lh: Option<Seq<u8>>, j: int)
    requires
        0 <= j <= segs.len(),
        segs.len() <= 6,
        container_bytes(segs, sh, lh).len() < 0x1_0000_0000,
        forall|i: int| 0 <= i < segs.len() ==> plain_kind(#[trigger] segs[i].kind),
    ensures
        table_at(
            container_bytes(segs, sh, lh),
            header_len(sh, lh) + 16 * j,
            (segs.len() - j) as nat,
            entries_of(segs, table_base(segs, sh, lh)).take(j),
        ) == Ok::<Seq<SegmentEntry>, SxErrorCode>(entries_of(segs, table_base(segs, sh, lh))),
    decreases segs.len() - j,
{
    let b = container_bytes(segs, sh, lh);
    let base = table_base(segs, sh, lh);
    let es = entries_of(segs, base);
    let hl = header_len(sh, lh) as int;
    lemma_container_layout(segs, sh, lh);
    if j == segs.len() {
        assert(es.take(j) =~= es);
    } else {
        let s = segs[j];
        let off = base + payload_offset(segs, j);
        lemma_table_entry(segs, base, j);
        lemma_payload_at(segs, j);
        let t = table_bytes(segs, base);
        assert(b.subrange(hl + 16 * j, hl + 16 * j + 16) =~= t.subrange(16 * j, 16 * j + 16));
        lemma_raw_entry(b, hl + 16 * j, s, off);
        let p = payload_of(segs);
        assert(b.subrange(off as int, (off + s.data.len()) as int) =~= p.subrange(
            payload_offset(segs, j) as int,
            (payload_offset(segs, j) + s.data.len()) as int,
        ));
        assert(plain_kind(segs[j].kind));
        lemma_table_read(segs, sh, lh, j + 1);
        assert(es.take(j).push(entry_of(segs, base, j)) =~= es.take(j + 1));
    }
}

// ---------------------------------------------------------------------------
// Finding segments and checking metadata
// ---------------------------------------------------------------------------

proof fn lemma_no_kind(es: Seq<SegmentEntry>, k: SegmentKind)
    requires
        forall|i: int| 0 <= i < es.len() ==> (#[trigger] es[i]).kind != k,
    ensures
        first_of_kind(es, k) is None,
    decreases es.len(),
{
    if es.len() > 0 {
        assert forall|i: int| 0 <= i < es.drop_first().len() implies (#[trigger] es.drop_first()[i]).kind != k by {
            assert(es.drop_first()[i] == es[i + 1]);
        }
        lemma_no_kind(es.drop_first(), k);
    }
}

proof fn lemma_metadata_ok(b: Seq<u8>, es: Seq<SegmentEntry>)
    requires
        forall|i: int|
            0 <= i < es.len() ==> ((#[trigger] es[i]).kind == SegmentKind::Dictionary || es[i].kind
                == SegmentKind::ShapeTable) ==> string_list_ok(segment_bytes(b, es[i])),
    ensures
        metadata_check(b, es) == Ok::<(), SxErrorCode>(()),
    decreases es.len(),
{
    if es.len() > 0 {
        assert(es[0] == es[0]);
        assert forall|i: int| 0 <= i < es.drop_first().len() implies ((#[trigger] es.drop_first()[i]).kind
            == SegmentKind::Dictionary || es.drop_first()[i].kind == SegmentKind::ShapeTable) ==> string_list_ok(
            segment_bytes(b, es.drop_first()[i]),
        ) by {
            assert(es.drop_first()[i] == es[i + 1]);
        }
        lemma_metadata_ok(b, es.drop_first());
    }
}

} // verus!

verus! {

// ---------------------------------------------------------------------------
// The segments written for a value
// ---------------------------------------------------------------------------

/// A segment as `encode_binary` writes it for `v`, outside columnar data.
pub open spec fn good_seg(v: V, s: SegV) -> bool {
    &&& s.codec == 0
    &&& plain_kind(s.kind)
    &&& s.kind != SegmentKind::ColumnData
    &&& s.kind == SegmentKind::ShapeTable ==> s.data == shape_table_bytes(v)
    &&& s.kind == SegmentKind::Dictionary ==> s.data == dictionary_bytes(v)
}

pub open spec fn all_good(v: V, x: Seq<SegV>) -> bool {
    forall|i: int| 0 <= i < x.len() ==> good_seg(v, #[trigger] x[i])
}

proof fn lemma_all_good_concat(v: V, x: Seq<SegV>, y: Seq<SegV>)
    requires
        all_good(v, x),
        all_good(v, y),
    ensures
        all_good(v, x + y),
{
    assert forall|i: int| 0 <= i < (x + y).len() implies good_seg(v, #[trigger] (x + y)[i]) by {
        if i < x.len() {
            assert((x + y)[i] == x[i]);
        } else {
            assert((x + y)[i] == y[i - x.len()]);
        }
    }
}

proof fn lemma_seg_if_good(v: V, id: u16, kind: SegmentKind, data: Seq<u8>)
    requires
        kind == SegmentKind::ShapeTable || kind == SegmentKind::Dictionary || kind == SegmentKind::HotIndex || kind
            == SegmentKind::PresenceMap,
        kind == SegmentKind::ShapeTable ==> data == shape_table_bytes(v),
        kind == SegmentKind::Dictionary ==> data == dictionary_bytes(v),
    ensures
        all_good(v, seg_if(id, kind, data)),
{
}

/// The segments of a value that is not stored in columns: its own encoding
/// first, then metadata segments the table parser takes as they are.
proof fn lemma_segments_shape(v: V)
    requires
        segments_of(v) is Some,
        columnar_seg(v) == Seq::<SegV>::empty(),
    ensures
        ({
            let segs = segments_of(v)->Some_0;
            &&& 1 <= segs.len() <= 5
            &&& segs[0] == SegV { id: 1, kind: SegmentKind::ValueData, codec: 0, data: enc_value(v) }
            &&& all_good(v, segs)
        }),
{
    assert(event_batch_bytes(v) is None);
    assert(columnar_table_bytes(v) is None);
    assert(encodable(v));
    let s1 = seq![SegV { id: 1, kind: SegmentKind::ValueData, codec: 0, data: enc_value(v) }];
    let a = seg_if(2, SegmentKind::ShapeTable, shape_table_bytes(v));
    let b = seg_if(3, SegmentKind::Dictionary, dictionary_bytes(v));
    let c = seg_if(4, SegmentKind::HotIndex, crate::metadata::hot_index_bytes(v));
    let d = seg_if(5, SegmentKind::PresenceMap, crate::metadata::presence_bytes(v));
    assert(all_good(v, s1)) by {
        assert(s1[0].kind == SegmentKind::ValueData);
    }
    lemma_seg_if_good(v, 2, SegmentKind::ShapeTable, shape_table_bytes(v));
    lemma_seg_if_good(v, 3, SegmentKind::Dictionary, dictionary_bytes(v));
    lemma_seg_if_good(v, 4, SegmentKind::HotIndex, crate::metadata::hot_index_bytes(v));
    lemma_seg_if_good(v, 5, SegmentKind::PresenceMap, crate::metadata::presence_bytes(v));
    lemma_all_good_concat(v, s1, a);
    lemma_all_good_concat(v, s1 + a, b);
    lemma_all_good_concat(v, s1 + a + b, c);
    lemma_all_good_concat(v, s1 + a + b + c, d);
    let segs = segments_of(v)->Some_0;
    assert(segs =~= s1 + a + b + c + d + columnar_seg(v));
    assert(s1 + a + b + c + d + columnar_seg(v) =~= s1 + a + b + c + d);
}

/// The bytes an entry of a written container points at are its segment.
proof fn lemma_segment_bytes(segs: Seq<SegV>, sh: Option<Seq<u8>>, lh: Option<Seq<u8>>, i: int)
    requires
        0 <= i < segs.len(),
        container_bytes(segs, sh, lh).len() < 0x1_0000_0000,
    ensures
        segment_bytes(container_bytes(segs, sh, lh), entries_of(segs, table_base(segs, sh, lh))[i]) == segs[i].data,
{
    let b = container_bytes(segs, sh, lh);
    let base = table_base(segs, sh, lh);
    lemma_container_layout(segs, sh, lh);
    lemma_payload_at(segs, i);
    let off = base + payload_offset(segs, i);
    let p = payload_of(segs);
    assert(b.subrange(off as int, (off + segs[i].data.len()) as int) =~= p.subrange(
        payload_offset(segs, i) as int,
        (payload_offset(segs, i) + segs[i].data.len()) as int,
    ));
}

/// A container written without a columnar segment reads back as the
/// value's decoded form.
#[verifier::spinoff_prover]
#[verifier::rlimit(50)]
proof fn lemma_roundtrip_plain(v: V, sh: Option<Seq<u8>>, lh: Option<Seq<u8>>)
    requires
        roundtrips(v),
        segments_of(v) is Some,
        columnar_seg(v) == Seq::<SegV>::empty(),
        sh matches Some(h) ==> h.len() == 32,
        lh matches Some(h) ==> h.len() == 32,
        container_bytes(segments_of(v)->Some_0, sh, lh).len() < 0x1_0000_0000,
    ensures
        binary_decode(container_bytes(segments_of(v)->Some_0, sh, lh)) == Ok::<V, SxErrorCode>(decoded_form(v)),
{
    let segs = segments_of(v)->Some_0;
    let b = container_bytes(segs, sh, lh);
    let base = table_base(segs, sh, lh);
    let es = entries_of(segs, base);
    lemma_segments_shape(v);
    lemma_header(segs, sh, lh);
    assert forall|i: int| 0 <= i < segs.len() implies plain_kind(#[trigger] segs[i].kind) by {
        assert(good_seg(v, segs[i]));
    }
    lemma_table_read(segs, sh, lh, 0);
    assert(es.take(0) =~= Seq::<SegmentEntry>::empty());
    assert(container_entries(b) == Ok::<Seq<SegmentEntry>, SxErrorCode>(es));
    lemma_container_layout(segs, sh, lh);
    assert forall|i: int|
        0 <= i < es.len() implies ((#[trigger] es[i]).kind == SegmentKind::Dictionary || es[i].kind
        == SegmentKind::ShapeTable) ==> string_list_ok(segment_bytes(b, es[i])) by {
        assert(good_seg(v, segs[i]));
        lemma_segment_bytes(segs, sh, lh, i);
        lemma_payload_at(segs, i);
        if es[i].kind == SegmentKind::Dictionary {
            lemma_string_list_ok(crate::sorted_set::sorted_distinct(
                crate::metadata::collect_strings(v),
                crate::sorted_set::key_order(),
            ));
        } else if es[i].kind == SegmentKind::ShapeTable {
            lemma_string_list_ok(
                crate::sorted_set::sorted_distinct(
                    crate::metadata::collect_shapes(v),
                    crate::sorted_set::shape_order(),
                ).map_values(|s: Seq<Seq<char>>| crate::metadata::join_keys(s)),
            );
        }
    }
    lemma_metadata_ok(b, es);
    assert forall|i: int| 0 <= i < es.len() implies (#[trigger] es[i]).kind != SegmentKind::ColumnData by {
        assert(good_seg(v, segs[i]));
    }
    lemma_no_kind(es, SegmentKind::ColumnData);
    assert(es[0].kind == SegmentKind::ValueData);
    assert(first_of_kind(es, SegmentKind::ValueData) == Some(es[0]));
    lemma_segment_bytes(segs, sh, lh, 0);
    lemma_payload_at(segs, 0);
    law_value_roundtrip(v);
}


/// The segments of a value written in columns: the marker value, metadata
/// segments the table parser takes as they are, and last the columnar
/// payload.
proof fn lemma_segments_shape_col(v: V)
    requires
        segments_of(v) is Some,
        columnar_seg(v).len() > 0,
    ensures
        ({
            let segs = segments_of(v)->Some_0;
            &&& 2 <= segs.len() <= 6
            &&& segs.last() == columnar_seg(v)[0]
            &&& forall|i: int| 0 <= i < segs.len() - 1 ==> good_seg(v, #[trigger] segs[i])
        }),
{
    let s1 = seq![SegV { id: 1, kind: SegmentKind::ValueData, codec: 0, data: value_data(v)->Some_0 }];
    let a = seg_if(2, SegmentKind::ShapeTable, shape_table_bytes(v));
    let b = seg_if(3, SegmentKind::Dictionary, dictionary_bytes(v));
    let c = seg_if(4, SegmentKind::HotIndex, crate::metadata::hot_index_bytes(v));
    let d = seg_if(5, SegmentKind::PresenceMap, crate::metadata::presence_bytes(v));
    assert(all_good(v, s1)) by {
        assert(s1[0].kind == SegmentKind::ValueData);
    }
    lemma_seg_if_good(v, 2, SegmentKind::ShapeTable, shape_table_bytes(v));
    lemma_seg_if_good(v, 3, SegmentKind::Dictionary, dictionary_bytes(v));
    lemma_seg_if_good(v, 4, SegmentKind::HotIndex, crate::metadata::hot_index_bytes(v));
    lemma_seg_if_good(v, 5, SegmentKind::PresenceMap, crate::metadata::presence_bytes(v));
    lemma_all_good_concat(v, s1, a);
    lemma_all_good_concat(v, s1 + a, b);
    lemma_all_good_concat(v, s1 + a + b, c);
    lemma_all_good_concat(v, s1 + a + b + c, d);
    let front = s1 + a + b + c + d;
    let col = columnar_seg(v);
    let segs = segments_of(v)->Some_0;
    assert(segs =~= front + col);
    assert(col.len() == 1);
    assert forall|i: int| 0 <= i < segs.len() - 1 implies good_seg(v, #[trigger] segs[i]) by {
        assert(segs[i] == front[i]);
    }
}

proof fn lemma_first_kind_at(es: Seq<SegmentEntry>, k: SegmentKind, j: int)
    requires
        0 <= j < es.len(),
        es[j].kind == k,
        forall|i: int| 0 <= i < j ==> (#[trigger] es[i]).kind != k,
    ensures
        first_of_kind(es, k) == Some(es[j]),
    decreases j,
{
    if j > 0 {
        assert forall|i: int| 0 <= i < j - 1 implies (#[trigger] es.drop_first()[i]).kind != k by {
            assert(es.drop_first()[i] == es[i + 1]);
        }
        lemma_first_kind_at(es.drop_first(), k, j - 1);
    }
}

/// What a written value reads back as: its decoded form, except that a
/// table stored in columns comes back with every column in generic values.
pub open spec fn read_back_form(v: V) -> V {
    match v {
        V::Table(cols) => if columnar_table_bytes(v) is Some {
            V::Table(table_read_form(cols))
        } else {
            decoded_form(v)
        },
        _ => decoded_form(v),
    }
}

/// A container written with a columnar segment reads back as
/// `read_back_form`.
#[verifier::spinoff_prover]
#[verifier::rlimit(60)]
proof fn lemma_roundtrip_columnar(v: V, sh: Option<Seq<u8>>, lh: Option<Seq<u8>>)
    requires
        roundtrips(v),
        segments_of(v) is Some,
        columnar_seg(v).len() > 0,
        sh matches Some(h) ==> h.len() == 32,
        lh matches Some(h) ==> h.len() == 32,
        container_bytes(segments_of(v)->Some_0, sh, lh).len() < 0x1_0000_0000,
    ensures
        binary_decode(container_bytes(segments_of(v)->Some_0, sh, lh)) == Ok::<V, SxErrorCode>(read_back_form(v)),
{
    let segs = segments_of(v)->Some_0;
    let b = container_bytes(segs, sh, lh);
    let base = table_base(segs, sh, lh);
    let es = entries_of(segs, base);
    let last = segs.len() - 1;
    lemma_segments_shape_col(v);
    lemma_header(segs, sh, lh);
    assert(plain_kind(SegmentKind::ColumnData));
    assert forall|i: int| 0 <= i < segs.len() implies plain_kind(#[trigger] segs[i].kind) by {
        if i < last {
            assert(good_seg(v, segs[i]));
        } else {
            assert(segs[i] == segs.last());
        }
    }
    lemma_table_read(segs, sh, lh, 0);
    assert(es.take(0) =~= Seq::<SegmentEntry>::empty());
    assert(container_entries(b) == Ok::<Seq<SegmentEntry>, SxErrorCode>(es));
    lemma_container_layout(segs, sh, lh);
    assert forall|i: int|
        0 <= i < es.len() implies ((#[trigger] es[i]).kind == SegmentKind::Dictionary || es[i].kind
        == SegmentKind::ShapeTable) ==> string_list_ok(segment_bytes(b, es[i])) by {
        if i == last {
            assert(segs[i] == segs.last());
        } else {
            assert(good_seg(v, segs[i]));
            lemma_segment_bytes(segs, sh, lh, i);
            lemma_payload_at(segs, i);
            if es[i].kind == SegmentKind::Dictionary {
                lemma_string_list_ok(crate::sorted_set::sorted_distinct(
                    crate::metadata::collect_strings(v),
                    crate::sorted_set::key_order(),
                ));
            } else if es[i].kind == SegmentKind::ShapeTable {
                lemma_string_list_ok(
                    crate::sorted_set::sorted_distinct(
                        crate::metadata::collect_shapes(v),
                        crate::sorted_set::shape_order(),
                    ).map_values(|s: Seq<Seq<char>>| crate::metadata::join_keys(s)),
                );
            }
        }
    }
    lemma_metadata_ok(b, es);
    assert forall|i: int| 0 <= i < last implies (#[trigger] es[i]).kind != SegmentKind::ColumnData by {
        assert(good_seg(v, segs[i]));
    }
    assert(segs[last] == segs.last());
    lemma_first_kind_at(es, SegmentKind::ColumnData, last);
    assert((CODEC_COLUMNAR_EVENT_BATCH_V1 & 0x7f) == CODEC_COLUMNAR_EVENT_BATCH_V1) by (bit_vector);
    assert((CODEC_COLUMNAR_TABLE_V1 & 0x7f) == CODEC_COLUMNAR_TABLE_V1) by (bit_vector);
    lemma_segment_bytes(segs, sh, lh, last);
    lemma_payload_at(segs, last);
    let cb = segs[last].data;
    assert(segment_bytes(b, es[last]) == cb);
    assert(cb.len() < 0x1_0000_0000);
    match v {
        V::Array(rows) => {
            assert(es[last].codec == CODEC_COLUMNAR_EVENT_BATCH_V1);
            law_event_batch_roundtrip(rows);
        },
        V::Table(cols) => {
            assert(es[last].codec == CODEC_COLUMNAR_TABLE_V1);
            law_columnar_table_roundtrip(cols);
        },
        _ => {},
    }
}

/// Law: what `decode_binary` reads from the container `encode_binary` writes
/// for a value is `read_back_form` of the value, for containers under 4 GiB:
/// its decoded form (the value with the widenings the format makes), or for
/// a table stored in columns, the table with each column in generic values.
pub proof fn law_binary_roundtrip(v: V, sh: Option<Seq<u8>>, lh: Option<Seq<u8>>)
    requires
        roundtrips(v),
        segments_of(v) is Some,
        sh matches Some(h) ==> h.len() == 32,
        lh matches Some(h) ==> h.len() == 32,
        container_bytes(segments_of(v)->Some_0, sh, lh).len() < 0x1_0000_0000,
    ensures
        binary_decode(container_bytes(segments_of(v)->Some_0, sh, lh)) == Ok::<V, SxErrorCode>(read_back_form(v)),
        columnar_table_bytes(v) is None ==> read_back_form(v) == decoded_form(v),
{
    if columnar_seg(v).len() > 0 {
        lemma_roundtrip_columnar(v, sh, lh);
    } else {
        assert(columnar_seg(v) =~= Seq::<SegV>::empty());
        assert(columnar_table_bytes(v) is None);
        lemma_roundtrip_plain(v, sh, lh);
    }
}

proof fn lemma_first_codec_at(es: Seq<SegmentEntry>, codec: u8, j: int)
    requires
        0 <= j < es.len(),
        es[j].kind == SegmentKind::ColumnData,
        es[j].codec == codec,
        forall|i: int| 0 <= i < j ==> (#[trigger] es[i]).kind != SegmentKind::ColumnData,
    ensures
        first_codec_segment(es, codec) == Some(es[j]),
    decreases j,
{
    if j > 0 {
        assert forall|i: int| 0 <= i < j - 1 implies (#[trigger] es.drop_first()[i]).kind != SegmentKind::ColumnData by {
            assert(es.drop_first()[i] == es[i + 1]);
        }
        lemma_first_codec_at(es.drop_first(), codec, j - 1);
    }
}

proof fn lemma_no_codec(es: Seq<SegmentEntry>, codec: u8)
    requires
        forall|i: int| 0 <= i < es.len() ==> !((#[trigger] es[i]).kind == SegmentKind::ColumnData && es[i].codec == codec),
    ensures
        first_codec_segment(es, codec) is None,
    decreases es.len(),
{
    if es.len() > 0 {
        assert forall|i: int| 0 <= i < es.drop_first().len() implies !((#[trigger] es.drop_first()[i]).kind
            == SegmentKind::ColumnData && es.drop_first()[i].codec == codec) by {
            assert(es.drop_first()[i] == es[i + 1]);
        }
        lemma_no_codec(es.drop_first(), codec);
    }
}

/// Law: reading one field of a written container gives the field's values
/// of what the whole container reads back as: from each row of an array of
/// objects (in row order) or from an object, whether the rows were written
/// as an event batch (and read from its columns alone) or not.
#[verifier::spinoff_prover]
#[verifier::rlimit(60)]
pub proof fn law_hot_field(v: V, sh: Option<Seq<u8>>, lh: Option<Seq<u8>>, f: Seq<char>)
    requires
        roundtrips(v),
        segments_of(v) is Some,
        sh matches Some(h) ==> h.len() == 32,
        lh matches Some(h) ==> h.len() == 32,
        container_bytes(segments_of(v)->Some_0, sh, lh).len() < 0x1_0000_0000,
    ensures
        hot_field_values(container_bytes(segments_of(v)->Some_0, sh, lh), f) == Ok::<Seq<V>, SxErrorCode>(
            pick_field(read_back_form(v), f),
        ),
{
    law_binary_roundtrip(v, sh, lh);
    let segs = segments_of(v)->Some_0;
    let b = container_bytes(segs, sh, lh);
    let base = table_base(segs, sh, lh);
    let es = entries_of(segs, base);
    let last = segs.len() - 1;
    if columnar_seg(v).len() > 0 {
        lemma_segments_shape_col(v);
        assert(plain_kind(SegmentKind::ColumnData));
        assert forall|i: int| 0 <= i < segs.len() implies plain_kind(#[trigger] segs[i].kind) by {
            if i < last {
                assert(good_seg(v, segs[i]));
            } else {
                assert(segs[i] == segs.last());
            }
        }
    } else {
        lemma_segments_shape(v);
        assert forall|i: int| 0 <= i < segs.len() implies plain_kind(#[trigger] segs[i].kind) by {
            assert(good_seg(v, segs[i]));
        }
    }
    lemma_header(segs, sh, lh);
    lemma_table_read(segs, sh, lh, 0);
    assert(es.take(0) =~= Seq::<SegmentEntry>::empty());
    assert(container_entries(b) == Ok::<Seq<SegmentEntry>, SxErrorCode>(es));
    if columnar_seg(v).len() > 0 {
        assert forall|i: int| 0 <= i < last implies (#[trigger] es[i]).kind != SegmentKind::ColumnData by {
            assert(good_seg(v, segs[i]));
        }
        assert(segs[last] == segs.last());
        assert((CODEC_COLUMNAR_EVENT_BATCH_V1 & 0x7f) == CODEC_COLUMNAR_EVENT_BATCH_V1) by (bit_vector);
        assert((CODEC_COLUMNAR_TABLE_V1 & 0x7f) == CODEC_COLUMNAR_TABLE_V1) by (bit_vector);
        match v {
            V::Array(rows) => {
                assert(es[last].codec == CODEC_COLUMNAR_EVENT_BATCH_V1);
                lemma_first_codec_at(es, CODEC_COLUMNAR_EVENT_BATCH_V1, last);
                lemma_segment_bytes(segs, sh, lh, last);
                lemma_payload_at(segs, last);
                lemma_container_layout(segs, sh, lh);
                law_batch_field(rows, f);
                lemma_batch_decoded(rows);
            },
            V::Table(cols) => {
                assert(es[last].codec == CODEC_COLUMNAR_TABLE_V1);
                assert forall|i: int| 0 <= i < es.len() implies !((#[trigger] es[i]).kind == SegmentKind::ColumnData
                    && es[i].codec == CODEC_COLUMNAR_EVENT_BATCH_V1) by {
                    if i < last {
                        assert(es[i].kind != SegmentKind::ColumnData);
                    }
                }
                lemma_no_codec(es, CODEC_COLUMNAR_EVENT_BATCH_V1);
            },
            _ => {},
        }
    } else {
        assert forall|i: int| 0 <= i < es.len() implies !((#[trigger] es[i]).kind == SegmentKind::ColumnData
            && es[i].codec == CODEC_COLUMNAR_EVENT_BATCH_V1) by {
            assert(good_seg(v, segs[i]));
        }
        lemma_no_codec(es, CODEC_COLUMNAR_EVENT_BATCH_V1);
    }
}

/// Law: every proper prefix of a written container is refused with
/// `InvalidLength`: shorter than a header, or shorter than the total length
/// its header declares.
pub proof fn law_truncated_container(segs: Seq<SegV>, sh: Option<Seq<u8>>, lh: Option<Seq<u8>>, k: int)
    requires
        sh matches Some(h) ==> h.len() == 32,
        lh matches Some(h) ==> h.len() == 32,
        segs.len() <= 6,
        container_bytes(segs, sh, lh).len() < 0x1_0000_0000,
        0 <= k < container_bytes(segs, sh, lh).len(),
    ensures
        binary_decode(container_bytes(segs, sh, lh).take(k)) == Err::<V, SxErrorCode>(SxErrorCode::InvalidLength),
{
    let b = container_bytes(segs, sh, lh);
    let t = b.take(k);
    lemma_header(segs, sh, lh);
    if k >= 11 {
        assert(t.subrange(0, 3) =~= b.subrange(0, 3));
        assert(t[3] == b[3]);
        assert(t.subrange(5, 9) =~= b.subrange(5, 9));
        assert(header_at(t) == Err::<(int, nat), SxErrorCode>(SxErrorCode::InvalidLength));
    }
}

} // verus!
