//! Encoding values into SX binary containers and decoding them back.
use crate::binary::{enc_value, encodable, write_str, write_value, TAG_STRING};
use crate::bytes::{append_bytes, le_bytes, push_le};
use crate::columnar_enc::{columnar_table_bytes, encode_columnar_event_batch, encode_columnar_table, event_batch_bytes};
use crate::digest::{checksum32, spec_checksum32};
use crate::metadata::{
    dictionary_bytes, encode_dictionary, encode_hot_index, encode_presence_maps, encode_shape_table, hot_index_bytes,
    presence_bytes, shape_table_bytes,
};
use crate::columnar::{
    columnar_table_of, decode_columnar_event_batch, decode_columnar_table, event_batch_of,
};
use crate::container::{
    container_entries, container_magic, find_segment, segment_kind_byte, FLAG_LOGICAL_HASH, FLAG_SCHEMA_HASH,
    SX_BINARY_VERSION, first_of_kind, metadata_check, parse_container, segment_bytes, segment_slice,
    validate_metadata_segments, SegmentEntry, SegmentKind, CODEC_COLUMNAR_EVENT_BATCH_V1, CODEC_COLUMNAR_TABLE_V1,
};
use crate::decode::{read_value, same_entry_counts, value_segment, DecodeStats};
use crate::error::{SxError, SxErrorCode, SxResult};
use crate::value::{dv, SxValue, V};
use vstd::prelude::*;

verus! {

/// The value-segment marker of an event batch stored in columns.
pub const EVENT_BATCH_MARKER: &'static str = "$sx.columnar_event_batch.v1";

/// The value-segment marker of a table stored in columns.
pub const TABLE_MARKER: &'static str = "$sx.columnar_table.v1";

/// A value segment decoded: one value and nothing after it.
pub fn decode_value(bytes: &[u8], stats: &mut DecodeStats) -> (r: SxResult<SxValue>)
    ensures
        match value_segment(bytes@) {
            Ok(v) => r matches Ok(x) && dv(x) == v,
            Err(c) => r matches Err(e) && e.code == c,
        },
        same_entry_counts(*final(stats), *old(stats)),
{
    match read_value(bytes, 0, stats) {
        Err(e) => Err(e),
        Ok((v, end)) => if end != bytes.len() {
            Err(SxError::msg(SxErrorCode::ValidationError, "trailing bytes in value segment"))
        } else {
            Ok(v)
        },
    }
}

pub proof fn lemma_first_of_kind(es: Seq<SegmentEntry>, k: SegmentKind)
    ensures
        first_of_kind(es, k) matches Some(e) ==> e.kind == k && exists|i: int| 0 <= i < es.len() && es[i] == e,
    decreases es.len(),
{
    if es.len() > 0 && es[0].kind != k {
        lemma_first_of_kind(es.drop_first(), k);
        if let Some(e) = first_of_kind(es.drop_first(), k) {
            let i = choose|i: int| 0 <= i < es.drop_first().len() && es.drop_first()[i] == e;
            assert(es[i + 1] == e);
        }
    }
}

/// What decoding a container yields: the table is parsed and the dictionary
/// and shape segments checked; a columnar segment, when there is one, is
/// the value (event batch or table by its codec, any other codec is
/// `UnsupportedFeature`); otherwise the value segment is, and a container
/// without one is a `ValidationError`.
pub open spec fn binary_decode(b: Seq<u8>) -> Result<V, SxErrorCode> {
    match container_entries(b) {
        Err(e) => Err(e),
        Ok(es) => match metadata_check(b, es) {
            Err(e) => Err(e),
            Ok(_) => match first_of_kind(es, SegmentKind::ColumnData) {
                Some(c) => if c.codec == CODEC_COLUMNAR_EVENT_BATCH_V1 {
                    event_batch_of(segment_bytes(b, c))
                } else if c.codec == CODEC_COLUMNAR_TABLE_V1 {
                    columnar_table_of(segment_bytes(b, c))
                } else {
                    Err(SxErrorCode::UnsupportedFeature)
                },
                None => match first_of_kind(es, SegmentKind::ValueData) {
                    None => Err(SxErrorCode::ValidationError),
                    Some(v) => value_segment(segment_bytes(b, v)),
                },
            },
        },
    }
}

/// Decodes SX binary into its logical value, counting one full decode.
pub fn decode_binary(bytes: &[u8], stats: &mut DecodeStats) -> (r: SxResult<SxValue>)
    ensures
        match binary_decode(bytes@) {
            Ok(v) => r matches Ok(x) && dv(x) == v,
            Err(c) => r matches Err(e) && e.code == c,
        },
        final(stats).full_decode_calls == old(stats).full_decode_calls.wrapping_add(1),
        final(stats).hot_field_reads == old(stats).hot_field_reads,
        final(stats).columnar_scans == old(stats).columnar_scans,
{
    stats.full_decode_calls = stats.full_decode_calls.wrapping_add(1);
    let ghost st = *stats;
    let es = match parse_container(bytes) {
        Err(e) => return Err(e),
        Ok(es) => es,
    };
    match validate_metadata_segments(bytes, &es) {
        Err(e) => return Err(e),
        Ok(()) => {},
    }
    proof {
        lemma_first_of_kind(es@, SegmentKind::ColumnData);
        lemma_first_of_kind(es@, SegmentKind::ValueData);
    }
    match find_segment(&es, SegmentKind::ColumnData) {
        Some(col) => {
            let data = segment_slice(bytes, &col);
            if col.codec == CODEC_COLUMNAR_EVENT_BATCH_V1 {
                decode_columnar_event_batch(data, stats)
            } else if col.codec == CODEC_COLUMNAR_TABLE_V1 {
                decode_columnar_table(data, stats)
            } else {
                Err(SxError::msg(SxErrorCode::UnsupportedFeature, "unsupported columnar codec"))
            }
        },
        None => match find_segment(&es, SegmentKind::ValueData) {
            None => Err(SxError::msg(SxErrorCode::ValidationError, "missing value segment")),
            Some(vs) => decode_value(segment_slice(bytes, &vs), stats),
        },
    }
}

} // verus!

verus! {

/// A segment to be written: id, kind, codec, payload.
pub struct SegV {
    pub id: u16,
    pub kind: SegmentKind,
    pub codec: u8,
    pub data: Seq<u8>,
}

/// The value segment of a value: a marker string when the value goes in a
/// columnar segment, else the value's own encoding; `None` when the value
/// cannot be encoded.
pub open spec fn value_data(v: V) -> Option<Seq<u8>> {
    if event_batch_bytes(v) is Some {
        Some(enc_value(V::String(EVENT_BATCH_MARKER@)))
    } else if columnar_table_bytes(v) is Some {
        Some(enc_value(V::String(TABLE_MARKER@)))
    } else if encodable(v) {
        Some(enc_value(v))
    } else {
        None
    }
}

/// A segment when its payload is not empty.
pub open spec fn seg_if(id: u16, kind: SegmentKind, data: Seq<u8>) -> Seq<SegV> {
    if data.len() > 0 {
        seq![SegV { id, kind, codec: 0, data }]
    } else {
        Seq::empty()
    }
}

/// The columnar segment of a value, if any: the event batch (codec 1) of an
/// array, or the columnar table (codec 2) of a table.
pub open spec fn columnar_seg(v: V) -> Seq<SegV> {
    match event_batch_bytes(v) {
        Some(b) => seq![SegV { id: 6, kind: SegmentKind::ColumnData, codec: CODEC_COLUMNAR_EVENT_BATCH_V1, data: b }],
        None => match columnar_table_bytes(v) {
            Some(b) => seq![SegV { id: 6, kind: SegmentKind::ColumnData, codec: CODEC_COLUMNAR_TABLE_V1, data: b }],
            None => Seq::empty(),
        },
    }
}

/// The segments written for a value, in order: value data (id 1), shape
/// table (2), dictionary (3), hot index (4), presence maps (5), columnar
/// data (6), each but the first only when it has content.
pub open spec fn segments_of(v: V) -> Option<Seq<SegV>> {
    match value_data(v) {
        None => None,
        Some(val) => Some(
            seq![SegV { id: 1, kind: SegmentKind::ValueData, codec: 0, data: val }] + seg_if(
                2,
                SegmentKind::ShapeTable,
                shape_table_bytes(v),
            ) + seg_if(3, SegmentKind::Dictionary, dictionary_bytes(v)) + seg_if(
                4,
                SegmentKind::HotIndex,
                hot_index_bytes(v),
            ) + seg_if(5, SegmentKind::PresenceMap, presence_bytes(v)) + columnar_seg(v),
        ),
    }
}

/// The payloads one after another.
pub open spec fn payload_of(segs: Seq<SegV>) -> Seq<u8>
    decreases segs.len(),
{
    if segs.len() == 0 {
        Seq::empty()
    } else {
        payload_of(segs.drop_last()) + segs.last().data
    }
}

/// The table entry of a segment placed at `offset`.
pub open spec fn entry_bytes(s: SegV, offset: nat) -> Seq<u8> {
    le_bytes(s.id as nat, 2) + seq![segment_kind_byte(s.kind), s.codec] + le_bytes(offset, 4) + le_bytes(
        s.data.len(),
        4,
    ) + le_bytes(spec_checksum32(s.data) as nat, 4)
}

/// The segment table, payloads placed one after another from `base`.
pub open spec fn table_bytes(segs: Seq<SegV>, base: nat) -> Seq<u8>
    decreases segs.len(),
{
    if segs.len() == 0 {
        Seq::empty()
    } else {
        table_bytes(segs.drop_last(), base) + entry_bytes(segs.last(), base + payload_of(segs.drop_last()).len())
    }
}

pub open spec fn opt_hash(h: Option<[u8; 32]>) -> Option<Seq<u8>> {
    match h {
        Some(a) => Some(a@),
        None => None,
    }
}

/// A whole container: magic, version, flags, total length, segment count,
/// the hashes present, the segment table, the payloads.  Lengths and offsets
/// are written as their low 32 bits, the count as its low 16.
pub open spec fn container_bytes(segs: Seq<SegV>, sh: Option<Seq<u8>>, lh: Option<Seq<u8>>) -> Seq<u8> {
    let flags = ((if sh is Some {
        FLAG_SCHEMA_HASH as int
    } else {
        0
    }) + (if lh is Some {
        FLAG_LOGICAL_HASH as int
    } else {
        0
    })) as u8;
    let hashes = (match sh {
        Some(h) => h,
        None => Seq::empty(),
    }) + (match lh {
        Some(h) => h,
        None => Seq::empty(),
    });
    let header_len = 11 + hashes.len();
    let base = header_len + 16 * segs.len();
    let payload = payload_of(segs);
    container_magic() + seq![SX_BINARY_VERSION, flags] + le_bytes(base + payload.len(), 4) + le_bytes(segs.len(), 2)
        + hashes + table_bytes(segs, base) + payload
}

} // verus!

verus! {

/// A segment to be written.
struct Segment {
    id: u16,
    kind: SegmentKind,
    codec: u8,
    data: Vec<u8>,
}

spec fn seg_view(s: Segment) -> SegV {
    SegV { id: s.id, kind: s.kind, codec: s.codec, data: s.data@ }
}

spec fn segs_view(s: Seq<Segment>) -> Seq<SegV> {
    s.map_values(|x: Segment| seg_view(x))
}

/// Appends a segment when its payload is not empty.
fn push_if(segs: &mut Vec<Segment>, id: u16, kind: SegmentKind, data: Vec<u8>)
    ensures
        segs_view(final(segs)@) == segs_view(old(segs)@) + seg_if(id, kind, data@),
{
    if data.len() > 0 {
        segs.push(Segment { id, kind, codec: 0, data });
        assert(segs_view(final(segs)@) =~= segs_view(old(segs)@) + seg_if(id, kind, data@));
    } else {
        assert(segs_view(final(segs)@) =~= segs_view(old(segs)@) + seg_if(id, kind, data@));
    }
}

/// The low 32 bits of a length.
fn low32(n: usize) -> (r: u32)
    ensures
        r as nat == n as nat % 0x1_0000_0000,
{
    ((n as u64) % 0x1_0000_0000u64) as u32
}

/// Encodes a value into an SX binary container with optional schema and
/// logical hashes.  Map entries are written as objects keyed by each key's
/// debug text, delta documents as their text; a map key or a delta holding a
/// float is refused with `UnsupportedFeature`.
#[verifier::rlimit(40)]
pub fn encode_binary(value: &SxValue, schema_hash: Option<[u8; 32]>, logical_hash: Option<[u8; 32]>) -> (r: SxResult<Vec<u8>>)
    ensures
        match segments_of(dv(*value)) {
            None => r matches Err(e) && e.code == SxErrorCode::UnsupportedFeature,
            Some(segs) => r matches Ok(b) && b@ == container_bytes(segs, opt_hash(schema_hash), opt_hash(logical_hash)),
        },
{
    let ghost v = dv(*value);
    let (columnar, vdata) = match encode_columnar_event_batch(value) {
        Some(c) => {
            let mut vd: Vec<u8> = Vec::new();
            vd.push(TAG_STRING);
            write_str(&mut vd, EVENT_BATCH_MARKER);
            (Some((CODEC_COLUMNAR_EVENT_BATCH_V1, c)), vd)
        },
        None => match encode_columnar_table(value) {
            Some(c) => {
                let mut vd: Vec<u8> = Vec::new();
                vd.push(TAG_STRING);
                write_str(&mut vd, TABLE_MARKER);
                (Some((CODEC_COLUMNAR_TABLE_V1, c)), vd)
            },
            None => {
                let mut vd: Vec<u8> = Vec::new();
                match write_value(value, &mut vd) {
                    Err(e) => return Err(e),
                    Ok(()) => {},
                }
                (None, vd)
            },
        },
    };
    let ghost colseg: Seq<SegV> = match &columnar {
        Some(p) => seq![SegV { id: 6, kind: SegmentKind::ColumnData, codec: p.0, data: p.1@ }],
        None => Seq::empty(),
    };
    proof {
        assert(value_data(v) == Some(vdata@));
        assert(columnar_seg(v) =~= colseg);
    }
    let mut segs: Vec<Segment> = Vec::new();
    segs.push(Segment { id: 1, kind: SegmentKind::ValueData, codec: 0, data: vdata });
    let ghost s1 = seq![SegV { id: 1, kind: SegmentKind::ValueData, codec: 0, data: vdata@ }];
    assert(segs_view(segs@) =~= s1);
    push_if(&mut segs, 2, SegmentKind::ShapeTable, encode_shape_table(value));
    push_if(&mut segs, 3, SegmentKind::Dictionary, encode_dictionary(value));
    push_if(&mut segs, 4, SegmentKind::HotIndex, encode_hot_index(value));
    push_if(&mut segs, 5, SegmentKind::PresenceMap, encode_presence_maps(value));
    let ghost before = segs_view(segs@);
    match columnar {
        Some((codec, c)) => segs.push(Segment { id: 6, kind: SegmentKind::ColumnData, codec, data: c }),
        None => {},
    }
    let ghost sv = segs_view(segs@);
    proof {
        assert(sv =~= before + colseg);
        assert(segments_of(v) == Some(sv));
    }
    assert(segs@.len() <= 6);
    let bytes = assemble(&segs, schema_hash, logical_hash);
    Ok(bytes)
}

/// Writes the header, segment table and payloads of a container.
fn assemble(segs: &Vec<Segment>, schema_hash: Option<[u8; 32]>, logical_hash: Option<[u8; 32]>) -> (r: Vec<u8>)
    requires
        segs@.len() <= 6,
    ensures
        r@ == container_bytes(segs_view(segs@), opt_hash(schema_hash), opt_hash(logical_hash)),
{
    let ghost sv = segs_view(segs@);
    let ghost sh = opt_hash(schema_hash);
    let ghost lh = opt_hash(logical_hash);
    let mut flags: u8 = 0;
    let mut header_len: usize = 11;
    if schema_hash.is_some() {
        flags = flags + FLAG_SCHEMA_HASH;
        header_len = header_len + 32;
    }
    if logical_hash.is_some() {
        flags = flags + FLAG_LOGICAL_HASH;
        header_len = header_len + 32;
    }
    let base: usize = header_len + 16 * segs.len();
    let ghost hashes = (match sh {
        Some(h) => h,
        None => Seq::<u8>::empty(),
    }) + (match lh {
        Some(h) => h,
        None => Seq::<u8>::empty(),
    });
    assert(header_len == 11 + hashes.len());
    // low 32 bits of the total length
    let mut total: u32 = base as u32;
    let mut i: usize = 0;
    proof {
        assert(sv.take(0) =~= Seq::<SegV>::empty());
    }
    while i < segs.len()
        invariant
            i <= segs@.len(),
            segs@.len() <= 6,
            sv == segs_view(segs@),
            base < 0x1_0000_0000,
            total as nat == (base + payload_of(sv.take(i as int)).len()) % 0x1_0000_0000,
        decreases segs.len() - i,
    {
        let len = low32(segs[i].data.len());
        proof {
            assert(sv.take(i + 1).drop_last() =~= sv.take(i as int));
            assert(sv.take(i + 1).last() == sv[i as int]);
            assert(sv[i as int].data == segs@[i as int].data@);
        }
        total = total.wrapping_add(len);
        i += 1;
    }
    proof {
        assert(sv.take(i as int) =~= sv);
    }
    let mut out: Vec<u8> = Vec::new();
    out.push(0x53);
    out.push(0x58);
    out.push(0x00);
    out.push(SX_BINARY_VERSION);
    out.push(flags);
    push_le(&mut out, total as u64, 4);
    push_le(&mut out, segs.len() as u64, 2);
    match schema_hash {
        Some(h) => append_bytes(&mut out, h.as_slice()),
        None => {},
    }
    match logical_hash {
        Some(h) => append_bytes(&mut out, h.as_slice()),
        None => {},
    }
    proof {
        crate::bytes::lemma_le_bytes_mod((base + payload_of(sv).len()) as nat, 4);
        crate::bytes::lemma_pow256_values();
        assert(out@ =~= container_magic() + seq![SX_BINARY_VERSION, flags] + le_bytes(
            (base + payload_of(sv).len()) as nat,
            4,
        ) + le_bytes(sv.len(), 2) + hashes);
    }
    let ghost head = out@;
    let mut offset: u32 = base as u32;
    let mut k: usize = 0;
    proof {
        assert(sv.take(0) =~= Seq::<SegV>::empty());
    }
    while k < segs.len()
        invariant
            k <= segs@.len(),
            segs@.len() <= 6,
            sv == segs_view(segs@),
            base < 0x1_0000_0000,
            offset as nat == (base + payload_of(sv.take(k as int)).len()) % 0x1_0000_0000,
            out@ == head + table_bytes(sv.take(k as int), base as nat),
        decreases segs.len() - k,
    {
        let s = &segs[k];
        proof {
            assert(sv.take(k + 1).drop_last() =~= sv.take(k as int));
            assert(sv.take(k + 1).last() == sv[k as int]);
            assert(sv[k as int] == seg_view(segs@[k as int]));
            crate::bytes::lemma_le_bytes_mod((base + payload_of(sv.take(k as int)).len()) as nat, 4);
            crate::bytes::lemma_pow256_values();
        }
        push_le(&mut out, s.id as u64, 2);
        out.push(s.kind.to_byte());
        out.push(s.codec);
        push_le(&mut out, offset as u64, 4);
        push_le(&mut out, s.data.len() as u64, 4);
        let c = checksum32(s.data.as_slice());
        push_le(&mut out, c as u64, 4);
        let len = low32(s.data.len());
        offset = offset.wrapping_add(len);
        k += 1;
    }
    proof {
        assert(sv.take(k as int) =~= sv);
    }
    let ghost mid = out@;
    let mut j: usize = 0;
    while j < segs.len()
        invariant
            j <= segs@.len(),
            sv == segs_view(segs@),
            out@ == mid + payload_of(sv.take(j as int)),
        decreases segs.len() - j,
    {
        append_bytes(&mut out, segs[j].data.as_slice());
        proof {
            assert(sv.take(j + 1).drop_last() =~= sv.take(j as int));
            assert(sv.take(j + 1).last() == seg_view(segs@[j as int]));
        }
        j += 1;
    }
    proof {
        assert(sv.take(j as int) =~= sv);
        assert(out@ =~= container_bytes(sv, sh, lh));
    }
    out
}

} // verus!
