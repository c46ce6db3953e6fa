//! The SX binary container: header, segment table and segment payloads.
use crate::bytes::{fixed_at, le_value, read_le, span};
use crate::decode::{
    bytes_at, read_bytes, read_span, read_varint, DecodeStats,
};
use crate::digest::{checksum32, spec_checksum32};
use crate::error::{SxError, SxErrorCode, SxResult};
use crate::varint::{lemma_read_varint_bounds, spec_read_varint};
use vstd::prelude::*;
use vstd::slice::slice_subrange;
use vstd::utf8::valid_utf8;

verus! {

/// The container format version this library reads and writes.
pub const SX_BINARY_VERSION: u8 = 1;

pub const FLAG_SCHEMA_HASH: u8 = 0x01;

pub const FLAG_LOGICAL_HASH: u8 = 0x02;

pub const CODEC_COLUMNAR_EVENT_BATCH_V1: u8 = 1;

pub const CODEC_COLUMNAR_TABLE_V1: u8 = 2;

/// Supported segment kinds in the SX binary container.
#[derive(Debug, Clone, Copy, PartialEq, Eq, Structural)]
pub enum SegmentKind {
    Envelope,
    HotIndex,
    ShapeTable,
    Dictionary,
    ValueData,
    ColumnData,
    TensorData,
    BlobData,
    DeltaData,
    Extension,
    PresenceMap,
}

/// The byte that stands for a segment kind.
pub open spec fn segment_kind_byte(k: SegmentKind) -> u8 {
    match k {
        SegmentKind::Envelope => 1,
        SegmentKind::HotIndex => 2,
        SegmentKind::ShapeTable => 3,
        SegmentKind::Dictionary => 4,
        SegmentKind::ValueData => 5,
        SegmentKind::ColumnData => 6,
        SegmentKind::TensorData => 7,
        SegmentKind::BlobData => 8,
        SegmentKind::DeltaData => 9,
        SegmentKind::Extension => 10,
        SegmentKind::PresenceMap => 11,
    }
}

/// The segment kind a byte stands for.
pub open spec fn segment_kind_of(b: u8) -> Option<SegmentKind> {
    if 1 <= b <= 11 {
        Some(
            if b == 1 {
                SegmentKind::Envelope
            } else if b == 2 {
                SegmentKind::HotIndex
            } else if b == 3 {
                SegmentKind::ShapeTable
            } else if b == 4 {
                SegmentKind::Dictionary
            } else if b == 5 {
                SegmentKind::ValueData
            } else if b == 6 {
                SegmentKind::ColumnData
            } else if b == 7 {
                SegmentKind::TensorData
            } else if b == 8 {
                SegmentKind::BlobData
            } else if b == 9 {
                SegmentKind::DeltaData
            } else if b == 10 {
                SegmentKind::Extension
            } else {
                SegmentKind::PresenceMap
            },
        )
    } else {
        None
    }
}

impl SegmentKind {
    /// The byte that stands for this kind.
    pub fn to_byte(self) -> (r: u8)
        ensures
            r == segment_kind_byte(self),
    {
        match self {
            SegmentKind::Envelope => 1,
            SegmentKind::HotIndex => 2,
            SegmentKind::ShapeTable => 3,
            SegmentKind::Dictionary => 4,
            SegmentKind::ValueData => 5,
            SegmentKind::ColumnData => 6,
            SegmentKind::TensorData => 7,
            SegmentKind::BlobData => 8,
            SegmentKind::DeltaData => 9,
            SegmentKind::Extension => 10,
            SegmentKind::PresenceMap => 11,
        }
    }

    /// The kind a byte stands for; an unknown byte is a validation error.
    pub fn from_u8(v: u8) -> (r: SxResult<SegmentKind>)
        ensures
            segment_kind_of(v) matches Some(k) ==> (r matches Ok(x) && x == k),
            segment_kind_of(v) is None ==> (r matches Err(e) && e.code == SxErrorCode::ValidationError),
    {
        match v {
            1 => Ok(SegmentKind::Envelope),
            2 => Ok(SegmentKind::HotIndex),
            3 => Ok(SegmentKind::ShapeTable),
            4 => Ok(SegmentKind::Dictionary),
            5 => Ok(SegmentKind::ValueData),
            6 => Ok(SegmentKind::ColumnData),
            7 => Ok(SegmentKind::TensorData),
            8 => Ok(SegmentKind::BlobData),
            9 => Ok(SegmentKind::DeltaData),
            10 => Ok(SegmentKind::Extension),
            11 => Ok(SegmentKind::PresenceMap),
            _ => Err(SxError::msg(SxErrorCode::ValidationError, "unknown segment kind")),
        }
    }
}

/// One entry of the segment table.
#[derive(Debug, Clone, Copy, PartialEq, Eq, Structural)]
pub struct SegmentEntry {
    pub id: u16,
    pub kind: SegmentKind,
    pub codec: u8,
    pub offset: u32,
    pub length: u32,
    pub checksum: u32,
}

/// The container magic `SX\0`.
pub open spec fn container_magic() -> Seq<u8> {
    seq![0x53u8, 0x58, 0x00]
}

/// The header checks: the position where the segment table starts and the
/// number of entries, or the error.
pub open spec fn header_at(b: Seq<u8>) -> Result<(int, nat), SxErrorCode> {
    if b.len() < 11 {
        Err(SxErrorCode::InvalidLength)
    } else if b.subrange(0, 3) != container_magic() {
        Err(SxErrorCode::InvalidMagic)
    } else if b[3] != SX_BINARY_VERSION {
        Err(SxErrorCode::UnsupportedVersion)
    } else if le_value(b.subrange(5, 9)) != b.len() {
        Err(SxErrorCode::InvalidLength)
    } else {
        let flags = b[4];
        let count = le_value(b.subrange(9, 11));
        let c = 11 + (if flags & FLAG_SCHEMA_HASH != 0 {
            32int
        } else {
            0int
        }) + (if flags & FLAG_LOGICAL_HASH != 0 {
            32int
        } else {
            0int
        });
        if c > b.len() {
            Err(SxErrorCode::InvalidLength)
        } else if c + 16 * count > b.len() {
            Err(SxErrorCode::SegmentOutOfBounds)
        } else {
            Ok((c, count))
        }
    }
}

/// The 16-byte table entry at `c` as raw fields: id, kind byte, codec byte,
/// offset, length, checksum.
pub open spec fn raw_entry(b: Seq<u8>, c: int) -> (nat, u8, u8, nat, nat, nat) {
    (
        le_value(b.subrange(c, c + 2)),
        b[c + 2],
        b[c + 3],
        le_value(b.subrange(c + 4, c + 8)),
        le_value(b.subrange(c + 8, c + 12)),
        le_value(b.subrange(c + 12, c + 16)),
    )
}

/// Table entries from position `c`, `n` of them, appended to `acc`: an
/// unknown kind is refused, a segment past the end is `SegmentOutOfBounds`,
/// an extension segment marked required (codec bit 7) is
/// `UnsupportedFeature`, other extension segments are skipped, and a segment
/// whose checksum does not match is `ChecksumFailed`.  The codec kept drops
/// bit 7.
pub open spec fn table_at(b: Seq<u8>, c: int, n: nat, acc: Seq<SegmentEntry>) -> Result<
    Seq<SegmentEntry>,
    SxErrorCode,
>
    decreases n,
{
    if n == 0 {
        Ok(acc)
    } else {
        let (id, kb, codec, offset, length, checksum) = raw_entry(b, c);
        match segment_kind_of(kb) {
            None => Err(SxErrorCode::ValidationError),
            Some(kind) => if offset + length > usize::MAX {
                Err(SxErrorCode::InvalidLength)
            } else if offset + length > b.len() {
                Err(SxErrorCode::SegmentOutOfBounds)
            } else if kind == SegmentKind::Extension && codec & 0x80 != 0 {
                Err(SxErrorCode::UnsupportedFeature)
            } else if kind == SegmentKind::Extension {
                table_at(b, c + 16, (n - 1) as nat, acc)
            } else if spec_checksum32(b.subrange(offset as int, (offset + length) as int)) != checksum {
                Err(SxErrorCode::ChecksumFailed)
            } else {
                table_at(
                    b,
                    c + 16,
                    (n - 1) as nat,
                    acc.push(
                        SegmentEntry {
                            id: id as u16,
                            kind,
                            codec: codec & 0x7f,
                            offset: offset as u32,
                            length: length as u32,
                            checksum: checksum as u32,
                        },
                    ),
                )
            },
        }
    }
}

/// The segment table of a container, or the error parsing it gives.
pub open spec fn container_entries(b: Seq<u8>) -> Result<Seq<SegmentEntry>, SxErrorCode> {
    match header_at(b) {
        Err(e) => Err(e),
        Ok((c, n)) => table_at(b, c, n, Seq::empty()),
    }
}

/// The bytes of a segment.
pub open spec fn segment_bytes(b: Seq<u8>, e: SegmentEntry) -> Seq<u8> {
    b.subrange(e.offset as int, e.offset + e.length)
}

/// Parses the header and segment table.
#[verifier::rlimit(30)]
pub fn parse_container(bytes: &[u8]) -> (r: SxResult<Vec<SegmentEntry>>)
    ensures
        match container_entries(bytes@) {
            Ok(es) => r matches Ok(v) && v@ == es,
            Err(c) => r matches Err(e) && e.code == c,
        },
        r matches Ok(v) ==> forall|i: int|
            0 <= i < v@.len() ==> #[trigger] v@[i].offset + v@[i].length <= bytes@.len(),
{
    if bytes.len() < 11 {
        return Err(SxError::msg(SxErrorCode::InvalidLength, "message too short"));
    }
    if !(bytes[0] == 0x53 && bytes[1] == 0x58 && bytes[2] == 0x00) {
        proof {
            if bytes@.subrange(0, 3) == container_magic() {
                assert(bytes@[0] == bytes@.subrange(0, 3)[0]);
                assert(bytes@[1] == bytes@.subrange(0, 3)[1]);
                assert(bytes@[2] == bytes@.subrange(0, 3)[2]);
            }
        }
        return Err(SxError::msg(SxErrorCode::InvalidMagic, "invalid magic"));
    }
    assert(bytes@.subrange(0, 3) =~= container_magic());
    if bytes[3] != SX_BINARY_VERSION {
        return Err(SxError::msg(SxErrorCode::UnsupportedVersion, "unsupported version"));
    }
    let flags = bytes[4];
    let total = read_le(bytes, 5, 4);
    proof {
        crate::bytes::lemma_le_value_bound(bytes@.subrange(5, 9));
        crate::bytes::lemma_pow256_values();
    }
    if total as usize != bytes.len() {
        return Err(SxError::msg(SxErrorCode::InvalidLength, "declared length does not match"));
    }
    let count = read_le(bytes, 9, 2) as usize;
    proof {
        crate::bytes::lemma_le_value_bound(bytes@.subrange(9, 11));
        crate::bytes::lemma_pow256_values();
    }
    let mut cursor: usize = 11;
    if flags & FLAG_SCHEMA_HASH != 0 {
        cursor = cursor + 32;
    }
    if flags & FLAG_LOGICAL_HASH != 0 {
        cursor = cursor + 32;
    }
    if cursor > bytes.len() {
        return Err(SxError::msg(SxErrorCode::InvalidLength, "header out of bounds"));
    }
    if cursor + count * 16 > bytes.len() {
        return Err(SxError::msg(SxErrorCode::SegmentOutOfBounds, "segment table out of bounds"));
    }
    let ghost c0 = cursor as int;
    let blen = bytes.len();
    let mut entries: Vec<SegmentEntry> = Vec::new();
    let mut i: usize = 0;
    while i < count
        invariant
            i <= count,
            count < 0x10000,
            c0 + 16 * count <= bytes@.len(),
            cursor == c0 + 16 * i,
            cursor + 16 * (count - i) <= bytes@.len(),
            bytes@.len() <= usize::MAX,
            container_entries(bytes@) == table_at(bytes@, cursor as int, (count - i) as nat, entries@),
            forall|k: int|
                0 <= k < entries@.len() ==> #[trigger] entries@[k].offset + entries@[k].length <= bytes@.len(),
        decreases count - i,
    {
        assert(cursor + 16 <= bytes@.len()) by (nonlinear_arith)
            requires
                cursor + 16 * (count - i) <= bytes@.len(),
                i < count,
        ;
        proof {
            crate::bytes::lemma_pow256_values();
        }
        let id = read_le(bytes, cursor, 2) as u16;
        let kb = bytes[cursor + 2];
        let codec = bytes[cursor + 3];
        let offset = read_le(bytes, cursor + 4, 4);
        let length = read_le(bytes, cursor + 8, 4);
        let checksum = read_le(bytes, cursor + 12, 4);
        proof {
            crate::bytes::lemma_le_value_bound(bytes@.subrange(cursor + 4, cursor + 8));
            crate::bytes::lemma_le_value_bound(bytes@.subrange(cursor + 8, cursor + 12));
            crate::bytes::lemma_le_value_bound(bytes@.subrange(cursor + 12, cursor + 16));
            crate::bytes::lemma_le_value_bound(bytes@.subrange(cursor as int, cursor + 2));
        }
        let kind = match SegmentKind::from_u8(kb) {
            Err(e) => return Err(e),
            Ok(k) => k,
        };
        let start = offset as usize;
        let end = match start.checked_add(length as usize) {
            None => return Err(SxError::msg(SxErrorCode::InvalidLength, "integer overflow")),
            Some(e) => e,
        };
        if end > bytes.len() {
            return Err(SxError::msg(SxErrorCode::SegmentOutOfBounds, "segment out of bounds"));
        }
        let required = (codec & 0x80) != 0;
        if kind == SegmentKind::Extension && required {
            return Err(SxError::msg(SxErrorCode::UnsupportedFeature, "required extension segment not supported"));
        }
        if kind != SegmentKind::Extension {
            let got = checksum32(slice_subrange(bytes, start, end));
            if got as u64 != checksum {
                return Err(SxError::msg(SxErrorCode::ChecksumFailed, "segment checksum mismatch"));
            }
            entries.push(
                SegmentEntry {
                    id,
                    kind,
                    codec: codec & 0x7f,
                    offset: offset as u32,
                    length: length as u32,
                    checksum: checksum as u32,
                },
            );
        }
        cursor = cursor + 16;
        i += 1;
    }
    Ok(entries)
}

/// The bytes of a segment whose bounds were checked.
pub fn segment_slice<'a>(bytes: &'a [u8], e: &SegmentEntry) -> (r: &'a [u8])
    requires
        e.offset + e.length <= bytes@.len(),
    ensures
        r@ == segment_bytes(bytes@, *e),
{
    let start = e.offset as usize;
    let len = e.length as usize;
    let n = bytes.len();
    assert(start + len <= n);
    slice_subrange(bytes, start, start + len)
}

} // verus!

verus! {

// ---------------------------------------------------------------------------
// Dictionary and shape-table segments: a count, then that many UTF-8 strings
// ---------------------------------------------------------------------------

/// The position after `n` length-prefixed UTF-8 strings at `pos`, or `None`
/// when one is cut short or is not UTF-8.
pub open spec fn string_list_end(b: Seq<u8>, pos: int, n: nat) -> Option<int>
    decreases n,
{
    if n == 0 {
        Some(pos)
    } else {
        match bytes_at(b, pos) {
            Err(_) => None,
            Ok((raw, p)) => if valid_utf8(raw) {
                string_list_end(b, p, (n - 1) as nat)
            } else {
                None
            },
        }
    }
}

/// A segment that is exactly a count and that many UTF-8 strings.
pub open spec fn string_list_ok(b: Seq<u8>) -> bool {
    match spec_read_varint(b, 0) {
        Err(_) => false,
        Ok((n, p)) => string_list_end(b, p, (n as usize) as nat) == Some(b.len() as int),
    }
}

/// Checks a string-list segment; a malformed one is refused with `code`.
pub fn validate_string_list(bytes: &[u8], code: SxErrorCode) -> (r: SxResult<()>)
    ensures
        r is Ok <==> string_list_ok(bytes@),
        r matches Err(e) ==> e.code == code,
{
    let (n64, p) = match read_varint(bytes, 0) {
        Err(_) => return Err(SxError::msg(code, "invalid count encoding")),
        Ok(x) => x,
    };
    let n = n64 as usize;
    let mut cur: usize = p;
    let mut i: usize = 0;
    while i < n
        invariant
            i <= n,
            string_list_ok(bytes@) <==> string_list_end(bytes@, cur as int, (n - i) as nat) == Some(
                bytes@.len() as int,
            ),
        decreases n - i,
    {
        match read_bytes(bytes, cur) {
            Err(_) => return Err(SxError::msg(code, "invalid entry bytes")),
            Ok((raw, q)) => {
                match crate::bytes::string_from_utf8(raw) {
                    None => return Err(SxError::msg(code, "entry is not UTF-8")),
                    Some(_) => {},
                }
                cur = q;
            },
        }
        i += 1;
    }
    if cur != bytes.len() {
        return Err(SxError::msg(code, "trailing bytes in segment"));
    }
    Ok(())
}

/// The first segment-table entry of a kind.
pub open spec fn first_of_kind(es: Seq<SegmentEntry>, k: SegmentKind) -> Option<SegmentEntry>
    decreases es.len(),
{
    if es.len() == 0 {
        None
    } else if es[0].kind == k {
        Some(es[0])
    } else {
        first_of_kind(es.drop_first(), k)
    }
}

/// Finds the first segment-table entry of a kind.
pub fn find_segment(es: &Vec<SegmentEntry>, k: SegmentKind) -> (r: Option<SegmentEntry>)
    ensures
        r == first_of_kind(es@, k),
{
    let mut i: usize = 0;
    assert(es@.subrange(0, es@.len() as int) =~= es@);
    while i < es.len()
        invariant
            i <= es@.len(),
            first_of_kind(es@, k) == first_of_kind(es@.subrange(i as int, es@.len() as int), k),
        decreases es.len() - i,
    {
        let ghost rest = es@.subrange(i as int, es@.len() as int);
        if es[i].kind == k {
            assert(rest[0] == es@[i as int]);
            return Some(es[i]);
        }
        assert(rest.drop_first() =~= es@.subrange(i + 1, es@.len() as int));
        i += 1;
    }
    assert(es@.subrange(i as int, es@.len() as int) =~= Seq::<SegmentEntry>::empty());
    None
}

/// The metadata segments checked in table order: the first malformed
/// dictionary is `InvalidDictionaryRef`, the first malformed shape table
/// `InvalidShapeRef`.
pub open spec fn metadata_check(b: Seq<u8>, es: Seq<SegmentEntry>) -> Result<(), SxErrorCode>
    decreases es.len(),
{
    if es.len() == 0 {
        Ok(())
    } else if es[0].kind == SegmentKind::Dictionary && !string_list_ok(segment_bytes(b, es[0])) {
        Err(SxErrorCode::InvalidDictionaryRef)
    } else if es[0].kind == SegmentKind::ShapeTable && !string_list_ok(segment_bytes(b, es[0])) {
        Err(SxErrorCode::InvalidShapeRef)
    } else {
        metadata_check(b, es.drop_first())
    }
}

/// Validates the dictionary and shape-table segments.
pub fn validate_metadata_segments(bytes: &[u8], es: &Vec<SegmentEntry>) -> (r: SxResult<()>)
    requires
        forall|i: int| 0 <= i < es@.len() ==> #[trigger] es@[i].offset + es@[i].length <= bytes@.len(),
    ensures
        match metadata_check(bytes@, es@) {
            Ok(()) => r is Ok,
            Err(c) => r matches Err(e) && e.code == c,
        },
{
    let mut i: usize = 0;
    assert(es@.subrange(0, es@.len() as int) =~= es@);
    while i < es.len()
        invariant
            i <= es@.len(),
            forall|k: int| 0 <= k < es@.len() ==> #[trigger] es@[k].offset + es@[k].length <= bytes@.len(),
            metadata_check(bytes@, es@) == metadata_check(bytes@, es@.subrange(i as int, es@.len() as int)),
        decreases es.len() - i,
    {
        let ghost rest = es@.subrange(i as int, es@.len() as int);
        assert(rest[0] == es@[i as int]);
        assert(rest.drop_first() =~= es@.subrange(i + 1, es@.len() as int));
        let e = es[i];
        if e.kind == SegmentKind::Dictionary {
            match validate_string_list(segment_slice(bytes, &e), SxErrorCode::InvalidDictionaryRef) {
                Err(err) => return Err(err),
                Ok(()) => {},
            }
        } else if e.kind == SegmentKind::ShapeTable {
            match validate_string_list(segment_slice(bytes, &e), SxErrorCode::InvalidShapeRef) {
                Err(err) => return Err(err),
                Ok(()) => {},
            }
        }
        i += 1;
    }
    assert(es@.subrange(i as int, es@.len() as int) =~= Seq::<SegmentEntry>::empty());
    Ok(())
}

} // verus!
