//! SX streaming frames: a writer, a reader, and reassembly of chunked
//! messages.
use crate::bytes::{
    fixed_at, lemma_fixed_at, span,
    append_bytes, copy_range, le_bytes, le_value, lemma_le_bytes_len, lemma_le_roundtrip, lemma_le_value_bound,
    lemma_pow256_values, pow256, push_le, read_le, string_from_utf8,
};
use crate::digest::{checksum32, spec_checksum32};
use crate::error::{SxError, SxErrorCode, SxResult};
use crate::fields::{has_key, insert_entry, key_position, lemma_insert_at, lemma_insert_sorted, lemma_lookup_index, lookup};
use crate::keys::{key_lt, lemma_key_lt_irreflexive, sorted_keys, sorted_str_keys, str_equal};
use vstd::prelude::*;
use vstd::utf8::{decode_utf8, encode_utf8, encode_utf8_decode_utf8, encode_utf8_valid_utf8, valid_utf8};

verus! {

/// Stream frame kind.
#[derive(Debug, Clone, Copy, PartialEq, Eq, Structural)]
pub enum FrameKind {
    Message,
    Chunk,
    Schema,
    Dictionary,
    Delta,
    Checkpoint,
}

/// The byte that stands for a frame kind.
pub open spec fn spec_kind_byte(k: FrameKind) -> u8 {
    match k {
        FrameKind::Message => 1,
        FrameKind::Chunk => 2,
        FrameKind::Schema => 3,
        FrameKind::Dictionary => 4,
        FrameKind::Delta => 5,
        FrameKind::Checkpoint => 6,
    }
}

/// The frame kind a byte stands for.
pub open spec fn spec_kind_from(b: u8) -> Option<FrameKind> {
    if b == 1 {
        Some(FrameKind::Message)
    } else if b == 2 {
        Some(FrameKind::Chunk)
    } else if b == 3 {
        Some(FrameKind::Schema)
    } else if b == 4 {
        Some(FrameKind::Dictionary)
    } else if b == 5 {
        Some(FrameKind::Delta)
    } else if b == 6 {
        Some(FrameKind::Checkpoint)
    } else {
        None
    }
}

impl FrameKind {
    /// The byte that stands for this kind.
    pub fn to_byte(self) -> (r: u8)
        ensures
            r == spec_kind_byte(self),
    {
        match self {
            FrameKind::Message => 1,
            FrameKind::Chunk => 2,
            FrameKind::Schema => 3,
            FrameKind::Dictionary => 4,
            FrameKind::Delta => 5,
            FrameKind::Checkpoint => 6,
        }
    }

    /// The kind a byte stands for; an unknown byte is a validation error.
    pub fn from_u8(v: u8) -> (r: SxResult<FrameKind>)
        ensures
            spec_kind_from(v) matches Some(k) ==> (r matches Ok(x) && x == k),
            spec_kind_from(v) is None ==> (r matches Err(e) && e.code == SxErrorCode::ValidationError),
    {
        match v {
            1 => Ok(FrameKind::Message),
            2 => Ok(FrameKind::Chunk),
            3 => Ok(FrameKind::Schema),
            4 => Ok(FrameKind::Dictionary),
            5 => Ok(FrameKind::Delta),
            6 => Ok(FrameKind::Checkpoint),
            _ => Err(SxError::msg(SxErrorCode::ValidationError, "unknown frame kind")),
        }
    }
}

/// Chunk metadata for chunk frames.
#[derive(Debug, Clone, PartialEq, Eq)]
pub struct ChunkMetadata {
    pub message_id: String,
    pub chunk_index: u32,
    pub chunk_count: u32,
    pub segment_id: u32,
    pub offset: u64,
    pub length: u32,
    pub checksum: u32,
}

/// A stream frame.
#[derive(Debug, Clone, PartialEq, Eq)]
pub struct Frame {
    pub kind: FrameKind,
    pub metadata: Option<ChunkMetadata>,
    pub payload: Vec<u8>,
}

/// View of chunk metadata.
pub struct MetaV {
    pub message_id: Seq<char>,
    pub chunk_index: u32,
    pub chunk_count: u32,
    pub segment_id: u32,
    pub offset: u64,
    pub length: u32,
    pub checksum: u32,
}

/// View of a frame.
pub struct FrameV {
    pub kind: FrameKind,
    pub meta: Option<MetaV>,
    pub payload: Seq<u8>,
}

impl ChunkMetadata {
    pub open spec fn view_meta(&self) -> MetaV {
        MetaV {
            message_id: self.message_id@,
            chunk_index: self.chunk_index,
            chunk_count: self.chunk_count,
            segment_id: self.segment_id,
            offset: self.offset,
            length: self.length,
            checksum: self.checksum,
        }
    }
}

impl View for Frame {
    type V = FrameV;

    open spec fn view(&self) -> FrameV {
        FrameV {
            kind: self.kind,
            meta: match self.metadata {
                Some(m) => Some(m.view_meta()),
                None => None,
            },
            payload: self.payload@,
        }
    }
}

/// The stream magic `SXS1`.
pub open spec fn stream_magic() -> Seq<u8> {
    seq![0x53u8, 0x58, 0x53, 0x31]
}

/// Bytes of a length-prefixed string (the length is written as `u32`).
pub open spec fn string_bytes(s: Seq<char>) -> Seq<u8> {
    le_bytes(encode_utf8(s).len(), 4) + encode_utf8(s)
}

/// Bytes of a frame's metadata flag and metadata.
pub open spec fn meta_bytes(m: Option<MetaV>) -> Seq<u8> {
    match m {
        None => seq![0u8],
        Some(m) => seq![1u8] + string_bytes(m.message_id) + le_bytes(m.chunk_index as nat, 4) + le_bytes(
            m.chunk_count as nat,
            4,
        ) + le_bytes(m.segment_id as nat, 4) + le_bytes(m.offset as nat, 8) + le_bytes(m.length as nat, 4)
            + le_bytes(m.checksum as nat, 4),
    }
}

/// Bytes of one frame.
pub open spec fn frame_bytes(f: FrameV) -> Seq<u8> {
    seq![spec_kind_byte(f.kind)] + meta_bytes(f.meta) + le_bytes(f.payload.len(), 4) + le_bytes(
        spec_checksum32(f.payload) as nat,
        4,
    ) + f.payload
}

/// Bytes of a sequence of frames.
pub open spec fn frames_bytes(fs: Seq<FrameV>) -> Seq<u8>
    decreases fs.len(),
{
    if fs.len() == 0 {
        Seq::empty()
    } else {
        frames_bytes(fs.drop_last()) + frame_bytes(fs.last())
    }
}

/// Bytes of a whole stream: magic, frame count (as `u32`), frames.
pub open spec fn stream_bytes(fs: Seq<FrameV>) -> Seq<u8> {
    stream_magic() + le_bytes(fs.len(), 4) + frames_bytes(fs)
}

/// Writes frames to bytes.
pub struct FrameWriter {
    frames: Vec<Frame>,
}

impl FrameWriter {
    /// The frames pushed so far.
    pub closed spec fn pending(&self) -> Seq<FrameV> {
        self.frames@.map_values(|f: Frame| f@)
    }

    /// Creates a writer with no frames.
    pub fn new() -> (r: FrameWriter)
        ensures
            r.pending() == Seq::<FrameV>::empty(),
    {
        let r = FrameWriter { frames: Vec::new() };
        assert(r.pending() =~= Seq::<FrameV>::empty());
        r
    }

    /// Queues a frame.
    pub fn push(&mut self, frame: Frame)
        ensures
            final(self).pending() == old(self).pending().push(frame@),
    {
        self.frames.push(frame);
        assert(self.pending() =~= old(self).pending().push(frame@));
    }

    /// Serializes the queued frames.
    pub fn finish(self) -> (r: SxResult<Vec<u8>>)
        ensures
            r matches Ok(b) && b@ == stream_bytes(self.pending()),
    {
        let ghost fs = self.pending();
        let mut out: Vec<u8> = Vec::new();
        out.push(0x53);
        out.push(0x58);
        out.push(0x53);
        out.push(0x31);
        push_le(&mut out, self.frames.len() as u64, 4);
        proof {
            assert(out@ =~= stream_magic() + le_bytes(fs.len(), 4) + frames_bytes(fs.subrange(0, 0)));
        }
        let mut i: usize = 0;
        while i < self.frames.len()
            invariant
                i <= self.frames@.len(),
                fs == self.frames@.map_values(|f: Frame| f@),
                out@ == stream_magic() + le_bytes(fs.len(), 4) + frames_bytes(fs.subrange(0, i as int)),
            decreases self.frames.len() - i,
        {
            let ghost before = out@;
            write_frame(&mut out, &self.frames[i]);
            proof {
                assert(fs.subrange(0, i + 1).drop_last() =~= fs.subrange(0, i as int));
                assert(fs.subrange(0, i + 1).last() == self.frames@[i as int]@);
            }
            i += 1;
        }
        assert(fs.subrange(0, i as int) =~= fs);
        Ok(out)
    }
}

fn write_string(out: &mut Vec<u8>, s: &str)
    ensures
        final(out)@ == old(out)@ + string_bytes(s@),
{
    let b = s.as_bytes();
    push_le(out, b.len() as u64, 4);
    append_bytes(out, b);
    assert(final(out)@ =~= old(out)@ + string_bytes(s@));
}

fn write_frame(out: &mut Vec<u8>, f: &Frame)
    ensures
        final(out)@ == old(out)@ + frame_bytes(f@),
{
    let ghost start = out@;
    out.push(f.kind.to_byte());
    match &f.metadata {
        Some(meta) => {
            out.push(1);
            write_string(out, meta.message_id.as_str());
            push_le(out, meta.chunk_index as u64, 4);
            push_le(out, meta.chunk_count as u64, 4);
            push_le(out, meta.segment_id as u64, 4);
            push_le(out, meta.offset, 8);
            push_le(out, meta.length as u64, 4);
            push_le(out, meta.checksum as u64, 4);
        },
        None => out.push(0),
    }
    let ghost mid = out@;
    assert(mid =~= start + seq![spec_kind_byte(f.kind)] + meta_bytes(f@.meta));
    push_le(out, f.payload.len() as u64, 4);
    let c = checksum32(f.payload.as_slice());
    push_le(out, c as u64, 4);
    append_bytes(out, f.payload.as_slice());
    assert(out@ =~= start + frame_bytes(f@));
}

// ---------------------------------------------------------------------------
// Reading
// ---------------------------------------------------------------------------

/// Reading a `u32`-length-prefixed UTF-8 string at `pos`.
pub open spec fn string_at(b: Seq<u8>, pos: int) -> Result<(Seq<char>, int), SxErrorCode> {
    match fixed_at(b, pos, 4) {
        Err(e) => Err(e),
        Ok((n, p1)) => match span(b.len() as int, p1, n as int) {
            Err(e) => Err(e),
            Ok(p2) => if valid_utf8(b.subrange(p1, p2)) {
                Ok((decode_utf8(b.subrange(p1, p2)), p2))
            } else {
                Err(SxErrorCode::InvalidUtf8)
            },
        },
    }
}

/// Reading chunk metadata at `pos`.
pub open spec fn meta_at(b: Seq<u8>, pos: int) -> Result<(MetaV, int), SxErrorCode> {
    match string_at(b, pos) {
        Err(e) => Err(e),
        Ok((id, p1)) => match fixed_at(b, p1, 4) {
            Err(e) => Err(e),
            Ok((ci, p2)) => match fixed_at(b, p2, 4) {
                Err(e) => Err(e),
                Ok((cc, p3)) => match fixed_at(b, p3, 4) {
                    Err(e) => Err(e),
                    Ok((seg, p4)) => match fixed_at(b, p4, 8) {
                        Err(e) => Err(e),
                        Ok((off, p5)) => match fixed_at(b, p5, 4) {
                            Err(e) => Err(e),
                            Ok((ln, p6)) => match fixed_at(b, p6, 4) {
                                Err(e) => Err(e),
                                Ok((ck, p7)) => Ok(
                                    (
                                        MetaV {
                                            message_id: id,
                                            chunk_index: ci as u32,
                                            chunk_count: cc as u32,
                                            segment_id: seg as u32,
                                            offset: off as u64,
                                            length: ln as u32,
                                            checksum: ck as u32,
                                        },
                                        p7,
                                    ),
                                ),
                            },
                        },
                    },
                },
            },
        },
    }
}

/// Reading the frame body (after kind and flag) at `pos`.
pub open spec fn frame_body_at(b: Seq<u8>, pos: int, kind: FrameKind, meta: Option<MetaV>) -> Result<(FrameV, int), SxErrorCode> {
    match fixed_at(b, pos, 4) {
        Err(e) => Err(e),
        Ok((plen, p1)) => match fixed_at(b, p1, 4) {
            Err(e) => Err(e),
            Ok((pck, p2)) => match span(b.len() as int, p2, plen as int) {
                Err(e) => Err(e),
                Ok(p3) => {
                    let payload = b.subrange(p2, p3);
                    if spec_checksum32(payload) != pck as u32 {
                        Err(SxErrorCode::ChecksumFailed)
                    } else {
                        match meta {
                            Some(m) => if m.length as int != payload.len() {
                                Err(SxErrorCode::ValidationError)
                            } else if spec_checksum32(payload) != m.checksum {
                                Err(SxErrorCode::ChecksumFailed)
                            } else {
                                Ok((FrameV { kind, meta, payload }, p3))
                            },
                            None => Ok((FrameV { kind, meta, payload }, p3)),
                        }
                    }
                },
            },
        },
    }
}

/// Reading one frame at `pos`.
pub open spec fn frame_at(b: Seq<u8>, pos: int) -> Result<(FrameV, int), SxErrorCode> {
    if pos < 0 || pos >= b.len() {
        Err(SxErrorCode::UnexpectedEof)
    } else {
        match spec_kind_from(b[pos]) {
            None => Err(SxErrorCode::ValidationError),
            Some(kind) => if pos + 1 >= b.len() {
                Err(SxErrorCode::UnexpectedEof)
            } else if b[pos + 1] != 0 {
                match meta_at(b, pos + 2) {
                    Err(e) => Err(e),
                    Ok((m, p)) => frame_body_at(b, p, kind, Some(m)),
                }
            } else {
                frame_body_at(b, pos + 2, kind, None)
            },
        }
    }
}

/// Reading `k` frames in a row from `pos`.
pub open spec fn frames_at(b: Seq<u8>, pos: int, k: nat) -> Result<(Seq<FrameV>, int), SxErrorCode>
    decreases k,
{
    if k == 0 {
        Ok((Seq::empty(), pos))
    } else {
        match frames_at(b, pos, (k - 1) as nat) {
            Err(e) => Err(e),
            Ok((fs, p)) => match frame_at(b, p) {
                Err(e) => Err(e),
                Ok((f, p2)) => Ok((fs.push(f), p2)),
            },
        }
    }
}

/// Reads frames from bytes.
pub struct FrameReader<'a> {
    bytes: &'a [u8],
    cursor: usize,
    remaining: u32,
}

impl<'a> FrameReader<'a> {
    /// The bytes being read.
    pub closed spec fn input(&self) -> Seq<u8> {
        self.bytes@
    }

    /// The position of the next frame.
    pub closed spec fn position(&self) -> int {
        self.cursor as int
    }

    /// The number of frames still to read.
    pub closed spec fn left(&self) -> nat {
        self.remaining as nat
    }

    /// Opens a stream: checks the magic and reads the frame count.
    pub fn new(bytes: &'a [u8]) -> (r: SxResult<FrameReader<'a>>)
        ensures
            (bytes@.len() >= 8 && bytes@.subrange(0, 4) == stream_magic()) <==> r is Ok,
            r matches Ok(rd) ==> rd.input() == bytes@ && rd.position() == 8 && rd.left() == le_value(bytes@.subrange(4, 8)),
            r matches Err(e) ==> e.code == SxErrorCode::InvalidMagic,
    {
        if bytes.len() < 8 || bytes[0] != 0x53 || bytes[1] != 0x58 || bytes[2] != 0x53 || bytes[3] != 0x31 {
            proof {
                if bytes@.len() >= 8 && bytes@.subrange(0, 4) == stream_magic() {
                    assert(bytes@[0] == bytes@.subrange(0, 4)[0]);
                    assert(bytes@[1] == bytes@.subrange(0, 4)[1]);
                    assert(bytes@[2] == bytes@.subrange(0, 4)[2]);
                    assert(bytes@[3] == bytes@.subrange(0, 4)[3]);
                }
            }
            return Err(SxError::msg(SxErrorCode::InvalidMagic, "invalid stream magic"));
        }
        assert(bytes@.subrange(0, 4) =~= stream_magic());
        let remaining = read_le(bytes, 4, 4);
        proof {
            lemma_le_value_bound(bytes@.subrange(4, 8));
            lemma_pow256_values();
        }
        Ok(FrameReader { bytes, cursor: 8, remaining: remaining as u32 })
    }

    fn read_u8(&mut self) -> (r: SxResult<u8>)
        ensures
            final(self).bytes == old(self).bytes,
            final(self).remaining == old(self).remaining,
            old(self).cursor < old(self).bytes@.len() ==> (r matches Ok(b) && b == old(self).bytes@[old(self).cursor as int]
                && final(self).cursor == old(self).cursor + 1),
            old(self).cursor >= old(self).bytes@.len() ==> (r matches Err(e) && e.code == SxErrorCode::UnexpectedEof),
    {
        if self.cursor >= self.bytes.len() {
            return Err(SxError::msg(SxErrorCode::UnexpectedEof, "stream eof"));
        }
        let b = self.bytes[self.cursor];
        self.cursor = self.cursor + 1;
        Ok(b)
    }

    fn read_bytes(&mut self, n: usize) -> (r: SxResult<Vec<u8>>)
        ensures
            final(self).bytes == old(self).bytes,
            final(self).remaining == old(self).remaining,
            match span(old(self).bytes@.len() as int, old(self).cursor as int, n as int) {
                Ok(end) => r matches Ok(v) && v@ == old(self).bytes@.subrange(old(self).cursor as int, end)
                    && final(self).cursor == end,
                Err(c) => r matches Err(e) && e.code == c,
            },
    {
        let end = match self.cursor.checked_add(n) {
            Some(e) => e,
            None => {
                return Err(SxError::msg(SxErrorCode::InvalidLength, "overflow"));
            },
        };
        if end > self.bytes.len() {
            return Err(SxError::msg(SxErrorCode::UnexpectedEof, "stream eof"));
        }
        let v = copy_range(self.bytes, self.cursor, end);
        self.cursor = end;
        Ok(v)
    }

    fn read_fixed(&mut self, n: usize) -> (r: SxResult<u64>)
        requires
            n <= 8,
        ensures
            final(self).bytes == old(self).bytes,
            final(self).remaining == old(self).remaining,
            match fixed_at(old(self).bytes@, old(self).cursor as int, n as int) {
                Ok((v, end)) => r matches Ok(x) && x as nat == v && final(self).cursor == end,
                Err(c) => r matches Err(e) && e.code == c,
            },
    {
        let raw = self.read_bytes(n)?;
        let v = read_le(raw.as_slice(), 0, n);
        assert(raw@.subrange(0, n as int) =~= raw@);
        Ok(v)
    }

    fn read_u32(&mut self) -> (r: SxResult<u32>)
        ensures
            final(self).bytes == old(self).bytes,
            final(self).remaining == old(self).remaining,
            match fixed_at(old(self).bytes@, old(self).cursor as int, 4) {
                Ok((v, end)) => r matches Ok(x) && x as nat == v && final(self).cursor == end,
                Err(c) => r matches Err(e) && e.code == c,
            },
    {
        let v = self.read_fixed(4)?;
        proof {
            lemma_le_value_bound(old(self).bytes@.subrange(old(self).cursor as int, old(self).cursor + 4));
            lemma_pow256_values();
        }
        Ok(v as u32)
    }

    fn read_u64(&mut self) -> (r: SxResult<u64>)
        ensures
            final(self).bytes == old(self).bytes,
            final(self).remaining == old(self).remaining,
            match fixed_at(old(self).bytes@, old(self).cursor as int, 8) {
                Ok((v, end)) => r matches Ok(x) && x as nat == v && final(self).cursor == end,
                Err(c) => r matches Err(e) && e.code == c,
            },
    {
        self.read_fixed(8)
    }

    fn read_string(&mut self) -> (r: SxResult<String>)
        ensures
            final(self).bytes == old(self).bytes,
            final(self).remaining == old(self).remaining,
            match string_at(old(self).bytes@, old(self).cursor as int) {
                Ok((s, end)) => r matches Ok(x) && x@ == s && final(self).cursor == end,
                Err(c) => r matches Err(e) && e.code == c,
            },
    {
        let len = self.read_u32()?;
        let raw = self.read_bytes(len as usize)?;
        match string_from_utf8(raw) {
            Some(s) => Ok(s),
            None => Err(SxError::msg(SxErrorCode::InvalidUtf8, "invalid utf-8 string")),
        }
    }

    /// Reads the next frame, or `None` once the declared number of frames has
    /// been read.
    pub fn next_frame(&mut self) -> (r: SxResult<Option<Frame>>)
        ensures
            final(self).input() == old(self).input(),
            old(self).left() == 0 ==> (r matches Ok(None) && final(self).position() == old(self).position()
                && final(self).left() == 0),
            old(self).left() > 0 ==> match frame_at(old(self).input(), old(self).position()) {
                Ok((f, end)) => r matches Ok(Some(x)) && x@ == f && final(self).position() == end
                    && final(self).left() == old(self).left() - 1,
                Err(c) => r matches Err(e) && e.code == c,
            },
    {
        if self.remaining == 0 {
            return Ok(None);
        }
        let kb = self.read_u8()?;
        let kind = FrameKind::from_u8(kb)?;
        let flag = self.read_u8()?;
        let metadata = if flag != 0 {
            let message_id = self.read_string()?;
            let chunk_index = self.read_u32()?;
            let chunk_count = self.read_u32()?;
            let segment_id = self.read_u32()?;
            let offset = self.read_u64()?;
            let length = self.read_u32()?;
            let checksum = self.read_u32()?;
            Some(ChunkMetadata { message_id, chunk_index, chunk_count, segment_id, offset, length, checksum })
        } else {
            None
        };
        let payload_len = self.read_u32()?;
        let payload_checksum = self.read_u32()?;
        let payload = self.read_bytes(payload_len as usize)?;
        let c = checksum32(payload.as_slice());
        if c != payload_checksum {
            return Err(SxError::msg(SxErrorCode::ChecksumFailed, "frame payload checksum mismatch"));
        }
        match &metadata {
            Some(meta) => {
                if meta.length as usize != payload.len() {
                    return Err(SxError::msg(SxErrorCode::ValidationError, "chunk length metadata mismatch"));
                }
                if c != meta.checksum {
                    return Err(SxError::msg(SxErrorCode::ChecksumFailed, "chunk metadata checksum mismatch"));
                }
            },
            None => {},
        }
        self.remaining = self.remaining - 1;
        Ok(Some(Frame { kind, metadata, payload }))
    }
}

} // verus!

verus! {

// ---------------------------------------------------------------------------
// Laws
// ---------------------------------------------------------------------------

/// A frame the reader accepts back: lengths fit the `u32` fields and chunk
/// metadata agrees with the payload.
pub open spec fn frame_wf(f: FrameV) -> bool {
    &&& f.payload.len() < 0x1_0000_0000
    &&& match f.meta {
        Some(m) => {
            &&& encode_utf8(m.message_id).len() < 0x1_0000_0000
            &&& m.length as int == f.payload.len()
            &&& m.checksum == spec_checksum32(f.payload)
        },
        None => true,
    }
}

proof fn lemma_string_at(b: Seq<u8>, pos: int, s: Seq<char>)
    requires
        0 <= pos,
        pos + string_bytes(s).len() <= b.len() <= usize::MAX,
        b.subrange(pos, pos + string_bytes(s).len()) == string_bytes(s),
        encode_utf8(s).len() < 0x1_0000_0000,
    ensures
        string_at(b, pos) == Ok::<(Seq<char>, int), SxErrorCode>((s, pos + string_bytes(s).len())),
{
    let e = encode_utf8(s);
    lemma_le_bytes_len(e.len(), 4);
    lemma_pow256_values();
    let sb = string_bytes(s);
    assert(b.subrange(pos, pos + 4) =~= sb.subrange(0, 4));
    assert(sb.subrange(0, 4) =~= le_bytes(e.len(), 4));
    lemma_fixed_at(b, pos, e.len(), 4);
    assert(b.subrange(pos + 4, pos + 4 + e.len()) =~= sb.subrange(4, 4 + e.len() as int));
    assert(sb.subrange(4, 4 + e.len() as int) =~= e);
    encode_utf8_valid_utf8(s);
    encode_utf8_decode_utf8(s);
}

/// A window of `b` that holds `x + y` holds `x` then `y`.
proof fn lemma_split(b: Seq<u8>, p: int, x: Seq<u8>, y: Seq<u8>)
    requires
        0 <= p,
        p + x.len() + y.len() <= b.len(),
        b.subrange(p, p + x.len() + y.len()) == x + y,
    ensures
        b.subrange(p, p + x.len()) == x,
        b.subrange(p + x.len(), p + x.len() + y.len()) == y,
{
    assert(b.subrange(p, p + x.len()) =~= (x + y).subrange(0, x.len() as int));
    assert((x + y).subrange(0, x.len() as int) =~= x);
    assert(b.subrange(p + x.len(), p + x.len() + y.len()) =~= (x + y).subrange(x.len() as int, (x.len() + y.len()) as int));
    assert((x + y).subrange(x.len() as int, (x.len() + y.len()) as int) =~= y);
}

pub open spec fn meta_fields_bytes(m: MetaV) -> Seq<u8> {
    le_bytes(m.chunk_index as nat, 4) + le_bytes(m.chunk_count as nat, 4) + le_bytes(m.segment_id as nat, 4)
        + le_bytes(m.offset as nat, 8) + le_bytes(m.length as nat, 4) + le_bytes(m.checksum as nat, 4)
}

#[verifier::rlimit(40)]
proof fn lemma_meta_at(b: Seq<u8>, pos: int, m: MetaV)
    requires
        0 <= pos,
        encode_utf8(m.message_id).len() < 0x1_0000_0000,
        pos + string_bytes(m.message_id).len() + 28 <= b.len() <= usize::MAX,
        b.subrange(pos, pos + string_bytes(m.message_id).len() + 28) == string_bytes(m.message_id) + meta_fields_bytes(m),
    ensures
        meta_at(b, pos) == Ok::<(MetaV, int), SxErrorCode>((m, pos + string_bytes(m.message_id).len() + 28)),
{
    lemma_pow256_values();
    let sb = string_bytes(m.message_id);
    lemma_le_bytes_len(encode_utf8(m.message_id).len(), 4);
    lemma_le_bytes_len(m.chunk_index as nat, 4);
    lemma_le_bytes_len(m.chunk_count as nat, 4);
    lemma_le_bytes_len(m.segment_id as nat, 4);
    lemma_le_bytes_len(m.offset as nat, 8);
    lemma_le_bytes_len(m.length as nat, 4);
    lemma_le_bytes_len(m.checksum as nat, 4);
    let mf = meta_fields_bytes(m);
    assert(mf.len() == 28);
    lemma_split(b, pos, sb, mf);
    lemma_string_at(b, pos, m.message_id);
    let q = pos + sb.len();
    let a1 = le_bytes(m.chunk_index as nat, 4);
    let a2 = le_bytes(m.chunk_count as nat, 4);
    let a3 = le_bytes(m.segment_id as nat, 4);
    let a4 = le_bytes(m.offset as nat, 8);
    let a5 = le_bytes(m.length as nat, 4);
    let a6 = le_bytes(m.checksum as nat, 4);
    assert(mf == a1 + a2 + a3 + a4 + a5 + a6);
    lemma_split(b, q, a1 + a2 + a3 + a4 + a5, a6);
    lemma_split(b, q, a1 + a2 + a3 + a4, a5);
    lemma_split(b, q, a1 + a2 + a3, a4);
    lemma_split(b, q, a1 + a2, a3);
    lemma_split(b, q, a1, a2);
    lemma_fixed_at(b, q, m.chunk_index as nat, 4);
    lemma_fixed_at(b, q + 4, m.chunk_count as nat, 4);
    lemma_fixed_at(b, q + 8, m.segment_id as nat, 4);
    lemma_fixed_at(b, q + 12, m.offset as nat, 8);
    lemma_fixed_at(b, q + 20, m.length as nat, 4);
    lemma_fixed_at(b, q + 24, m.checksum as nat, 4);
}

#[verifier::rlimit(40)]
proof fn lemma_body_at(b: Seq<u8>, pos: int, f: FrameV)
    requires
        0 <= pos,
        frame_wf(f),
        pos + 8 + f.payload.len() <= b.len() <= usize::MAX,
        b.subrange(pos, pos + 8 + f.payload.len()) == le_bytes(f.payload.len(), 4) + le_bytes(
            spec_checksum32(f.payload) as nat,
            4,
        ) + f.payload,
    ensures
        frame_body_at(b, pos, f.kind, f.meta) == Ok::<(FrameV, int), SxErrorCode>((f, pos + 8 + f.payload.len())),
{
    lemma_pow256_values();
    let a1 = le_bytes(f.payload.len(), 4);
    let a2 = le_bytes(spec_checksum32(f.payload) as nat, 4);
    lemma_le_bytes_len(f.payload.len(), 4);
    lemma_le_bytes_len(spec_checksum32(f.payload) as nat, 4);
    lemma_split(b, pos, a1 + a2, f.payload);
    lemma_split(b, pos, a1, a2);
    lemma_fixed_at(b, pos, f.payload.len(), 4);
    lemma_fixed_at(b, pos + 4, spec_checksum32(f.payload) as nat, 4);
}

/// One frame read back from its bytes, wherever it sits.
#[verifier::rlimit(40)]
proof fn lemma_frame_at(b: Seq<u8>, p0: int, f: FrameV)
    requires
        frame_wf(f),
        0 <= p0,
        p0 + frame_bytes(f).len() <= b.len() <= usize::MAX,
        b.subrange(p0, p0 + frame_bytes(f).len()) == frame_bytes(f),
    ensures
        frame_at(b, p0) == Ok::<(FrameV, int), SxErrorCode>((f, p0 + frame_bytes(f).len())),
{
    let fb = frame_bytes(f);
    let mb = meta_bytes(f.meta);
    let kb = seq![spec_kind_byte(f.kind)];
    let body = le_bytes(f.payload.len(), 4) + le_bytes(spec_checksum32(f.payload) as nat, 4) + f.payload;
    lemma_le_bytes_len(f.payload.len(), 4);
    lemma_le_bytes_len(spec_checksum32(f.payload) as nat, 4);
    assert(fb =~= kb + mb + body);
    lemma_split(b, p0, kb + mb, body);
    lemma_split(b, p0, kb, mb);
    assert(b[p0] == spec_kind_byte(f.kind)) by {
        assert(b[p0] == b.subrange(p0, p0 + 1)[0]);
    }
    assert(b[p0 + 1] == mb[0]) by {
        assert(b[p0 + 1] == b.subrange(p0 + 1, p0 + 1 + mb.len())[0]);
    }
    let pb = p0 + 1 + mb.len();
    match f.meta {
        Some(m) => {
            let rest = mb.drop_first();
            assert(mb =~= seq![1u8] + rest);
            assert(rest =~= string_bytes(m.message_id) + meta_fields_bytes(m));
            lemma_split(b, p0 + 1, seq![1u8], rest);
            lemma_le_bytes_len(m.chunk_index as nat, 4);
            lemma_le_bytes_len(m.chunk_count as nat, 4);
            lemma_le_bytes_len(m.segment_id as nat, 4);
            lemma_le_bytes_len(m.offset as nat, 8);
            lemma_le_bytes_len(m.length as nat, 4);
            lemma_le_bytes_len(m.checksum as nat, 4);
            lemma_meta_at(b, p0 + 2, m);
        },
        None => {},
    }
    lemma_body_at(b, pb, f);
}

proof fn lemma_frames_bytes_len(fs: Seq<FrameV>, k: int)
    requires
        0 <= k <= fs.len(),
    ensures
        frames_bytes(fs.subrange(0, k)).len() <= frames_bytes(fs).len(),
        frames_bytes(fs) == frames_bytes(fs.subrange(0, k)) + frames_bytes(fs).subrange(
            frames_bytes(fs.subrange(0, k)).len() as int,
            frames_bytes(fs).len() as int,
        ),
    decreases fs.len() - k,
{
    if k == fs.len() {
        assert(fs.subrange(0, k) =~= fs);
        assert(frames_bytes(fs).subrange(frames_bytes(fs).len() as int, frames_bytes(fs).len() as int) =~= Seq::<u8>::empty());
        assert(frames_bytes(fs) =~= frames_bytes(fs) + Seq::<u8>::empty());
    } else {
        lemma_frames_bytes_len(fs, k + 1);
        let a = frames_bytes(fs.subrange(0, k));
        let a2 = frames_bytes(fs.subrange(0, k + 1));
        assert(fs.subrange(0, k + 1).drop_last() =~= fs.subrange(0, k));
        assert(a2 == a + frame_bytes(fs[k]));
        let all = frames_bytes(fs);
        assert(all =~= a + all.subrange(a.len() as int, all.len() as int));
    }
}

/// Law: a reader reads back, in order, the frames a writer wrote.  From the
/// frame area of the writer's output (after the 8-byte header), reading as
/// many frames as were written yields those frames and ends at the end.
pub proof fn law_stream_roundtrip(fs: Seq<FrameV>)
    requires
        forall|i: int| 0 <= i < fs.len() ==> frame_wf(#[trigger] fs[i]),
        stream_bytes(fs).len() <= usize::MAX,
        fs.len() < 0x1_0000_0000,
    ensures
        stream_bytes(fs).len() >= 8,
        stream_bytes(fs).subrange(0, 4) == stream_magic(),
        le_value(stream_bytes(fs).subrange(4, 8)) == fs.len(),
        frames_at(stream_bytes(fs), 8, fs.len()) == Ok::<(Seq<FrameV>, int), SxErrorCode>(
            (fs, stream_bytes(fs).len() as int),
        ),
{
    let b = stream_bytes(fs);
    lemma_pow256_values();
    lemma_le_bytes_len(fs.len(), 4);
    assert(b.subrange(0, 4) =~= stream_magic());
    assert(b.subrange(4, 8) =~= le_bytes(fs.len(), 4));
    lemma_le_roundtrip(fs.len(), 4);
    lemma_frames_at_prefix(fs, fs.len() as int);
    assert(fs.subrange(0, fs.len() as int) =~= fs);
}

/// Where the reader stands after reading `k` frames of a written stream.
pub open spec fn read_position(fs: Seq<FrameV>, k: int) -> int {
    8 + frames_bytes(fs.subrange(0, k)).len() as int
}

/// Law: reading a written stream frame by frame.  The reader opens at
/// position 8 with `fs.len()` frames left (see `law_stream_roundtrip`); from
/// the position after `k` frames, the next frame read is `fs[k]`, and the
/// reader moves on to the position after `k + 1` frames.  Once all are
/// read, that position is the end of the bytes.
pub proof fn law_stream_reader_steps(fs: Seq<FrameV>, k: int)
    requires
        forall|i: int| 0 <= i < fs.len() ==> frame_wf(#[trigger] fs[i]),
        stream_bytes(fs).len() <= usize::MAX,
        fs.len() < 0x1_0000_0000,
        0 <= k < fs.len(),
    ensures
        frame_at(stream_bytes(fs), read_position(fs, k)) == Ok::<(FrameV, int), SxErrorCode>(
            (fs[k], read_position(fs, k + 1)),
        ),
        read_position(fs, fs.len() as int) == stream_bytes(fs).len(),
{
    let b = stream_bytes(fs);
    lemma_frames_at_prefix(fs, k);
    lemma_frames_at_prefix(fs, k + 1);
    lemma_frames_at_prefix(fs, fs.len() as int);
    law_stream_roundtrip(fs);
    let (f, p2) = frame_at(b, read_position(fs, k))->Ok_0;
    assert(fs.subrange(0, k).push(f) == fs.subrange(0, k + 1));
    assert(fs.subrange(0, k).push(f)[k] == f);
    assert(fs.subrange(0, k + 1)[k] == fs[k]);
}

#[verifier::rlimit(80)]
#[verifier::spinoff_prover]
proof fn lemma_frames_at_prefix(fs: Seq<FrameV>, k: int)
    requires
        forall|i: int| 0 <= i < fs.len() ==> frame_wf(#[trigger] fs[i]),
        stream_bytes(fs).len() <= usize::MAX,
        0 <= k <= fs.len(),
    ensures
        frames_at(stream_bytes(fs), 8, k as nat) == Ok::<(Seq<FrameV>, int), SxErrorCode>(
            (fs.subrange(0, k), 8 + frames_bytes(fs.subrange(0, k)).len() as int),
        ),
    decreases k,
{
    let b = stream_bytes(fs);
    lemma_le_bytes_len(fs.len(), 4);
    let head = stream_magic() + le_bytes(fs.len(), 4);
    assert(head.len() == 8);
    if k == 0 {
        assert(fs.subrange(0, 0) =~= Seq::<FrameV>::empty());
    } else {
        lemma_frames_at_prefix(fs, k - 1);
        let pre_frames = fs.subrange(0, k - 1);
        assert(fs.subrange(0, k).drop_last() =~= pre_frames);
        let f = fs[k - 1];
        lemma_frames_bytes_len(fs, k);
        let fp = frames_bytes(pre_frames);
        let mid = frames_bytes(fs.subrange(0, k));
        assert(mid == fp + frame_bytes(f));
        let all = frames_bytes(fs);
        let post = all.subrange(mid.len() as int, all.len() as int);
        assert(all == mid + post);
        assert(b == head + all);
        assert(b.subrange(0, b.len() as int) =~= head + (fp + frame_bytes(f) + post));
        lemma_split(b, 0, head, fp + frame_bytes(f) + post);
        lemma_split(b, 8, fp + frame_bytes(f), post);
        lemma_split(b, 8, fp, frame_bytes(f));
        lemma_frame_at(b, (8 + fp.len()) as int, f);
        assert(fs.subrange(0, k - 1).push(f) =~= fs.subrange(0, k));
    }
}

} // verus!

verus! {

// ---------------------------------------------------------------------------
// Chunk reassembly
// ---------------------------------------------------------------------------

/// What has been gathered for one message: the chunk count it announced and
/// its chunks, `(index, payload)`, in arrival order.
pub struct ChunkSetV {
    pub count: u32,
    pub chunks: Seq<(u32, Seq<u8>)>,
}

/// The payload of chunk `i` among gathered chunks, if it arrived.
pub open spec fn chunk_of(cs: Seq<(u32, Seq<u8>)>, i: u32) -> Option<Seq<u8>>
    decreases cs.len(),
{
    if cs.len() == 0 {
        None
    } else if cs[0].0 == i {
        Some(cs[0].1)
    } else {
        chunk_of(cs.drop_first(), i)
    }
}

/// One frame taken into the gathered state, `None` once the frames are
/// refused: a chunk frame without metadata, a chunk count that disagrees with
/// the one announced earlier for the message (a count of 0 announces
/// nothing), or a chunk index that arrived before.  Frames of other kinds
/// are passed over.
pub open spec fn chunk_step(
    st: Option<Seq<(Seq<char>, ChunkSetV)>>,
    f: FrameV,
) -> Option<Seq<(Seq<char>, ChunkSetV)>> {
    match st {
        None => None,
        Some(s) => if f.kind != FrameKind::Chunk {
            Some(s)
        } else {
            match f.meta {
                None => None,
                Some(m) => {
                    let cur = match lookup(s, m.message_id) {
                        Some(a) => a,
                        None => ChunkSetV { count: 0, chunks: Seq::empty() },
                    };
                    if cur.count != 0 && cur.count != m.chunk_count {
                        None
                    } else if chunk_of(cur.chunks, m.chunk_index) is Some {
                        None
                    } else {
                        Some(
                            insert_entry(
                                s,
                                m.message_id,
                                ChunkSetV {
                                    count: m.chunk_count,
                                    chunks: cur.chunks.push((m.chunk_index, f.payload)),
                                },
                            ),
                        )
                    }
                },
            }
        },
    }
}

/// The state gathered from frames in order, keyed by message id in key
/// order.
pub open spec fn collect_chunks(fs: Seq<FrameV>) -> Option<Seq<(Seq<char>, ChunkSetV)>>
    decreases fs.len(),
{
    if fs.len() == 0 {
        Some(Seq::empty())
    } else {
        chunk_step(collect_chunks(fs.drop_last()), fs.last())
    }
}

/// A message is complete when it has as many chunks as it announced and
/// every index below the count arrived.
pub open spec fn chunk_set_complete(a: ChunkSetV) -> bool {
    &&& a.chunks.len() == a.count
    &&& forall|i: u32| i < a.count ==> #[trigger] chunk_of(a.chunks, i) is Some
}

/// Every gathered message is complete.
pub open spec fn all_complete(st: Seq<(Seq<char>, ChunkSetV)>) -> bool {
    forall|j: int| 0 <= j < st.len() ==> chunk_set_complete(#[trigger] st[j].1)
}

/// Chunks `0 .. n` joined in index order.
pub open spec fn assemble(cs: Seq<(u32, Seq<u8>)>, n: nat) -> Seq<u8>
    decreases n,
{
    if n == 0 {
        Seq::empty()
    } else {
        assemble(cs, (n - 1) as nat) + match chunk_of(cs, (n - 1) as u32) {
            Some(p) => p,
            None => Seq::empty(),
        }
    }
}

pub open spec fn frames_view(frames: Seq<Frame>) -> Seq<FrameV> {
    frames.map_values(|f: Frame| f@)
}

proof fn lemma_chunk_of(cs: Seq<(u32, Seq<u8>)>, i: u32)
    ensures
        chunk_of(cs, i) is None <==> forall|j: int| 0 <= j < cs.len() ==> (#[trigger] cs[j]).0 != i,
        forall|j: int|
            0 <= j < cs.len() && (#[trigger] cs[j]).0 == i && (forall|k: int| 0 <= k < j ==> cs[k].0 != i)
                ==> chunk_of(cs, i) == Some(cs[j].1),
    decreases cs.len(),
{
    if cs.len() > 0 {
        let t = cs.drop_first();
        lemma_chunk_of(t, i);
        assert forall|j: int|
            0 <= j < cs.len() && (#[trigger] cs[j]).0 == i && (forall|k: int| 0 <= k < j ==> cs[k].0 != i)
            implies chunk_of(cs, i) == Some(cs[j].1) by {
            if j > 0 {
                assert(cs[0].0 != i);
                assert(t[j - 1] == cs[j]);
                assert forall|k: int| 0 <= k < j - 1 implies t[k].0 != i by {
                    assert(t[k] == cs[k + 1]);
                }
            }
        }
        assert forall|j: int| 0 < j < cs.len() implies #[trigger] cs[j] == t[j - 1] by {}
        if cs[0].0 != i && chunk_of(t, i) is Some {
            let j = choose|j: int| 0 <= j < t.len() && (#[trigger] t[j]).0 == i;
            assert(cs[j + 1] == t[j]);
        }
    }
}

/// A key absent at its place in sorted entries is absent everywhere.
proof fn lemma_lookup_absent<T>(s: Seq<(Seq<char>, T)>, k: Seq<char>, p: int)
    requires
        sorted_keys(s),
        0 <= p <= s.len(),
        forall|j: int| 0 <= j < p ==> key_lt(#[trigger] s[j].0, k),
        p < s.len() ==> !key_lt(s[p].0, k) && s[p].0 != k,
    ensures
        lookup(s, k) is None,
{
    lemma_lookup_index(s, k);
    if has_key(s, k) {
        let i = choose|i: int| 0 <= i < s.len() && #[trigger] s[i].0 == k;
        if i < p {
            lemma_key_lt_irreflexive(k);
        } else if i > p {
            assert(key_lt(s[p].0, s[i].0));
        }
    }
}

struct ChunkSet {
    count: u32,
    chunks: Vec<(u32, Vec<u8>)>,
}

impl ChunkSet {
    spec fn view_set(&self) -> ChunkSetV {
        ChunkSetV { count: self.count, chunks: self.chunks@.map_values(|c: (u32, Vec<u8>)| (c.0, c.1@)) }
    }
}

spec fn sets_view(s: Seq<(String, ChunkSet)>) -> Seq<(Seq<char>, ChunkSetV)> {
    s.map_values(|e: (String, ChunkSet)| (e.0@, e.1.view_set()))
}

/// Position of the first chunk with index `i`.
fn find_chunk(cs: &Vec<(u32, Vec<u8>)>, i: u32) -> (r: Option<usize>)
    ensures
        r matches Some(q) ==> q < cs@.len() && cs@[q as int].0 == i && forall|k: int|
            0 <= k < q ==> (#[trigger] cs@[k]).0 != i,
        r is None ==> forall|k: int| 0 <= k < cs@.len() ==> (#[trigger] cs@[k]).0 != i,
{
    let mut q: usize = 0;
    while q < cs.len()
        invariant
            q <= cs@.len(),
            forall|k: int| 0 <= k < q ==> (#[trigger] cs@[k]).0 != i,
        decreases cs.len() - q,
    {
        if cs[q].0 == i {
            return Some(q);
        }
        q += 1;
    }
    None
}

} // verus!

verus! {

/// Once the gathered state is refused it stays refused.
proof fn lemma_collect_none(fs: Seq<FrameV>, n: int)
    requires
        0 <= n <= fs.len(),
        collect_chunks(fs.subrange(0, n)) is None,
    ensures
        collect_chunks(fs) is None,
    decreases fs.len() - n,
{
    if n == fs.len() {
        assert(fs.subrange(0, n) =~= fs);
    } else {
        assert(fs.subrange(0, n + 1).drop_last() =~= fs.subrange(0, n));
        lemma_collect_none(fs, n + 1);
    }
}

/// Chunks `0 .. count` of a set joined in index order, `None` when one of
/// them did not arrive.
fn join_chunks(set: &ChunkSet) -> (r: Option<Vec<u8>>)
    ensures
        r is Some <==> forall|q: u32| q < set.count ==> #[trigger] chunk_of(set.view_set().chunks, q) is Some,
        r matches Some(p) ==> p@ == assemble(set.view_set().chunks, set.count as nat),
{
    let ghost cv = set.view_set();
    proof {
        assert forall|k: int| 0 <= k < cv.chunks.len() implies (#[trigger] cv.chunks[k]) == (
        set.chunks@[k].0,
        set.chunks@[k].1@,
        ) by {}
    }
    let mut payload: Vec<u8> = Vec::new();
    let mut idx: u32 = 0;
    while idx < set.count
        invariant
            idx <= set.count,
            cv == set.view_set(),
            forall|k: int| 0 <= k < cv.chunks.len() ==> (#[trigger] cv.chunks[k]) == (
            set.chunks@[k].0,
            set.chunks@[k].1@,
            ),
            payload@ == assemble(cv.chunks, idx as nat),
            forall|q: u32| q < idx ==> #[trigger] chunk_of(cv.chunks, q) is Some,
        decreases set.count - idx,
    {
        let found = find_chunk(&set.chunks, idx);
        proof {
            lemma_chunk_of(cv.chunks, idx);
        }
        match found {
            None => {
                proof {
                    assert(chunk_of(cv.chunks, idx) is None);
                }
                return None;
            },
            Some(q) => {
                proof {
                    assert(chunk_of(cv.chunks, idx) == Some(cv.chunks[q as int].1));
                }
                append_bytes(&mut payload, set.chunks[q].1.as_slice());
            },
        }
        idx += 1;
    }
    Some(payload)
}

/// Reassembles chunk frames into complete message bytes, one entry per
/// message id, in key order.  Frames of other kinds are passed over.
pub fn reconstruct_chunks(frames: &[Frame]) -> (r: SxResult<Vec<(String, Vec<u8>)>>)
    ensures
        match collect_chunks(frames_view(frames@)) {
            None => (r matches Err(e) && e.code == SxErrorCode::ValidationError),
            Some(st) => if all_complete(st) {
                &&& r matches Ok(out)
                &&& out@.len() == st.len()
                &&& sorted_str_keys(out@)
                &&& forall|j: int|
                    0 <= j < st.len() ==> (#[trigger] out@[j]).0@ == st[j].0 && out@[j].1@ == assemble(
                        st[j].1.chunks,
                        st[j].1.count as nat,
                    )
            } else {
                (r matches Err(e) && e.code == SxErrorCode::ValidationError)
            },
        },
{
    let ghost fv = frames_view(frames@);
    let mut accs: Vec<(String, ChunkSet)> = Vec::new();
    let mut i: usize = 0;
    proof {
        assert(fv.subrange(0, 0) =~= Seq::<FrameV>::empty());
        assert(sets_view(accs@) =~= Seq::<(Seq<char>, ChunkSetV)>::empty());
    }
    while i < frames.len()
        invariant
            i <= frames@.len(),
            fv == frames_view(frames@),
            collect_chunks(fv.subrange(0, i as int)) == Some(sets_view(accs@)),
            sorted_keys(sets_view(accs@)),
        decreases frames.len() - i,
    {
        let ghost s = sets_view(accs@);
        proof {
            assert(fv.subrange(0, i + 1).drop_last() =~= fv.subrange(0, i as int));
            assert(fv.subrange(0, i + 1).last() == frames@[i as int]@);
        }
        let f = &frames[i];
        if f.kind == FrameKind::Chunk {
            match &f.metadata {
                None => {
                    proof {
                        lemma_collect_none(fv, i + 1);
                    }
                    return Err(SxError::msg(SxErrorCode::ValidationError, "chunk frame missing metadata"));
                },
                Some(meta) => {
                    let ghost id = meta.message_id@;
                    proof {
                        assert(sorted_str_keys(accs@)) by {
                            assert forall|a: int, b: int| 0 <= a < b < accs@.len() implies key_lt(
                                #[trigger] accs@[a].0@,
                                #[trigger] accs@[b].0@,
                            ) by {
                                assert(s[a].0 == accs@[a].0@ && s[b].0 == accs@[b].0@);
                            }
                        }
                    }
                    let p = key_position(&accs, meta.message_id.as_str());
                    proof {
                        assert forall|j: int| 0 <= j < p implies key_lt(#[trigger] s[j].0, id) by {
                            assert(s[j].0 == accs@[j].0@);
                        }
                        if p < accs@.len() {
                            assert(s[p as int].0 == accs@[p as int].0@);
                        }
                    }
                    let payload = copy_range(f.payload.as_slice(), 0, f.payload.len());
                    proof {
                        assert(payload@ =~= f.payload@);
                    }
                    if p < accs.len() && str_equal(accs[p].0.as_str(), meta.message_id.as_str()) {
                        let ghost cur = s[p as int].1;
                        proof {
                            lemma_lookup_index(s, id);
                            assert(lookup(s, id) == Some(cur));
                        }
                        let cnt = accs[p].1.count;
                        if cnt != 0 && cnt != meta.chunk_count {
                            proof {
                                lemma_collect_none(fv, i + 1);
                            }
                            return Err(
                                SxError::msg(SxErrorCode::ValidationError, "inconsistent chunk_count for message"),
                            );
                        }
                        let found = find_chunk(&accs[p].1.chunks, meta.chunk_index);
                        proof {
                            lemma_chunk_of(cur.chunks, meta.chunk_index);
                            assert forall|k: int| 0 <= k < cur.chunks.len() implies (#[trigger] cur.chunks[k]).0
                                == accs@[p as int].1.chunks@[k].0 by {}
                        }
                        if found.is_some() {
                            proof {
                                let q = found->0;
                                assert(cur.chunks[q as int].0 == meta.chunk_index);
                                lemma_collect_none(fv, i + 1);
                            }
                            return Err(SxError::msg(SxErrorCode::ValidationError, "duplicate chunk index"));
                        }
                        let ghost nv = ChunkSetV {
                            count: meta.chunk_count,
                            chunks: cur.chunks.push((meta.chunk_index, f.payload@)),
                        };
                        proof {
                            lemma_insert_at(s, id, nv, p as int);
                            lemma_insert_sorted(s, id, nv, p as int);
                        }
                        let (eid, mut eset) = accs.remove(p);
                        eset.count = meta.chunk_count;
                        eset.chunks.push((meta.chunk_index, payload));
                        proof {
                            assert(eset.view_set().chunks =~= nv.chunks);
                        }
                        accs.insert(p, (eid, eset));
                        proof {
                            assert(sets_view(accs@) =~= s.update(p as int, (id, nv)));
                        }
                    } else {
                        proof {
                            lemma_lookup_absent(s, id, p as int);
                        }
                        let ghost nv = ChunkSetV {
                            count: meta.chunk_count,
                            chunks: Seq::<(u32, Seq<u8>)>::empty().push((meta.chunk_index, f.payload@)),
                        };
                        proof {
                            lemma_insert_at(s, id, nv, p as int);
                            lemma_insert_sorted(s, id, nv, p as int);
                        }
                        let mut chunks: Vec<(u32, Vec<u8>)> = Vec::new();
                        chunks.push((meta.chunk_index, payload));
                        let set = ChunkSet { count: meta.chunk_count, chunks };
                        proof {
                            assert(set.view_set().chunks =~= nv.chunks);
                        }
                        accs.insert(p, (meta.message_id.clone(), set));
                        proof {
                            assert(sets_view(accs@) =~= s.insert(p as int, (id, nv)));
                        }
                    }
                },
            }
        }
        i += 1;
    }
    let ghost st = sets_view(accs@);
    proof {
        assert(fv.subrange(0, i as int) =~= fv);
    }
    let mut out: Vec<(String, Vec<u8>)> = Vec::new();
    let mut j: usize = 0;
    while j < accs.len()
        invariant
            j <= accs@.len(),
            st == sets_view(accs@),
            collect_chunks(fv) == Some(st),
            fv == frames_view(frames@),
            out@.len() == j,
            forall|k: int| 0 <= k < j ==> chunk_set_complete(#[trigger] st[k].1),
            forall|k: int|
                0 <= k < j ==> (#[trigger] out@[k]).0@ == st[k].0 && out@[k].1@ == assemble(
                    st[k].1.chunks,
                    st[k].1.count as nat,
                ),
        decreases accs.len() - j,
    {
        let set = &accs[j].1;
        let ghost cv = st[j as int].1;
        proof {
            assert(cv == set.view_set());
            assert forall|k: int| 0 <= k < cv.chunks.len() implies (#[trigger] cv.chunks[k]) == (
            set.chunks@[k].0,
            set.chunks@[k].1@,
            ) by {}
        }
        if set.chunks.len() != set.count as usize {
            proof {
                assert(!chunk_set_complete(st[j as int].1));
                assert(!all_complete(st));
            }
            return Err(SxError::msg(SxErrorCode::ValidationError, "incomplete chunk set for message"));
        }
        let joined = join_chunks(set);
        let payload = match joined {
            None => {
                proof {
                    assert(!chunk_set_complete(st[j as int].1));
                    assert(!all_complete(st));
                }
                return Err(SxError::msg(SxErrorCode::ValidationError, "missing chunk for message"));
            },
            Some(p) => p,
        };
        let id = accs[j].0.clone();
        out.push((id, payload));
        j += 1;
    }
    proof {
        assert(sorted_str_keys(out@)) by {
            assert forall|a: int, b: int| 0 <= a < b < out@.len() implies key_lt(
                #[trigger] out@[a].0@,
                #[trigger] out@[b].0@,
            ) by {
                assert(out@[a].0@ == st[a].0 && out@[b].0@ == st[b].0);
            }
        }
    }
    Ok(out)
}

} // verus!
