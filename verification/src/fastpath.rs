//! Reading one field of an event batch, or one column of a table, straight
//! from the columnar segment without decoding the rest.
use crate::binary::{bit_weight, weight_of};
use crate::codec::{binary_decode, decode_binary};
use crate::columnar::{as_i64s, as_u64s, strs_at};
use crate::container::{parse_container, segment_bytes, segment_slice, container_entries, SegmentEntry, SegmentKind,
    CODEC_COLUMNAR_EVENT_BATCH_V1, CODEC_COLUMNAR_TABLE_V1};
use crate::decode::{byte_at, bytes_at, read_byte, read_bytes, read_fixed, read_string, read_varint, str_at, words_at,
    DecodeStats};
use crate::error::{SxError, SxErrorCode, SxResult};
use crate::fields::{find_key, lemma_dv_fields, lemma_dv_vals, lookup};
use crate::keys::str_equal;
use crate::value::{dv, dv_column, dv_columns, dv_vals, SxColumn, SxValue, V, VColumn};
use crate::value_ops::{lemma_dv_columns, lemma_lookup_first, lemma_lookup_none};
use crate::varint::{lemma_read_varint_bounds, spec_read_varint};
use vstd::prelude::*;

verus! {

/// The end of a column's payload (after its kind byte) when skipped.
pub open spec fn skip_column_at(b: Seq<u8>, pos: int, kind: u8) -> Result<int, SxErrorCode> {
    if kind == 1 {
        match spec_read_varint(b, pos) {
            Err(e) => Err(e),
            Ok((dl, p1)) => match strs_at(b, p1, (dl as usize) as nat, Seq::empty()) {
                Err(e) => Err(e),
                Ok((_, p2)) => match spec_read_varint(b, p2) {
                    Err(e) => Err(e),
                    Ok((il, p3)) => skip_varints_at(b, p3, (il as usize) as nat),
                },
            },
        }
    } else if kind == 2 || kind == 4 {
        match spec_read_varint(b, pos) {
            Err(e) => Err(e),
            Ok((len, p1)) => if p1 + 8 * ((len as usize) as nat) > usize::MAX {
                Err(SxErrorCode::InvalidLength)
            } else if p1 + 8 * ((len as usize) as nat) > b.len() {
                Err(SxErrorCode::UnexpectedEof)
            } else {
                Ok(p1 + 8 * ((len as usize) as nat))
            },
        }
    } else if kind == 3 {
        match spec_read_varint(b, pos) {
            Err(e) => Err(e),
            Ok((_, p1)) => match bytes_at(b, p1) {
                Err(e) => Err(e),
                Ok((_, p2)) => Ok(p2),
            },
        }
    } else {
        Err(SxErrorCode::ValidationError)
    }
}

/// The end of `n` varints.
pub open spec fn skip_varints_at(b: Seq<u8>, pos: int, n: nat) -> Result<int, SxErrorCode>
    decreases n,
{
    if n == 0 {
        Ok(pos)
    } else {
        match spec_read_varint(b, pos) {
            Err(e) => Err(e),
            Ok((_, p)) => skip_varints_at(b, p, (n - 1) as nat),
        }
    }
}

/// Dictionary ids resolved to strings, appended to `acc`; an id past the
/// dictionary is `InvalidDictionaryRef`.
pub open spec fn dict_ids_at(b: Seq<u8>, pos: int, n: nat, dict: Seq<Seq<char>>, acc: Seq<V>) -> Result<Seq<V>, SxErrorCode>
    decreases n,
{
    if n == 0 {
        Ok(acc)
    } else {
        match spec_read_varint(b, pos) {
            Err(e) => Err(e),
            Ok((id, p)) => if ((id as usize) as nat) < dict.len() {
                dict_ids_at(b, p, (n - 1) as nat, dict, acc.push(V::String(dict[(id as usize) as int])))
            } else {
                Err(SxErrorCode::InvalidDictionaryRef)
            },
        }
    }
}

/// The values of the selected column (after its kind byte).
pub open spec fn extract_column_at(b: Seq<u8>, pos: int, kind: u8, rows: nat) -> Result<Seq<V>, SxErrorCode> {
    if kind == 1 {
        match spec_read_varint(b, pos) {
            Err(e) => Err(e),
            Ok((dl, p1)) => match strs_at(b, p1, (dl as usize) as nat, Seq::empty()) {
                Err(e) => Err(e),
                Ok((dict, p2)) => match spec_read_varint(b, p2) {
                    Err(e) => Err(e),
                    Ok((il, p3)) => if (il as usize) as nat != rows {
                        Err(SxErrorCode::InvalidLength)
                    } else {
                        dict_ids_at(b, p3, rows, dict, Seq::empty())
                    },
                },
            },
        }
    } else if kind == 2 || kind == 3 || kind == 4 {
        match spec_read_varint(b, pos) {
            Err(e) => Err(e),
            Ok((len, p1)) => if (len as usize) as nat != rows {
                Err(SxErrorCode::InvalidLength)
            } else if kind == 3 {
                match bytes_at(b, p1) {
                    Err(e) => Err(e),
                    Ok((bits, _)) => if (rows + 7) / 8 > bits.len() {
                        Err(SxErrorCode::InvalidLength)
                    } else {
                        Ok(Seq::new(rows, |i: int| V::Bool((bits[i / 8] & bit_weight(i % 8)) != 0)))
                    },
                }
            } else {
                match words_at(b, p1, rows, 8, Seq::empty()) {
                    Err(e) => Err(e),
                    Ok((ws, _)) => Ok(
                        if kind == 2 {
                            as_i64s(ws).map_values(|x: i64| V::I64(x))
                        } else {
                            as_u64s(ws).map_values(|x: u64| V::F64(x))
                        },
                    ),
                }
            },
        }
    } else {
        Err(SxErrorCode::ValidationError)
    }
}

/// Columns scanned for the one named `field`: its values when found,
/// nothing when no column has that name.
pub open spec fn scan_columns_at(b: Seq<u8>, pos: int, n: nat, rows: nat, field: Seq<char>) -> Result<Seq<V>, SxErrorCode>
    decreases n,
{
    if n == 0 {
        Ok(Seq::empty())
    } else {
        match spec_read_varint(b, pos) {
            Err(e) => Err(e),
            Ok((_, p1)) => match str_at(b, p1) {
                Err(e) => Err(e),
                Ok((name, p2)) => match byte_at(b, p2) {
                    Err(e) => Err(e),
                    Ok((kind, p3)) => if name == field {
                        extract_column_at(b, p3, kind, rows)
                    } else {
                        match skip_column_at(b, p3, kind) {
                            Err(e) => Err(e),
                            Ok(p4) => scan_columns_at(b, p4, (n - 1) as nat, rows, field),
                        }
                    },
                },
            },
        }
    }
}

/// The values of one field of an event-batch payload.
pub open spec fn batch_field_at(b: Seq<u8>, field: Seq<char>) -> Result<Seq<V>, SxErrorCode> {
    match byte_at(b, 0) {
        Err(e) => Err(e),
        Ok((version, p0)) => if version != 1 {
            Err(SxErrorCode::UnsupportedVersion)
        } else {
            match spec_read_varint(b, p0) {
                Err(e) => Err(e),
                Ok((rows, p1)) => match spec_read_varint(b, p1) {
                    Err(e) => Err(e),
                    Ok((cols, p2)) => scan_columns_at(b, p2, (cols as usize) as nat, (rows as usize) as nat, field),
                },
            }
        },
    }
}

fn skip_varints(bytes: &[u8], pos: usize, n: usize) -> (r: SxResult<usize>)
    ensures
        match skip_varints_at(bytes@, pos as int, n as nat) {
            Ok(p) => r matches Ok(q) && q == p,
            Err(c) => r matches Err(e) && e.code == c,
        },
{
    let mut cur: usize = pos;
    let mut i: usize = 0;
    while i < n
        invariant
            i <= n,
            skip_varints_at(bytes@, pos as int, n as nat) == skip_varints_at(bytes@, cur as int, (n - i) as nat),
        decreases n - i,
    {
        match read_varint(bytes, cur) {
            Err(e) => return Err(e),
            Ok((_, q)) => cur = q,
        }
        i += 1;
    }
    Ok(cur)
}

fn skip_strings(bytes: &[u8], pos: usize, n: usize, stats: &mut DecodeStats) -> (r: SxResult<(Vec<String>, usize)>)
    ensures
        match strs_at(bytes@, pos as int, n as nat, Seq::empty()) {
            Ok((s, p)) => r matches Ok((v, q)) && crate::columnar::strings_view(v@) == s && q == p,
            Err(c) => r matches Err(e) && e.code == c,
        },
        final(stats).full_decode_calls == old(stats).full_decode_calls,
        final(stats).hot_field_reads == old(stats).hot_field_reads,
        final(stats).columnar_scans == old(stats).columnar_scans,
        final(stats).rows_materialized == old(stats).rows_materialized,
        final(stats).cold_values_decoded == old(stats).cold_values_decoded,
{
    let mut out: Vec<String> = Vec::new();
    let mut cur: usize = pos;
    let mut i: usize = 0;
    proof {
        assert(crate::columnar::strings_view(out@) =~= Seq::<Seq<char>>::empty());
    }
    while i < n
        invariant
            i <= n,
            strs_at(bytes@, pos as int, n as nat, Seq::empty()) == strs_at(
                bytes@,
                cur as int,
                (n - i) as nat,
                crate::columnar::strings_view(out@),
            ),
            stats.full_decode_calls == old(stats).full_decode_calls,
            stats.hot_field_reads == old(stats).hot_field_reads,
            stats.columnar_scans == old(stats).columnar_scans,
            stats.rows_materialized == old(stats).rows_materialized,
            stats.cold_values_decoded == old(stats).cold_values_decoded,
        decreases n - i,
    {
        match read_string(bytes, cur, stats) {
            Err(e) => return Err(e),
            Ok((s, q)) => {
                proof {
                    assert(crate::columnar::strings_view(out@.push(s)) =~= crate::columnar::strings_view(out@).push(s@));
                }
                out.push(s);
                cur = q;
            },
        }
        i += 1;
    }
    Ok((out, cur))
}

} // verus!

verus! {

/// Skips one column's payload (after its kind byte).
fn skip_column(bytes: &[u8], pos: usize, kind: u8, stats: &mut DecodeStats) -> (r: SxResult<usize>)
    ensures
        match skip_column_at(bytes@, pos as int, kind) {
            Ok(p) => r matches Ok(q) && q == p,
            Err(c) => r matches Err(e) && e.code == c,
        },
        final(stats).full_decode_calls == old(stats).full_decode_calls,
        final(stats).hot_field_reads == old(stats).hot_field_reads,
        final(stats).columnar_scans == old(stats).columnar_scans,
        final(stats).rows_materialized == old(stats).rows_materialized,
        final(stats).cold_values_decoded == old(stats).cold_values_decoded,
{
    if kind == 1 {
        let (dl, p1) = match read_varint(bytes, pos) {
            Err(e) => return Err(e),
            Ok(x) => x,
        };
        let (_, p2) = match skip_strings(bytes, p1, dl as usize, stats) {
            Err(e) => return Err(e),
            Ok(x) => x,
        };
        let (il, p3) = match read_varint(bytes, p2) {
            Err(e) => return Err(e),
            Ok(x) => x,
        };
        skip_varints(bytes, p3, il as usize)
    } else if kind == 2 || kind == 4 {
        let (len, p1) = match read_varint(bytes, pos) {
            Err(e) => return Err(e),
            Ok(x) => x,
        };
        let n = len as usize;
        if n > (usize::MAX - p1) / 8 {
            return Err(SxError::msg(SxErrorCode::InvalidLength, "integer overflow"));
        }
        let end = p1 + 8 * n;
        if end > bytes.len() {
            return Err(SxError::msg(SxErrorCode::UnexpectedEof, "numeric column payload eof"));
        }
        Ok(end)
    } else if kind == 3 {
        let (_, p1) = match read_varint(bytes, pos) {
            Err(e) => return Err(e),
            Ok(x) => x,
        };
        match read_bytes(bytes, p1) {
            Err(e) => Err(e),
            Ok((_, p2)) => Ok(p2),
        }
    } else {
        Err(SxError::msg(SxErrorCode::ValidationError, "unknown column kind"))
    }
}

/// Reads the values of the selected column (after its kind byte).
fn extract_column(bytes: &[u8], pos: usize, kind: u8, rows: usize, stats: &mut DecodeStats) -> (r: SxResult<Vec<SxValue>>)
    ensures
        match extract_column_at(bytes@, pos as int, kind, rows as nat) {
            Ok(vs) => r matches Ok(v) && dv_vals(v@) == vs,
            Err(c) => r matches Err(e) && e.code == c,
        },
        final(stats).full_decode_calls == old(stats).full_decode_calls,
        final(stats).hot_field_reads == old(stats).hot_field_reads,
        final(stats).columnar_scans == old(stats).columnar_scans,
        final(stats).rows_materialized == old(stats).rows_materialized,
        final(stats).cold_values_decoded == old(stats).cold_values_decoded,
{
    let mut out: Vec<SxValue> = Vec::new();
    if kind == 1 {
        let (dl, p1) = match read_varint(bytes, pos) {
            Err(e) => return Err(e),
            Ok(x) => x,
        };
        let (dict, p2) = match skip_strings(bytes, p1, dl as usize, stats) {
            Err(e) => return Err(e),
            Ok(x) => x,
        };
        let (il, p3) = match read_varint(bytes, p2) {
            Err(e) => return Err(e),
            Ok(x) => x,
        };
        if il as usize != rows {
            return Err(SxError::msg(SxErrorCode::InvalidLength, "dictionary id column length mismatch"));
        }
        let ghost dv_dict = crate::columnar::strings_view(dict@);
        let ghost st = *stats;
        let mut cur: usize = p3;
        let mut i: usize = 0;
        proof {
            lemma_dv_vals(out@);
            assert(dv_vals(out@) =~= Seq::<V>::empty());
        }
        while i < rows
            invariant
                i <= rows,
                dv_dict == crate::columnar::strings_view(dict@),
                dv_dict.len() == dict@.len(),
                *stats == st,
                st.full_decode_calls == old(stats).full_decode_calls,
                st.hot_field_reads == old(stats).hot_field_reads,
                st.columnar_scans == old(stats).columnar_scans,
                st.rows_materialized == old(stats).rows_materialized,
                st.cold_values_decoded == old(stats).cold_values_decoded,
                extract_column_at(bytes@, pos as int, kind, rows as nat) == dict_ids_at(
                    bytes@,
                    cur as int,
                    (rows - i) as nat,
                    dv_dict,
                    dv_vals(out@),
                ),
            decreases rows - i,
        {
            match read_varint(bytes, cur) {
                Err(e) => return Err(e),
                Ok((id, q)) => {
                    let idx = id as usize;
                    if idx >= dict.len() {
                        return Err(SxError::msg(SxErrorCode::InvalidDictionaryRef, "dictionary ref out of bounds"));
                    }
                    let s = dict[idx].clone();
                    proof {
                        lemma_dv_vals(out@);
                        lemma_dv_vals(out@.push(SxValue::String(s)));
                        assert(dv_vals(out@.push(SxValue::String(s))) =~= dv_vals(out@).push(V::String(dv_dict[idx as int])));
                    }
                    out.push(SxValue::String(s));
                    cur = q;
                },
            }
            i += 1;
        }
        Ok(out)
    } else if kind == 2 || kind == 3 || kind == 4 {
        let (len, p1) = match read_varint(bytes, pos) {
            Err(e) => return Err(e),
            Ok(x) => x,
        };
        if len as usize != rows {
            return Err(SxError::msg(SxErrorCode::InvalidLength, "column length mismatch"));
        }
        if kind == 3 {
            let (bits, _) = match read_bytes(bytes, p1) {
                Err(e) => return Err(e),
                Ok(x) => x,
            };
            let need = rows / 8 + if rows % 8 != 0 { 1usize } else { 0usize };
            assert(need == (rows + 7) / 8);
            if need > bits.len() {
                return Err(SxError::msg(SxErrorCode::InvalidLength, "bool column payload too short"));
            }
            let mut i: usize = 0;
            while i < rows
                invariant
                    i <= rows,
                    need == (rows + 7) / 8,
                    need <= bits@.len(),
                    out@.len() == i,
                    forall|j: int|
                        0 <= j < i ==> dv(#[trigger] out@[j]) == V::Bool((bits@[j / 8] & bit_weight(j % 8)) != 0),
                decreases rows - i,
            {
                let w = weight_of(i % 8);
                let b = bits[i / 8];
                out.push(SxValue::Bool((b & w) != 0));
                i += 1;
            }
            proof {
                lemma_dv_vals(out@);
                assert(dv_vals(out@) =~= Seq::new(rows as nat, |i: int| V::Bool((bits@[i / 8] & bit_weight(i % 8)) != 0)));
            }
            Ok(out)
        } else {
            let mut cur: usize = p1;
            let ghost mut ws: Seq<nat> = Seq::empty();
            let mut i: usize = 0;
            while i < rows
                invariant
                    i <= rows,
                    kind == 2 || kind == 4,
                    *stats == *old(stats),
                    extract_column_at(bytes@, pos as int, kind, rows as nat) == match words_at(
                        bytes@,
                        p1 as int,
                        rows as nat,
                        8,
                        Seq::empty(),
                    ) {
                        Err(e) => Err(e),
                        Ok((w2, _)) => Ok(
                            if kind == 2 {
                                as_i64s(w2).map_values(|x: i64| V::I64(x))
                            } else {
                                as_u64s(w2).map_values(|x: u64| V::F64(x))
                            },
                        ),
                    },
                    words_at(bytes@, p1 as int, rows as nat, 8, Seq::empty()) == words_at(
                        bytes@,
                        cur as int,
                        (rows - i) as nat,
                        8,
                        ws,
                    ),
                    ws.len() == i,
                    out@.len() == i,
                    forall|j: int|
                        0 <= j < i ==> dv(#[trigger] out@[j]) == (if kind == 2 {
                            V::I64((ws[j] as u64) as i64)
                        } else {
                            V::F64(ws[j] as u64)
                        }),
                decreases rows - i,
            {
                match read_fixed(bytes, cur, 8) {
                    Err(e) => return Err(e),
                    Ok((x, q)) => {
                        proof {
                            ws = ws.push(x as nat);
                        }
                        if kind == 2 {
                            out.push(SxValue::I64(x as i64));
                        } else {
                            out.push(SxValue::F64(x));
                        }
                        cur = q;
                    },
                }
                i += 1;
            }
            proof {
                lemma_dv_vals(out@);
                if kind == 2 {
                    assert(dv_vals(out@) =~= as_i64s(ws).map_values(|x: i64| V::I64(x)));
                } else {
                    assert(dv_vals(out@) =~= as_u64s(ws).map_values(|x: u64| V::F64(x)));
                }
            }
            Ok(out)
        }
    } else {
        Err(SxError::msg(SxErrorCode::ValidationError, "unknown column kind"))
    }
}

/// The values of one field of an event-batch payload, read column by column
/// without building rows.
pub fn extract_event_batch_field_column(data: &[u8], field: &str, stats: &mut DecodeStats) -> (r: SxResult<Vec<SxValue>>)
    ensures
        match batch_field_at(data@, field@) {
            Ok(vs) => r matches Ok(v) && dv_vals(v@) == vs,
            Err(c) => r matches Err(e) && e.code == c,
        },
        final(stats).full_decode_calls == old(stats).full_decode_calls,
        final(stats).hot_field_reads == old(stats).hot_field_reads,
        final(stats).columnar_scans == old(stats).columnar_scans,
        final(stats).rows_materialized == old(stats).rows_materialized,
        final(stats).cold_values_decoded == old(stats).cold_values_decoded,
{
    let (version, p0) = match read_byte(data, 0) {
        Err(e) => return Err(e),
        Ok(x) => x,
    };
    if version != 1 {
        return Err(SxError::msg(SxErrorCode::UnsupportedVersion, "unsupported columnar payload version"));
    }
    let (rows64, p1) = match read_varint(data, p0) {
        Err(e) => return Err(e),
        Ok(x) => x,
    };
    let (cols64, p2) = match read_varint(data, p1) {
        Err(e) => return Err(e),
        Ok(x) => x,
    };
    let rows = rows64 as usize;
    let cols = cols64 as usize;
    let mut cur: usize = p2;
    let mut i: usize = 0;
    while i < cols
        invariant
            i <= cols,
            batch_field_at(data@, field@) == scan_columns_at(data@, cur as int, (cols - i) as nat, rows as nat, field@),
            stats.full_decode_calls == old(stats).full_decode_calls,
            stats.hot_field_reads == old(stats).hot_field_reads,
            stats.columnar_scans == old(stats).columnar_scans,
            stats.rows_materialized == old(stats).rows_materialized,
            stats.cold_values_decoded == old(stats).cold_values_decoded,
        decreases cols - i,
    {
        let (_, q1) = match read_varint(data, cur) {
            Err(e) => return Err(e),
            Ok(x) => x,
        };
        let (name, q2) = match read_string(data, q1, stats) {
            Err(e) => return Err(e),
            Ok(x) => x,
        };
        let (kind, q3) = match read_byte(data, q2) {
            Err(e) => return Err(e),
            Ok(x) => x,
        };
        if str_equal(name.as_str(), field) {
            return extract_column(data, q3, kind, rows, stats);
        }
        match skip_column(data, q3, kind, stats) {
            Err(e) => return Err(e),
            Ok(q4) => cur = q4,
        }
        i += 1;
    }
    Ok(Vec::new())
}

} // verus!

verus! {

/// The first columnar segment holding an event batch.
pub open spec fn first_codec_segment(es: Seq<SegmentEntry>, codec: u8) -> Option<SegmentEntry>
    decreases es.len(),
{
    if es.len() == 0 {
        None
    } else if es[0].kind == SegmentKind::ColumnData && es[0].codec == codec {
        Some(es[0])
    } else {
        first_codec_segment(es.drop_first(), codec)
    }
}

fn find_codec_segment(es: &Vec<SegmentEntry>, codec: u8) -> (r: Option<SegmentEntry>)
    ensures
        r == first_codec_segment(es@, codec),
        r matches Some(e) ==> exists|i: int| 0 <= i < es@.len() && es@[i] == e,
{
    let mut i: usize = 0;
    assert(es@.subrange(0, es@.len() as int) =~= es@);
    while i < es.len()
        invariant
            i <= es@.len(),
            first_codec_segment(es@, codec) == first_codec_segment(es@.subrange(i as int, es@.len() as int), codec),
        decreases es.len() - i,
    {
        let ghost rest = es@.subrange(i as int, es@.len() as int);
        assert(rest[0] == es@[i as int]);
        if es[i].kind == SegmentKind::ColumnData && es[i].codec == codec {
            return Some(es[i]);
        }
        assert(rest.drop_first() =~= es@.subrange(i + 1, es@.len() as int));
        i += 1;
    }
    assert(es@.subrange(i as int, es@.len() as int) =~= Seq::<SegmentEntry>::empty());
    None
}

/// The value an object holds under `f`, as a list of at most one.
pub open spec fn field_of(v: V, f: Seq<char>) -> Seq<V> {
    match v {
        V::Object(fs) => match lookup(fs, f) {
            Some(x) => seq![x],
            None => Seq::empty(),
        },
        _ => Seq::empty(),
    }
}

/// The values under `f` of an object, or of the objects of an array.
pub open spec fn pick_field(v: V, f: Seq<char>) -> Seq<V> {
    match v {
        V::Array(items) => picks(items, f),
        _ => field_of(v, f),
    }
}

pub open spec fn picks(items: Seq<V>, f: Seq<char>) -> Seq<V>
    decreases items.len(),
{
    if items.len() == 0 {
        Seq::empty()
    } else {
        picks(items.drop_last(), f) + field_of(items.last(), f)
    }
}

/// What reading one field of a container yields: from the event-batch
/// segment when there is one, else from the fully decoded value.
pub open spec fn hot_field_values(b: Seq<u8>, f: Seq<char>) -> Result<Seq<V>, SxErrorCode> {
    match container_entries(b) {
        Err(e) => Err(e),
        Ok(es) => match first_codec_segment(es, CODEC_COLUMNAR_EVENT_BATCH_V1) {
            Some(seg) => batch_field_at(segment_bytes(b, seg), f),
            None => match binary_decode(b) {
                Err(e) => Err(e),
                Ok(v) => Ok(pick_field(v, f)),
            },
        },
    }
}

/// The value an object holds under `f`.
fn field_copy(v: &SxValue, f: &str) -> (r: Vec<SxValue>)
    ensures
        dv_vals(r@) == field_of(dv(*v), f@),
{
    let mut out: Vec<SxValue> = Vec::new();
    match v {
        SxValue::Object(fields) => {
            proof {
                lemma_dv_fields(fields@);
            }
            match find_key(fields, f) {
                Some(i) => {
                    proof {
                        lemma_lookup_first(crate::value::dv_fields(fields@), f@, i as int);
                    }
                    out.push(crate::copy::copy_value(&fields[i].1));
                },
                None => {
                    proof {
                        lemma_lookup_none(crate::value::dv_fields(fields@), f@);
                    }
                },
            }
        },
        _ => {},
    }
    proof {
        lemma_dv_vals(out@);
        assert(dv_vals(out@) =~= field_of(dv(*v), f@));
    }
    out
}

/// The values a decoded value holds under `field`: from the object, or
/// from each object of the array.
fn pick_field_values(v: &SxValue, field: &str) -> (r: Vec<SxValue>)
    ensures
        dv_vals(r@) == pick_field(dv(*v), field@),
{
    match v {
        SxValue::Array(items) => {
            let ghost vs = dv_vals(items@);
            proof {
                lemma_dv_vals(items@);
            }
            let mut out: Vec<SxValue> = Vec::new();
            let mut i: usize = 0;
            while i < items.len()
                invariant
                    i <= items@.len(),
                    vs == dv_vals(items@),
                    vs.len() == items@.len(),
                    forall|j: int| 0 <= j < items@.len() ==> #[trigger] vs[j] == dv(items@[j]),
                    dv_vals(out@) == picks(vs.take(i as int), field@),
                decreases items.len() - i,
            {
                let mut got = field_copy(&items[i], field);
                proof {
                    crate::fields::lemma_dv_vals(out@);
                    crate::fields::lemma_dv_vals(got@);
                    assert(vs.take(i + 1).drop_last() =~= vs.take(i as int));
                    assert(vs.take(i + 1).last() == vs[i as int]);
                }
                let ghost before = out@;
                out.append(&mut got);
                proof {
                    crate::fields::lemma_dv_vals(out@);
                    assert(dv_vals(out@) =~= dv_vals(before) + field_of(vs[i as int], field@));
                }
                i += 1;
            }
            proof {
                assert(vs.take(i as int) =~= vs);
            }
            out
        },
        _ => field_copy(v, field),
    }
}

/// Extracts a single field from an encoded event batch without a full
/// decode when columnar data is present; otherwise decodes and picks the
/// field from the object, or from each object of the array.
pub fn decode_hot_field_values(bytes: &[u8], field: &str, stats: &mut DecodeStats) -> (r: SxResult<Vec<SxValue>>)
    ensures
        match hot_field_values(bytes@, field@) {
            Ok(vs) => r matches Ok(v) && dv_vals(v@) == vs,
            Err(c) => r matches Err(e) && e.code == c,
        },
        final(stats).hot_field_reads == old(stats).hot_field_reads.wrapping_add(1),
        (container_entries(bytes@) matches Ok(es) && first_codec_segment(es, CODEC_COLUMNAR_EVENT_BATCH_V1) is Some)
            ==> final(stats).full_decode_calls == old(stats).full_decode_calls && final(stats).rows_materialized
            == old(stats).rows_materialized && final(stats).cold_values_decoded == old(stats).cold_values_decoded,
{
    stats.hot_field_reads = stats.hot_field_reads.wrapping_add(1);
    let es = match parse_container(bytes) {
        Err(e) => return Err(e),
        Ok(es) => es,
    };
    match find_codec_segment(&es, CODEC_COLUMNAR_EVENT_BATCH_V1) {
        Some(seg) => extract_event_batch_field_column(segment_slice(bytes, &seg), field, stats),
        None => {
            let v = match decode_binary(bytes, stats) {
                Err(e) => return Err(e),
                Ok(v) => v,
            };
            Ok(pick_field_values(&v, field))
        },
    }
}

} // verus!

verus! {

/// View of a scanned table column.
pub enum ScanV {
    Ints(Seq<i64>),
    FloatBits(Seq<u64>),
    Values(Seq<V>),
    Typed(crate::value::VTyped),
}

/// A numeric table column as read for a scan: the integers or `f64` bit
/// patterns of a columnar segment, or the column of a decoded table.
pub enum TableScan {
    Ints(Vec<i64>),
    FloatBits(Vec<u64>),
    Values(Vec<SxValue>),
    Typed(crate::value::SxTypedArray),
}

impl TableScan {
    pub open spec fn view_scan(&self) -> ScanV {
        match self {
            TableScan::Ints(v) => ScanV::Ints(v@),
            TableScan::FloatBits(v) => ScanV::FloatBits(v@),
            TableScan::Values(v) => ScanV::Values(dv_vals(v@)),
            TableScan::Typed(t) => ScanV::Typed(t.dv()),
        }
    }
}

/// Columns scanned for the numeric one named `column`; no such column is
/// `InvalidPath`, a non-numeric one `TypeMismatch`.
pub open spec fn scan_table_cols_at(b: Seq<u8>, pos: int, n: nat, rows: nat, column: Seq<char>) -> Result<ScanV, SxErrorCode>
    decreases n,
{
    if n == 0 {
        Err(SxErrorCode::InvalidPath)
    } else {
        match spec_read_varint(b, pos) {
            Err(e) => Err(e),
            Ok((_, p1)) => match str_at(b, p1) {
                Err(e) => Err(e),
                Ok((name, p2)) => match byte_at(b, p2) {
                    Err(e) => Err(e),
                    Ok((kind, p3)) => if name == column {
                        if kind == 2 || kind == 4 {
                            match spec_read_varint(b, p3) {
                                Err(e) => Err(e),
                                Ok((len, p4)) => if (len as usize) as nat != rows {
                                    Err(SxErrorCode::InvalidLength)
                                } else {
                                    match words_at(b, p4, rows, 8, Seq::empty()) {
                                        Err(e) => Err(e),
                                        Ok((ws, _)) => Ok(
                                            if kind == 2 {
                                                ScanV::Ints(as_i64s(ws))
                                            } else {
                                                ScanV::FloatBits(as_u64s(ws))
                                            },
                                        ),
                                    }
                                },
                            }
                        } else {
                            Err(SxErrorCode::TypeMismatch)
                        }
                    } else {
                        match skip_column_at(b, p3, kind) {
                            Err(e) => Err(e),
                            Ok(p4) => scan_table_cols_at(b, p4, (n - 1) as nat, rows, column),
                        }
                    },
                },
            },
        }
    }
}

/// A numeric column of a columnar table payload.
pub open spec fn table_scan_at(b: Seq<u8>, column: Seq<char>) -> Result<ScanV, SxErrorCode> {
    match byte_at(b, 0) {
        Err(e) => Err(e),
        Ok((version, p0)) => if version != 1 {
            Err(SxErrorCode::UnsupportedVersion)
        } else {
            match spec_read_varint(b, p0) {
                Err(e) => Err(e),
                Ok((rows, p1)) => match spec_read_varint(b, p1) {
                    Err(e) => Err(e),
                    Ok((cols, p2)) => scan_table_cols_at(b, p2, (cols as usize) as nat, (rows as usize) as nat, column),
                },
            }
        },
    }
}

/// What scanning a table column of a container yields: from the columnar
/// table segment when there is one, else from the decoded table (a value
/// that is not a table is `TypeMismatch`, a missing column `InvalidPath`).
pub open spec fn table_scan(b: Seq<u8>, column: Seq<char>) -> Result<ScanV, SxErrorCode> {
    match container_entries(b) {
        Err(e) => Err(e),
        Ok(es) => match first_codec_segment(es, CODEC_COLUMNAR_TABLE_V1) {
            Some(seg) => table_scan_at(segment_bytes(b, seg), column),
            None => match binary_decode(b) {
                Err(e) => Err(e),
                Ok(V::Table(cols)) => match lookup(cols, column) {
                    None => Err(SxErrorCode::InvalidPath),
                    Some(VColumn::Values(vs)) => Ok(ScanV::Values(vs)),
                    Some(VColumn::Typed(t)) => Ok(ScanV::Typed(t)),
                },
                Ok(_) => Err(SxErrorCode::TypeMismatch),
            },
        },
    }
}

fn read_scan_column(bytes: &[u8], pos: usize, kind: u8, rows: usize) -> (r: SxResult<TableScan>)
    requires
        kind == 2 || kind == 4,
    ensures
        match spec_read_varint(bytes@, pos as int) {
            Err(c) => r matches Err(e) && e.code == c,
            Ok((len, p4)) => if (len as usize) as nat != rows as nat {
                r matches Err(e) && e.code == SxErrorCode::InvalidLength
            } else {
                match words_at(bytes@, p4, rows as nat, 8, Seq::empty()) {
                    Err(c) => r matches Err(e) && e.code == c,
                    Ok((ws, _)) => r matches Ok(x) && x.view_scan() == (if kind == 2 {
                        ScanV::Ints(as_i64s(ws))
                    } else {
                        ScanV::FloatBits(as_u64s(ws))
                    }),
                }
            },
        },
{
    let (len, p4) = match read_varint(bytes, pos) {
        Err(e) => return Err(e),
        Ok(x) => x,
    };
    if len as usize != rows {
        return Err(SxError::msg(SxErrorCode::InvalidLength, "column length mismatch"));
    }
    let mut ints: Vec<i64> = Vec::new();
    let mut bits: Vec<u64> = Vec::new();
    let ghost mut ws: Seq<nat> = Seq::empty();
    let mut cur: usize = p4;
    let mut i: usize = 0;
    while i < rows
        invariant
            i <= rows,
            words_at(bytes@, p4 as int, rows as nat, 8, Seq::empty()) == words_at(
                bytes@,
                cur as int,
                (rows - i) as nat,
                8,
                ws,
            ),
            ints@ == as_i64s(ws),
            bits@ == as_u64s(ws),
            spec_read_varint(bytes@, pos as int) == Ok::<(u64, int), SxErrorCode>((len, p4 as int)),
            len as usize == rows,
            kind == 2 || kind == 4,
        decreases rows - i,
    {
        match read_fixed(bytes, cur, 8) {
            Err(e) => return Err(e),
            Ok((x, q)) => {
                proof {
                    assert(as_i64s(ws.push(x as nat)) =~= as_i64s(ws).push(((x as nat) as u64) as i64));
                    assert(as_u64s(ws.push(x as nat)) =~= as_u64s(ws).push((x as nat) as u64));
                    ws = ws.push(x as nat);
                }
                ints.push(x as i64);
                bits.push(x);
                cur = q;
            },
        }
        i += 1;
    }
    if kind == 2 {
        Ok(TableScan::Ints(ints))
    } else {
        Ok(TableScan::FloatBits(bits))
    }
}

/// Reads one numeric column of a columnar table payload.
pub fn scan_table_column_at(data: &[u8], column: &str, stats: &mut DecodeStats) -> (r: SxResult<TableScan>)
    ensures
        match table_scan_at(data@, column@) {
            Ok(s) => r matches Ok(x) && x.view_scan() == s,
            Err(c) => r matches Err(e) && e.code == c,
        },
        final(stats).full_decode_calls == old(stats).full_decode_calls,
        final(stats).hot_field_reads == old(stats).hot_field_reads,
        final(stats).columnar_scans == old(stats).columnar_scans,
        final(stats).rows_materialized == old(stats).rows_materialized,
        final(stats).cold_values_decoded == old(stats).cold_values_decoded,
{
    let (version, p0) = match read_byte(data, 0) {
        Err(e) => return Err(e),
        Ok(x) => x,
    };
    if version != 1 {
        return Err(SxError::msg(SxErrorCode::UnsupportedVersion, "unsupported columnar payload version"));
    }
    let (rows64, p1) = match read_varint(data, p0) {
        Err(e) => return Err(e),
        Ok(x) => x,
    };
    let (cols64, p2) = match read_varint(data, p1) {
        Err(e) => return Err(e),
        Ok(x) => x,
    };
    let rows = rows64 as usize;
    let cols = cols64 as usize;
    let mut cur: usize = p2;
    let mut i: usize = 0;
    while i < cols
        invariant
            i <= cols,
            table_scan_at(data@, column@) == scan_table_cols_at(data@, cur as int, (cols - i) as nat, rows as nat, column@),
            stats.full_decode_calls == old(stats).full_decode_calls,
            stats.hot_field_reads == old(stats).hot_field_reads,
            stats.columnar_scans == old(stats).columnar_scans,
            stats.rows_materialized == old(stats).rows_materialized,
            stats.cold_values_decoded == old(stats).cold_values_decoded,
        decreases cols - i,
    {
        let (_, q1) = match read_varint(data, cur) {
            Err(e) => return Err(e),
            Ok(x) => x,
        };
        let (name, q2) = match read_string(data, q1, stats) {
            Err(e) => return Err(e),
            Ok(x) => x,
        };
        let (kind, q3) = match read_byte(data, q2) {
            Err(e) => return Err(e),
            Ok(x) => x,
        };
        if str_equal(name.as_str(), column) {
            if kind == 2 || kind == 4 {
                return read_scan_column(data, q3, kind, rows);
            } else {
                return Err(SxError::msg(SxErrorCode::TypeMismatch, "requested column is not numeric"));
            }
        }
        match skip_column(data, q3, kind, stats) {
            Err(e) => return Err(e),
            Ok(q4) => cur = q4,
        }
        i += 1;
    }
    Err(SxError::msg(SxErrorCode::InvalidPath, "table column not found in encoded payload"))
}

/// Reads one numeric column of an encoded table for a scan, without
/// materializing rows when columnar data is present; otherwise decodes the
/// table and hands out the column.
pub fn scan_table_column(bytes: &[u8], column: &str, stats: &mut DecodeStats) -> (r: SxResult<TableScan>)
    ensures
        match table_scan(bytes@, column@) {
            Ok(s) => r matches Ok(x) && x.view_scan() == s,
            Err(c) => r matches Err(e) && e.code == c,
        },
        final(stats).columnar_scans == old(stats).columnar_scans.wrapping_add(1),
        (container_entries(bytes@) matches Ok(es) && first_codec_segment(es, CODEC_COLUMNAR_TABLE_V1) is Some)
            ==> final(stats).full_decode_calls == old(stats).full_decode_calls && final(stats).rows_materialized
            == old(stats).rows_materialized,
{
    stats.columnar_scans = stats.columnar_scans.wrapping_add(1);
    let es = match parse_container(bytes) {
        Err(e) => return Err(e),
        Ok(es) => es,
    };
    match find_codec_segment(&es, CODEC_COLUMNAR_TABLE_V1) {
        Some(seg) => scan_table_column_at(segment_slice(bytes, &seg), column, stats),
        None => {
            let v = match decode_binary(bytes, stats) {
                Err(e) => return Err(e),
                Ok(v) => v,
            };
            match v {
                SxValue::Table(t) => {
                    proof {
                        lemma_dv_columns(t.columns@);
                    }
                    match crate::fields::find_key(&t.columns, column) {
                        None => {
                            proof {
                                lemma_lookup_none(dv_columns(t.columns@), column@);
                            }
                            Err(SxError::msg(SxErrorCode::InvalidPath, "unknown table column"))
                        },
                        Some(i) => {
                            proof {
                                lemma_lookup_first(dv_columns(t.columns@), column@, i as int);
                            }
                            match &t.columns[i].1 {
                                SxColumn::Values(vals) => {
                                    stats.rows_materialized = stats.rows_materialized.wrapping_add(vals.len());
                                    Ok(TableScan::Values(crate::copy::copy_vals(vals)))
                                },
                                SxColumn::Typed(ta) => Ok(TableScan::Typed(ta.copy_typed())),
                            }
                        },
                    }
                },
                _ => {
                    proof {
                        assert(!(dv(v) is Table));
                    }
                    Err(SxError::msg(SxErrorCode::TypeMismatch, "value is not a table payload"))
                },
            }
        },
    }
}

} // verus!
