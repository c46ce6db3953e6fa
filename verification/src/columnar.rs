//! The columnar payloads: event batches (arrays of like-shaped objects) and
//! tables stored column by column.
use crate::binary::{bit_weight, weight_of};
use crate::bytes::{fixed_at, span};
use crate::decode::{
    byte_at, bytes_at, read_byte, read_bytes, read_fixed, read_string, read_varint, str_at, words_at,
    DecodeStats, same_entry_counts,
};
use crate::error::{SxError, SxErrorCode, SxResult};
use crate::fields::{insert_entry, insert_field, lemma_dv_fields};
use crate::keys::sorted_keys;
use crate::decode::insert_column;
use crate::value::{dv, dv_columns, dv_column, dv_fields, dv_vals, SxColumn, SxTable, SxValue, V, VColumn};
use crate::fields::lemma_dv_vals;
use crate::value_ops::lemma_dv_columns;
use crate::varint::{lemma_read_varint_bounds, spec_read_varint};
use vstd::prelude::*;

verus! {

/// View of one parsed column.
pub enum ColV {
    Dict(Seq<char>, Seq<Seq<char>>, Seq<u32>),
    I64(Seq<char>, Seq<i64>),
    F64(Seq<char>, Seq<u64>),
    Bool(Seq<char>, Seq<u8>, nat),
}

/// One parsed column.
pub enum ColumnarColumn {
    DictString { name: String, dict: Vec<String>, ids: Vec<u32> },
    I64 { name: String, values: Vec<i64> },
    F64 { name: String, values: Vec<u64> },
    Bool { name: String, bytes: Vec<u8>, len: usize },
}

pub open spec fn strings_view(s: Seq<String>) -> Seq<Seq<char>> {
    s.map_values(|x: String| x@)
}

impl ColumnarColumn {
    pub open spec fn view_col(&self) -> ColV {
        match self {
            ColumnarColumn::DictString { name, dict, ids } => ColV::Dict(name@, strings_view(dict@), ids@),
            ColumnarColumn::I64 { name, values } => ColV::I64(name@, values@),
            ColumnarColumn::F64 { name, values } => ColV::F64(name@, values@),
            ColumnarColumn::Bool { name, bytes, len } => ColV::Bool(name@, bytes@, *len as nat),
        }
    }
}

pub open spec fn cols_view(s: Seq<ColumnarColumn>) -> Seq<ColV> {
    s.map_values(|c: ColumnarColumn| c.view_col())
}

/// `n` strings, appended to `acc`.
pub open spec fn strs_at(b: Seq<u8>, pos: int, n: nat, acc: Seq<Seq<char>>) -> Result<(Seq<Seq<char>>, int), SxErrorCode>
    decreases n,
{
    if n == 0 {
        Ok((acc, pos))
    } else {
        match str_at(b, pos) {
            Err(e) => Err(e),
            Ok((s, p)) => strs_at(b, p, (n - 1) as nat, acc.push(s)),
        }
    }
}

/// `n` varint dictionary ids (each kept as `u32`), appended to `acc`.
pub open spec fn ids_at(b: Seq<u8>, pos: int, n: nat, acc: Seq<u32>) -> Result<(Seq<u32>, int), SxErrorCode>
    decreases n,
{
    if n == 0 {
        Ok((acc, pos))
    } else {
        match spec_read_varint(b, pos) {
            Err(e) => Err(e),
            Ok((x, p)) => ids_at(b, p, (n - 1) as nat, acc.push(x as u32)),
        }
    }
}

pub open spec fn as_i64s(ws: Seq<nat>) -> Seq<i64> {
    ws.map_values(|x: nat| (x as u64) as i64)
}

pub open spec fn as_u64s(ws: Seq<nat>) -> Seq<u64> {
    ws.map_values(|x: nat| x as u64)
}

/// The payload of a column of `kind` with `rows` rows, after its kind byte.
#[verifier::opaque]
pub open spec fn column_body_at(b: Seq<u8>, pos: int, name: Seq<char>, kind: u8, rows: nat) -> Result<
    (ColV, int),
    SxErrorCode,
> {
    if kind == 1 {
        match spec_read_varint(b, pos) {
            Err(e) => Err(e),
            Ok((dl, p1)) => match strs_at(b, p1, (dl as usize) as nat, Seq::empty()) {
                Err(e) => Err(e),
                Ok((dict, p2)) => match spec_read_varint(b, p2) {
                    Err(e) => Err(e),
                    Ok((il, p3)) => if (il as usize) as nat != rows {
                        Err(SxErrorCode::InvalidLength)
                    } else {
                        match ids_at(b, p3, rows, Seq::empty()) {
                            Err(e) => Err(e),
                            Ok((ids, p4)) => Ok((ColV::Dict(name, dict, ids), p4)),
                        }
                    },
                },
            },
        }
    } else if kind == 2 || kind == 3 || kind == 4 {
        match spec_read_varint(b, pos) {
            Err(e) => Err(e),
            Ok((len, p1)) => if (len as usize) as nat != rows {
                Err(SxErrorCode::InvalidLength)
            } else if kind == 3 {
                match bytes_at(b, p1) {
                    Err(e) => Err(e),
                    Ok((packed, p2)) => Ok((ColV::Bool(name, packed, rows), p2)),
                }
            } else {
                match words_at(b, p1, rows, 8, Seq::empty()) {
                    Err(e) => Err(e),
                    Ok((ws, p2)) => Ok(
                        (
                            if kind == 2 {
                                ColV::I64(name, as_i64s(ws))
                            } else {
                                ColV::F64(name, as_u64s(ws))
                            },
                            p2,
                        ),
                    ),
                }
            },
        }
    } else {
        Err(SxErrorCode::ValidationError)
    }
}

/// One column: field id (ignored), name, kind byte, payload.
#[verifier::opaque]
pub open spec fn column_at(b: Seq<u8>, pos: int, rows: nat) -> Result<(ColV, int), SxErrorCode> {
    match spec_read_varint(b, pos) {
        Err(e) => Err(e),
        Ok((_, p1)) => match str_at(b, p1) {
            Err(e) => Err(e),
            Ok((name, p2)) => match byte_at(b, p2) {
                Err(e) => Err(e),
                Ok((kind, p3)) => column_body_at(b, p3, name, kind, rows),
            },
        },
    }
}

/// `n` columns of `rows` rows each, appended to `acc`.
pub open spec fn col_list_at(b: Seq<u8>, pos: int, n: nat, rows: nat, acc: Seq<ColV>) -> Result<
    (Seq<ColV>, int),
    SxErrorCode,
>
    decreases n,
{
    if n == 0 {
        Ok((acc, pos))
    } else {
        match column_at(b, pos, rows) {
            Err(e) => Err(e),
            Ok((c, p)) => col_list_at(b, p, (n - 1) as nat, rows, acc.push(c)),
        }
    }
}

/// A columnar payload: version 1, row count, column count, the columns, and
/// nothing after them.
pub open spec fn columnar_at(b: Seq<u8>) -> Result<(nat, Seq<ColV>), SxErrorCode> {
    match byte_at(b, 0) {
        Err(e) => Err(e),
        Ok((version, p0)) => if version != 1 {
            Err(SxErrorCode::UnsupportedVersion)
        } else {
            match spec_read_varint(b, p0) {
                Err(e) => Err(e),
                Ok((rows, p1)) => match spec_read_varint(b, p1) {
                    Err(e) => Err(e),
                    Ok((cols, p2)) => match col_list_at(
                        b,
                        p2,
                        (cols as usize) as nat,
                        (rows as usize) as nat,
                        Seq::empty(),
                    ) {
                        Err(e) => Err(e),
                        Ok((cs, p3)) => if p3 != b.len() {
                            Err(SxErrorCode::ValidationError)
                        } else {
                            Ok(((rows as usize) as nat, cs))
                        },
                    },
                },
            }
        },
    }
}

/// Reads `n` strings at `pos`.
fn read_strings(bytes: &[u8], pos: usize, n: usize, stats: &mut DecodeStats) -> (r: SxResult<(Vec<String>, usize)>)
    ensures
        match strs_at(bytes@, pos as int, n as nat, Seq::empty()) {
            Ok((s, p)) => r matches Ok((v, q)) && strings_view(v@) == s && q == p,
            Err(c) => r matches Err(e) && e.code == c,
        },
        same_entry_counts(*final(stats), *old(stats)),
        final(stats).rows_materialized == old(stats).rows_materialized,
{
    let mut out: Vec<String> = Vec::new();
    let mut cur: usize = pos;
    let mut i: usize = 0;
    proof {
        assert(strings_view(out@) =~= Seq::<Seq<char>>::empty());
    }
    while i < n
        invariant
            i <= n,
            strs_at(bytes@, pos as int, n as nat, Seq::empty()) == strs_at(
                bytes@,
                cur as int,
                (n - i) as nat,
                strings_view(out@),
            ),
            same_entry_counts(*stats, *old(stats)),
            stats.rows_materialized == old(stats).rows_materialized,
        decreases n - i,
    {
        match read_string(bytes, cur, stats) {
            Err(e) => return Err(e),
            Ok((s, q)) => {
                proof {
                    assert(strings_view(out@.push(s)) =~= strings_view(out@).push(s@));
                }
                out.push(s);
                cur = q;
            },
        }
        i += 1;
    }
    Ok((out, cur))
}

/// Reads `n` varint ids at `pos`.
fn read_ids(bytes: &[u8], pos: usize, n: usize) -> (r: SxResult<(Vec<u32>, usize)>)
    ensures
        match ids_at(bytes@, pos as int, n as nat, Seq::empty()) {
            Ok((s, p)) => r matches Ok((v, q)) && v@ == s && q == p,
            Err(c) => r matches Err(e) && e.code == c,
        },
{
    let mut out: Vec<u32> = Vec::new();
    let mut cur: usize = pos;
    let mut i: usize = 0;
    while i < n
        invariant
            i <= n,
            ids_at(bytes@, pos as int, n as nat, Seq::empty()) == ids_at(bytes@, cur as int, (n - i) as nat, out@),
        decreases n - i,
    {
        match read_varint(bytes, cur) {
            Err(e) => return Err(e),
            Ok((x, q)) => {
                out.push(x as u32);
                cur = q;
            },
        }
        i += 1;
    }
    Ok((out, cur))
}

/// Reads `n` eight-byte little-endian words at `pos`.
fn read_words8(bytes: &[u8], pos: usize, n: usize) -> (r: SxResult<(Vec<u64>, usize)>)
    ensures
        match words_at(bytes@, pos as int, n as nat, 8, Seq::empty()) {
            Ok((ws, p)) => r matches Ok((v, q)) && v@ == as_u64s(ws) && q == p,
            Err(c) => r matches Err(e) && e.code == c,
        },
{
    let mut out: Vec<u64> = Vec::new();
    let ghost mut ws: Seq<nat> = Seq::empty();
    let mut cur: usize = pos;
    let mut i: usize = 0;
    while i < n
        invariant
            i <= n,
            words_at(bytes@, pos as int, n as nat, 8, Seq::empty()) == words_at(
                bytes@,
                cur as int,
                (n - i) as nat,
                8,
                ws,
            ),
            out@ == as_u64s(ws),
        decreases n - i,
    {
        match read_fixed(bytes, cur, 8) {
            Err(e) => return Err(e),
            Ok((x, q)) => {
                proof {
                    assert(as_u64s(ws.push(x as nat)) =~= as_u64s(ws).push((x as nat) as u64));
                    ws = ws.push(x as nat);
                }
                out.push(x);
                cur = q;
            },
        }
        i += 1;
    }
    Ok((out, cur))
}

/// Reads one column's payload (after its kind byte) at `pos`.
fn read_column_body(bytes: &[u8], pos: usize, name: String, kind: u8, rows: usize, stats: &mut DecodeStats) -> (r: SxResult<
    (ColumnarColumn, usize),
>)
    ensures
        match column_body_at(bytes@, pos as int, name@, kind, rows as nat) {
            Ok((c, p)) => r matches Ok((x, q)) && x.view_col() == c && q == p,
            Err(c) => r matches Err(e) && e.code == c,
        },
        same_entry_counts(*final(stats), *old(stats)),
        final(stats).rows_materialized == old(stats).rows_materialized,
{
    reveal(column_body_at);
    if kind == 1 {
        let (dl, p1) = match read_varint(bytes, pos) {
            Err(e) => return Err(e),
            Ok(x) => x,
        };
        let (dict, p2) = match read_strings(bytes, p1, dl as usize, stats) {
            Err(e) => return Err(e),
            Ok(x) => x,
        };
        let (il, p3) = match read_varint(bytes, p2) {
            Err(e) => return Err(e),
            Ok(x) => x,
        };
        if il as usize != rows {
            return Err(SxError::msg(SxErrorCode::InvalidLength, "dictionary id column length mismatch"));
        }
        match read_ids(bytes, p3, rows) {
            Err(e) => Err(e),
            Ok((ids, p4)) => Ok((ColumnarColumn::DictString { name, dict, ids }, p4)),
        }
    } else if kind == 2 || kind == 3 || kind == 4 {
        let (len, p1) = match read_varint(bytes, pos) {
            Err(e) => return Err(e),
            Ok(x) => x,
        };
        if len as usize != rows {
            return Err(SxError::msg(SxErrorCode::InvalidLength, "column length mismatch"));
        }
        if kind == 3 {
            match read_bytes(bytes, p1) {
                Err(e) => Err(e),
                Ok((packed, p2)) => Ok((ColumnarColumn::Bool { name, bytes: packed, len: rows }, p2)),
            }
        } else {
            match read_words8(bytes, p1, rows) {
                Err(e) => Err(e),
                Ok((ws, p2)) => {
                    if kind == 2 {
                        let mut vals: Vec<i64> = Vec::new();
                        let mut i: usize = 0;
                        while i < ws.len()
                            invariant
                                i <= ws@.len(),
                                vals@.len() == i,
                                forall|j: int| 0 <= j < i ==> #[trigger] vals@[j] == ws@[j] as i64,
                            decreases ws.len() - i,
                        {
                            vals.push(ws[i] as i64);
                            i += 1;
                        }
                        proof {
                            let g = choose|g: Seq<nat>| words_at(bytes@, p1 as int, rows as nat, 8, Seq::empty()) == Ok::<(Seq<nat>, int), SxErrorCode>((g, p2 as int));
                            assert(vals@ =~= as_i64s(g));
                        }
                        Ok((ColumnarColumn::I64 { name, values: vals }, p2))
                    } else {
                        Ok((ColumnarColumn::F64 { name, values: ws }, p2))
                    }
                },
            }
        }
    } else {
        Err(SxError::msg(SxErrorCode::ValidationError, "unknown column kind"))
    }
}

/// Reads one column at `pos`.
fn read_column(bytes: &[u8], pos: usize, rows: usize, stats: &mut DecodeStats) -> (r: SxResult<(ColumnarColumn, usize)>)
    ensures
        match column_at(bytes@, pos as int, rows as nat) {
            Ok((c, p)) => r matches Ok((x, q)) && x.view_col() == c && q == p,
            Err(c) => r matches Err(e) && e.code == c,
        },
        same_entry_counts(*final(stats), *old(stats)),
        final(stats).rows_materialized == old(stats).rows_materialized,
{
    reveal(column_at);
    let (_, p1) = match read_varint(bytes, pos) {
        Err(e) => return Err(e),
        Ok(x) => x,
    };
    let (name, p2) = match read_string(bytes, p1, stats) {
        Err(e) => return Err(e),
        Ok(x) => x,
    };
    let (kind, p3) = match read_byte(bytes, p2) {
        Err(e) => return Err(e),
        Ok(x) => x,
    };
    read_column_body(bytes, p3, name, kind, rows, stats)
}

/// Parses a columnar payload into its row count and columns.
pub fn parse_columnar_payload(data: &[u8], stats: &mut DecodeStats) -> (r: SxResult<(usize, Vec<ColumnarColumn>)>)
    ensures
        match columnar_at(data@) {
            Ok((rows, cs)) => r matches Ok((n, v)) && n == rows && cols_view(v@) == cs,
            Err(c) => r matches Err(e) && e.code == c,
        },
        same_entry_counts(*final(stats), *old(stats)),
        final(stats).rows_materialized == old(stats).rows_materialized,
{
    let (version, p0) = match read_byte(data, 0) {
        Err(e) => return Err(e),
        Ok(x) => x,
    };
    if version != 1 {
        return Err(SxError::msg(SxErrorCode::UnsupportedVersion, "unsupported columnar payload version"));
    }
    let (rows64, p1) = match read_varint(data, p0) {
        Err(e) => return Err(e),
        Ok(x) => x,
    };
    let (cols64, p2) = match read_varint(data, p1) {
        Err(e) => return Err(e),
        Ok(x) => x,
    };
    let rows = rows64 as usize;
    let ncols = cols64 as usize;
    let mut out: Vec<ColumnarColumn> = Vec::new();
    let mut cur: usize = p2;
    let mut i: usize = 0;
    proof {
        assert(cols_view(out@) =~= Seq::<ColV>::empty());
    }
    while i < ncols
        invariant
            i <= ncols,
            columnar_at(data@) == match col_list_at(data@, p2 as int, ncols as nat, rows as nat, Seq::empty()) {
                Err(e) => Err(e),
                Ok((cs, p3)) => if p3 != data@.len() {
                    Err(SxErrorCode::ValidationError)
                } else {
                    Ok((rows as nat, cs))
                },
            },
            col_list_at(data@, p2 as int, ncols as nat, rows as nat, Seq::empty()) == col_list_at(
                data@,
                cur as int,
                (ncols - i) as nat,
                rows as nat,
                cols_view(out@),
            ),
            same_entry_counts(*stats, *old(stats)),
            stats.rows_materialized == old(stats).rows_materialized,
        decreases ncols - i,
    {
        match read_column(data, cur, rows, stats) {
            Err(e) => return Err(e),
            Ok((c, q)) => {
                proof {
                    assert(cols_view(out@.push(c)) =~= cols_view(out@).push(c.view_col()));
                }
                out.push(c);
                cur = q;
            },
        }
        i += 1;
    }
    if cur != data.len() {
        return Err(SxError::msg(SxErrorCode::ValidationError, "trailing bytes in columnar payload"));
    }
    Ok((rows, out))
}

} // verus!

verus! {

// ---------------------------------------------------------------------------
// Rebuilding values from columns
// ---------------------------------------------------------------------------

/// Row `r` of a column: its name and value.  A dictionary id past the
/// dictionary is `InvalidDictionaryRef`; a row past the column, or past the
/// packed bytes of a boolean column, is `InvalidLength`.
pub open spec fn cell_of(c: ColV, r: nat) -> Result<(Seq<char>, V), SxErrorCode> {
    match c {
        ColV::Dict(name, dict, ids) => if r < ids.len() {
            if (ids[r as int] as nat) < dict.len() {
                Ok((name, V::String(dict[ids[r as int] as int])))
            } else {
                Err(SxErrorCode::InvalidDictionaryRef)
            }
        } else {
            Err(SxErrorCode::InvalidLength)
        },
        ColV::I64(name, vals) => if r < vals.len() {
            Ok((name, V::I64(vals[r as int])))
        } else {
            Err(SxErrorCode::InvalidLength)
        },
        ColV::F64(name, vals) => if r < vals.len() {
            Ok((name, V::F64(vals[r as int])))
        } else {
            Err(SxErrorCode::InvalidLength)
        },
        ColV::Bool(name, bytes, len) => if r >= len || r / 8 >= bytes.len() {
            Err(SxErrorCode::InvalidLength)
        } else {
            Ok((name, V::Bool((bytes[(r / 8) as int] & bit_weight((r % 8) as int)) != 0)))
        },
    }
}

/// Row `r` as object entries, columns `k ..` inserted into `acc`.
pub open spec fn row_at(cs: Seq<ColV>, r: nat, k: nat, acc: Seq<(Seq<char>, V)>) -> Result<
    Seq<(Seq<char>, V)>,
    SxErrorCode,
>
    decreases cs.len() - k,
{
    if k >= cs.len() {
        Ok(acc)
    } else {
        match cell_of(cs[k as int], r) {
            Err(e) => Err(e),
            Ok((name, v)) => row_at(cs, r, k + 1, insert_entry(acc, name, v)),
        }
    }
}

/// Rows `r .. rows` as objects, appended to `acc`.
pub open spec fn batch_rows(cs: Seq<ColV>, rows: nat, r: nat, acc: Seq<V>) -> Result<Seq<V>, SxErrorCode>
    decreases rows - r,
{
    if r >= rows {
        Ok(acc)
    } else {
        match row_at(cs, r, 0, Seq::empty()) {
            Err(e) => Err(e),
            Ok(obj) => batch_rows(cs, rows, r + 1, acc.push(V::Object(obj))),
        }
    }
}

/// The array an event-batch payload stands for.
pub open spec fn event_batch_of(data: Seq<u8>) -> Result<V, SxErrorCode> {
    match columnar_at(data) {
        Err(e) => Err(e),
        Ok((rows, cs)) => match batch_rows(cs, rows, 0, Seq::empty()) {
            Err(e) => Err(e),
            Ok(items) => Ok(V::Array(items)),
        },
    }
}

/// The values of a dictionary column, ids `i ..` appended to `acc`.
pub open spec fn dict_values(dict: Seq<Seq<char>>, ids: Seq<u32>, i: nat, acc: Seq<V>) -> Result<Seq<V>, SxErrorCode>
    decreases ids.len() - i,
{
    if i >= ids.len() {
        Ok(acc)
    } else if (ids[i as int] as nat) < dict.len() {
        dict_values(dict, ids, i + 1, acc.push(V::String(dict[ids[i as int] as int])))
    } else {
        Err(SxErrorCode::InvalidDictionaryRef)
    }
}

/// A parsed column as a table column of generic values.
pub open spec fn table_column_of(c: ColV) -> Result<(Seq<char>, VColumn), SxErrorCode> {
    match c {
        ColV::Dict(name, dict, ids) => match dict_values(dict, ids, 0, Seq::empty()) {
            Err(e) => Err(e),
            Ok(vals) => Ok((name, VColumn::Values(vals))),
        },
        ColV::I64(name, vals) => Ok((name, VColumn::Values(vals.map_values(|x: i64| V::I64(x))))),
        ColV::F64(name, vals) => Ok((name, VColumn::Values(vals.map_values(|x: u64| V::F64(x))))),
        ColV::Bool(name, bytes, len) => if (len + 7) / 8 > bytes.len() {
            Err(SxErrorCode::InvalidLength)
        } else {
            Ok(
                (
                    name,
                    VColumn::Values(
                        Seq::new(len, |i: int| V::Bool((bytes[i / 8] & bit_weight(i % 8)) != 0)),
                    ),
                ),
            )
        },
    }
}

/// Columns `k ..` inserted into the sorted columns `acc`.
pub open spec fn table_columns(cs: Seq<ColV>, k: nat, acc: Seq<(Seq<char>, VColumn)>) -> Result<
    Seq<(Seq<char>, VColumn)>,
    SxErrorCode,
>
    decreases cs.len() - k,
{
    if k >= cs.len() {
        Ok(acc)
    } else {
        match table_column_of(cs[k as int]) {
            Err(e) => Err(e),
            Ok((name, col)) => table_columns(cs, k + 1, insert_entry(acc, name, col)),
        }
    }
}

/// The table a columnar table payload stands for.
pub open spec fn columnar_table_of(data: Seq<u8>) -> Result<V, SxErrorCode> {
    match columnar_at(data) {
        Err(e) => Err(e),
        Ok((_, cs)) => match table_columns(cs, 0, Seq::empty()) {
            Err(e) => Err(e),
            Ok(cols) => Ok(V::Table(cols)),
        },
    }
}

impl ColumnarColumn {
    /// The column's name.
    pub fn name(&self) -> (r: &String)
        ensures
            r@ == match self.view_col() {
                ColV::Dict(n, _, _) => n,
                ColV::I64(n, _) => n,
                ColV::F64(n, _) => n,
                ColV::Bool(n, _, _) => n,
            },
    {
        match self {
            ColumnarColumn::DictString { name, .. } => name,
            ColumnarColumn::I64 { name, .. } => name,
            ColumnarColumn::F64 { name, .. } => name,
            ColumnarColumn::Bool { name, .. } => name,
        }
    }
}

/// Row `r` of a column.
fn cell(c: &ColumnarColumn, r: usize) -> (res: SxResult<(String, SxValue)>)
    ensures
        match cell_of(c.view_col(), r as nat) {
            Ok((n, v)) => res matches Ok((x, y)) && x@ == n && dv(y) == v,
            Err(code) => res matches Err(e) && e.code == code,
        },
{
    match c {
        ColumnarColumn::DictString { name, dict, ids } => {
            if r < ids.len() {
                let idx = ids[r] as usize;
                if idx < dict.len() {
                    Ok((name.clone(), SxValue::String(dict[idx].clone())))
                } else {
                    Err(SxError::msg(SxErrorCode::InvalidDictionaryRef, "dictionary ref out of bounds"))
                }
            } else {
                Err(SxError::msg(SxErrorCode::InvalidLength, "column row index out of bounds"))
            }
        },
        ColumnarColumn::I64 { name, values } => {
            if r < values.len() {
                Ok((name.clone(), SxValue::I64(values[r])))
            } else {
                Err(SxError::msg(SxErrorCode::InvalidLength, "column row index out of bounds"))
            }
        },
        ColumnarColumn::F64 { name, values } => {
            if r < values.len() {
                Ok((name.clone(), SxValue::F64(values[r])))
            } else {
                Err(SxError::msg(SxErrorCode::InvalidLength, "column row index out of bounds"))
            }
        },
        ColumnarColumn::Bool { name, bytes, len } => {
            if r >= *len || r / 8 >= bytes.len() {
                Err(SxError::msg(SxErrorCode::InvalidLength, "bool column row index out of bounds"))
            } else {
                let w = weight_of(r % 8);
                Ok((name.clone(), SxValue::Bool((bytes[r / 8] & w) != 0)))
            }
        },
    }
}

/// Rebuilds the rows of an event-batch payload.
pub fn decode_columnar_event_batch(data: &[u8], stats: &mut DecodeStats) -> (r: SxResult<SxValue>)
    ensures
        match event_batch_of(data@) {
            Ok(v) => r matches Ok(x) && dv(x) == v,
            Err(c) => r matches Err(e) && e.code == c,
        },
        same_entry_counts(*final(stats), *old(stats)),
{
    let (rows, cols) = match parse_columnar_payload(data, stats) {
        Err(e) => return Err(e),
        Ok(x) => x,
    };
    let ghost cs = cols_view(cols@);
    stats.rows_materialized = stats.rows_materialized.wrapping_add(rows);
    let mut out: Vec<SxValue> = Vec::new();
    let mut r: usize = 0;
    proof {
        lemma_dv_vals(out@);
        assert(dv_vals(out@) =~= Seq::<V>::empty());
    }
    while r < rows
        invariant
            r <= rows,
            cs == cols_view(cols@),
            cs.len() == cols@.len(),
            event_batch_of(data@) == match batch_rows(cs, rows as nat, r as nat, dv_vals(out@)) {
                Err(e) => Err(e),
                Ok(items) => Ok(V::Array(items)),
            },
            same_entry_counts(*stats, *old(stats)),
        decreases rows - r,
    {
        let mut obj: Vec<(String, SxValue)> = Vec::new();
        let mut k: usize = 0;
        proof {
            lemma_dv_fields(obj@);
            assert(dv_fields(obj@) =~= Seq::<(Seq<char>, V)>::empty());
        }
        while k < cols.len()
            invariant
                k <= cols@.len(),
                r < rows,
                cs == cols_view(cols@),
                cs.len() == cols@.len(),
                row_at(cs, r as nat, 0, Seq::empty()) == row_at(cs, r as nat, k as nat, dv_fields(obj@)),
                sorted_keys(dv_fields(obj@)),
                event_batch_of(data@) == match batch_rows(cs, rows as nat, r as nat, dv_vals(out@)) {
                    Err(e) => Err(e),
                    Ok(items) => Ok(V::Array(items)),
                },
                same_entry_counts(*stats, *old(stats)),
            decreases cols.len() - k,
        {
            proof {
                assert(cs[k as int] == cols@[k as int].view_col());
            }
            match cell(&cols[k], r) {
                Err(e) => return Err(e),
                Ok((name, v)) => {
                    insert_field(&mut obj, name, v);
                },
            }
            k += 1;
        }
        proof {
            lemma_dv_vals(out@);
            lemma_dv_vals(out@.push(SxValue::Object(obj)));
            assert(dv_vals(out@.push(SxValue::Object(obj))) =~= dv_vals(out@).push(V::Object(dv_fields(obj@))));
        }
        out.push(SxValue::Object(obj));
        r += 1;
    }
    Ok(SxValue::Array(out))
}

} // verus!

verus! {

/// A parsed column as a table column of generic values.
fn table_column(c: &ColumnarColumn) -> (res: SxResult<(String, SxColumn)>)
    ensures
        match table_column_of(c.view_col()) {
            Ok((n, col)) => res matches Ok((x, y)) && x@ == n && dv_column(y) == col,
            Err(code) => res matches Err(e) && e.code == code,
        },
{
    match c {
        ColumnarColumn::DictString { name, dict, ids } => {
            let ghost dv_dict = strings_view(dict@);
            let mut out: Vec<SxValue> = Vec::new();
            let mut i: usize = 0;
            proof {
                assert(dv_vals(out@) =~= Seq::<V>::empty());
            }
            while i < ids.len()
                invariant
                    i <= ids@.len(),
                    dv_dict == strings_view(dict@),
                    dv_dict.len() == dict@.len(),
                    c.view_col() == ColV::Dict(name@, dv_dict, ids@),
                    dict_values(dv_dict, ids@, 0, Seq::empty()) == dict_values(dv_dict, ids@, i as nat, dv_vals(out@)),
                decreases ids.len() - i,
            {
                let idx = ids[i] as usize;
                if idx >= dict.len() {
                    return Err(SxError::msg(SxErrorCode::InvalidDictionaryRef, "dictionary ref out of bounds"));
                }
                let s = dict[idx].clone();
                proof {
                    lemma_dv_vals(out@);
                    lemma_dv_vals(out@.push(SxValue::String(s)));
                    assert(dv_vals(out@.push(SxValue::String(s))) =~= dv_vals(out@).push(V::String(dv_dict[idx as int])));
                }
                out.push(SxValue::String(s));
                i += 1;
            }
            Ok((name.clone(), SxColumn::Values(out)))
        },
        ColumnarColumn::I64 { name, values } => {
            let mut out: Vec<SxValue> = Vec::new();
            let mut i: usize = 0;
            while i < values.len()
                invariant
                    i <= values@.len(),
                    out@.len() == i,
                    forall|j: int| 0 <= j < i ==> dv(#[trigger] out@[j]) == V::I64(values@[j]),
                decreases values.len() - i,
            {
                out.push(SxValue::I64(values[i]));
                i += 1;
            }
            proof {
                lemma_dv_vals(out@);
                assert(dv_vals(out@) =~= values@.map_values(|x: i64| V::I64(x)));
            }
            Ok((name.clone(), SxColumn::Values(out)))
        },
        ColumnarColumn::F64 { name, values } => {
            let mut out: Vec<SxValue> = Vec::new();
            let mut i: usize = 0;
            while i < values.len()
                invariant
                    i <= values@.len(),
                    out@.len() == i,
                    forall|j: int| 0 <= j < i ==> dv(#[trigger] out@[j]) == V::F64(values@[j]),
                decreases values.len() - i,
            {
                out.push(SxValue::F64(values[i]));
                i += 1;
            }
            proof {
                lemma_dv_vals(out@);
                assert(dv_vals(out@) =~= values@.map_values(|x: u64| V::F64(x)));
            }
            Ok((name.clone(), SxColumn::Values(out)))
        },
        ColumnarColumn::Bool { name, bytes, len } => {
            let need = *len / 8 + if *len % 8 != 0 { 1usize } else { 0usize };
            assert(need == (*len + 7) / 8);
            if need > bytes.len() {
                return Err(SxError::msg(SxErrorCode::InvalidLength, "bool column payload too short"));
            }
            let mut out: Vec<SxValue> = Vec::new();
            let mut i: usize = 0;
            while i < *len
                invariant
                    i <= *len,
                    need == (*len + 7) / 8,
                    need <= bytes@.len(),
                    out@.len() == i,
                    forall|j: int|
                        0 <= j < i ==> dv(#[trigger] out@[j]) == V::Bool((bytes@[j / 8] & bit_weight(j % 8)) != 0),
                decreases *len - i,
            {
                let w = weight_of(i % 8);
                let b = bytes[i / 8];
                out.push(SxValue::Bool((b & w) != 0));
                i += 1;
            }
            proof {
                lemma_dv_vals(out@);
                assert(dv_vals(out@) =~= Seq::new(
                    *len as nat,
                    |i: int| V::Bool((bytes@[i / 8] & bit_weight(i % 8)) != 0),
                ));
            }
            Ok((name.clone(), SxColumn::Values(out)))
        },
    }
}

/// Rebuilds the table of a columnar table payload.
pub fn decode_columnar_table(data: &[u8], stats: &mut DecodeStats) -> (r: SxResult<SxValue>)
    ensures
        match columnar_table_of(data@) {
            Ok(v) => r matches Ok(x) && dv(x) == v,
            Err(c) => r matches Err(e) && e.code == c,
        },
        same_entry_counts(*final(stats), *old(stats)),
{
    let (_, cols) = match parse_columnar_payload(data, stats) {
        Err(e) => return Err(e),
        Ok(x) => x,
    };
    let ghost cs = cols_view(cols@);
    let mut out: Vec<(String, SxColumn)> = Vec::new();
    let mut k: usize = 0;
    proof {
        assert(dv_columns(out@) =~= Seq::<(Seq<char>, VColumn)>::empty());
    }
    while k < cols.len()
        invariant
            k <= cols@.len(),
            cs == cols_view(cols@),
            cs.len() == cols@.len(),
            columnar_table_of(data@) == match table_columns(cs, k as nat, dv_columns(out@)) {
                Err(e) => Err(e),
                Ok(c) => Ok(V::Table(c)),
            },
            sorted_keys(dv_columns(out@)),
            same_entry_counts(*stats, *old(stats)),
        decreases cols.len() - k,
    {
        proof {
            assert(cs[k as int] == cols@[k as int].view_col());
        }
        match table_column(&cols[k]) {
            Err(e) => return Err(e),
            Ok((name, col)) => {
                let n = col.len();
                stats.rows_materialized = stats.rows_materialized.wrapping_add(n);
                insert_column(&mut out, name, col);
            },
        }
        k += 1;
    }
    Ok(SxValue::Table(SxTable { columns: out }))
}

} // verus!
