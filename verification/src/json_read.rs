//! Reading values back from JSON, tagged objects included.
use crate::decode::insert_column;
use crate::error::{SxError, SxErrorCode, SxResult};
use crate::fields::{find_key, has_key, insert_entry, insert_field, lemma_dv_fields, lemma_dv_vals, lookup};
use crate::json::{
    b64_bytes, base64_decode, hex_bytes, hex_decode, jv, jv_entries, jv_items, lemma_jv_entries, lemma_jv_items,
    parse_i128, spec_parse_i128, uuid_parse, uuid_parsed, J, Json, JsonIn, JsonReadings,
};
use crate::keys::{sorted_keys, str_equal};
use crate::path::{spec_parse_path, Seg, SxPath};
use crate::value::{
    dv, dv_column, dv_columns, dv_fields, dv_op, dv_ops, dv_pairs, dv_vals, opt_bytes, opt_path, opt_str, BlobRef,
    DecimalValue, DeltaDocument, DeltaOp, DeltaOpKind, MessageEnvelope, MoneyValue, ReferenceValue, SxColumn, SxTable,
    SxTensor, SxTypedArray, SxValue, VColumn, VMessage, VOp, VTyped, V,
};
use crate::value_ops::{lemma_dv_columns, lemma_dv_ops, lemma_dv_pairs};
use vstd::prelude::*;

verus! {

/// View of JSON as it is read.
pub type JI = J<JsonReadings>;

/// The position of the first entry with key `k`, or -1.
pub open spec fn key_at<T>(o: Seq<(Seq<char>, T)>, k: Seq<char>) -> int
    decreases o.len(),
{
    if o.len() == 0 {
        -1
    } else if o[0].0 == k {
        0
    } else {
        let r = key_at(o.drop_first(), k);
        if r < 0 {
            -1
        } else {
            r + 1
        }
    }
}

pub proof fn lemma_key_at<T>(o: Seq<(Seq<char>, T)>, k: Seq<char>)
    ensures
        -1 <= key_at(o, k) < o.len(),
        key_at(o, k) >= 0 ==> o[key_at(o, k)].0 == k && lookup(o, k) == Some(o[key_at(o, k)].1),
        key_at(o, k) < 0 ==> lookup(o, k) is None,
        key_at(o, k) >= 0 ==> forall|j: int| 0 <= j < key_at(o, k) ==> (#[trigger] o[j]).0 != k,
        key_at(o, k) < 0 ==> forall|j: int| 0 <= j < o.len() ==> (#[trigger] o[j]).0 != k,
    decreases o.len(),
{
    if o.len() > 0 && o[0].0 != k {
        let t = o.drop_first();
        lemma_key_at(t, k);
        if key_at(t, k) >= 0 {
            assert forall|j: int| 0 <= j < key_at(o, k) implies (#[trigger] o[j]).0 != k by {
                if j > 0 {
                    assert(o[j] == t[j - 1]);
                }
            }
        } else {
            assert forall|j: int| 0 <= j < o.len() implies (#[trigger] o[j]).0 != k by {
                if j > 0 {
                    assert(o[j] == t[j - 1]);
                }
            }
        }
    }
}

/// The string at key `k`, if the entry is there and is a string.
pub open spec fn str_at(o: Seq<(Seq<char>, JI)>, k: Seq<char>) -> Option<Seq<char>> {
    match lookup(o, k) {
        Some(J::Str(s)) => Some(s),
        _ => None,
    }
}

/// The `u64` reading at key `k`.
pub open spec fn u64_at(o: Seq<(Seq<char>, JI)>, k: Seq<char>) -> Option<u64> {
    match lookup(o, k) {
        Some(J::Num(n)) => n.as_u64,
        _ => None,
    }
}

/// The `i64` reading at key `k`.
pub open spec fn i64_at(o: Seq<(Seq<char>, JI)>, k: Seq<char>) -> Option<i64> {
    match lookup(o, k) {
        Some(J::Num(n)) => n.as_i64,
        _ => None,
    }
}

/// The string of a value, or empty text when it is not a string.
pub open spec fn str_or_empty(j: JI) -> Seq<char> {
    match j {
        J::Str(s) => s,
        _ => Seq::empty(),
    }
}

/// Hex text at key `k` decoded, empty when it does not decode.
pub open spec fn hex_at(o: Seq<(Seq<char>, JI)>, k: Seq<char>) -> Option<Seq<u8>> {
    match str_at(o, k) {
        Some(h) => Some(
            match hex_bytes(h) {
                Some(b) => b,
                None => Seq::empty(),
            },
        ),
        None => None,
    }
}

/// The readings of array items that typed arrays take, with their defaults.
pub open spec fn u64_or_zero(j: JI) -> u64 {
    match j {
        J::Num(n) => match n.as_u64 {
            Some(x) => x,
            None => 0,
        },
        _ => 0,
    }
}

pub open spec fn i64_or_zero(j: JI) -> i64 {
    match j {
        J::Num(n) => match n.as_i64 {
            Some(x) => x,
            None => 0,
        },
        _ => 0,
    }
}

pub open spec fn f64_or_zero(j: JI) -> u64 {
    match j {
        J::Num(n) => match n.as_f64 {
            Some(x) => x,
            None => 0,
        },
        _ => 0,
    }
}

pub open spec fn f32_or_zero(j: JI) -> u32 {
    match j {
        J::Num(n) => n.as_f32,
        _ => 0,
    }
}

pub open spec fn bool_or_false(j: JI) -> bool {
    match j {
        J::Bool(b) => b,
        _ => false,
    }
}

pub open spec fn u8_elems(items: Seq<JI>) -> Seq<u8> {
    items.map_values(|x: JI| u64_or_zero(x) as u8)
}

pub open spec fn i32_elems(items: Seq<JI>) -> Seq<i32> {
    items.map_values(|x: JI| i64_or_zero(x) as i32)
}

pub open spec fn f32_elems(items: Seq<JI>) -> Seq<u32> {
    items.map_values(|x: JI| f32_or_zero(x))
}

pub open spec fn f64_elems(items: Seq<JI>) -> Seq<u64> {
    items.map_values(|x: JI| f64_or_zero(x))
}

pub open spec fn bool_elems(items: Seq<JI>) -> Seq<bool> {
    items.map_values(|x: JI| bool_or_false(x))
}

pub open spec fn usize_elems(items: Seq<JI>) -> Seq<usize> {
    items.map_values(|x: JI| u64_or_zero(x) as usize)
}

/// A JSON number as a value: `i64` when it reads as one, else `u64`, else
/// `f64`.
pub open spec fn number_value(n: JsonReadings) -> Result<V, SxErrorCode> {
    match n.as_i64 {
        Some(i) => Ok(V::I64(i)),
        None => match n.as_u64 {
            Some(u) => Ok(V::U64(u)),
            None => match n.as_f64 {
                Some(f) => Ok(V::F64(f)),
                None => Err(SxErrorCode::InvalidNumber),
            },
        },
    }
}

/// A typed array from its tag and items.
pub open spec fn typed_of(tag: Seq<char>, items: Seq<JI>) -> Result<V, SxErrorCode> {
    if tag == "typed_array:u8"@ {
        Ok(V::TypedArray(VTyped::U8(u8_elems(items))))
    } else if tag == "typed_array:i32"@ {
        Ok(V::TypedArray(VTyped::I32(i32_elems(items))))
    } else if tag == "typed_array:f32"@ {
        Ok(V::TypedArray(VTyped::F32(f32_elems(items))))
    } else if tag == "typed_array:f64"@ {
        Ok(V::TypedArray(VTyped::F64(f64_elems(items))))
    } else if tag == "typed_array:bool"@ {
        Ok(V::TypedArray(VTyped::Bool(bool_elems(items))))
    } else {
        Err(SxErrorCode::UnsupportedFeature)
    }
}

/// The kind of a delta operation by its lowercase name.
pub open spec fn kind_of(s: Seq<char>) -> Option<DeltaOpKind> {
    if s == "set"@ {
        Some(DeltaOpKind::SetAt)
    } else if s == "replace"@ {
        Some(DeltaOpKind::Replace)
    } else if s == "remove"@ {
        Some(DeltaOpKind::Remove)
    } else if s == "append"@ {
        Some(DeltaOpKind::Append)
    } else if s == "prepend"@ {
        Some(DeltaOpKind::Prepend)
    } else if s == "insert"@ {
        Some(DeltaOpKind::Insert)
    } else if s == "increment"@ {
        Some(DeltaOpKind::Increment)
    } else if s == "decrement"@ {
        Some(DeltaOpKind::Decrement)
    } else if s == "merge"@ {
        Some(DeltaOpKind::Merge)
    } else if s == "move"@ {
        Some(DeltaOpKind::Move)
    } else if s == "copy"@ {
        Some(DeltaOpKind::Copy)
    } else if s == "clear"@ {
        Some(DeltaOpKind::Clear)
    } else {
        None
    }
}

pub open spec fn decimal_of(o: Seq<(Seq<char>, JI)>) -> Result<V, SxErrorCode> {
    match str_at(o, "scaled"@) {
        None => Err(SxErrorCode::ParseError),
        Some(s) => match spec_parse_i128(s) {
            None => Err(SxErrorCode::ParseError),
            Some(x) => match u64_at(o, "scale"@) {
                None => Err(SxErrorCode::ParseError),
                Some(sc) => Ok(V::Decimal(x, sc as u32)),
            },
        },
    }
}

pub open spec fn money_of(o: Seq<(Seq<char>, JI)>) -> Result<V, SxErrorCode> {
    match str_at(o, "currency"@) {
        None => Err(SxErrorCode::ParseError),
        Some(cur) => match i64_at(o, "scaled"@) {
            None => Err(SxErrorCode::ParseError),
            Some(scaled) => match u64_at(o, "scale"@) {
                None => Err(SxErrorCode::ParseError),
                Some(sc) => Ok(V::Money(cur, scaled, sc as u32)),
            },
        },
    }
}

pub open spec fn blob_of(o: Seq<(Seq<char>, JI)>) -> Result<V, SxErrorCode> {
    match str_at(o, "uri"@) {
        None => Err(SxErrorCode::ParseError),
        Some(uri) => Ok(V::BlobRef(uri, str_at(o, "media_type"@), u64_at(o, "size"@), hex_at(o, "hash"@))),
    }
}

/// A JSON document as a value.
pub open spec fn from_json(j: JI) -> Result<V, SxErrorCode>
    decreases j, 3nat,
{
    match j {
        J::Null => Ok(V::Null),
        J::Bool(b) => Ok(V::Bool(b)),
        J::Num(n) => number_value(n),
        J::Str(s) => Ok(V::String(s)),
        J::Arr(items) => match from_items(items) {
            Ok(vs) => Ok(V::Array(vs)),
            Err(c) => Err(c),
        },
        J::Obj(o) => {
            let t = key_at(o, "$type"@);
            let x = key_at(o, "$value"@);
            proof {
                lemma_key_at(o, "$type"@);
                lemma_key_at(o, "$value"@);
            }
            if t >= 0 && x >= 0 && o[t].1 is Str {
                match o[t].1 {
                    J::Str(tag) => from_tagged(tag, o[x].1),
                    _ => Err(SxErrorCode::Internal),
                }
            } else {
                match object_entries(o) {
                    Ok(fs) => Ok(V::Object(fs)),
                    Err(c) => Err(c),
                }
            }
        },
    }
}

/// Array items as values; the first failure in order wins.
pub open spec fn from_items(items: Seq<JI>) -> Result<Seq<V>, SxErrorCode>
    decreases items, 2nat,
{
    if items.len() == 0 {
        Ok(Seq::empty())
    } else {
        match from_items(items.drop_last()) {
            Err(c) => Err(c),
            Ok(vs) => match from_json(items.last()) {
                Ok(v) => Ok(vs.push(v)),
                Err(c) => Err(c),
            },
        }
    }
}

/// Object entries inserted in order into a map that refuses a repeated key.
pub open spec fn object_entries(o: Seq<(Seq<char>, JI)>) -> Result<Seq<(Seq<char>, V)>, SxErrorCode>
    decreases o, 2nat,
{
    if o.len() == 0 {
        Ok(Seq::empty())
    } else {
        match object_entries(o.drop_last()) {
            Err(c) => Err(c),
            Ok(fs) => if has_key(fs, o.last().0) {
                Err(SxErrorCode::DuplicateKey)
            } else {
                match from_json(o.last().1) {
                    Ok(v) => Ok(insert_entry(fs, o.last().0, v)),
                    Err(c) => Err(c),
                }
            },
        }
    }
}

/// Object entries inserted in order into a map, a later key replacing an
/// earlier one.
pub open spec fn map_entries(o: Seq<(Seq<char>, JI)>) -> Result<Seq<(Seq<char>, V)>, SxErrorCode>
    decreases o, 2nat,
{
    if o.len() == 0 {
        Ok(Seq::empty())
    } else {
        match map_entries(o.drop_last()) {
            Err(c) => Err(c),
            Ok(fs) => match from_json(o.last().1) {
                Ok(v) => Ok(insert_entry(fs, o.last().0, v)),
                Err(c) => Err(c),
            },
        }
    }
}

/// Table columns: each entry a typed array or an array of values.
pub open spec fn table_columns(o: Seq<(Seq<char>, JI)>) -> Result<Seq<(Seq<char>, VColumn)>, SxErrorCode>
    decreases o, 2nat,
{
    if o.len() == 0 {
        Ok(Seq::empty())
    } else {
        match table_columns(o.drop_last()) {
            Err(c) => Err(c),
            Ok(cs) => match from_json(o.last().1) {
                Ok(V::TypedArray(t)) => Ok(insert_entry(cs, o.last().0, VColumn::Typed(t))),
                Ok(V::Array(items)) => Ok(insert_entry(cs, o.last().0, VColumn::Values(items))),
                Ok(_) => Err(SxErrorCode::TypeMismatch),
                Err(c) => Err(c),
            },
        }
    }
}

/// Map entries: each item a two-item array.
pub open spec fn map_pairs(items: Seq<JI>) -> Result<Seq<(V, V)>, SxErrorCode>
    decreases items, 2nat,
{
    if items.len() == 0 {
        Ok(Seq::empty())
    } else {
        match map_pairs(items.drop_last()) {
            Err(c) => Err(c),
            Ok(ps) => match items.last() {
                J::Arr(p) => if p.len() != 2 {
                    Err(SxErrorCode::ParseError)
                } else {
                    match from_json(p[0]) {
                        Err(c) => Err(c),
                        Ok(a) => match from_json(p[1]) {
                            Err(c) => Err(c),
                            Ok(b) => Ok(ps.push((a, b))),
                        },
                    }
                },
                _ => Err(SxErrorCode::ParseError),
            },
        }
    }
}

/// A delta operation object.
pub open spec fn delta_op(j: JI) -> Result<VOp, SxErrorCode>
    decreases j, 2nat,
{
    match j {
        J::Obj(m) => match str_at(m, "kind"@) {
            None => Err(SxErrorCode::ParseError),
            Some(ks) => match kind_of(ks) {
                None => Err(SxErrorCode::ParseError),
                Some(kind) => match str_at(m, "path"@) {
                    None => Err(SxErrorCode::ParseError),
                    Some(ps) => match spec_parse_path(ps) {
                        None => Err(SxErrorCode::InvalidPath),
                        Some(path) => {
                            let from: Result<Option<Seq<Seg>>, SxErrorCode> = match str_at(m, "from"@) {
                                Some(fs) => match spec_parse_path(fs) {
                                    Some(f) => Ok(Some(f)),
                                    None => Err(SxErrorCode::InvalidPath),
                                },
                                None => Ok(None),
                            };
                            let k = key_at(m, "value"@);
                            proof {
                                lemma_key_at(m, "value"@);
                            }
                            let index = match u64_at(m, "index"@) {
                                Some(i) => Some(i as usize),
                                None => None,
                            };
                            match from {
                                Err(c) => Err(c),
                                Ok(from) => if k >= 0 {
                                    match from_json(m[k].1) {
                                        Ok(x) => Ok(VOp { kind, path, value: Some(x), from, index }),
                                        Err(c) => Err(c),
                                    }
                                } else {
                                    Ok(VOp { kind, path, value: None, from, index })
                                },
                            }
                        },
                    },
                },
            },
        },
        _ => Err(SxErrorCode::ParseError),
    }
}

pub open spec fn delta_ops(items: Seq<JI>) -> Result<Seq<VOp>, SxErrorCode>
    decreases items, 2nat,
{
    if items.len() == 0 {
        Ok(Seq::empty())
    } else {
        match delta_ops(items.drop_last()) {
            Err(c) => Err(c),
            Ok(ops) => match delta_op(items.last()) {
                Ok(op) => Ok(ops.push(op)),
                Err(c) => Err(c),
            },
        }
    }
}

pub open spec fn tensor_of(o: Seq<(Seq<char>, JI)>) -> Result<V, SxErrorCode>
    decreases o, 2nat,
{
    match lookup(o, "shape"@) {
        Some(J::Arr(shape)) => {
            let k = key_at(o, "data"@);
            proof {
                lemma_key_at(o, "data"@);
            }
            if k < 0 {
                Err(SxErrorCode::ParseError)
            } else {
                match from_json(o[k].1) {
                    Ok(V::TypedArray(t)) => Ok(V::Tensor(usize_elems(shape), t, str_at(o, "layout"@))),
                    Ok(_) => Err(SxErrorCode::TypeMismatch),
                    Err(c) => Err(c),
                }
            }
        },
        _ => Err(SxErrorCode::ParseError),
    }
}

pub open spec fn delta_of(o: Seq<(Seq<char>, JI)>) -> Result<V, SxErrorCode>
    decreases o, 2nat,
{
    let k = key_at(o, "ops"@);
    proof {
        lemma_key_at(o, "ops"@);
    }
    if k >= 0 && o[k].1 is Arr {
        match o[k].1 {
            J::Arr(items) => match delta_ops(items) {
                Ok(ops) => Ok(V::Delta(str_at(o, "from_hash"@), ops)),
                Err(c) => Err(c),
            },
            _ => Err(SxErrorCode::Internal),
        }
    } else {
        Err(SxErrorCode::ParseError)
    }
}

pub open spec fn message_of(o: Seq<(Seq<char>, JI)>) -> Result<V, SxErrorCode>
    decreases o, 2nat,
{
    let kf = key_at(o, "fields"@);
    let kp = key_at(o, "payload"@);
    proof {
        lemma_key_at(o, "fields"@);
        lemma_key_at(o, "payload"@);
    }
    let fields: Result<Seq<(Seq<char>, V)>, SxErrorCode> = if kf >= 0 && o[kf].1 is Obj {
        match o[kf].1 {
            J::Obj(fo) => map_entries(fo),
            _ => Ok(Seq::empty()),
        }
    } else {
        Ok(Seq::empty())
    };
    match fields {
        Err(c) => Err(c),
        Ok(fs) => {
            let payload: Result<Option<V>, SxErrorCode> = if kp >= 0 {
                match from_json(o[kp].1) {
                    Ok(x) => Ok(Some(x)),
                    Err(c) => Err(c),
                }
            } else {
                Ok(None)
            };
            match payload {
                Err(c) => Err(c),
                Ok(p) => Ok(
                    V::Message(
                        VMessage {
                            sx_version: match u64_at(o, "sx_version"@) {
                                Some(x) => x as u32,
                                None => 1,
                            },
                            message_id: str_at(o, "message_id"@),
                            message_type: str_at(o, "type"@),
                            schema: str_at(o, "schema"@),
                            timestamp: str_at(o, "timestamp"@),
                            logical_hash: hex_at(o, "logical_hash"@),
                            fields: fs,
                            payload: match p {
                                Some(x) => Some(Box::new(x)),
                                None => None,
                            },
                        },
                    ),
                ),
            }
        },
    }
}

/// A tagged object `{"$type": tag, "$value": v}` as a value.
pub open spec fn from_tagged(tag: Seq<char>, v: JI) -> Result<V, SxErrorCode>
    decreases v, 2nat,
{
    if tag == "uuid"@ {
        match v {
            J::Str(s) => match uuid_parsed(s) {
                Some(b) => Ok(V::Uuid(b)),
                None => Err(SxErrorCode::ParseError),
            },
            _ => Err(SxErrorCode::ParseError),
        }
    } else if tag == "timestamp"@ {
        Ok(V::Timestamp(str_or_empty(v)))
    } else if tag == "date"@ {
        Ok(V::Date(str_or_empty(v)))
    } else if tag == "duration"@ {
        Ok(V::Duration(str_or_empty(v)))
    } else if tag == "bytes"@ {
        match v {
            J::Str(s) => match b64_bytes(s) {
                Some(b) => Ok(V::Bytes(b)),
                None => Err(SxErrorCode::ParseError),
            },
            _ => Err(SxErrorCode::ParseError),
        }
    } else if tag == "decimal"@ {
        match v {
            J::Obj(o) => decimal_of(o),
            _ => Err(SxErrorCode::ParseError),
        }
    } else if tag == "money"@ {
        match v {
            J::Obj(o) => money_of(o),
            _ => Err(SxErrorCode::ParseError),
        }
    } else if "typed_array:"@.is_prefix_of(tag) {
        match v {
            J::Arr(items) => typed_of(tag, items),
            _ => Err(SxErrorCode::ParseError),
        }
    } else if tag == "ref"@ {
        Ok(V::Reference(str_or_empty(v)))
    } else if tag == "blob_ref"@ {
        match v {
            J::Obj(o) => blob_of(o),
            _ => Err(SxErrorCode::ParseError),
        }
    } else if tag == "table"@ {
        match v {
            J::Obj(o) => match table_columns(o) {
                Ok(cs) => Ok(V::Table(cs)),
                Err(c) => Err(c),
            },
            _ => Err(SxErrorCode::ParseError),
        }
    } else if tag == "map"@ {
        match v {
            J::Arr(items) => match map_pairs(items) {
                Ok(ps) => Ok(V::MapEntries(ps)),
                Err(c) => Err(c),
            },
            _ => Err(SxErrorCode::ParseError),
        }
    } else if tag == "tensor"@ {
        match v {
            J::Obj(o) => tensor_of(o),
            _ => Err(SxErrorCode::ParseError),
        }
    } else if tag == "delta"@ {
        match v {
            J::Obj(o) => delta_of(o),
            _ => Err(SxErrorCode::ParseError),
        }
    } else if tag == "message"@ {
        match v {
            J::Obj(o) => message_of(o),
            _ => Err(SxErrorCode::ParseError),
        }
    } else {
        Err(SxErrorCode::UnsupportedFeature)
    }
}

// ---------------------------------------------------------------------------
// Reading
// ---------------------------------------------------------------------------

/// `r` is what the reading `s` describes: the value, or an error with its code.
pub open spec fn result_is(r: SxResult<SxValue>, s: Result<V, SxErrorCode>) -> bool {
    match s {
        Ok(v) => (r matches Ok(x) && dv(x) == v),
        Err(c) => (r matches Err(e) && e.code == c),
    }
}

fn text3(a: &str, b: &str, c: &str) -> (r: String)
    ensures
        r@ == a@ + b@ + c@,
{
    let mut m = a.to_owned();
    m.append(b);
    m.append(c);
    m
}

fn parse_error(message: &str) -> (r: SxError)
    ensures
        r.code == SxErrorCode::ParseError,
{
    SxError::msg(SxErrorCode::ParseError, message)
}

/// True when `p` is a prefix of `s`.
fn has_prefix(s: &str, p: &str) -> (r: bool)
    ensures
        r == p@.is_prefix_of(s@),
{
    let n = s.unicode_len();
    let m = p.unicode_len();
    if m > n {
        return false;
    }
    let mut i: usize = 0;
    while i < m
        invariant
            i <= m <= n,
            n == s@.len(),
            m == p@.len(),
            forall|j: int| 0 <= j < i ==> s@[j] == p@[j],
        decreases m - i,
    {
        if s.get_char(i) != p.get_char(i) {
            return false;
        }
        i += 1;
    }
    assert(p@ =~= s@.subrange(0, m as int));
    true
}

/// The position of the first entry with key `k`.
fn entry_index(o: &Vec<(String, JsonIn)>, k: &str) -> (r: Option<usize>)
    ensures
        match r {
            Some(i) => i < o@.len() && key_at(jv_entries(o@), k@) == i as int,
            None => key_at(jv_entries(o@), k@) == -1,
        },
{
    let r = find_key(o, k);
    proof {
        let e = jv_entries(o@);
        lemma_jv_entries(o@);
        lemma_key_at(e, k@);
        match r {
            Some(i) => {
                assert(e[i as int].0 == k@);
                let a = key_at(e, k@);
                if a >= 0 && a < i {
                    assert(o@[a].0@ == e[a].0);
                }
            },
            None => {
                let a = key_at(e, k@);
                if a >= 0 {
                    assert(o@[a].0@ == e[a].0);
                }
            },
        }
    }
    r
}

proof fn lemma_entry_lookup(o: Seq<(String, JsonIn)>, k: Seq<char>, i: int)
    requires
        0 <= i < o.len(),
        key_at(jv_entries(o), k) == i,
    ensures
        lookup(jv_entries(o), k) == Some(jv(o[i].1)),
{
    lemma_jv_entries(o);
    lemma_key_at(jv_entries(o), k);
}

fn get_str(o: &Vec<(String, JsonIn)>, k: &str) -> (r: Option<String>)
    ensures
        opt_str(r) == str_at(jv_entries(o@), k@),
{
    proof {
        lemma_key_at(jv_entries(o@), k@);
    }
    match entry_index(o, k) {
        Some(i) => {
            proof {
                lemma_entry_lookup(o@, k@, i as int);
            }
            match &o[i].1 {
                Json::String(s) => Some(s.clone()),
                _ => None,
            }
        },
        None => None,
    }
}

fn get_u64(o: &Vec<(String, JsonIn)>, k: &str) -> (r: Option<u64>)
    ensures
        r == u64_at(jv_entries(o@), k@),
{
    proof {
        lemma_key_at(jv_entries(o@), k@);
    }
    match entry_index(o, k) {
        Some(i) => {
            proof {
                lemma_entry_lookup(o@, k@, i as int);
            }
            match &o[i].1 {
                Json::Number(n) => n.as_u64,
                _ => None,
            }
        },
        None => None,
    }
}

fn get_i64(o: &Vec<(String, JsonIn)>, k: &str) -> (r: Option<i64>)
    ensures
        r == i64_at(jv_entries(o@), k@),
{
    proof {
        lemma_key_at(jv_entries(o@), k@);
    }
    match entry_index(o, k) {
        Some(i) => {
            proof {
                lemma_entry_lookup(o@, k@, i as int);
            }
            match &o[i].1 {
                Json::Number(n) => n.as_i64,
                _ => None,
            }
        },
        None => None,
    }
}

fn get_hex(o: &Vec<(String, JsonIn)>, k: &str) -> (r: Option<Vec<u8>>)
    ensures
        opt_bytes(r) == hex_at(jv_entries(o@), k@),
{
    match get_str(o, k) {
        Some(h) => match hex_decode(h.as_str()) {
            Some(b) => Some(b),
            None => {
                let e: Vec<u8> = Vec::new();
                assert(e@ =~= Seq::<u8>::empty());
                Some(e)
            },
        },
        None => None,
    }
}

fn str_or_empty_of(j: &JsonIn) -> (r: String)
    ensures
        r@ == str_or_empty(jv(*j)),
{
    match j {
        Json::String(s) => s.clone(),
        _ => String::new(),
    }
}

fn u64_or_zero_of(j: &JsonIn) -> (r: u64)
    ensures
        r == u64_or_zero(jv(*j)),
{
    match j {
        Json::Number(n) => match n.as_u64 {
            Some(x) => x,
            None => 0,
        },
        _ => 0,
    }
}

fn i64_or_zero_of(j: &JsonIn) -> (r: i64)
    ensures
        r == i64_or_zero(jv(*j)),
{
    match j {
        Json::Number(n) => match n.as_i64 {
            Some(x) => x,
            None => 0,
        },
        _ => 0,
    }
}

fn f64_or_zero_of(j: &JsonIn) -> (r: u64)
    ensures
        r == f64_or_zero(jv(*j)),
{
    match j {
        Json::Number(n) => match n.as_f64 {
            Some(x) => x,
            None => 0,
        },
        _ => 0,
    }
}

fn f32_or_zero_of(j: &JsonIn) -> (r: u32)
    ensures
        r == f32_or_zero(jv(*j)),
{
    match j {
        Json::Number(n) => n.as_f32,
        _ => 0,
    }
}

fn bool_or_false_of(j: &JsonIn) -> (r: bool)
    ensures
        r == bool_or_false(jv(*j)),
{
    match j {
        Json::Bool(b) => *b,
        _ => false,
    }
}

/// A typed array from its tag and the JSON items.
fn typed_from_json(tag: &str, items: &Vec<JsonIn>) -> (r: SxResult<SxValue>)
    ensures
        result_is(r, typed_of(tag@, jv_items(items@))),
{
    let ghost js = jv_items(items@);
    proof {
        lemma_jv_items(items@);
    }
    if str_equal(tag, "typed_array:u8") {
        let mut out: Vec<u8> = Vec::new();
        let mut i: usize = 0;
        while i < items.len()
            invariant
                i <= items@.len(),
                out@.len() == i,
                forall|k: int| 0 <= k < i ==> out@[k] == u64_or_zero(jv(items@[k])) as u8,
            decreases items.len() - i,
        {
            out.push(u64_or_zero_of(&items[i]) as u8);
            i += 1;
        }
        assert(out@ =~= u8_elems(js));
        Ok(SxValue::TypedArray(SxTypedArray::U8(out)))
    } else if str_equal(tag, "typed_array:i32") {
        let mut out: Vec<i32> = Vec::new();
        let mut i: usize = 0;
        while i < items.len()
            invariant
                i <= items@.len(),
                out@.len() == i,
                forall|k: int| 0 <= k < i ==> out@[k] == i64_or_zero(jv(items@[k])) as i32,
            decreases items.len() - i,
        {
            out.push(i64_or_zero_of(&items[i]) as i32);
            i += 1;
        }
        assert(out@ =~= i32_elems(js));
        Ok(SxValue::TypedArray(SxTypedArray::I32(out)))
    } else if str_equal(tag, "typed_array:f32") {
        let mut out: Vec<u32> = Vec::new();
        let mut i: usize = 0;
        while i < items.len()
            invariant
                i <= items@.len(),
                out@.len() == i,
                forall|k: int| 0 <= k < i ==> out@[k] == f32_or_zero(jv(items@[k])),
            decreases items.len() - i,
        {
            out.push(f32_or_zero_of(&items[i]));
            i += 1;
        }
        assert(out@ =~= f32_elems(js));
        Ok(SxValue::TypedArray(SxTypedArray::F32(out)))
    } else if str_equal(tag, "typed_array:f64") {
        let mut out: Vec<u64> = Vec::new();
        let mut i: usize = 0;
        while i < items.len()
            invariant
                i <= items@.len(),
                out@.len() == i,
                forall|k: int| 0 <= k < i ==> out@[k] == f64_or_zero(jv(items@[k])),
            decreases items.len() - i,
        {
            out.push(f64_or_zero_of(&items[i]));
            i += 1;
        }
        assert(out@ =~= f64_elems(js));
        Ok(SxValue::TypedArray(SxTypedArray::F64(out)))
    } else if str_equal(tag, "typed_array:bool") {
        let mut out: Vec<bool> = Vec::new();
        let mut i: usize = 0;
        while i < items.len()
            invariant
                i <= items@.len(),
                out@.len() == i,
                forall|k: int| 0 <= k < i ==> out@[k] == bool_or_false(jv(items@[k])),
            decreases items.len() - i,
        {
            out.push(bool_or_false_of(&items[i]));
            i += 1;
        }
        assert(out@ =~= bool_elems(js));
        Ok(SxValue::TypedArray(SxTypedArray::Bool(out)))
    } else {
        Err(SxError::new(SxErrorCode::UnsupportedFeature, text3("unsupported typed array tag: ", tag, "")))
    }
}

fn decimal_from_json(o: &Vec<(String, JsonIn)>) -> (r: SxResult<SxValue>)
    ensures
        result_is(r, decimal_of(jv_entries(o@))),
{
    let s = match get_str(o, "scaled") {
        Some(s) => s,
        None => {
            return Err(parse_error("decimal.scaled missing"));
        },
    };
    let scaled = match parse_i128(s.as_str()) {
        Ok(x) => x,
        Err(e) => {
            return Err(SxError::new(SxErrorCode::ParseError, text3("invalid decimal scaled: ", e.as_str(), "")));
        },
    };
    match get_u64(o, "scale") {
        Some(sc) => Ok(SxValue::Decimal(DecimalValue { scaled, scale: sc as u32 })),
        None => Err(parse_error("decimal.scale missing")),
    }
}

fn money_from_json(o: &Vec<(String, JsonIn)>) -> (r: SxResult<SxValue>)
    ensures
        result_is(r, money_of(jv_entries(o@))),
{
    let currency = match get_str(o, "currency") {
        Some(s) => s,
        None => {
            return Err(parse_error("money.currency missing"));
        },
    };
    let scaled = match get_i64(o, "scaled") {
        Some(x) => x,
        None => {
            return Err(parse_error("money.scaled missing"));
        },
    };
    match get_u64(o, "scale") {
        Some(sc) => Ok(SxValue::Money(MoneyValue { currency, scaled, scale: sc as u32 })),
        None => Err(parse_error("money.scale missing")),
    }
}

fn blob_from_json(o: &Vec<(String, JsonIn)>) -> (r: SxResult<SxValue>)
    ensures
        result_is(r, blob_of(jv_entries(o@))),
{
    let uri = match get_str(o, "uri") {
        Some(s) => s,
        None => {
            return Err(parse_error("blob_ref.uri missing"));
        },
    };
    Ok(
        SxValue::BlobRef(
            BlobRef {
                uri,
                media_type: get_str(o, "media_type"),
                size: get_u64(o, "size"),
                hash: get_hex(o, "hash"),
            },
        ),
    )
}

proof fn lemma_items_prefix(s: Seq<JI>, n: nat, m: nat)
    requires
        n <= m <= s.len(),
        from_items(s.subrange(0, n as int)) is Err,
    ensures
        from_items(s.subrange(0, m as int)) == from_items(s.subrange(0, n as int)),
    decreases m - n,
{
    if n < m {
        lemma_items_prefix(s, n, (m - 1) as nat);
        assert(s.subrange(0, m as int).drop_last() =~= s.subrange(0, m - 1));
    }
}

proof fn lemma_object_prefix(s: Seq<(Seq<char>, JI)>, n: nat, m: nat)
    requires
        n <= m <= s.len(),
        object_entries(s.subrange(0, n as int)) is Err,
    ensures
        object_entries(s.subrange(0, m as int)) == object_entries(s.subrange(0, n as int)),
    decreases m - n,
{
    if n < m {
        lemma_object_prefix(s, n, (m - 1) as nat);
        assert(s.subrange(0, m as int).drop_last() =~= s.subrange(0, m - 1));
    }
}

proof fn lemma_map_prefix(s: Seq<(Seq<char>, JI)>, n: nat, m: nat)
    requires
        n <= m <= s.len(),
        map_entries(s.subrange(0, n as int)) is Err,
    ensures
        map_entries(s.subrange(0, m as int)) == map_entries(s.subrange(0, n as int)),
    decreases m - n,
{
    if n < m {
        lemma_map_prefix(s, n, (m - 1) as nat);
        assert(s.subrange(0, m as int).drop_last() =~= s.subrange(0, m - 1));
    }
}

proof fn lemma_table_prefix(s: Seq<(Seq<char>, JI)>, n: nat, m: nat)
    requires
        n <= m <= s.len(),
        table_columns(s.subrange(0, n as int)) is Err,
    ensures
        table_columns(s.subrange(0, m as int)) == table_columns(s.subrange(0, n as int)),
    decreases m - n,
{
    if n < m {
        lemma_table_prefix(s, n, (m - 1) as nat);
        assert(s.subrange(0, m as int).drop_last() =~= s.subrange(0, m - 1));
    }
}

proof fn lemma_pairs_prefix(s: Seq<JI>, n: nat, m: nat)
    requires
        n <= m <= s.len(),
        map_pairs(s.subrange(0, n as int)) is Err,
    ensures
        map_pairs(s.subrange(0, m as int)) == map_pairs(s.subrange(0, n as int)),
    decreases m - n,
{
    if n < m {
        lemma_pairs_prefix(s, n, (m - 1) as nat);
        assert(s.subrange(0, m as int).drop_last() =~= s.subrange(0, m - 1));
    }
}

proof fn lemma_ops_prefix(s: Seq<JI>, n: nat, m: nat)
    requires
        n <= m <= s.len(),
        delta_ops(s.subrange(0, n as int)) is Err,
    ensures
        delta_ops(s.subrange(0, m as int)) == delta_ops(s.subrange(0, n as int)),
    decreases m - n,
{
    if n < m {
        lemma_ops_prefix(s, n, (m - 1) as nat);
        assert(s.subrange(0, m as int).drop_last() =~= s.subrange(0, m - 1));
    }
}

/// Converts JSON to a value: numbers as `i64`, else `u64`, else `f64`;
/// objects with a string `$type` and a `$value` as the tagged value; other
/// objects as objects, a repeated key refused.
#[verifier::spinoff_prover]
pub fn json_to_sx(j: &JsonIn) -> (r: SxResult<SxValue>)
    ensures
        result_is(r, from_json(jv(*j))),
    decreases j, 3nat,
{
    match j {
        Json::Null => Ok(SxValue::Null),
        Json::Bool(b) => Ok(SxValue::Bool(*b)),
        Json::Number(n) => match n.as_i64 {
            Some(i) => Ok(SxValue::I64(i)),
            None => match n.as_u64 {
                Some(u) => Ok(SxValue::U64(u)),
                None => match n.as_f64 {
                    Some(f) => Ok(SxValue::F64(f)),
                    None => Err(SxError::msg(SxErrorCode::InvalidNumber, "unsupported JSON number")),
                },
            },
        },
        Json::String(s) => Ok(SxValue::String(s.clone())),
        Json::Array(items) => match items_from_json(items) {
            Ok(vs) => Ok(SxValue::Array(vs)),
            Err(e) => Err(e),
        },
        Json::Object(o) => {
            let ghost e = jv_entries(o@);
            proof {
                lemma_jv_entries(o@);
                lemma_key_at(e, "$type"@);
                lemma_key_at(e, "$value"@);
            }
            let t = entry_index(o, "$type");
            let x = entry_index(o, "$value");
            match (t, x) {
                (Some(ti), Some(xi)) => {
                    match &o[ti].1 {
                        Json::String(tag) => {
                            assert(decreases_to!(j => o@[xi as int].1));
                            assert(e[xi as int].1 == jv(o@[xi as int].1));
                            return parse_tagged(tag.as_str(), &o[xi].1);
                        },
                        _ => {},
                    }
                },
                _ => {},
            }
            match object_from_json(o) {
                Ok(fs) => Ok(SxValue::Object(fs)),
                Err(e) => Err(e),
            }
        },
    }
}

fn items_from_json(items: &Vec<JsonIn>) -> (r: SxResult<Vec<SxValue>>)
    ensures
        match from_items(jv_items(items@)) {
            Ok(vs) => (r matches Ok(x) && dv_vals(x@) == vs),
            Err(c) => (r matches Err(e) && e.code == c),
        },
    decreases items, 2nat,
{
    let ghost js = jv_items(items@);
    proof {
        lemma_jv_items(items@);
        assert(js.subrange(0, 0) =~= Seq::<JI>::empty());
    }
    let mut out: Vec<SxValue> = Vec::new();
    let mut i: usize = 0;
    while i < items.len()
        invariant
            i <= items@.len(),
            js == jv_items(items@),
            js.len() == items@.len(),
            forall|k: int| 0 <= k < items@.len() ==> #[trigger] js[k] == jv(items@[k]),
            from_items(js.subrange(0, i as int)) == Ok::<Seq<V>, SxErrorCode>(dv_vals(out@)),
        decreases items.len() - i,
    {
        proof {
            assert(js.subrange(0, i + 1).drop_last() =~= js.subrange(0, i as int));
            assert(js.subrange(0, i + 1).last() == js[i as int]);
        }
        assert(decreases_to!(items => items@[i as int]));
        match json_to_sx(&items[i]) {
            Ok(v) => {
                let ghost before = out@;
                out.push(v);
                proof {
                    assert(out@.drop_last() =~= before);
                }
            },
            Err(e) => {
                proof {
                    lemma_items_prefix(js, (i + 1) as nat, js.len());
                    assert(js.subrange(0, js.len() as int) =~= js);
                }
                return Err(e);
            },
        }
        i += 1;
    }
    proof {
        assert(js.subrange(0, i as int) =~= js);
    }
    Ok(out)
}

fn object_from_json(o: &Vec<(String, JsonIn)>) -> (r: SxResult<Vec<(String, SxValue)>>)
    ensures
        match object_entries(jv_entries(o@)) {
            Ok(fs) => (r matches Ok(x) && dv_fields(x@) == fs),
            Err(c) => (r matches Err(e) && e.code == c),
        },
    decreases o, 2nat,
{
    let ghost es = jv_entries(o@);
    proof {
        lemma_jv_entries(o@);
        assert(es.subrange(0, 0) =~= Seq::<(Seq<char>, JI)>::empty());
    }
    let mut out: Vec<(String, SxValue)> = Vec::new();
    let mut i: usize = 0;
    while i < o.len()
        invariant
            i <= o@.len(),
            es == jv_entries(o@),
            es.len() == o@.len(),
            forall|k: int| 0 <= k < o@.len() ==> #[trigger] es[k] == (o@[k].0@, jv(o@[k].1)),
            object_entries(es.subrange(0, i as int)) == Ok::<Seq<(Seq<char>, V)>, SxErrorCode>(dv_fields(out@)),
            sorted_keys(dv_fields(out@)),
        decreases o.len() - i,
    {
        proof {
            assert(es.subrange(0, i + 1).drop_last() =~= es.subrange(0, i as int));
            assert(es.subrange(0, i + 1).last() == es[i as int]);
            lemma_dv_fields(out@);
        }
        match find_key(&out, o[i].0.as_str()) {
            Some(idx) => {
                proof {
                    assert(dv_fields(out@)[idx as int].0 == o@[i as int].0@);
                    assert(has_key(dv_fields(out@), o@[i as int].0@));
                    lemma_object_prefix(es, (i + 1) as nat, es.len());
                    assert(es.subrange(0, es.len() as int) =~= es);
                }
                return Err(SxError::new(SxErrorCode::DuplicateKey, text3("duplicate key '", o[i].0.as_str(), "'")));
            },
            None => {
                proof {
                    assert(!has_key(dv_fields(out@), o@[i as int].0@));
                }
            },
        }
        assert(decreases_to!(o => o@[i as int].1));
        match json_to_sx(&o[i].1) {
            Ok(v) => {
                insert_field(&mut out, o[i].0.clone(), v);
            },
            Err(e) => {
                proof {
                    lemma_object_prefix(es, (i + 1) as nat, es.len());
                    assert(es.subrange(0, es.len() as int) =~= es);
                }
                return Err(e);
            },
        }
        i += 1;
    }
    proof {
        assert(es.subrange(0, i as int) =~= es);
    }
    Ok(out)
}

fn map_from_json(o: &Vec<(String, JsonIn)>) -> (r: SxResult<Vec<(String, SxValue)>>)
    ensures
        match map_entries(jv_entries(o@)) {
            Ok(fs) => (r matches Ok(x) && dv_fields(x@) == fs),
            Err(c) => (r matches Err(e) && e.code == c),
        },
    decreases o, 2nat,
{
    let ghost es = jv_entries(o@);
    proof {
        lemma_jv_entries(o@);
        assert(es.subrange(0, 0) =~= Seq::<(Seq<char>, JI)>::empty());
    }
    let mut out: Vec<(String, SxValue)> = Vec::new();
    let mut i: usize = 0;
    while i < o.len()
        invariant
            i <= o@.len(),
            es == jv_entries(o@),
            es.len() == o@.len(),
            forall|k: int| 0 <= k < o@.len() ==> #[trigger] es[k] == (o@[k].0@, jv(o@[k].1)),
            map_entries(es.subrange(0, i as int)) == Ok::<Seq<(Seq<char>, V)>, SxErrorCode>(dv_fields(out@)),
            sorted_keys(dv_fields(out@)),
        decreases o.len() - i,
    {
        proof {
            assert(es.subrange(0, i + 1).drop_last() =~= es.subrange(0, i as int));
            assert(es.subrange(0, i + 1).last() == es[i as int]);
        }
        assert(decreases_to!(o => o@[i as int].1));
        match json_to_sx(&o[i].1) {
            Ok(v) => {
                insert_field(&mut out, o[i].0.clone(), v);
            },
            Err(e) => {
                proof {
                    lemma_map_prefix(es, (i + 1) as nat, es.len());
                    assert(es.subrange(0, es.len() as int) =~= es);
                }
                return Err(e);
            },
        }
        i += 1;
    }
    proof {
        assert(es.subrange(0, i as int) =~= es);
    }
    Ok(out)
}

fn table_from_json(o: &Vec<(String, JsonIn)>) -> (r: SxResult<Vec<(String, SxColumn)>>)
    ensures
        match table_columns(jv_entries(o@)) {
            Ok(cs) => (r matches Ok(x) && dv_columns(x@) == cs),
            Err(c) => (r matches Err(e) && e.code == c),
        },
    decreases o, 2nat,
{
    let ghost es = jv_entries(o@);
    proof {
        lemma_jv_entries(o@);
        assert(es.subrange(0, 0) =~= Seq::<(Seq<char>, JI)>::empty());
    }
    let mut out: Vec<(String, SxColumn)> = Vec::new();
    let mut i: usize = 0;
    while i < o.len()
        invariant
            i <= o@.len(),
            es == jv_entries(o@),
            es.len() == o@.len(),
            forall|k: int| 0 <= k < o@.len() ==> #[trigger] es[k] == (o@[k].0@, jv(o@[k].1)),
            table_columns(es.subrange(0, i as int)) == Ok::<Seq<(Seq<char>, VColumn)>, SxErrorCode>(dv_columns(out@)),
            sorted_keys(dv_columns(out@)),
        decreases o.len() - i,
    {
        proof {
            assert(es.subrange(0, i + 1).drop_last() =~= es.subrange(0, i as int));
            assert(es.subrange(0, i + 1).last() == es[i as int]);
        }
        assert(decreases_to!(o => o@[i as int].1));
        let parsed = json_to_sx(&o[i].1);
        match parsed {
            Ok(SxValue::TypedArray(t)) => {
                insert_column(&mut out, o[i].0.clone(), SxColumn::Typed(t));
            },
            Ok(SxValue::Array(items)) => {
                insert_column(&mut out, o[i].0.clone(), SxColumn::Values(items));
            },
            Ok(_) => {
                proof {
                    lemma_table_prefix(es, (i + 1) as nat, es.len());
                    assert(es.subrange(0, es.len() as int) =~= es);
                }
                return Err(
                    SxError::new(
                        SxErrorCode::TypeMismatch,
                        text3("table column '", o[i].0.as_str(), "' must be typed array or array"),
                    ),
                );
            },
            Err(e) => {
                proof {
                    lemma_table_prefix(es, (i + 1) as nat, es.len());
                    assert(es.subrange(0, es.len() as int) =~= es);
                }
                return Err(e);
            },
        }
        i += 1;
    }
    proof {
        assert(es.subrange(0, i as int) =~= es);
    }
    Ok(out)
}

fn pairs_from_json(items: &Vec<JsonIn>) -> (r: SxResult<Vec<(SxValue, SxValue)>>)
    ensures
        match map_pairs(jv_items(items@)) {
            Ok(ps) => (r matches Ok(x) && dv_pairs(x@) == ps),
            Err(c) => (r matches Err(e) && e.code == c),
        },
    decreases items, 2nat,
{
    let ghost js = jv_items(items@);
    proof {
        lemma_jv_items(items@);
        assert(js.subrange(0, 0) =~= Seq::<JI>::empty());
    }
    let mut out: Vec<(SxValue, SxValue)> = Vec::new();
    let mut i: usize = 0;
    while i < items.len()
        invariant
            i <= items@.len(),
            js == jv_items(items@),
            js.len() == items@.len(),
            forall|k: int| 0 <= k < items@.len() ==> #[trigger] js[k] == jv(items@[k]),
            map_pairs(js.subrange(0, i as int)) == Ok::<Seq<(V, V)>, SxErrorCode>(dv_pairs(out@)),
        decreases items.len() - i,
    {
        proof {
            assert(js.subrange(0, i + 1).drop_last() =~= js.subrange(0, i as int));
            assert(js.subrange(0, i + 1).last() == js[i as int]);
        }
        let pair = match &items[i] {
            Json::Array(p) => p,
            _ => {
                proof {
                    lemma_pairs_prefix(js, (i + 1) as nat, js.len());
                    assert(js.subrange(0, js.len() as int) =~= js);
                }
                return Err(parse_error("map entry must be 2-item array"));
            },
        };
        proof {
            lemma_jv_items(pair@);
        }
        if pair.len() != 2 {
            proof {
                lemma_pairs_prefix(js, (i + 1) as nat, js.len());
                assert(js.subrange(0, js.len() as int) =~= js);
            }
            return Err(parse_error("map entry must have exactly 2 elements"));
        }
        assert(decreases_to!(items => pair@[0]));
        assert(decreases_to!(items => pair@[1]));
        let a = match json_to_sx(&pair[0]) {
            Ok(a) => a,
            Err(e) => {
                proof {
                    lemma_pairs_prefix(js, (i + 1) as nat, js.len());
                    assert(js.subrange(0, js.len() as int) =~= js);
                }
                return Err(e);
            },
        };
        let b = match json_to_sx(&pair[1]) {
            Ok(b) => b,
            Err(e) => {
                proof {
                    lemma_pairs_prefix(js, (i + 1) as nat, js.len());
                    assert(js.subrange(0, js.len() as int) =~= js);
                }
                return Err(e);
            },
        };
        let ghost before = out@;
        out.push((a, b));
        proof {
            assert(out@.drop_last() =~= before);
        }
        i += 1;
    }
    proof {
        assert(js.subrange(0, i as int) =~= js);
    }
    Ok(out)
}

pub(crate) fn kind_from_text(s: &str) -> (r: Option<DeltaOpKind>)
    ensures
        r == kind_of(s@),
{
    if str_equal(s, "set") {
        Some(DeltaOpKind::SetAt)
    } else if str_equal(s, "replace") {
        Some(DeltaOpKind::Replace)
    } else if str_equal(s, "remove") {
        Some(DeltaOpKind::Remove)
    } else if str_equal(s, "append") {
        Some(DeltaOpKind::Append)
    } else if str_equal(s, "prepend") {
        Some(DeltaOpKind::Prepend)
    } else if str_equal(s, "insert") {
        Some(DeltaOpKind::Insert)
    } else if str_equal(s, "increment") {
        Some(DeltaOpKind::Increment)
    } else if str_equal(s, "decrement") {
        Some(DeltaOpKind::Decrement)
    } else if str_equal(s, "merge") {
        Some(DeltaOpKind::Merge)
    } else if str_equal(s, "move") {
        Some(DeltaOpKind::Move)
    } else if str_equal(s, "copy") {
        Some(DeltaOpKind::Copy)
    } else if str_equal(s, "clear") {
        Some(DeltaOpKind::Clear)
    } else {
        None
    }
}

fn tensor_from_json(o: &Vec<(String, JsonIn)>) -> (r: SxResult<SxValue>)
    ensures
        result_is(r, tensor_of(jv_entries(o@))),
    decreases o, 2nat,
{
    proof {
        lemma_key_at(jv_entries(o@), "shape"@);
        lemma_key_at(jv_entries(o@), "data"@);
    }
    let sh = match entry_index(o, "shape") {
        Some(i) => {
            proof {
                lemma_entry_lookup(o@, "shape"@, i as int);
            }
            match &o[i].1 {
                Json::Array(sh) => sh,
                _ => {
                    return Err(parse_error("tensor.shape missing"));
                },
            }
        },
        None => {
            return Err(parse_error("tensor.shape missing"));
        },
    };
    proof {
        lemma_jv_items(sh@);
    }
    let mut shape: Vec<usize> = Vec::new();
    let mut k: usize = 0;
    while k < sh.len()
        invariant
            k <= sh@.len(),
            shape@.len() == k,
            forall|m: int| 0 <= m < k ==> shape@[m] == u64_or_zero(jv(sh@[m])) as usize,
        decreases sh.len() - k,
    {
        shape.push(u64_or_zero_of(&sh[k]) as usize);
        k += 1;
    }
    assert(shape@ =~= usize_elems(jv_items(sh@)));
    match entry_index(o, "data") {
        Some(d) => {
            proof {
                lemma_jv_entries(o@);
            }
            assert(decreases_to!(o => o@[d as int].1));
            match json_to_sx(&o[d].1) {
                Ok(SxValue::TypedArray(t)) => Ok(
                    SxValue::Tensor(SxTensor { shape, data: t, layout: get_str(o, "layout") }),
                ),
                Ok(_) => Err(SxError::msg(SxErrorCode::TypeMismatch, "tensor data must be typed array")),
                Err(e) => Err(e),
            }
        },
        None => Err(parse_error("tensor.data missing")),
    }
}

fn op_from_json(j: &JsonIn) -> (r: SxResult<DeltaOp>)
    ensures
        match delta_op(jv(*j)) {
            Ok(op) => (r matches Ok(x) && dv_op(x) == op),
            Err(c) => (r matches Err(e) && e.code == c),
        },
    decreases j, 2nat,
{
    let m = match j {
        Json::Object(m) => m,
        _ => {
            return Err(parse_error("delta op must be object"));
        },
    };
    let ks = match get_str(m, "kind") {
        Some(k) => k,
        None => {
            return Err(parse_error("delta op kind missing"));
        },
    };
    let kind = match kind_from_text(ks.as_str()) {
        Some(k) => k,
        None => {
            return Err(SxError::new(SxErrorCode::ParseError, text3("unknown delta op '", ks.as_str(), "'")));
        },
    };
    let ps = match get_str(m, "path") {
        Some(p) => p,
        None => {
            return Err(parse_error("delta op path missing"));
        },
    };
    let path = match SxPath::parse(ps.as_str()) {
        Ok(p) => p,
        Err(e) => {
            return Err(e);
        },
    };
    let from = match get_str(m, "from") {
        Some(fs) => match SxPath::parse(fs.as_str()) {
            Ok(p) => Some(p),
            Err(e) => {
                return Err(e);
            },
        },
        None => None,
    };
    let index = match get_u64(m, "index") {
        Some(i) => Some(i as usize),
        None => None,
    };
    proof {
        lemma_key_at(jv_entries(m@), "value"@);
        lemma_jv_entries(m@);
    }
    let value = match entry_index(m, "value") {
        Some(k) => {
            assert(decreases_to!(j => m@[k as int].1));
            match json_to_sx(&m[k].1) {
                Ok(x) => Some(x),
                Err(e) => {
                    return Err(e);
                },
            }
        },
        None => None,
    };
    Ok(DeltaOp { kind, path, value, from, index })
}

fn ops_from_json(items: &Vec<JsonIn>) -> (r: SxResult<Vec<DeltaOp>>)
    ensures
        match delta_ops(jv_items(items@)) {
            Ok(ops) => (r matches Ok(x) && dv_ops(x@) == ops),
            Err(c) => (r matches Err(e) && e.code == c),
        },
    decreases items, 2nat,
{
    let ghost js = jv_items(items@);
    proof {
        lemma_jv_items(items@);
        assert(js.subrange(0, 0) =~= Seq::<JI>::empty());
    }
    let mut out: Vec<DeltaOp> = Vec::new();
    let mut i: usize = 0;
    while i < items.len()
        invariant
            i <= items@.len(),
            js == jv_items(items@),
            js.len() == items@.len(),
            forall|k: int| 0 <= k < items@.len() ==> #[trigger] js[k] == jv(items@[k]),
            delta_ops(js.subrange(0, i as int)) == Ok::<Seq<VOp>, SxErrorCode>(dv_ops(out@)),
        decreases items.len() - i,
    {
        proof {
            assert(js.subrange(0, i + 1).drop_last() =~= js.subrange(0, i as int));
            assert(js.subrange(0, i + 1).last() == js[i as int]);
        }
        assert(decreases_to!(items => items@[i as int]));
        match op_from_json(&items[i]) {
            Ok(op) => {
                let ghost before = out@;
                out.push(op);
                proof {
                    assert(out@.drop_last() =~= before);
                }
            },
            Err(e) => {
                proof {
                    lemma_ops_prefix(js, (i + 1) as nat, js.len());
                    assert(js.subrange(0, js.len() as int) =~= js);
                }
                return Err(e);
            },
        }
        i += 1;
    }
    proof {
        assert(js.subrange(0, i as int) =~= js);
    }
    Ok(out)
}

fn delta_from_json(o: &Vec<(String, JsonIn)>) -> (r: SxResult<SxValue>)
    ensures
        result_is(r, delta_of(jv_entries(o@))),
    decreases o, 2nat,
{
    let from_hash = get_str(o, "from_hash");
    proof {
        lemma_key_at(jv_entries(o@), "ops"@);
        lemma_jv_entries(o@);
    }
    match entry_index(o, "ops") {
        Some(k) => match &o[k].1 {
            Json::Array(items) => {
                assert(decreases_to!(o => o@[k as int].1));
                match ops_from_json(items) {
                    Ok(ops) => Ok(SxValue::Delta(DeltaDocument { from_hash, ops })),
                    Err(e) => Err(e),
                }
            },
            _ => Err(parse_error("delta.ops missing")),
        },
        None => Err(parse_error("delta.ops missing")),
    }
}

fn message_from_json(o: &Vec<(String, JsonIn)>) -> (r: SxResult<SxValue>)
    ensures
        result_is(r, message_of(jv_entries(o@))),
    decreases o, 2nat,
{
    proof {
        lemma_key_at(jv_entries(o@), "fields"@);
        lemma_key_at(jv_entries(o@), "payload"@);
        lemma_jv_entries(o@);
    }
    let fields = match entry_index(o, "fields") {
        Some(k) => match &o[k].1 {
            Json::Object(fo) => {
                assert(decreases_to!(o => o@[k as int].1));
                match map_from_json(fo) {
                    Ok(fs) => fs,
                    Err(e) => {
                        return Err(e);
                    },
                }
            },
            _ => {
                let e: Vec<(String, SxValue)> = Vec::new();
                assert(dv_fields(e@) =~= Seq::<(Seq<char>, V)>::empty());
                e
            },
        },
        None => {
            let e: Vec<(String, SxValue)> = Vec::new();
            assert(dv_fields(e@) =~= Seq::<(Seq<char>, V)>::empty());
            e
        },
    };
    let payload = match entry_index(o, "payload") {
        Some(k) => {
            assert(decreases_to!(o => o@[k as int].1));
            match json_to_sx(&o[k].1) {
                Ok(x) => Some(Box::new(x)),
                Err(e) => {
                    return Err(e);
                },
            }
        },
        None => None,
    };
    let sx_version = match get_u64(o, "sx_version") {
        Some(x) => x as u32,
        None => 1,
    };
    Ok(
        SxValue::Message(
            MessageEnvelope {
                sx_version,
                message_id: get_str(o, "message_id"),
                message_type: get_str(o, "type"),
                schema: get_str(o, "schema"),
                timestamp: get_str(o, "timestamp"),
                logical_hash: get_hex(o, "logical_hash"),
                fields,
                payload,
            },
        ),
    )
}

/// Reads a tagged object's payload as the value its tag names.
#[verifier::spinoff_prover]
fn parse_tagged(tag: &str, v: &JsonIn) -> (r: SxResult<SxValue>)
    ensures
        result_is(r, from_tagged(tag@, jv(*v))),
    decreases v, 2nat,
{
    if str_equal(tag, "uuid") {
        match v {
            Json::String(s) => match uuid_parse(s.as_str()) {
                Ok(b) => Ok(SxValue::Uuid(b)),
                Err(e) => Err(SxError::new(SxErrorCode::ParseError, text3("invalid uuid: ", e.as_str(), ""))),
            },
            _ => Err(parse_error("uuid must be string")),
        }
    } else if str_equal(tag, "timestamp") {
        Ok(SxValue::Timestamp(str_or_empty_of(v)))
    } else if str_equal(tag, "date") {
        Ok(SxValue::Date(str_or_empty_of(v)))
    } else if str_equal(tag, "duration") {
        Ok(SxValue::Duration(str_or_empty_of(v)))
    } else if str_equal(tag, "bytes") {
        match v {
            Json::String(s) => match base64_decode(s.as_str()) {
                Ok(b) => Ok(SxValue::Bytes(b)),
                Err(e) => Err(SxError::new(SxErrorCode::ParseError, text3("invalid base64 bytes: ", e.as_str(), ""))),
            },
            _ => Err(parse_error("bytes must be base64 string")),
        }
    } else if str_equal(tag, "decimal") {
        match v {
            Json::Object(o) => decimal_from_json(o),
            _ => Err(parse_error("decimal must be object")),
        }
    } else if str_equal(tag, "money") {
        match v {
            Json::Object(o) => money_from_json(o),
            _ => Err(parse_error("money must be object")),
        }
    } else if has_prefix(tag, "typed_array:") {
        match v {
            Json::Array(items) => typed_from_json(tag, items),
            _ => Err(parse_error("typed array value must be array")),
        }
    } else if str_equal(tag, "ref") {
        Ok(SxValue::Reference(ReferenceValue { target: str_or_empty_of(v) }))
    } else if str_equal(tag, "blob_ref") {
        match v {
            Json::Object(o) => blob_from_json(o),
            _ => Err(parse_error("blob_ref must be object")),
        }
    } else if str_equal(tag, "table") {
        match v {
            Json::Object(o) => match table_from_json(o) {
                Ok(columns) => Ok(SxValue::Table(SxTable { columns })),
                Err(e) => Err(e),
            },
            _ => Err(parse_error("table must be object")),
        }
    } else if str_equal(tag, "map") {
        match v {
            Json::Array(items) => match pairs_from_json(items) {
                Ok(ps) => Ok(SxValue::MapEntries(ps)),
                Err(e) => Err(e),
            },
            _ => Err(parse_error("map value must be array")),
        }
    } else if str_equal(tag, "tensor") {
        match v {
            Json::Object(o) => tensor_from_json(o),
            _ => Err(parse_error("tensor must be object")),
        }
    } else if str_equal(tag, "delta") {
        match v {
            Json::Object(o) => delta_from_json(o),
            _ => Err(parse_error("delta must be object")),
        }
    } else if str_equal(tag, "message") {
        match v {
            Json::Object(o) => message_from_json(o),
            _ => Err(parse_error("message must be object")),
        }
    } else {
        Err(SxError::new(SxErrorCode::UnsupportedFeature, text3("unknown tagged type '", tag, "'")))
    }
}

} // verus!

verus! {

// ---------------------------------------------------------------------------
// Reading back what was written
// ---------------------------------------------------------------------------

/// A number as it reads back after being written: an unsigned integer reads
/// as `u64` (and as `i64` when it fits), a signed one as `i64` (and as `u64`
/// when not negative), a float as neither.
pub open spec fn num_reads_as(n: JsonReadings, m: crate::json::JsonNum) -> bool {
    match m {
        crate::json::JsonNum::Unsigned(u) => n.as_u64 == Some(u) && n.as_i64 == (if u <= i64::MAX {
            Some(u as i64)
        } else {
            None
        }),
        crate::json::JsonNum::Signed(i) => n.as_i64 == Some(i) && n.as_u64 == (if i >= 0 {
            Some(i as u64)
        } else {
            None
        }),
        crate::json::JsonNum::Float(b) => n.as_i64 is None && n.as_u64 is None && n.as_f64 == Some(b),
        crate::json::JsonNum::Float32(_) => n.as_i64 is None && n.as_u64 is None && n.as_f64 is Some,
    }
}

/// `a` is written JSON `b` as it reads back: the same document, numbers
/// read as `num_reads_as` says.
pub open spec fn reads_as(a: JI, b: J<crate::json::JsonNum>) -> bool
    decreases a,
{
    match (a, b) {
        (J::Null, J::Null) => true,
        (J::Bool(x), J::Bool(y)) => x == y,
        (J::Num(n), J::Num(m)) => num_reads_as(n, m),
        (J::Str(x), J::Str(y)) => x == y,
        (J::Arr(xs), J::Arr(ys)) => reads_items(xs, ys),
        (J::Obj(xs), J::Obj(ys)) => reads_entries(xs, ys),
        _ => false,
    }
}

pub open spec fn reads_items(xs: Seq<JI>, ys: Seq<J<crate::json::JsonNum>>) -> bool
    decreases xs,
{
    xs.len() == ys.len() && (xs.len() == 0 || (reads_items(xs.drop_last(), ys.drop_last()) && reads_as(
        xs.last(),
        ys.last(),
    )))
}

pub open spec fn reads_entries(xs: Seq<(Seq<char>, JI)>, ys: Seq<(Seq<char>, J<crate::json::JsonNum>)>) -> bool
    decreases xs,
{
    xs.len() == ys.len() && (xs.len() == 0 || (reads_entries(xs.drop_last(), ys.drop_last()) && xs.last().0
        == ys.last().0 && reads_as(xs.last().1, ys.last().1)))
}

proof fn lemma_reads_items(xs: Seq<JI>, ys: Seq<J<crate::json::JsonNum>>)
    requires
        reads_items(xs, ys),
    ensures
        xs.len() == ys.len(),
        forall|i: int| 0 <= i < xs.len() ==> #[trigger] reads_as(xs[i], ys[i]),
    decreases xs.len(),
{
    if xs.len() > 0 {
        lemma_reads_items(xs.drop_last(), ys.drop_last());
        assert forall|i: int| 0 <= i < xs.len() implies #[trigger] reads_as(xs[i], ys[i]) by {
            if i < xs.len() - 1 {
                assert(xs.drop_last()[i] == xs[i] && ys.drop_last()[i] == ys[i]);
            } else {
                assert(xs.last() == xs[i] && ys.last() == ys[i]);
            }
        }
    }
}

proof fn lemma_reads_entries(xs: Seq<(Seq<char>, JI)>, ys: Seq<(Seq<char>, J<crate::json::JsonNum>)>)
    requires
        reads_entries(xs, ys),
    ensures
        xs.len() == ys.len(),
        forall|i: int| 0 <= i < xs.len() ==> (#[trigger] xs[i]).0 == ys[i].0,
        forall|i: int| 0 <= i < xs.len() ==> #[trigger] reads_as(xs[i].1, ys[i].1),
    decreases xs.len(),
{
    if xs.len() > 0 {
        lemma_reads_entries(xs.drop_last(), ys.drop_last());
        assert forall|i: int| 0 <= i < xs.len() implies (#[trigger] xs[i]).0 == ys[i].0 by {
            if i < xs.len() - 1 {
                assert(xs.drop_last()[i] == xs[i] && ys.drop_last()[i] == ys[i]);
            } else {
                assert(xs.last() == xs[i] && ys.last() == ys[i]);
            }
        }
        assert forall|i: int| 0 <= i < xs.len() implies #[trigger] reads_as(xs[i].1, ys[i].1) by {
            if i < xs.len() - 1 {
                assert(reads_as(xs.drop_last()[i].1, ys.drop_last()[i].1));
                assert(xs.drop_last()[i] == xs[i] && ys.drop_last()[i] == ys[i]);
            } else {
                assert(xs.last() == xs[i] && ys.last() == ys[i]);
            }
        }
    }
}

/// Values whose JSON form reads back as themselves without an outside
/// decoder: null, booleans, `i64`, `u64` above the `i64` range, strings,
/// timestamps, dates, durations, references, money, and arrays of these.
pub open spec fn plain(v: V) -> bool
    decreases v,
{
    match v {
        V::Null => true,
        V::Bool(_) => true,
        V::I64(_) => true,
        V::U64(x) => x > i64::MAX,
        V::String(_) => true,
        V::Timestamp(_) => true,
        V::Date(_) => true,
        V::Duration(_) => true,
        V::Reference(_) => true,
        V::Money(_, _, _) => true,
        V::Array(items) => plain_items(items),
        _ => false,
    }
}

pub open spec fn plain_items(items: Seq<V>) -> bool
    decreases items,
{
    items.len() == 0 || (plain_items(items.drop_last()) && plain(items.last()))
}

proof fn lemma_plain_items(items: Seq<V>)
    requires
        plain_items(items),
    ensures
        forall|i: int| 0 <= i < items.len() ==> #[trigger] plain(items[i]),
    decreases items.len(),
{
    if items.len() > 0 {
        lemma_plain_items(items.drop_last());
        assert forall|i: int| 0 <= i < items.len() implies #[trigger] plain(items[i]) by {
            if i < items.len() - 1 {
                assert(items.drop_last()[i] == items[i]);
            }
        }
    }
}

proof fn lemma_from_items_all(xs: Seq<JI>, vs: Seq<V>)
    requires
        xs.len() == vs.len(),
        forall|i: int| 0 <= i < xs.len() ==> #[trigger] from_json(xs[i]) == Ok::<V, SxErrorCode>(vs[i]),
    ensures
        from_items(xs) == Ok::<Seq<V>, SxErrorCode>(vs),
    decreases xs.len(),
{
    if xs.len() > 0 {
        let n = xs.len() - 1;
        assert(from_json(xs[n]) == Ok::<V, SxErrorCode>(vs[n]));
        assert(xs.last() == xs[n]);
        assert forall|i: int| 0 <= i < xs.drop_last().len() implies #[trigger] from_json(xs.drop_last()[i]) == Ok::<
            V,
            SxErrorCode,
        >(vs.drop_last()[i]) by {
            assert(xs.drop_last()[i] == xs[i]);
        }
        lemma_from_items_all(xs.drop_last(), vs.drop_last());
        assert(vs.drop_last().push(vs[n]) =~= vs);
    } else {
        assert(vs =~= Seq::<V>::empty());
    }
}

proof fn lemma_reads_str(a: JI, s: Seq<char>)
    requires
        reads_as(a, J::Str(s)),
    ensures
        a == J::<JsonReadings>::Str(s),
{
}

/// A tagged object as written reads back through its tag.
proof fn lemma_tagged_reads(j: JI, tag: Seq<char>, value: J<crate::json::JsonNum>)
    requires
        reads_as(j, crate::json::tagged(tag, value)),
    ensures
        j matches J::Obj(xs) && xs.len() == 2 && reads_as(xs[1].1, value) && from_json(j) == from_tagged(tag, xs[1].1),
{
    reveal_strlit("$type");
    reveal_strlit("$value");
    match j {
        J::Obj(xs) => {
            let ys = seq![("$type"@, J::<crate::json::JsonNum>::Str(tag)), ("$value"@, value)];
            lemma_reads_entries(xs, ys);
            assert(reads_as(xs[0].1, ys[0].1));
            assert(reads_as(xs[1].1, ys[1].1));
            assert(xs[0].0 == "$type"@ && xs[1].0 == "$value"@);
            assert(xs[0].1 == J::<JsonReadings>::Str(tag));
            assert(key_at(xs, "$type"@) == 0);
            assert(key_at(xs.drop_first(), "$value"@) == 0);
            assert(key_at(xs, "$value"@) == 1);
        },
        _ => {},
    }
}

/// What the tags of plain values read as.
proof fn lemma_simple_tags(v: JI)
    ensures
        from_tagged("timestamp"@, v) == Ok::<V, SxErrorCode>(V::Timestamp(str_or_empty(v))),
        from_tagged("date"@, v) == Ok::<V, SxErrorCode>(V::Date(str_or_empty(v))),
        from_tagged("duration"@, v) == Ok::<V, SxErrorCode>(V::Duration(str_or_empty(v))),
        from_tagged("ref"@, v) == Ok::<V, SxErrorCode>(V::Reference(str_or_empty(v))),
        from_tagged("money"@, v) == match v {
            J::Obj(o) => money_of(o),
            _ => Err(SxErrorCode::ParseError),
        },
{
    reveal_strlit("uuid");
    reveal_strlit("timestamp");
    reveal_strlit("date");
    reveal_strlit("duration");
    reveal_strlit("bytes");
    reveal_strlit("decimal");
    reveal_strlit("money");
    reveal_strlit("typed_array:");
    reveal_strlit("ref");
    assert("uuid"@.len() == 4);
    assert("timestamp"@.len() == 9);
    assert("date"@.len() == 4);
    assert("duration"@.len() == 8);
    assert("bytes"@.len() == 5);
    assert("decimal"@.len() == 7);
    assert("money"@.len() == 5);
    assert("typed_array:"@.len() == 12);
    assert("ref"@.len() == 3);
    assert("date"@[0] == 'd' && "uuid"@[0] == 'u');
    assert("timestamp"@ != "uuid"@);
    assert("date"@ != "uuid"@ && "date"@ != "timestamp"@);
    assert("duration"@ != "uuid"@ && "duration"@ != "timestamp"@ && "duration"@ != "date"@);
    assert("money"@ != "uuid"@ && "money"@ != "timestamp"@ && "money"@ != "date"@ && "money"@ != "duration"@);
    assert("money"@[0] == 'm' && "bytes"@[0] == 'b');
    assert("money"@ != "bytes"@ && "money"@ != "decimal"@);
    assert("ref"@ != "uuid"@ && "ref"@ != "timestamp"@ && "ref"@ != "date"@ && "ref"@ != "duration"@);
    assert("ref"@ != "bytes"@ && "ref"@ != "decimal"@ && "ref"@ != "money"@);
    assert(!"typed_array:"@.is_prefix_of("ref"@));
}

/// Writing a plain value as JSON and reading it back gives the value.
#[verifier::spinoff_prover]
#[verifier::rlimit(50)]
pub proof fn law_json_roundtrip(v: V, j: JI)
    requires
        plain(v),
        reads_as(j, crate::json::to_json(v)),
    ensures
        from_json(j) == Ok::<V, SxErrorCode>(v),
    decreases v,
{
    reveal_strlit("currency");
    reveal_strlit("scale");
    reveal_strlit("scaled");
    match j {
        J::Obj(xs) => if xs.len() >= 2 {
            lemma_simple_tags(xs[1].1);
        },
        _ => {},
    }
    match v {
        V::Timestamp(s) => {
            lemma_tagged_reads(j, "timestamp"@, J::Str(s));
            match j {
                J::Obj(xs) => lemma_reads_str(xs[1].1, s),
                _ => {},
            }
        },
        V::Date(s) => {
            lemma_tagged_reads(j, "date"@, J::Str(s));
            match j {
                J::Obj(xs) => lemma_reads_str(xs[1].1, s),
                _ => {},
            }
        },
        V::Duration(s) => {
            lemma_tagged_reads(j, "duration"@, J::Str(s));
            match j {
                J::Obj(xs) => lemma_reads_str(xs[1].1, s),
                _ => {},
            }
        },
        V::Reference(s) => {
            lemma_tagged_reads(j, "ref"@, J::Str(s));
            match j {
                J::Obj(xs) => lemma_reads_str(xs[1].1, s),
                _ => {},
            }
        },
        V::Money(cur, scaled, scale) => {
            let ys = seq![
                ("currency"@, J::<crate::json::JsonNum>::Str(cur)),
                ("scale"@, crate::json::unsigned(scale as u64)),
                ("scaled"@, crate::json::signed(scaled)),
            ];
            lemma_tagged_reads(j, "money"@, J::Obj(ys));
            match j {
                J::Obj(xs) => match xs[1].1 {
                    J::Obj(o) => {
                        lemma_reads_entries(o, ys);
                        assert(reads_as(o[0].1, ys[0].1));
                        assert(reads_as(o[1].1, ys[1].1));
                        assert(reads_as(o[2].1, ys[2].1));
                        assert(o[0].0 == "currency"@ && o[1].0 == "scale"@ && o[2].0 == "scaled"@);
                        assert(lookup(o, "currency"@) == Some(o[0].1));
                        assert(lookup(o.drop_first(), "scale"@) == Some(o[1].1));
                        assert(lookup(o, "scale"@) == Some(o[1].1));
                        assert("scale"@.len() == 5 && "scaled"@.len() == 6 && "currency"@.len() == 8);
                        assert("scale"@ != "scaled"@);
                        assert("currency"@ != "scaled"@);
                        assert("currency"@ != "scale"@);
                        assert(o.drop_first()[0] == o[1]);
                        assert(o.drop_first().drop_first()[0] == o[2]);
                        assert(lookup(o.drop_first().drop_first(), "scaled"@) == Some(o[2].1));
                        assert(lookup(o.drop_first(), "scaled"@) == Some(o[2].1));
                        assert(lookup(o, "scaled"@) == Some(o[2].1));
                    },
                    _ => {},
                },
                _ => {},
            }
        },
        V::Array(items) => {
            crate::json::lemma_to_json_items(items);
            match j {
                J::Arr(xs) => {
                    lemma_reads_items(xs, crate::json::to_json_items(items));
                    lemma_plain_items(items);
                    assert forall|i: int| 0 <= i < xs.len() implies #[trigger] from_json(xs[i]) == Ok::<
                        V,
                        SxErrorCode,
                    >(items[i]) by {
                        assert(reads_as(xs[i], crate::json::to_json_items(items)[i]));
                        assert(plain(items[i]));
                        law_json_roundtrip(items[i], xs[i]);
                    }
                    lemma_from_items_all(xs, items);
                },
                _ => {},
            }
        },
        _ => {},
    }
}


/// The text of a text-like value: a string, an enum name, a URL or an
/// email address.
pub open spec fn text_of(v: V) -> Option<Seq<char>> {
    match v {
        V::String(s) => Some(s),
        V::Enum(s) => Some(s),
        V::Url(s) => Some(s),
        V::Email(s) => Some(s),
        _ => None,
    }
}

/// A text-like value is written as the JSON of the string with its text,
/// and whatever reads as that JSON reads back as that string.
pub proof fn law_json_text_like(v: V, j: JI)
    requires
        text_of(v) is Some,
        reads_as(j, crate::json::to_json(v)),
    ensures
        crate::json::to_json(v) == crate::json::to_json(V::String(text_of(v)->Some_0)),
        crate::json::to_json(v) == J::<crate::json::JsonNum>::Str(text_of(v)->Some_0),
        from_json(j) == Ok::<V, SxErrorCode>(V::String(text_of(v)->Some_0)),
{
    lemma_reads_str(j, text_of(v)->Some_0);
}

} // verus!

