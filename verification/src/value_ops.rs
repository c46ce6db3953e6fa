//! Operations on the value model: type queries, object construction and
//! lookup, and deep copies.
use crate::error::{SxError, SxErrorCode, SxResult};
use crate::fields::{build_entries, has_key, insert_field, lemma_dv_fields, lemma_dv_vals, lookup, find_key};
use crate::keys::sorted_keys;
use crate::path::SxPath;
use crate::value::{dv, dv_column, dv_columns, dv_fields, dv_op, dv_ops, dv_pairs, dv_vals, DeltaOp, SxColumn, SxTable, SxType, SxTypedArray, SxTypedArrayType, SxValue, VColumn, VTyped, V};
use vstd::prelude::*;

verus! {

/// Logical type of a value view.
pub open spec fn spec_sx_type(v: V) -> SxType {
    match v {
        V::Null => SxType::Null,
        V::Bool(_) => SxType::Bool,
        V::U8(_) => SxType::U8,
        V::U16(_) => SxType::U16,
        V::U32(_) => SxType::U32,
        V::U64(_) => SxType::U64,
        V::I8(_) => SxType::I8,
        V::I16(_) => SxType::I16,
        V::I32(_) => SxType::I32,
        V::I64(_) => SxType::I64,
        V::F32(_) => SxType::F32,
        V::F64(_) => SxType::F64,
        V::Decimal(..) | V::Money(..) => SxType::Decimal,
        V::String(_) | V::Url(_) | V::Email(_) => SxType::String,
        V::Bytes(_) => SxType::Bytes,
        V::Array(_) => SxType::Array,
        V::Object(_) => SxType::Object,
        V::MapEntries(_) => SxType::MapEntries,
        V::Enum(_) => SxType::Enum,
        V::Uuid(_) => SxType::Uuid,
        V::Timestamp(_) => SxType::Timestamp,
        V::Date(_) => SxType::Date,
        V::Duration(_) => SxType::Duration,
        V::TypedArray(_) => SxType::TypedArray,
        V::Table(_) => SxType::Table,
        V::Tensor(..) => SxType::Tensor,
        V::Reference(_) => SxType::Reference,
        V::BlobRef(..) => SxType::BlobRef,
        V::Delta(..) => SxType::Delta,
        V::Message(_) => SxType::Message,
    }
}

/// Element kind of a typed-array view.
pub open spec fn spec_element_type(t: VTyped) -> SxTypedArrayType {
    match t {
        VTyped::U8(_) => SxTypedArrayType::U8,
        VTyped::I32(_) => SxTypedArrayType::I32,
        VTyped::F32(_) => SxTypedArrayType::F32,
        VTyped::F64(_) => SxTypedArrayType::F64,
        VTyped::Bool(_) => SxTypedArrayType::Bool,
    }
}

/// Number of elements of a typed-array view.
pub open spec fn typed_len(t: VTyped) -> nat {
    match t {
        VTyped::U8(v) => v.len(),
        VTyped::I32(v) => v.len(),
        VTyped::F32(v) => v.len(),
        VTyped::F64(v) => v.len(),
        VTyped::Bool(v) => v.len(),
    }
}

/// Number of rows of a column view.
pub open spec fn column_len(c: VColumn) -> nat {
    match c {
        VColumn::Typed(t) => typed_len(t),
        VColumn::Values(v) => v.len(),
    }
}

impl SxTypedArray {
    /// Returns the element type of the typed array.
    pub fn element_type(&self) -> (r: SxTypedArrayType)
        ensures
            r == spec_element_type(self.dv()),
    {
        match self {
            SxTypedArray::U8(_) => SxTypedArrayType::U8,
            SxTypedArray::I32(_) => SxTypedArrayType::I32,
            SxTypedArray::F32(_) => SxTypedArrayType::F32,
            SxTypedArray::F64(_) => SxTypedArrayType::F64,
            SxTypedArray::Bool(_) => SxTypedArrayType::Bool,
        }
    }

    /// Returns the number of elements.
    pub fn len(&self) -> (r: usize)
        ensures
            r == typed_len(self.dv()),
    {
        match self {
            SxTypedArray::U8(v) => v.len(),
            SxTypedArray::I32(v) => v.len(),
            SxTypedArray::F32(v) => v.len(),
            SxTypedArray::F64(v) => v.len(),
            SxTypedArray::Bool(v) => v.len(),
        }
    }

    /// Returns true when empty.
    pub fn is_empty(&self) -> (r: bool)
        ensures
            r == (typed_len(self.dv()) == 0),
    {
        self.len() == 0
    }

    /// Copies the typed array.
    pub fn copy_typed(&self) -> (r: SxTypedArray)
        ensures
            r.dv() == self.dv(),
    {
        match self {
            SxTypedArray::U8(v) => SxTypedArray::U8(v.clone()),
            SxTypedArray::I32(v) => SxTypedArray::I32(v.clone()),
            SxTypedArray::F32(v) => SxTypedArray::F32(v.clone()),
            SxTypedArray::F64(v) => SxTypedArray::F64(v.clone()),
            SxTypedArray::Bool(v) => SxTypedArray::Bool(v.clone()),
        }
    }
}

impl SxColumn {
    /// Number of rows in this column.
    pub fn len(&self) -> (r: usize)
        ensures
            r == column_len(dv_column(*self)),
    {
        match self {
            SxColumn::Typed(t) => t.len(),
            SxColumn::Values(v) => {
                proof {
                    lemma_dv_vals(v@);
                }
                v.len()
            },
        }
    }
}

impl SxTable {
    /// Row count inferred from the first column, or zero without columns.
    pub fn row_count(&self) -> (r: usize)
        ensures
            dv_columns(self.columns@).len() == 0 ==> r == 0,
            dv_columns(self.columns@).len() > 0 ==> r == column_len(dv_columns(self.columns@)[0].1),
    {
        proof {
            lemma_dv_columns(self.columns@);
        }
        if self.columns.len() == 0 {
            0
        } else {
            self.columns[0].1.len()
        }
    }
}

pub proof fn lemma_dv_columns(s: Seq<(String, SxColumn)>)
    ensures
        dv_columns(s).len() == s.len(),
        forall|i: int| 0 <= i < s.len() ==> #[trigger] dv_columns(s)[i] == (s[i].0@, dv_column(s[i].1)),
    decreases s.len(),
{
    if s.len() > 0 {
        lemma_dv_columns(s.drop_last());
    }
}

pub proof fn lemma_dv_pairs(s: Seq<(SxValue, SxValue)>)
    ensures
        dv_pairs(s).len() == s.len(),
        forall|i: int| 0 <= i < s.len() ==> #[trigger] dv_pairs(s)[i] == (dv(s[i].0), dv(s[i].1)),
    decreases s.len(),
{
    if s.len() > 0 {
        lemma_dv_pairs(s.drop_last());
    }
}

pub proof fn lemma_dv_ops(s: Seq<DeltaOp>)
    ensures
        dv_ops(s).len() == s.len(),
        forall|i: int| 0 <= i < s.len() ==> #[trigger] dv_ops(s)[i] == dv_op(s[i]),
    decreases s.len(),
{
    if s.len() > 0 {
        lemma_dv_ops(s.drop_last());
    }
}

/// `lookup` finds the first entry with the key.
pub proof fn lemma_lookup_first<T>(s: Seq<(Seq<char>, T)>, k: Seq<char>, i: int)
    requires
        0 <= i < s.len(),
        s[i].0 == k,
        forall|j: int| 0 <= j < i ==> (#[trigger] s[j]).0 != k,
    ensures
        lookup(s, k) == Some(s[i].1),
    decreases i,
{
    if i > 0 {
        let t = s.drop_first();
        assert forall|j: int| 0 <= j < i - 1 implies (#[trigger] t[j]).0 != k by {
            assert(t[j] == s[j + 1]);
        }
        lemma_lookup_first(t, k, i - 1);
    }
}

pub proof fn lemma_lookup_none<T>(s: Seq<(Seq<char>, T)>, k: Seq<char>)
    requires
        forall|j: int| 0 <= j < s.len() ==> (#[trigger] s[j]).0 != k,
    ensures
        lookup(s, k) is None,
        !has_key(s, k),
    decreases s.len(),
{
    if s.len() > 0 {
        let t = s.drop_first();
        assert forall|j: int| 0 <= j < t.len() implies (#[trigger] t[j]).0 != k by {
            assert(t[j] == s[j + 1]);
        }
        lemma_lookup_none(t, k);
    }
}

impl SxValue {
    /// Returns the logical type.
    pub fn sx_type(&self) -> (r: SxType)
        ensures
            r == spec_sx_type(dv(*self)),
    {
        match self {
            SxValue::Null => SxType::Null,
            SxValue::Bool(_) => SxType::Bool,
            SxValue::U8(_) => SxType::U8,
            SxValue::U16(_) => SxType::U16,
            SxValue::U32(_) => SxType::U32,
            SxValue::U64(_) => SxType::U64,
            SxValue::I8(_) => SxType::I8,
            SxValue::I16(_) => SxType::I16,
            SxValue::I32(_) => SxType::I32,
            SxValue::I64(_) => SxType::I64,
            SxValue::F32(_) => SxType::F32,
            SxValue::F64(_) => SxType::F64,
            SxValue::Decimal(_) | SxValue::Money(_) => SxType::Decimal,
            SxValue::String(_) | SxValue::Url(_) | SxValue::Email(_) => SxType::String,
            SxValue::Bytes(_) => SxType::Bytes,
            SxValue::Array(_) => SxType::Array,
            SxValue::Object(_) => SxType::Object,
            SxValue::MapEntries(_) => SxType::MapEntries,
            SxValue::Enum(_) => SxType::Enum,
            SxValue::Uuid(_) => SxType::Uuid,
            SxValue::Timestamp(_) => SxType::Timestamp,
            SxValue::Date(_) => SxType::Date,
            SxValue::Duration(_) => SxType::Duration,
            SxValue::TypedArray(_) => SxType::TypedArray,
            SxValue::Table(_) => SxType::Table,
            SxValue::Tensor(_) => SxType::Tensor,
            SxValue::Reference(_) => SxType::Reference,
            SxValue::BlobRef(_) => SxType::BlobRef,
            SxValue::Delta(_) => SxType::Delta,
            SxValue::Message(_) => SxType::Message,
        }
    }

    /// Builds an object from key/value pairs, rejecting a key that occurs
    /// twice.  Entries end up in ascending key order.
    pub fn object_from_pairs(pairs: Vec<(String, SxValue)>) -> (r: SxResult<SxValue>)
        ensures
            r is Ok <==> build_entries(dv_fields(pairs@)) is Some,
            r matches Ok(v) ==> dv(v) == V::Object(build_entries(dv_fields(pairs@)).unwrap()),
            r matches Err(e) ==> e.code == SxErrorCode::DuplicateKey,
    {
        let ghost all = dv_fields(pairs@);
        let mut rest = pairs;
        let mut out: Vec<(String, SxValue)> = Vec::new();
        let ghost mut done: int = 0;
        proof {
            lemma_dv_fields(rest@);
        }
        while rest.len() > 0
            invariant
                0 <= done <= all.len(),
                all == dv_fields(pairs@),
                all.len() == done + rest@.len(),
                forall|i: int| 0 <= i < rest@.len() ==> (#[trigger] rest@[i]).0@ == all[done + i].0 && dv(rest@[i].1) == all[done + i].1,
                build_entries(all.subrange(0, done)) == Some(dv_fields(out@)),
                sorted_keys(dv_fields(out@)),
            decreases rest.len(),
        {
            let (k, v) = rest.remove(0);
            proof {
                assert(all.subrange(0, done + 1).drop_last() =~= all.subrange(0, done));
                assert(all.subrange(0, done + 1).last() == all[done]);
            }
            match find_key(&out, k.as_str()) {
                Some(idx) => {
                    proof {
                        lemma_dv_fields(out@);
                        let j = idx as int;
                        assert(dv_fields(out@)[j].0 == all[done].0);
                        assert(has_key(dv_fields(out@), all[done].0));
                        assert(build_entries(all.subrange(0, done + 1)) is None);
                        lemma_build_none_extends(all, done + 1);
                        assert(all.subrange(0, all.len() as int) =~= all);
                    }
                    let mut msg = String::new();
                    msg.append("duplicate object key '");
                    msg.append(k.as_str());
                    msg.append("'");
                    return Err(SxError::new(SxErrorCode::DuplicateKey, msg));
                },
                None => {
                    proof {
                        lemma_dv_fields(out@);
                        assert forall|j: int| 0 <= j < out@.len() implies (#[trigger] dv_fields(out@)[j]).0 != k@ by {
                            assert(dv_fields(out@)[j].0 == out@[j].0@);
                        }
                        lemma_lookup_none(dv_fields(out@), k@);
                    }
                    insert_field(&mut out, k, v);
                },
            }
            proof {
                done = done + 1;
            }
        }
        assert(all.subrange(0, done) =~= all);
        Ok(SxValue::Object(out))
    }

    /// Gets a field of an object.
    pub fn get_field(&self, key: &str) -> (r: Option<&SxValue>)
        ensures
            r is Some <==> (dv(*self) matches V::Object(fs) && lookup(fs, key@) is Some),
            r matches Some(x) ==> dv(*self) matches V::Object(fs) && lookup(fs, key@) == Some(dv(*x)),
    {
        match self {
            SxValue::Object(fields) => {
                proof {
                    lemma_dv_fields(fields@);
                }
                match find_key(fields, key) {
                    Some(i) => {
                        proof {
                            let fs = dv_fields(fields@);
                            assert forall|j: int| 0 <= j < i implies (#[trigger] fs[j]).0 != key@ by {
                                assert(fs[j].0 == fields@[j].0@);
                            }
                            lemma_lookup_first(fs, key@, i as int);
                        }
                        Some(&fields[i].1)
                    },
                    None => {
                        proof {
                            let fs = dv_fields(fields@);
                            assert forall|j: int| 0 <= j < fs.len() implies (#[trigger] fs[j]).0 != key@ by {
                                assert(fs[j].0 == fields@[j].0@);
                            }
                            lemma_lookup_none(fs, key@);
                        }
                        None
                    },
                }
            },
            _ => None,
        }
    }

    /// Canonical object entries in ascending key order.
    pub fn canonical_object_entries(&self) -> (r: Option<Vec<(&String, &SxValue)>>)
        ensures
            r is Some <==> dv(*self) is Object,
            r matches Some(es) ==> dv(*self) matches V::Object(fs) && es@.len() == fs.len()
                && forall|i: int| 0 <= i < fs.len() ==> (#[trigger] es@[i]).0@ == fs[i].0 && dv(*es@[i].1) == fs[i].1,
    {
        match self {
            SxValue::Object(fields) => {
                proof {
                    lemma_dv_fields(fields@);
                }
                let mut out: Vec<(&String, &SxValue)> = Vec::new();
                let mut i: usize = 0;
                while i < fields.len()
                    invariant
                        i <= fields.len(),
                        out@.len() == i,
                        forall|j: int| 0 <= j < i ==> (#[trigger] out@[j]).0@ == fields@[j].0@ && dv(*out@[j].1) == dv(fields@[j].1),
                    decreases fields.len() - i,
                {
                    out.push((&fields[i].0, &fields[i].1));
                    i += 1;
                }
                Some(out)
            },
            _ => None,
        }
    }
}

/// Once building entries fails, it fails for every longer prefix.
pub proof fn lemma_build_none_extends<T>(all: Seq<(Seq<char>, T)>, n: int)
    requires
        0 <= n <= all.len(),
        build_entries(all.subrange(0, n)) is None,
    ensures
        build_entries(all.subrange(0, all.len() as int)) is None,
    decreases all.len() - n,
{
    if n < all.len() {
        assert(all.subrange(0, n + 1).drop_last() =~= all.subrange(0, n));
        lemma_build_none_extends(all, n + 1);
    }
}

} // verus!
