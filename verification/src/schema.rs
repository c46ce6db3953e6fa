//! Schemas: field definitions, validation of values, and the compatibility
//! of two schema versions.
use crate::copy::copy_value;
use crate::error::{SxError, SxErrorCode, SxResult};
use crate::fields::{find_key, lemma_dv_fields, lemma_dv_vals, lookup};
use crate::keys::str_equal;
use crate::path::{Seg, SxPath};
use crate::value::{dv, dv_fields, dv_vals, SxTypedArray, SxTypedArrayType, SxValue, V, VTyped};
use crate::value_ops::{lemma_lookup_first, lemma_lookup_none};
use vstd::prelude::*;

verus! {

/// Supported schema type references.
#[derive(Debug, PartialEq)]
pub enum SchemaType {
    Primitive(String),
    Array(Box<SchemaType>),
    TypedArray(SxTypedArrayType),
    Object(String),
    Enum(Vec<String>),
    Table(Vec<(String, SchemaType)>),
}

/// One schema field definition; `hints` are in ascending order.
#[derive(Debug, PartialEq)]
pub struct SchemaField {
    pub id: u32,
    pub name: String,
    pub ty: SchemaType,
    pub optional: bool,
    pub default: Option<SxValue>,
    pub hints: Vec<String>,
    pub renamed_from: Option<String>,
}

/// Parsed schema document.
#[derive(Debug, PartialEq)]
pub struct Schema {
    pub name: String,
    pub version: u32,
    pub fields: Vec<SchemaField>,
}

/// Compatibility result with migration plan.
#[derive(Debug, PartialEq)]
pub struct CompatibilityReport {
    pub compatible: bool,
    pub steps: Vec<MigrationStep>,
}

/// Migration steps of a compatibility plan.
#[derive(Debug, PartialEq)]
pub enum MigrationStep {
    CopyField { id: u32, name: String },
    RenameField { from: String, to: String },
    AddOptionalField { id: u32, name: String },
    AddDefaultField { id: u32, name: String, default: SxValue },
    IncompatibleChange { reason: String },
}

// ---------------------------------------------------------------------------
// Views
// ---------------------------------------------------------------------------

/// View of a schema type.
pub enum Ty {
    Primitive(Seq<char>),
    Array(Box<Ty>),
    TypedArray(SxTypedArrayType),
    Object(Seq<char>),
    Enum(Seq<Seq<char>>),
    Table(Seq<(Seq<char>, Ty)>),
}

pub open spec fn ty_view(t: SchemaType) -> Ty
    decreases t,
{
    match t {
        SchemaType::Primitive(p) => Ty::Primitive(p@),
        SchemaType::Array(inner) => Ty::Array(Box::new(ty_view(*inner))),
        SchemaType::TypedArray(e) => Ty::TypedArray(e),
        SchemaType::Object(n) => Ty::Object(n@),
        SchemaType::Enum(vals) => Ty::Enum(strs(vals@)),
        SchemaType::Table(cols) => Ty::Table(ty_entries(cols@)),
    }
}

pub open spec fn strs(s: Seq<String>) -> Seq<Seq<char>> {
    s.map_values(|x: String| x@)
}

pub open spec fn ty_entries(s: Seq<(String, SchemaType)>) -> Seq<(Seq<char>, Ty)>
    decreases s,
{
    if s.len() == 0 {
        Seq::empty()
    } else {
        ty_entries(s.drop_last()).push((s.last().0@, ty_view(s.last().1)))
    }
}

pub proof fn lemma_ty_entries(s: Seq<(String, SchemaType)>)
    ensures
        ty_entries(s).len() == s.len(),
        forall|i: int| 0 <= i < s.len() ==> #[trigger] ty_entries(s)[i] == (s[i].0@, ty_view(s[i].1)),
    decreases s.len(),
{
    if s.len() > 0 {
        lemma_ty_entries(s.drop_last());
    }
}

fn strings_equal(a: &Vec<String>, b: &Vec<String>) -> (r: bool)
    ensures
        r == (strs(a@) == strs(b@)),
{
    if a.len() != b.len() {
        assert(strs(a@).len() != strs(b@).len());
        return false;
    }
    let mut i: usize = 0;
    while i < a.len()
        invariant
            i <= a@.len(),
            a@.len() == b@.len(),
            forall|j: int| 0 <= j < i ==> a@[j]@ == b@[j]@,
        decreases a.len() - i,
    {
        if !str_equal(a[i].as_str(), b[i].as_str()) {
            assert(strs(a@)[i as int] != strs(b@)[i as int]);
            return false;
        }
        i += 1;
    }
    assert(strs(a@) =~= strs(b@));
    true
}

/// Structural equality of two schema types (table columns compared in
/// their stored order).
pub fn types_equal(a: &SchemaType, b: &SchemaType) -> (r: bool)
    ensures
        r == (ty_view(*a) == ty_view(*b)),
    decreases a,
{
    match (a, b) {
        (SchemaType::Primitive(x), SchemaType::Primitive(y)) => str_equal(x.as_str(), y.as_str()),
        (SchemaType::Array(x), SchemaType::Array(y)) => {
            assert(decreases_to!(a => **x));
            types_equal(x, y)
        },
        (SchemaType::TypedArray(x), SchemaType::TypedArray(y)) => *x == *y,
        (SchemaType::Object(x), SchemaType::Object(y)) => str_equal(x.as_str(), y.as_str()),
        (SchemaType::Enum(x), SchemaType::Enum(y)) => strings_equal(x, y),
        (SchemaType::Table(x), SchemaType::Table(y)) => {
            proof {
                lemma_ty_entries(x@);
                lemma_ty_entries(y@);
            }
            if x.len() != y.len() {
                assert(ty_entries(x@).len() != ty_entries(y@).len());
                return false;
            }
            let mut i: usize = 0;
            while i < x.len()
                invariant
                    i <= x@.len(),
                    x@.len() == y@.len(),
                    *a == SchemaType::Table(*x),
                    *b == SchemaType::Table(*y),
                    forall|j: int| 0 <= j < i ==> #[trigger] ty_entries(x@)[j] == ty_entries(y@)[j],
                    ty_entries(x@).len() == x@.len(),
                    ty_entries(y@).len() == y@.len(),
                    forall|j: int| 0 <= j < x@.len() ==> #[trigger] ty_entries(x@)[j] == (x@[j].0@, ty_view(x@[j].1)),
                    forall|j: int| 0 <= j < y@.len() ==> #[trigger] ty_entries(y@)[j] == (y@[j].0@, ty_view(y@[j].1)),
                decreases x.len() - i,
            {
                assert(ty_entries(x@)[i as int] == (x@[i as int].0@, ty_view(x@[i as int].1)));
                assert(ty_entries(y@)[i as int] == (y@[i as int].0@, ty_view(y@[i as int].1)));
                if !str_equal(x[i].0.as_str(), y[i].0.as_str()) {
                    assert(ty_entries(x@)[i as int] != ty_entries(y@)[i as int]);
                    return false;
                }
                assert(decreases_to!(a => x@[i as int].1));
                if !types_equal(&x[i].1, &y[i].1) {
                    assert(ty_entries(x@)[i as int] != ty_entries(y@)[i as int]);
                    return false;
                }
                i += 1;
            }
            assert(ty_entries(x@) =~= ty_entries(y@));
            true
        },
        _ => false,
    }
}

// ---------------------------------------------------------------------------
// Validation
// ---------------------------------------------------------------------------

/// True when a primitive type name admits the value; unknown names admit
/// everything, and the narrow integer names also admit a wide integer in
/// their range.
pub open spec fn primitive_ok(p: Seq<char>, v: V) -> bool {
    if p == "null"@ {
        v is Null
    } else if p == "bool"@ {
        v is Bool
    } else if p == "u8"@ {
        v is U8 || (v matches V::U64(x) && x <= u8::MAX)
    } else if p == "u16"@ {
        v is U16 || (v matches V::U64(x) && x <= u16::MAX)
    } else if p == "u32"@ {
        v is U32 || (v matches V::U64(x) && x <= u32::MAX)
    } else if p == "u64"@ {
        v is U64
    } else if p == "i8"@ {
        v is I8 || (v matches V::I64(x) && i8::MIN <= x <= i8::MAX)
    } else if p == "i16"@ {
        v is I16 || (v matches V::I64(x) && i16::MIN <= x <= i16::MAX)
    } else if p == "i32"@ {
        v is I32 || (v matches V::I64(x) && i32::MIN <= x <= i32::MAX)
    } else if p == "i64"@ {
        v is I64
    } else if p == "string"@ {
        v is String
    } else if p == "bytes"@ {
        v is Bytes
    } else if p == "uuid"@ {
        v is Uuid
    } else if p == "timestamp"@ {
        v is Timestamp
    } else if p == "date"@ {
        v is Date
    } else if p == "duration"@ {
        v is Duration
    } else if p == "decimal"@ {
        v is Decimal
    } else if p == "money"@ {
        v is Money
    } else if p == "object"@ {
        v is Object
    } else if p == "table"@ {
        v is Table
    } else {
        true
    }
}

/// True when the typed array has the element type.
pub open spec fn typed_kind_ok(e: SxTypedArrayType, v: V) -> bool {
    match (e, v) {
        (SxTypedArrayType::U8, V::TypedArray(VTyped::U8(_))) => true,
        (SxTypedArrayType::I32, V::TypedArray(VTyped::I32(_))) => true,
        (SxTypedArrayType::F32, V::TypedArray(VTyped::F32(_))) => true,
        (SxTypedArrayType::F64, V::TypedArray(VTyped::F64(_))) => true,
        (SxTypedArrayType::Bool, V::TypedArray(VTyped::Bool(_))) => true,
        _ => false,
    }
}

/// Checking a value against a type at path `p`: the code and path of the
/// first mismatch, array items checked in order.
pub open spec fn check(t: Ty, v: V, p: Seq<Seg>) -> Result<(), (SxErrorCode, Seq<Seg>)>
    decreases t, 1nat, 0nat,
{
    match t {
        Ty::Primitive(name) => if primitive_ok(name, v) {
            Ok(())
        } else {
            Err((SxErrorCode::TypeMismatch, p))
        },
        Ty::Array(_) => match v {
            V::Array(items) => check_items(t, items, p, items.len()),
            _ => Err((SxErrorCode::TypeMismatch, p)),
        },
        Ty::TypedArray(e) => if typed_kind_ok(e, v) {
            Ok(())
        } else {
            Err((SxErrorCode::TypeMismatch, p))
        },
        Ty::Object(_) => if v is Object {
            Ok(())
        } else {
            Err((SxErrorCode::TypeMismatch, p))
        },
        Ty::Enum(vals) => if (match v {
            V::Enum(s) => vals.contains(s),
            V::String(s) => vals.contains(s),
            _ => false,
        }) {
            Ok(())
        } else {
            Err((SxErrorCode::ValidationError, p))
        },
        Ty::Table(_) => if v is Table {
            Ok(())
        } else {
            Err((SxErrorCode::TypeMismatch, p))
        },
    }
}

/// Checking the first `n` items of an array against the item type of the
/// array type `t`.
pub open spec fn check_items(t: Ty, items: Seq<V>, p: Seq<Seg>, n: nat) -> Result<(), (SxErrorCode, Seq<Seg>)>
    decreases t, 0nat, n,
{
    if n == 0 || n > items.len() {
        Ok(())
    } else {
        match check_items(t, items, p, (n - 1) as nat) {
            Err(e) => Err(e),
            Ok(()) => match t {
                Ty::Array(inner) => check(*inner, items[n - 1], p.push(Seg::Index((n - 1) as usize))),
                _ => Ok(()),
            },
        }
    }
}

/// View of a field definition.
pub struct FieldV {
    pub id: u32,
    pub name: Seq<char>,
    pub ty: Ty,
    pub optional: bool,
    pub default: Option<V>,
}

pub open spec fn field_view(f: SchemaField) -> FieldV {
    FieldV {
        id: f.id,
        name: f.name@,
        ty: ty_view(f.ty),
        optional: f.optional,
        default: match f.default {
            Some(d) => Some(dv(d)),
            None => None,
        },
    }
}

pub open spec fn fields_view(fs: Seq<SchemaField>) -> Seq<FieldV> {
    fs.map_values(|f: SchemaField| field_view(f))
}

/// Checking the first `n` fields of a schema against the entries of an
/// object, in the schema's order: a present field must check, an absent one
/// must be optional or have a default.
pub open spec fn check_fields(fs: Seq<FieldV>, root: Seq<(Seq<char>, V)>, n: nat) -> Result<(), (SxErrorCode, Seq<Seg>)>
    decreases n,
{
    if n == 0 || n > fs.len() {
        Ok(())
    } else {
        match check_fields(fs, root, (n - 1) as nat) {
            Err(e) => Err(e),
            Ok(()) => {
                let f = fs[n - 1];
                match lookup(root, f.name) {
                    Some(v) => check(f.ty, v, seq![Seg::Key(f.name)]),
                    None => if f.optional || f.default is Some {
                        Ok(())
                    } else {
                        Err((SxErrorCode::RequiredFieldMissing, seq![Seg::Key(f.name)]))
                    },
                }
            },
        }
    }
}

fn primitive_matches(p: &str, value: &SxValue) -> (r: bool)
    ensures
        r == primitive_ok(p@, dv(*value)),
{
    if str_equal(p, "null") {
        matches!(value, SxValue::Null)
    } else if str_equal(p, "bool") {
        matches!(value, SxValue::Bool(_))
    } else if str_equal(p, "u8") {
        match value {
            SxValue::U8(_) => true,
            SxValue::U64(x) => *x <= 255,
            _ => false,
        }
    } else if str_equal(p, "u16") {
        match value {
            SxValue::U16(_) => true,
            SxValue::U64(x) => *x <= 65535,
            _ => false,
        }
    } else if str_equal(p, "u32") {
        match value {
            SxValue::U32(_) => true,
            SxValue::U64(x) => *x <= 0xffff_ffff,
            _ => false,
        }
    } else if str_equal(p, "u64") {
        matches!(value, SxValue::U64(_))
    } else if str_equal(p, "i8") {
        match value {
            SxValue::I8(_) => true,
            SxValue::I64(x) => -128 <= *x && *x <= 127,
            _ => false,
        }
    } else if str_equal(p, "i16") {
        match value {
            SxValue::I16(_) => true,
            SxValue::I64(x) => -32768 <= *x && *x <= 32767,
            _ => false,
        }
    } else if str_equal(p, "i32") {
        match value {
            SxValue::I32(_) => true,
            SxValue::I64(x) => -2147483648 <= *x && *x <= 2147483647,
            _ => false,
        }
    } else if str_equal(p, "i64") {
        matches!(value, SxValue::I64(_))
    } else if str_equal(p, "string") {
        matches!(value, SxValue::String(_))
    } else if str_equal(p, "bytes") {
        matches!(value, SxValue::Bytes(_))
    } else if str_equal(p, "uuid") {
        matches!(value, SxValue::Uuid(_))
    } else if str_equal(p, "timestamp") {
        matches!(value, SxValue::Timestamp(_))
    } else if str_equal(p, "date") {
        matches!(value, SxValue::Date(_))
    } else if str_equal(p, "duration") {
        matches!(value, SxValue::Duration(_))
    } else if str_equal(p, "decimal") {
        matches!(value, SxValue::Decimal(_))
    } else if str_equal(p, "money") {
        matches!(value, SxValue::Money(_))
    } else if str_equal(p, "object") {
        matches!(value, SxValue::Object(_))
    } else if str_equal(p, "table") {
        matches!(value, SxValue::Table(_))
    } else {
        true
    }
}

fn contains_str(vals: &Vec<String>, s: &String) -> (r: bool)
    ensures
        r == strs(vals@).contains(s@),
{
    let mut i: usize = 0;
    while i < vals.len()
        invariant
            i <= vals@.len(),
            forall|j: int| 0 <= j < i ==> vals@[j]@ != s@,
        decreases vals.len() - i,
    {
        if str_equal(vals[i].as_str(), s.as_str()) {
            assert(strs(vals@)[i as int] == s@);
            return true;
        }
        i += 1;
    }
    proof {
        if strs(vals@).contains(s@) {
            let j = choose|j: int| 0 <= j < strs(vals@).len() && strs(vals@)[j] == s@;
            assert(vals@[j]@ == s@);
        }
    }
    false
}

pub open spec fn check_error_matches(r: SxResult<()>, s: Result<(), (SxErrorCode, Seq<Seg>)>) -> bool {
    match s {
        Ok(()) => r is Ok,
        Err((c, p)) => (r matches Err(e) && e.code == c && (e.path matches Some(q) && q@ == p)),
    }
}

fn mismatch(code: SxErrorCode, message: &str, path: &SxPath) -> (r: SxResult<()>)
    ensures
        (r matches Err(e) && e.code == code && (e.path matches Some(q) && q@ == path@)),
{
    Err(SxError::msg(code, message).with_path(path.copy_path()))
}

/// Checks a value against a schema type at `path`.
pub fn validate_type(ty: &SchemaType, value: &SxValue, path: &SxPath) -> (r: SxResult<()>)
    ensures
        check_error_matches(r, check(ty_view(*ty), dv(*value), path@)),
    decreases ty, 1nat, 0nat,
{
    match ty {
        SchemaType::Primitive(p) => {
            assert(ty_view(*ty) == Ty::Primitive(p@));
            let ps = p.as_str();
            assert(ps@ == p@);
            if primitive_matches(ps, value) {
                assert(primitive_ok(p@, dv(*value)));
                assert(check(Ty::Primitive(p@), dv(*value), path@) is Ok);
                Ok(())
            } else {
                let mut m = "type mismatch at ".to_owned();
                let pt = path.to_text();
                m.append(pt.as_str());
                m.append(" expected ");
                m.append(p.as_str());
                assert(check(Ty::Primitive(p@), dv(*value), path@) == Err::<(), (SxErrorCode, Seq<Seg>)>((SxErrorCode::TypeMismatch, path@)));
                let e = SxError::new(SxErrorCode::TypeMismatch, m).with_path(path.copy_path());
                assert(e.code == SxErrorCode::TypeMismatch);
                Err(e)
            }
        },
        SchemaType::Array(_) => match value {
            SxValue::Array(items) => {
                proof {
                    lemma_dv_vals(items@);
                }
                validate_items(ty, items, path)
            },
            _ => mismatch(SxErrorCode::TypeMismatch, "expected array", path),
        },
        SchemaType::TypedArray(e) => {
            let ok = match (e, value) {
                (SxTypedArrayType::U8, SxValue::TypedArray(SxTypedArray::U8(_))) => true,
                (SxTypedArrayType::I32, SxValue::TypedArray(SxTypedArray::I32(_))) => true,
                (SxTypedArrayType::F32, SxValue::TypedArray(SxTypedArray::F32(_))) => true,
                (SxTypedArrayType::F64, SxValue::TypedArray(SxTypedArray::F64(_))) => true,
                (SxTypedArrayType::Bool, SxValue::TypedArray(SxTypedArray::Bool(_))) => true,
                _ => false,
            };
            if ok {
                Ok(())
            } else {
                mismatch(SxErrorCode::TypeMismatch, "typed-array mismatch", path)
            }
        },
        SchemaType::Object(_) => {
            if matches!(value, SxValue::Object(_)) {
                Ok(())
            } else {
                mismatch(SxErrorCode::TypeMismatch, "expected object", path)
            }
        },
        SchemaType::Enum(vals) => {
            let ok = match value {
                SxValue::Enum(s) => contains_str(vals, s),
                SxValue::String(s) => contains_str(vals, s),
                _ => false,
            };
            if ok {
                Ok(())
            } else {
                mismatch(SxErrorCode::ValidationError, "enum value out of range", path)
            }
        },
        SchemaType::Table(_) => {
            if matches!(value, SxValue::Table(_)) {
                Ok(())
            } else {
                mismatch(SxErrorCode::TypeMismatch, "expected table", path)
            }
        },
    }
}

/// Checks the items of an array against the item type of array type `ty`.
fn validate_items(ty: &SchemaType, items: &Vec<SxValue>, path: &SxPath) -> (r: SxResult<()>)
    requires
        ty is Array,
    ensures
        check_error_matches(r, check_items(ty_view(*ty), dv_vals(items@), path@, items@.len())),
    decreases ty, 0nat, items@.len() + 1,
{
    let ghost vs = dv_vals(items@);
    proof {
        lemma_dv_vals(items@);
    }
    let inner = match ty {
        SchemaType::Array(inner) => inner,
        _ => {
            return Ok(());
        },
    };
    let mut i: usize = 0;
    while i < items.len()
        invariant
            i <= items@.len(),
            vs == dv_vals(items@),
            vs.len() == items@.len(),
            forall|j: int| 0 <= j < vs.len() ==> #[trigger] vs[j] == dv(items@[j]),
            *ty == SchemaType::Array(*inner),
            check_items(ty_view(*ty), vs, path@, i as nat) is Ok,
        decreases items.len() - i,
    {
        let child = path.index(i);
        assert(decreases_to!(ty => **inner));
        match validate_type(inner, &items[i], &child) {
            Ok(()) => {
                proof {
                    assert(ty_view(*ty) == Ty::Array(Box::new(ty_view(**inner))));
                    assert(vs[i as int] == dv(items@[i as int]));
                    assert(check(ty_view(**inner), vs[i as int], path@.push(Seg::Index(i))) is Ok);
                    assert(check_items(ty_view(*ty), vs, path@, (i + 1) as nat) is Ok);
                }
            },
            Err(e) => {
                proof {
                    lemma_check_items_fail(ty_view(*ty), vs, path@, (i + 1) as nat, vs.len());
                }
                return Err(e);
            },
        }
        i += 1;
    }
    Ok(())
}

proof fn lemma_check_items_fail(t: Ty, items: Seq<V>, p: Seq<Seg>, n: nat, m: nat)
    requires
        0 < n <= m <= items.len(),
        check_items(t, items, p, n) is Err,
    ensures
        check_items(t, items, p, m) == check_items(t, items, p, n),
    decreases m - n,
{
    if n < m {
        lemma_check_items_fail(t, items, p, n, (m - 1) as nat);
    }
}

proof fn lemma_check_fields_fail(fs: Seq<FieldV>, root: Seq<(Seq<char>, V)>, n: nat, m: nat)
    requires
        0 < n <= m <= fs.len(),
        check_fields(fs, root, n) is Err,
    ensures
        check_fields(fs, root, m) == check_fields(fs, root, n),
    decreases m - n,
{
    if n < m {
        lemma_check_fields_fail(fs, root, n, (m - 1) as nat);
    }
}

/// Validates a value against a schema: the value must be an object, and
/// the schema's fields are checked in order.
pub fn validate(schema: &Schema, value: &SxValue) -> (r: SxResult<()>)
    ensures
        match dv(*value) {
            V::Object(root) => check_error_matches(
                r,
                check_fields(fields_view(schema.fields@), root, schema.fields@.len()),
            ),
            _ => (r matches Err(e) && e.code == SxErrorCode::TypeMismatch && e.path is None),
        },
{
    let root = match value {
        SxValue::Object(obj) => obj,
        _ => {
            return Err(SxError::msg(SxErrorCode::TypeMismatch, "root value must be object for schema validation"));
        },
    };
    let ghost rv = dv_fields(root@);
    let ghost fv = fields_view(schema.fields@);
    proof {
        lemma_dv_fields(root@);
        assert(dv(*value) == V::Object(rv));
    }
    let mut i: usize = 0;
    while i < schema.fields.len()
        invariant
            i <= schema.fields@.len(),
            rv == dv_fields(root@),
            rv.len() == root@.len(),
            forall|j: int| 0 <= j < rv.len() ==> #[trigger] rv[j] == (root@[j].0@, dv(root@[j].1)),
            fv == fields_view(schema.fields@),
            dv(*value) == V::Object(rv),
            check_fields(fv, rv, i as nat) is Ok,
        decreases schema.fields.len() - i,
    {
        let field = &schema.fields[i];
        let fpath = SxPath::root().key(field.name.as_str());
        proof {
            assert(fpath@ =~= seq![Seg::Key(field.name@)]);
            assert(fv[i as int] == field_view(*field));
        }
        match find_key(root, field.name.as_str()) {
            Some(j) => {
                proof {
                    assert forall|m: int| 0 <= m < j implies (#[trigger] rv[m]).0 != field.name@ by {
                        assert(rv[m].0 == root@[m].0@);
                    }
                    lemma_lookup_first(rv, field.name@, j as int);
                }
                match validate_type(&field.ty, &root[j].1, &fpath) {
                    Ok(()) => {},
                    Err(e) => {
                        proof {
                            assert(rv[j as int].1 == dv(root@[j as int].1));
                            assert(check_fields(fv, rv, (i + 1) as nat) == check(ty_view(field.ty), dv(root@[j as int].1), fpath@));
                            lemma_check_fields_fail(fv, rv, (i + 1) as nat, fv.len());
                        }
                        return Err(e);
                    },
                }
            },
            None => {
                proof {
                    assert forall|m: int| 0 <= m < rv.len() implies (#[trigger] rv[m]).0 != field.name@ by {
                        assert(rv[m].0 == root@[m].0@);
                    }
                    lemma_lookup_none(rv, field.name@);
                }
                if !(field.optional || field.default.is_some()) {
                    let mut m = "missing required field '".to_owned();
                    m.append(field.name.as_str());
                    m.append("'");
                    proof {
                        assert(check_fields(fv, rv, (i + 1) as nat) == Err::<(), (SxErrorCode, Seq<Seg>)>((SxErrorCode::RequiredFieldMissing, fpath@)));
                        lemma_check_fields_fail(fv, rv, (i + 1) as nat, fv.len());
                    }
                    return Err(SxError::new(SxErrorCode::RequiredFieldMissing, m).with_path(fpath));
                }
            },
        }
        i += 1;
    }
    Ok(())
}


// ---------------------------------------------------------------------------
// Integer types
// ---------------------------------------------------------------------------

/// The integer a value of an integer variant holds.
pub open spec fn int_value(v: V) -> Option<int> {
    match v {
        V::U8(x) => Some(x as int),
        V::U16(x) => Some(x as int),
        V::U32(x) => Some(x as int),
        V::U64(x) => Some(x as int),
        V::I8(x) => Some(x as int),
        V::I16(x) => Some(x as int),
        V::I32(x) => Some(x as int),
        V::I64(x) => Some(x as int),
        _ => None,
    }
}

/// The lowest and highest value of an integer type name, and whether it is
/// signed.
pub open spec fn int_bounds(p: Seq<char>) -> Option<(int, int, bool)> {
    if p == "u8"@ {
        Some((0, 255, false))
    } else if p == "u16"@ {
        Some((0, 65535, false))
    } else if p == "u32"@ {
        Some((0, 4294967295, false))
    } else if p == "u64"@ {
        Some((0, 18446744073709551615, false))
    } else if p == "i8"@ {
        Some((-128, 127, true))
    } else if p == "i16"@ {
        Some((-32768, 32767, true))
    } else if p == "i32"@ {
        Some((-2147483648, 2147483647, true))
    } else if p == "i64"@ {
        Some((-9223372036854775808, 9223372036854775807, true))
    } else {
        None
    }
}

proof fn lemma_type_names()
    ensures
        "u8"@.len() == 2 && "u8"@[0] == 'u' && "u8"@[1] == '8',
        "u16"@.len() == 3 && "u16"@[0] == 'u' && "u16"@[1] == '1',
        "u32"@.len() == 3 && "u32"@[0] == 'u' && "u32"@[1] == '3',
        "u64"@.len() == 3 && "u64"@[0] == 'u' && "u64"@[1] == '6',
        "i8"@.len() == 2 && "i8"@[0] == 'i' && "i8"@[1] == '8',
        "i16"@.len() == 3 && "i16"@[0] == 'i' && "i16"@[1] == '1',
        "i32"@.len() == 3 && "i32"@[0] == 'i' && "i32"@[1] == '3',
        "i64"@.len() == 3 && "i64"@[0] == 'i' && "i64"@[1] == '6',
        "null"@.len() == 4,
        "bool"@.len() == 4,
{
    reveal_strlit("u8");
    reveal_strlit("u16");
    reveal_strlit("u32");
    reveal_strlit("u64");
    reveal_strlit("i8");
    reveal_strlit("i16");
    reveal_strlit("i32");
    reveal_strlit("i64");
    reveal_strlit("null");
    reveal_strlit("bool");
}

/// The name of the integer type of a value's own variant.
pub open spec fn int_type_name(v: V) -> Option<Seq<char>> {
    match v {
        V::U8(_) => Some("u8"@),
        V::U16(_) => Some("u16"@),
        V::U32(_) => Some("u32"@),
        V::U64(_) => Some("u64"@),
        V::I8(_) => Some("i8"@),
        V::I16(_) => Some("i16"@),
        V::I32(_) => Some("i32"@),
        V::I64(_) => Some("i64"@),
        _ => None,
    }
}

/// A value that checks against an integer type holds an integer in that
/// type's range; an `I64` (for a signed type) or a `U64` (for an unsigned
/// one) in the range checks, and so does a value of the type's own variant.
pub proof fn law_integer_type_range(p: Seq<char>, v: V, path: Seq<Seg>)
    requires
        int_bounds(p) is Some,
    ensures
        check(Ty::Primitive(p), v, path) is Ok ==> (int_value(v) matches Some(x) && int_bounds(p)->Some_0.0 <= x
            <= int_bounds(p)->Some_0.1),
        (v matches V::I64(x) && int_bounds(p)->Some_0.2 && int_bounds(p)->Some_0.0 <= x <= int_bounds(p)->Some_0.1)
            ==> check(Ty::Primitive(p), v, path) is Ok,
        (v matches V::U64(x) && !int_bounds(p)->Some_0.2 && x <= int_bounds(p)->Some_0.1) ==> check(
            Ty::Primitive(p),
            v,
            path,
        ) is Ok,
        int_type_name(v) == Some(p) ==> check(Ty::Primitive(p), v, path) is Ok,
{
    lemma_type_names();
    assert(p.len() == 2 || p.len() == 3);
    assert(p != "null"@ && p != "bool"@);
    if p == "u8"@ {
    } else if p == "u16"@ {
        assert(p != "u8"@);
    } else if p == "u32"@ {
        assert(p != "u8"@ && p[1] != "u16"@[1]);
    } else if p == "u64"@ {
        assert(p != "u8"@ && p[1] != "u16"@[1] && p[1] != "u32"@[1]);
    } else if p == "i8"@ {
        assert(p[0] != "u8"@[0] && p[0] != "u16"@[0] && p[0] != "u32"@[0] && p[0] != "u64"@[0]);
    } else if p == "i16"@ {
        assert(p[0] != "u8"@[0] && p[0] != "u16"@[0] && p[0] != "u32"@[0] && p[0] != "u64"@[0]);
        assert(p != "i8"@);
    } else if p == "i32"@ {
        assert(p[0] != "u8"@[0] && p[0] != "u16"@[0] && p[0] != "u32"@[0] && p[0] != "u64"@[0]);
        assert(p != "i8"@ && p[1] != "i16"@[1]);
    } else {
        assert(p == "i64"@);
        assert(p[0] != "u8"@[0] && p[0] != "u16"@[0] && p[0] != "u32"@[0] && p[0] != "u64"@[0]);
        assert(p != "i8"@ && p[1] != "i16"@[1] && p[1] != "i32"@[1]);
    }
}

} // verus!
