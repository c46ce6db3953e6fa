//! Reading schema text whole: the header, then each field line, whose
//! default is SX text read by the text parser with the caller's float
//! readings.
use crate::chars::u64_to_decimal;
use crate::error::{SxError, SxErrorCode, SxResult};
use crate::parser::{located_message, readings_view, text_parse, try_parse_sx_text, Fail, FloatReading};
use crate::schema::{ty_view, Schema, SchemaField};
use crate::schema_text::{field_line_parts, field_parts, outline, FieldText};
use crate::value::SxValue;
use crate::schema::strs;
use crate::value::{dv, V};
use vstd::prelude::*;
use vstd::utf8::encode_utf8;

verus! {

/// What reading a default's text gives: its value, the located message of
/// the parser's diagnostic, or `None` when the parser stops (a float
/// literal without a reading, or a text too long to address).
pub open spec fn default_read(text: Seq<char>, rs: Seq<(Seq<char>, Result<(u64, u32), Seq<char>>)>) -> Option<
    Result<V, Seq<char>>,
> {
    if encode_utf8(text).len() >= usize::MAX {
        None
    } else {
        match text_parse(encode_utf8(text), rs) {
            Ok(v) => Some(Ok(v)),
            Err(Fail::At(d)) => Some(Err(located_message(d))),
            Err(Fail::Abort) => None,
        }
    }
}

/// What reading one field line gives: its parts with its default read, or
/// the message, or `None` when reading the default stops.
#[verifier::opaque]
pub open spec fn field_read(line: Seq<char>, rs: Seq<(Seq<char>, Result<(u64, u32), Seq<char>>)>) -> Option<
    Result<(FieldText, Option<V>), Seq<char>>,
> {
    match field_parts(line) {
        Err(m) => Some(Err(m)),
        Ok(t) => match t.default {
            None => Some(Ok((t, None))),
            Some(text) => match default_read(text, rs) {
                None => None,
                Some(Err(m)) => Some(Err(m)),
                Some(Ok(v)) => Some(Ok((t, Some(v)))),
            },
        },
    }
}

/// The fields of the lines `0 .. n`, or the first message, or `None` when
/// reading a default stops.
pub open spec fn fields_read(
    lines: Seq<Seq<char>>,
    rs: Seq<(Seq<char>, Result<(u64, u32), Seq<char>>)>,
    n: nat,
) -> Option<Result<Seq<(FieldText, Option<V>)>, Seq<char>>>
    decreases n,
{
    if n == 0 || n > lines.len() {
        Some(Ok(Seq::empty()))
    } else {
        match fields_read(lines, rs, (n - 1) as nat) {
            None => None,
            Some(Err(m)) => Some(Err(m)),
            Some(Ok(fs)) => match field_read(lines[n - 1], rs) {
                None => None,
                Some(Err(m)) => Some(Err(m)),
                Some(Ok(e)) => Some(Ok(fs.push(e))),
            },
        }
    }
}

/// What reading schema text gives: name, version and fields, or the first
/// message, or `None` when reading a default stops.
pub open spec fn schema_read(input: Seq<char>, rs: Seq<(Seq<char>, Result<(u64, u32), Seq<char>>)>) -> Option<
    Result<(Seq<char>, u32, Seq<(FieldText, Option<V>)>), Seq<char>>,
> {
    match outline(input) {
        Err(m) => Some(Err(m)),
        Ok((name, version, lines)) => match fields_read(lines, rs, lines.len()) {
            None => None,
            Some(Err(m)) => Some(Err(m)),
            Some(Ok(fs)) => Some(Ok((name, version, fs))),
        },
    }
}

pub open spec fn opt_dv(o: Option<crate::value::SxValue>) -> Option<V> {
    match o {
        Some(d) => Some(dv(d)),
        None => None,
    }
}

/// A schema field is the field a line and its default read give.
pub open spec fn field_is(f: SchemaField, e: (FieldText, Option<V>)) -> bool {
    &&& f.id == e.0.id
    &&& f.name@ == e.0.name
    &&& ty_view(f.ty) == e.0.ty
    &&& f.optional == e.0.optional
    &&& strs(f.hints@) == e.0.hints
    &&& f.renamed_from is None
    &&& match (f.default, e.1) {
        (Some(d), Some(v)) => dv(d) == v,
        (None, None) => true,
        _ => false,
    }
}

/// Reads one field line.
fn read_field(line: &str, readings: &Vec<FloatReading>) -> (r: Option<SxResult<SchemaField>>)
    ensures
        match field_read(line@, readings_view(readings@)) {
            None => r is None,
            Some(Err(m)) => (r matches Some(Err(e)) && e.code == SxErrorCode::ParseError && e.message@ == m),
            Some(Ok(e)) => (r matches Some(Ok(f)) && field_is(f, e)),
        },
{
    proof {
        reveal(field_read);
    }
    let parts = match field_line_parts(line) {
        Ok(p) => p,
        Err(e) => {
            return Some(Err(e));
        },
    };
    let default = match &parts.default_text {
        None => None,
        Some(text) => {
            if text.as_str().as_bytes().len() == usize::MAX {
                return None;
            }
            match try_parse_sx_text(text.as_str(), readings) {
                None => {
                    return None;
                },
                Some(Err(d)) => {
                    let mut m = d.message;
                    m.append(" at ");
                    m.append(u64_to_decimal(d.line as u64).as_str());
                    m.append(":");
                    m.append(u64_to_decimal(d.column as u64).as_str());
                    return Some(Err(SxError::new(SxErrorCode::ParseError, m)));
                },
                Some(Ok(v)) => Some(v),
            }
        },
    };
    Some(
        Ok(
            SchemaField {
                id: parts.id,
                name: parts.name,
                ty: parts.ty,
                optional: parts.optional,
                default,
                hints: parts.hints,
                renamed_from: None,
            },
        ),
    )
}

/// Parses schema text.  Each field's default is read with the float
/// readings `readings` (each number literal's text and what it reads as);
/// `None` when a default needs a reading that is not there.  Errors are
/// `ParseError`s.
pub fn parse_schema(input: &str, readings: &Vec<FloatReading>) -> (r: Option<SxResult<Schema>>)
    ensures
        match schema_read(input@, readings_view(readings@)) {
            None => r is None,
            Some(Err(m)) => (r matches Some(Err(e)) && e.code == SxErrorCode::ParseError && e.message@ == m),
            Some(Ok((name, version, fs))) => (r matches Some(Ok(s)) && s.name@ == name && s.version == version
                && s.fields@.len() == fs.len() && forall|i: int|
                0 <= i < fs.len() ==> field_is(#[trigger] s.fields@[i], fs[i])),
        },
{
    let ghost rs = readings_view(readings@);
    let (name, version, lines) = match crate::schema_text::schema_outline(input) {
        Ok(x) => x,
        Err(e) => {
            return Some(Err(e));
        },
    };
    let ghost ls = strs(lines@);
    let mut fields: Vec<SchemaField> = Vec::new();
    let mut i: usize = 0;
    let ghost acc: Seq<(FieldText, Option<V>)> = Seq::empty();
    while i < lines.len()
        invariant
            i <= lines@.len(),
            ls == strs(lines@),
            rs == readings_view(readings@),
            outline(input@) == Ok::<(Seq<char>, u32, Seq<Seq<char>>), Seq<char>>((name@, version, ls)),
            fields_read(ls, rs, i as nat) == Some(Ok::<Seq<(FieldText, Option<V>)>, Seq<char>>(acc)),
            fields@.len() == acc.len(),
            forall|j: int| 0 <= j < acc.len() ==> field_is(#[trigger] fields@[j], acc[j]),
        decreases lines.len() - i,
    {
        assert(ls[i as int] == lines@[i as int]@);
        match read_field(lines[i].as_str(), readings) {
            None => {
                proof {
                    lemma_fields_read_stays(ls, rs, (i + 1) as nat);
                }
                return None;
            },
            Some(Err(e)) => {
                proof {
                    lemma_fields_read_stays(ls, rs, (i + 1) as nat);
                }
                return Some(Err(e));
            },
            Some(Ok(f)) => {
                let ghost e = field_read(ls[i as int], rs)->Some_0->Ok_0;
                fields.push(f);
                proof {
                    acc = acc.push(e);
                }
            },
        }
        i += 1;
    }
    assert(lines@.len() == ls.len());
    Some(Ok(Schema { name, version, fields }))
}

/// Once reading stops or fails at a line, it stays so for more lines.
proof fn lemma_fields_read_stays(
    lines: Seq<Seq<char>>,
    rs: Seq<(Seq<char>, Result<(u64, u32), Seq<char>>)>,
    n: nat,
)
    requires
        0 < n <= lines.len(),
        !(fields_read(lines, rs, n) matches Some(Ok(_))),
    ensures
        fields_read(lines, rs, lines.len()) == fields_read(lines, rs, n),
    decreases lines.len() - n,
{
    if n < lines.len() {
        lemma_fields_read_stays(lines, rs, n + 1);
    }
}

} // verus!
