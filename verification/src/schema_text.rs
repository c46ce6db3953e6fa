//! Schema type names as written in schema text.
use crate::chars::string_push;
use crate::error::{SxError, SxErrorCode, SxResult};
use crate::keys::{key_lt, sorted_keys, sorted_str_keys, str_equal};
use crate::fields::{insert_entry, key_position, lemma_insert_at, lemma_insert_sorted};
use crate::parser::{first_index, is_white};
use crate::chars::{all_digits, digits_value};
use crate::parser::{slice_string, str_chars, trim, trim_bounds, trim_end, trim_start};
use crate::schema::{strs, ty_view, SchemaType, Ty};
use crate::value::SxTypedArrayType;
use crate::int_text::{lemma_parse_int_text, parse_int, parse_int_text};
use vstd::prelude::*;

verus! {

pub proof fn lemma_trim_len(s: Seq<char>)
    ensures
        trim(s).len() <= s.len(),
{
    lemma_trim_start_len(s);
    lemma_trim_end_len(trim_start(s));
}

pub proof fn lemma_trim_start_len(s: Seq<char>)
    ensures
        trim_start(s).len() <= s.len(),
    decreases s.len(),
{
    if s.len() > 0 {
        lemma_trim_start_len(s.drop_first());
    }
}

pub proof fn lemma_trim_end_len(s: Seq<char>)
    ensures
        trim_end(s).len() <= s.len(),
    decreases s.len(),
{
    if s.len() > 0 {
        lemma_trim_end_len(s.drop_last());
    }
}

/// `s` split at each `c`; always at least one piece.
pub open spec fn split_char(s: Seq<char>, c: char) -> Seq<Seq<char>>
    decreases s.len(),
{
    if s.len() == 0 {
        seq![Seq::empty()]
    } else {
        let prev = split_char(s.drop_last(), c);
        if s.last() == c {
            prev.push(Seq::empty())
        } else {
            prev.update(prev.len() - 1, prev.last().push(s.last()))
        }
    }
}

/// `s` without leading and trailing `"`.
pub open spec fn trim_quotes(s: Seq<char>) -> Seq<char>
    decreases s.len(),
{
    if s.len() > 0 && s[0] == '"' {
        trim_quotes(s.drop_first())
    } else if s.len() > 0 && s.last() == '"' {
        trim_quotes(s.drop_last())
    } else {
        s
    }
}

/// The element kind a typed array type names.
pub open spec fn element_of(n: Seq<char>) -> Option<SxTypedArrayType> {
    if n == "u8"@ {
        Some(SxTypedArrayType::U8)
    } else if n == "i32"@ {
        Some(SxTypedArrayType::I32)
    } else if n == "f32"@ {
        Some(SxTypedArrayType::F32)
    } else if n == "f64"@ {
        Some(SxTypedArrayType::F64)
    } else if n == "bool"@ {
        Some(SxTypedArrayType::Bool)
    } else {
        None
    }
}

/// The names of primitive types.
pub open spec fn primitive_name(n: Seq<char>) -> bool {
    n == "null"@ || n == "bool"@ || n == "u16"@ || n == "u32"@ || n == "u64"@ || n == "i8"@ || n == "i16"@
        || n == "i64"@ || n == "string"@ || n == "bytes"@ || n == "uuid"@ || n == "timestamp"@ || n == "date"@
        || n == "duration"@ || n == "decimal"@ || n == "money"@ || n == "object"@ || n == "table"@
}

/// `s` starts with `p` and, after it, has at least one more character, the
/// last being `c`.
pub open spec fn wrapped(s: Seq<char>, p: Seq<char>, c: char) -> bool {
    p.is_prefix_of(s) && s.len() > p.len() && s.last() == c
}

/// One enum value: trimmed of white space, then of quotes.
pub open spec fn enum_value(p: Seq<char>) -> Seq<char> {
    trim_quotes(trim(p))
}

pub open spec fn enum_values_of(ps: Seq<Seq<char>>) -> Seq<Seq<char>> {
    ps.map_values(|p: Seq<char>| enum_value(p))
}

/// The type a type text names: `typed<e>`, `T[]`, `enum[a, b]`, a primitive
/// name, else the name of an object type.
pub open spec fn spec_parse_type(t: Seq<char>) -> Result<Ty, Seq<char>>
    decreases t.len(),
{
    let s = trim(t);
    if wrapped(s, "typed<"@, '>') {
        let inner = s.subrange("typed<"@.len() as int, s.len() - 1);
        match element_of(inner) {
            Some(k) => Ok(Ty::TypedArray(k)),
            None => Err("unsupported typed array element '"@ + inner + "'"@),
        }
    } else if s.len() >= 2 && s[s.len() - 2] == '[' && s.last() == ']' {
        proof {
            lemma_trim_len(t);
        }
        match spec_parse_type(s.subrange(0, s.len() - 2)) {
            Ok(x) => Ok(Ty::Array(Box::new(x))),
            Err(m) => Err(m),
        }
    } else if wrapped(s, "enum["@, ']') {
        let inner = s.subrange("enum["@.len() as int, s.len() - 1);
        Ok(Ty::Enum(enum_values_of(split_char(inner, ','))))
    } else if primitive_name(s) {
        Ok(Ty::Primitive(s))
    } else {
        Ok(Ty::Object(s))
    }
}

fn chars_string(cs: &Vec<char>) -> (r: String)
    ensures
        r@ == cs@,
{
    let r = slice_string(cs, 0, cs.len());
    assert(cs@.subrange(0, cs@.len() as int) =~= cs@);
    r
}

fn starts_with_chars(cs: &Vec<char>, p: &str) -> (r: bool)
    ensures
        r == p@.is_prefix_of(cs@),
{
    let m = p.unicode_len();
    if m > cs.len() {
        return false;
    }
    let mut i: usize = 0;
    while i < m
        invariant
            i <= m <= cs@.len(),
            m == p@.len(),
            forall|j: int| 0 <= j < i ==> cs@[j] == p@[j],
        decreases m - i,
    {
        if cs[i] != p.get_char(i) {
            return false;
        }
        i += 1;
    }
    true
}

fn wrapped_exec(cs: &Vec<char>, p: &str, c: char) -> (r: bool)
    ensures
        r == wrapped(cs@, p@, c),
{
    starts_with_chars(cs, p) && cs.len() > p.unicode_len() && cs[cs.len() - 1] == c
}

/// The element kind a typed array type names.
fn element_exec(n: &str) -> (r: Option<SxTypedArrayType>)
    ensures
        r == element_of(n@),
{
    if str_equal(n, "u8") {
        Some(SxTypedArrayType::U8)
    } else if str_equal(n, "i32") {
        Some(SxTypedArrayType::I32)
    } else if str_equal(n, "f32") {
        Some(SxTypedArrayType::F32)
    } else if str_equal(n, "f64") {
        Some(SxTypedArrayType::F64)
    } else if str_equal(n, "bool") {
        Some(SxTypedArrayType::Bool)
    } else {
        None
    }
}

fn primitive_exec(n: &str) -> (r: bool)
    ensures
        r == primitive_name(n@),
{
    str_equal(n, "null") || str_equal(n, "bool") || str_equal(n, "u16") || str_equal(n, "u32") || str_equal(n, "u64")
        || str_equal(n, "i8") || str_equal(n, "i16") || str_equal(n, "i64") || str_equal(n, "string") || str_equal(
        n,
        "bytes",
    ) || str_equal(n, "uuid") || str_equal(n, "timestamp") || str_equal(n, "date") || str_equal(n, "duration")
        || str_equal(n, "decimal") || str_equal(n, "money") || str_equal(n, "object") || str_equal(n, "table")
}

/// `cs[a..b]` without leading and trailing `"`.
fn trim_quotes_exec(cs: &Vec<char>, a: usize, b: usize) -> (r: String)
    requires
        a <= b <= cs@.len(),
    ensures
        r@ == trim_quotes(cs@.subrange(a as int, b as int)),
    decreases b - a,
{
    if a < b && cs[a] == '"' {
        assert(cs@.subrange(a as int, b as int).drop_first() =~= cs@.subrange(a + 1, b as int));
        trim_quotes_exec(cs, a + 1, b)
    } else if a < b && cs[b - 1] == '"' {
        assert(cs@.subrange(a as int, b as int).drop_last() =~= cs@.subrange(a as int, b - 1));
        trim_quotes_exec(cs, a, b - 1)
    } else {
        slice_string(cs, a, b)
    }
}

/// The enum values of `cs`: split at `,`, each piece trimmed of white space
/// and then of quotes.
fn enum_values(cs: &Vec<char>) -> (r: Vec<String>)
    ensures
        strs(r@) == enum_values_of(split_char(cs@, ',')),
{
    let mut out: Vec<String> = Vec::new();
    let mut start: usize = 0;
    let mut i: usize = 0;
    assert(cs@.subrange(0, 0) =~= Seq::<char>::empty());
    assert(strs(out@) =~= enum_values_of(split_char(cs@.subrange(0, 0), ',').drop_last()));
    while i < cs.len()
        invariant
            start <= i <= cs@.len(),
            split_char(cs@.subrange(0, i as int), ',').len() >= 1,
            split_char(cs@.subrange(0, i as int), ',').last() == cs@.subrange(start as int, i as int),
            strs(out@) == enum_values_of(split_char(cs@.subrange(0, i as int), ',').drop_last()),
        decreases cs.len() - i,
    {
        let ghost prev = split_char(cs@.subrange(0, i as int), ',');
        assert(cs@.subrange(0, i + 1).drop_last() =~= cs@.subrange(0, i as int));
        if cs[i] == ',' {
            let v = enum_value_exec(cs, start, i);
            let ghost before = out@;
            out.push(v);
            proof {
                let next = split_char(cs@.subrange(0, i + 1), ',');
                assert(next == prev.push(Seq::empty()));
                assert(next.drop_last() =~= prev);
                assert(prev =~= prev.drop_last().push(prev.last()));
                assert(strs(out@) =~= strs(before).push(v@));
                assert(enum_values_of(prev) =~= enum_values_of(prev.drop_last()).push(enum_value(prev.last())));
            }
            start = i + 1;
            assert(cs@.subrange(start as int, i + 1) =~= Seq::<char>::empty());
        } else {
            proof {
                let next = split_char(cs@.subrange(0, i + 1), ',');
                assert(next == prev.update(prev.len() - 1, prev.last().push(cs@[i as int])));
                assert(next.drop_last() =~= prev.drop_last());
                assert(cs@.subrange(start as int, i + 1) =~= cs@.subrange(start as int, i as int).push(cs@[i as int]));
            }
        }
        i += 1;
    }
    let v = enum_value_exec(cs, start, i);
    let ghost before = out@;
    out.push(v);
    proof {
        let ps = split_char(cs@.subrange(0, i as int), ',');
        assert(cs@.subrange(0, i as int) =~= cs@);
        assert(ps =~= ps.drop_last().push(ps.last()));
        assert(strs(out@) =~= strs(before).push(v@));
        assert(enum_values_of(ps) =~= enum_values_of(ps.drop_last()).push(enum_value(ps.last())));
    }
    out
}

/// One enum value: `cs[a..b]` trimmed of white space, then of quotes.
fn enum_value_exec(cs: &Vec<char>, a: usize, b: usize) -> (r: String)
    requires
        a <= b <= cs@.len(),
    ensures
        r@ == enum_value(cs@.subrange(a as int, b as int)),
{
    let piece = slice_string(cs, a, b);
    let pc = str_chars(piece.as_str());
    let (x, y) = trim_bounds(&pc);
    trim_quotes_exec(&pc, x, y)
}

/// Parses a type text into a schema type.
pub fn parse_type(ty: &str) -> (r: SxResult<SchemaType>)
    ensures
        match spec_parse_type(ty@) {
            Ok(t) => (r matches Ok(x) && ty_view(x) == t),
            Err(m) => (r matches Err(e) && e.code == SxErrorCode::ParseError && e.message@ == m),
        },
    decreases ty@.len(),
{
    let cs0 = str_chars(ty);
    let (a, b) = trim_bounds(&cs0);
    let s = slice_string(&cs0, a, b);
    let cs = str_chars(s.as_str());
    let n = cs.len();
    proof {
        lemma_trim_len(ty@);
    }
    if wrapped_exec(&cs, "typed<", '>') {
        let inner = slice_string(&cs, "typed<".unicode_len(), n - 1);
        match element_exec(inner.as_str()) {
            Some(k) => Ok(SchemaType::TypedArray(k)),
            None => {
                let mut m = "unsupported typed array element '".to_owned();
                m.append(inner.as_str());
                m.append("'");
                Err(SxError::new(SxErrorCode::ParseError, m))
            },
        }
    } else if n >= 2 && cs[n - 2] == '[' && cs[n - 1] == ']' {
        let inner = slice_string(&cs, 0, n - 2);
        match parse_type(inner.as_str()) {
            Ok(x) => Ok(SchemaType::Array(Box::new(x))),
            Err(e) => Err(e),
        }
    } else if wrapped_exec(&cs, "enum[", ']') {
        let inner = str_chars(slice_string(&cs, "enum[".unicode_len(), n - 1).as_str());
        Ok(SchemaType::Enum(enum_values(&inner)))
    } else if primitive_exec(s.as_str()) {
        Ok(SchemaType::Primitive(s))
    } else {
        Ok(SchemaType::Object(s))
    }
}

// ---------------------------------------------------------------------------
// Schema documents
// ---------------------------------------------------------------------------

/// `\r\n` replaced by `\n`, from left to right.
pub open spec fn crlf(s: Seq<char>) -> Seq<char>
    decreases s.len(),
{
    if s.len() == 0 {
        s
    } else if s.len() >= 2 && s[0] == '\r' && s[1] == '\n' {
        seq!['\n'] + crlf(s.skip(2))
    } else {
        seq![s[0]] + crlf(s.drop_first())
    }
}

/// A line without one trailing `\r`.
pub open spec fn strip_cr(l: Seq<char>) -> Seq<char> {
    if l.len() > 0 && l.last() == '\r' {
        l.drop_last()
    } else {
        l
    }
}

pub open spec fn strip_crs(ls: Seq<Seq<char>>) -> Seq<Seq<char>> {
    ls.map_values(|l: Seq<char>| strip_cr(l))
}

/// `str::lines`: pieces between `\n`, none after a final `\n`, each
/// without a trailing `\r`.
pub open spec fn text_lines(s: Seq<char>) -> Seq<Seq<char>> {
    if s.len() == 0 {
        Seq::empty()
    } else if s.last() == '\n' {
        strip_crs(split_char(s.drop_last(), '\n'))
    } else {
        strip_crs(split_char(s, '\n'))
    }
}

/// The lines trimmed, without the empty ones.
pub open spec fn content_lines(ls: Seq<Seq<char>>) -> Seq<Seq<char>>
    decreases ls.len(),
{
    if ls.len() == 0 {
        Seq::empty()
    } else if trim(ls.last()).len() == 0 {
        content_lines(ls.drop_last())
    } else {
        content_lines(ls.drop_last()).push(trim(ls.last()))
    }
}

/// The lines before the first `}` line.
pub open spec fn body_lines(ls: Seq<Seq<char>>) -> Seq<Seq<char>>
    decreases ls.len(),
{
    if ls.len() == 0 || ls[0] == "}"@ {
        Seq::empty()
    } else {
        seq![ls[0]] + body_lines(ls.drop_first())
    }
}

/// `s` without trailing `c`s.
pub open spec fn trim_end_char(s: Seq<char>, c: char) -> Seq<char>
    decreases s.len(),
{
    if s.len() > 0 && s.last() == c {
        trim_end_char(s.drop_last(), c)
    } else {
        s
    }
}

/// `s` split at each white-space character.
pub open spec fn split_white(s: Seq<char>) -> Seq<Seq<char>>
    decreases s.len(),
{
    if s.len() == 0 {
        seq![Seq::empty()]
    } else {
        let prev = split_white(s.drop_last());
        if is_white(s.last()) {
            prev.push(Seq::empty())
        } else {
            prev.update(prev.len() - 1, prev.last().push(s.last()))
        }
    }
}

pub open spec fn non_empty(ps: Seq<Seq<char>>) -> Seq<Seq<char>>
    decreases ps.len(),
{
    if ps.len() == 0 {
        Seq::empty()
    } else if ps.last().len() == 0 {
        non_empty(ps.drop_last())
    } else {
        non_empty(ps.drop_last()).push(ps.last())
    }
}

/// `str::split_whitespace`.
pub open spec fn words(s: Seq<char>) -> Seq<Seq<char>> {
    non_empty(split_white(s))
}

/// What `u32::from_str` accepts: an optional `+`, then one or more digits
/// whose value fits in `u32`.
pub open spec fn spec_parse_u32(s: Seq<char>) -> Option<u32> {
    let d = if s.len() > 0 && s[0] == '+' { s.drop_first() } else { s };
    if d.len() > 0 && all_digits(d) && digits_value(d) <= u32::MAX {
        Some(digits_value(d) as u32)
    } else {
        None
    }
}

/// The message of the error `u32::from_str` gives for a text it refuses.
pub open spec fn u32_error_text(s: Seq<char>) -> Seq<char> {
    match parse_int_text(s, false, 0, u32::MAX as int) {
        Err(m) => m,
        Ok(_) => Seq::empty(),
    }
}

/// Parses a `u32` the way `u32::from_str` does: the value, or the error's
/// message.
fn parse_u32(s: &str) -> (r: Result<u32, String>)
    ensures
        match r {
            Ok(v) => spec_parse_u32(s@) == Some(v),
            Err(m) => spec_parse_u32(s@) is None && m@ == u32_error_text(s@),
        },
{
    proof {
        lemma_parse_int_text(s@, false, 0, u32::MAX as int);
    }
    match parse_int(s, false, 0, u32::MAX as i128) {
        Ok(v) => Ok(v as u32),
        Err(m) => Err(m),
    }
}

/// The name, version and field lines of schema text: the first non-empty
/// trimmed line is the header `schema Name [vN]`; the field lines follow
/// up to a `}` line.
pub open spec fn outline(input: Seq<char>) -> Result<(Seq<char>, u32, Seq<Seq<char>>), Seq<char>> {
    let cl = content_lines(text_lines(crlf(input)));
    if cl.len() == 0 {
        Err("schema text is empty"@)
    } else if !"schema "@.is_prefix_of(cl[0]) {
        Err("schema must start with 'schema'"@)
    } else {
        let parts = words(trim(trim_end_char(cl[0], '{')));
        if parts.len() < 2 {
            Err("schema header missing name"@)
        } else {
            let version: u32 = if parts.len() >= 3 && parts[2].len() > 0 && parts[2][0] == 'v' {
                match spec_parse_u32(parts[2].drop_first()) {
                    Some(v) => v,
                    None => 1,
                }
            } else {
                1
            };
            let body = body_lines(cl.drop_first());
            if body.len() == 0 {
                Err("schema has no fields"@)
            } else {
                Ok((parts[1], version, body))
            }
        }
    }
}

pub open spec fn lines_view(v: Seq<Vec<char>>) -> Seq<Seq<char>> {
    v.map_values(|l: Vec<char>| l@)
}

fn crlf_exec(cs: &Vec<char>) -> (r: Vec<char>)
    ensures
        r@ == crlf(cs@),
{
    let n = cs.len();
    let mut out: Vec<char> = Vec::new();
    let mut i: usize = 0;
    assert(cs@.skip(0) =~= cs@);
    while i < n
        invariant
            i <= n,
            n == cs@.len(),
            out@ + crlf(cs@.skip(i as int)) == crlf(cs@),
        decreases n - i,
    {
        let ghost rest = cs@.skip(i as int);
        if cs[i] == '\r' && i + 1 < n && cs[i + 1] == '\n' {
            out.push('\n');
            assert(rest.skip(2) =~= cs@.skip(i + 2));
            assert(out@ + crlf(cs@.skip(i + 2)) =~= (out@.drop_last() + crlf(rest)));
            i += 2;
        } else {
            out.push(cs[i]);
            assert(rest.drop_first() =~= cs@.skip(i + 1));
            assert(out@ + crlf(cs@.skip(i + 1)) =~= (out@.drop_last() + crlf(rest)));
            i += 1;
        }
    }
    assert(cs@.skip(n as int) =~= Seq::<char>::empty());
    assert(out@ + crlf(cs@.skip(n as int)) =~= out@);
    out
}

proof fn lemma_strip_crs_push(ps: Seq<Seq<char>>, x: Seq<char>)
    ensures
        strip_crs(ps.push(x)) == strip_crs(ps).push(strip_cr(x)),
{
    assert(strip_crs(ps.push(x)) =~= strip_crs(ps).push(strip_cr(x)));
}

/// `cs[a..b]` as a line: without a trailing `\r`, trimmed.
fn line_text(cs: &Vec<char>, a: usize, b: usize) -> (r: Vec<char>)
    requires
        a <= b <= cs@.len(),
    ensures
        r@ == trim(strip_cr(cs@.subrange(a as int, b as int))),
{
    let e = if b > a && cs[b - 1] == '\r' { b - 1 } else { b };
    assert(strip_cr(cs@.subrange(a as int, b as int)) =~= cs@.subrange(a as int, e as int));
    let seg = str_chars(slice_string(cs, a, e).as_str());
    let (x, y) = trim_bounds(&seg);
    str_chars(slice_string(&seg, x, y).as_str())
}

/// The non-empty trimmed lines of `cs`.
fn content_exec(cs: &Vec<char>) -> (r: Vec<Vec<char>>)
    ensures
        lines_view(r@) == content_lines(text_lines(cs@)),
{
    let n = cs.len();
    let mut out: Vec<Vec<char>> = Vec::new();
    if n == 0 {
        assert(lines_view(out@) =~= content_lines(text_lines(cs@)));
        return out;
    }
    let mut start: usize = 0;
    let mut i: usize = 0;
    assert(cs@.subrange(0, 0) =~= Seq::<char>::empty());
    assert(lines_view(out@) =~= content_lines(strip_crs(split_char(cs@.subrange(0, 0), '\n').drop_last())));
    while i < n
        invariant
            start <= i <= n,
            n == cs@.len(),
            split_char(cs@.subrange(0, i as int), '\n').len() >= 1,
            split_char(cs@.subrange(0, i as int), '\n').last() == cs@.subrange(start as int, i as int),
            lines_view(out@) == content_lines(strip_crs(split_char(cs@.subrange(0, i as int), '\n').drop_last())),
        decreases n - i,
    {
        let ghost prev = split_char(cs@.subrange(0, i as int), '\n');
        assert(cs@.subrange(0, i + 1).drop_last() =~= cs@.subrange(0, i as int));
        if cs[i] == '\n' {
            let l = line_text(cs, start, i);
            let ghost before = out@;
            proof {
                let next = split_char(cs@.subrange(0, i + 1), '\n');
                assert(next.drop_last() =~= prev);
                assert(prev =~= prev.drop_last().push(prev.last()));
                lemma_strip_crs_push(prev.drop_last(), prev.last());
                let a = strip_crs(prev.drop_last());
                assert(a.push(strip_cr(prev.last())).drop_last() =~= a);
            }
            if l.len() > 0 {
                out.push(l);
                assert(lines_view(out@) =~= lines_view(before).push(l@));
            }
            start = i + 1;
            assert(cs@.subrange(start as int, i + 1) =~= Seq::<char>::empty());
        } else {
            proof {
                let next = split_char(cs@.subrange(0, i + 1), '\n');
                assert(next.drop_last() =~= prev.drop_last());
                assert(cs@.subrange(start as int, i + 1) =~= cs@.subrange(start as int, i as int).push(cs@[i as int]));
            }
        }
        i += 1;
    }
    assert(cs@.subrange(0, n as int) =~= cs@);
    if cs[n - 1] != '\n' {
        let l = line_text(cs, start, n);
        let ghost before = out@;
        proof {
            let ps = split_char(cs@, '\n');
            assert(ps =~= ps.drop_last().push(ps.last()));
            lemma_strip_crs_push(ps.drop_last(), ps.last());
            let a = strip_crs(ps.drop_last());
            assert(a.push(strip_cr(ps.last())).drop_last() =~= a);
        }
        if l.len() > 0 {
            out.push(l);
            assert(lines_view(out@) =~= lines_view(before).push(l@));
        }
    } else {
        proof {
            let ps = split_char(cs@, '\n');
            assert(cs@.drop_last() =~= cs@.subrange(0, n - 1));
            assert(ps.drop_last() == split_char(cs@.drop_last(), '\n'));
        }
    }
    out
}

/// The words of `cs`: pieces between white space, none empty.
fn words_exec(cs: &Vec<char>) -> (r: Vec<String>)
    ensures
        strs(r@) == words(cs@),
{
    let n = cs.len();
    let mut out: Vec<String> = Vec::new();
    let mut start: usize = 0;
    let mut i: usize = 0;
    assert(cs@.subrange(0, 0) =~= Seq::<char>::empty());
    assert(strs(out@) =~= non_empty(split_white(cs@.subrange(0, 0)).drop_last()));
    while i < n
        invariant
            start <= i <= n,
            n == cs@.len(),
            split_white(cs@.subrange(0, i as int)).len() >= 1,
            split_white(cs@.subrange(0, i as int)).last() == cs@.subrange(start as int, i as int),
            strs(out@) == non_empty(split_white(cs@.subrange(0, i as int)).drop_last()),
        decreases n - i,
    {
        let ghost prev = split_white(cs@.subrange(0, i as int));
        assert(cs@.subrange(0, i + 1).drop_last() =~= cs@.subrange(0, i as int));
        if crate::parser::is_white_char(cs[i]) {
            let ghost before = out@;
            proof {
                let next = split_white(cs@.subrange(0, i + 1));
                assert(next.drop_last() =~= prev);
                assert(prev =~= prev.drop_last().push(prev.last()));
            }
            if i > start {
                let w = slice_string(cs, start, i);
                out.push(w);
                assert(strs(out@) =~= strs(before).push(w@));
            }
            start = i + 1;
            assert(cs@.subrange(start as int, i + 1) =~= Seq::<char>::empty());
        } else {
            proof {
                let next = split_white(cs@.subrange(0, i + 1));
                assert(next.drop_last() =~= prev.drop_last());
                assert(cs@.subrange(start as int, i + 1) =~= cs@.subrange(start as int, i as int).push(cs@[i as int]));
            }
        }
        i += 1;
    }
    assert(cs@.subrange(0, n as int) =~= cs@);
    let ghost ps = split_white(cs@);
    assert(ps =~= ps.drop_last().push(ps.last()));
    if n > start {
        let w = slice_string(cs, start, n);
        let ghost before = out@;
        out.push(w);
        assert(strs(out@) =~= strs(before).push(w@));
    }
    out
}

fn trim_end_char_exec(cs: &Vec<char>, c: char) -> (r: Vec<char>)
    ensures
        r@ == trim_end_char(cs@, c),
{
    let mut e: usize = cs.len();
    assert(cs@.subrange(0, e as int) =~= cs@);
    while e > 0 && cs[e - 1] == c
        invariant
            e <= cs@.len(),
            trim_end_char(cs@, c) == trim_end_char(cs@.subrange(0, e as int), c),
        decreases e,
    {
        assert(cs@.subrange(0, e as int).drop_last() =~= cs@.subrange(0, e - 1));
        e -= 1;
    }
    str_chars(slice_string(cs, 0, e).as_str())
}

fn chars_equal(cs: &Vec<char>, s: &str) -> (r: bool)
    ensures
        r == (cs@ == s@),
{
    str_equal(chars_string(cs).as_str(), s)
}

/// The name, version and field lines of schema text.
pub fn schema_outline(input: &str) -> (r: SxResult<(String, u32, Vec<String>)>)
    ensures
        match outline(input@) {
            Ok((name, version, body)) => (r matches Ok((n, v, b)) && n@ == name && v == version && strs(b@) == body),
            Err(m) => (r matches Err(e) && e.code == SxErrorCode::ParseError && e.message@ == m),
        },
{
    let cs = crlf_exec(&str_chars(input));
    let cl = content_exec(&cs);
    let ghost cv = lines_view(cl@);
    if cl.len() == 0 {
        return Err(SxError::msg(SxErrorCode::ParseError, "schema text is empty"));
    }
    assert(cv[0] == cl@[0]@);
    if !starts_with_chars(&cl[0], "schema ") {
        return Err(SxError::msg(SxErrorCode::ParseError, "schema must start with 'schema'"));
    }
    let h1 = trim_end_char_exec(&cl[0], '{');
    let (a, b) = trim_bounds(&h1);
    let h2 = str_chars(slice_string(&h1, a, b).as_str());
    let parts = words_exec(&h2);
    if parts.len() < 2 {
        return Err(SxError::msg(SxErrorCode::ParseError, "schema header missing name"));
    }
    let version: u32 = if parts.len() >= 3 {
        let p2 = str_chars(parts[2].as_str());
        if p2.len() > 0 && p2[0] == 'v' {
            let rest = slice_string(&p2, 1, p2.len());
            assert(rest@ =~= parts@[2]@.drop_first());
            match parse_u32(rest.as_str()) {
                Ok(v) => v,
                Err(_) => 1,
            }
        } else {
            1
        }
    } else {
        1
    };
    let mut body: Vec<String> = Vec::new();
    let mut k: usize = 1;
    assert(cv.drop_first().skip(0) =~= cv.drop_first());
    assert(strs(body@) + body_lines(cv.drop_first().skip(0)) =~= body_lines(cv.drop_first()));
    let ghost ws = words(trim(trim_end_char(cv[0], '{')));
    assert(strs(parts@) == ws);
    let ghost vs: u32 = if ws.len() >= 3 && ws[2].len() > 0 && ws[2][0] == 'v' {
        match spec_parse_u32(ws[2].drop_first()) {
            Some(v) => v,
            None => 1,
        }
    } else {
        1
    };
    assert(version == vs);
    loop
        invariant
            1 <= k <= cl@.len(),
            cv == lines_view(cl@),
            cv.len() == cl@.len(),
            cv == content_lines(text_lines(crlf(input@))),
            "schema "@.is_prefix_of(cv[0]),
            strs(parts@) == ws,
            ws == words(trim(trim_end_char(cv[0], '{'))),
            parts@.len() >= 2,
            version == vs,
            strs(body@) + body_lines(cv.skip(k as int)) == body_lines(cv.drop_first()),
        ensures
            cv == content_lines(text_lines(crlf(input@))),
            "schema "@.is_prefix_of(cv[0]),
            strs(parts@) == ws,
            ws == words(trim(trim_end_char(cv[0], '{'))),
            parts@.len() >= 2,
            version == vs,
            strs(body@) == body_lines(cv.drop_first()),
        decreases cl@.len() - k,
    {
        if k == cl.len() {
            assert(cv.skip(k as int) =~= Seq::<Seq<char>>::empty());
            assert(strs(body@) =~= body_lines(cv.drop_first()));
            break;
        }
        assert(cv.skip(k as int)[0] == cl@[k as int]@);
        if chars_equal(&cl[k], "}") {
            assert(strs(body@) =~= body_lines(cv.drop_first()));
            break;
        }
        let ghost before = body@;
        body.push(chars_string(&cl[k]));
        assert(cv.skip(k as int).drop_first() =~= cv.skip(k + 1));
        assert(strs(body@) =~= strs(before).push(cl@[k as int]@));
        assert(strs(body@) + body_lines(cv.skip(k + 1)) =~= strs(before) + body_lines(cv.skip(k as int)));
        k += 1;
    }
    if body.len() == 0 {
        return Err(SxError::msg(SxErrorCode::ParseError, "schema has no fields"));
    }
    Ok((chars_string(&str_chars(parts[1].as_str())), version, body))
}

// ---------------------------------------------------------------------------
// Field lines
// ---------------------------------------------------------------------------

/// The first index from `i` on whose character is white space, else the
/// length.
pub open spec fn next_white(s: Seq<char>, i: int) -> int
    decreases s.len() - i,
{
    if i < 0 || i >= s.len() {
        s.len() as int
    } else if is_white(s[i]) {
        i
    } else {
        next_white(s, i + 1)
    }
}

/// The first index from `i` on whose character is not white space, else
/// the length.
pub open spec fn skip_white(s: Seq<char>, i: int) -> int
    decreases s.len() - i,
{
    if i < 0 || i >= s.len() {
        s.len() as int
    } else if is_white(s[i]) {
        skip_white(s, i + 1)
    } else {
        i
    }
}

/// The `@hint` words that open a line, from index `i`: each is `@` and the
/// text up to the next white-space character, which is skipped.  The hints
/// and where the rest of the line starts.
pub open spec fn hints_from(s: Seq<char>, i: int, acc: Seq<Seq<char>>) -> (Seq<Seq<char>>, int)
    decreases s.len() - i,
{
    let q = skip_white(s, i);
    if 0 <= i && i <= q && q < s.len() && s[q] == '@' {
        let w = next_white(s, q + 1);
        if q + 1 <= w && w < s.len() {
            hints_from(s, w + 1, acc.push(s.subrange(q + 1, w)))
        } else {
            (acc.push(s.subrange(q + 1, s.len() as int)), s.len() as int)
        }
    } else {
        (acc, q)
    }
}

/// The hint names as a sorted set.
pub open spec fn hint_set(hs: Seq<Seq<char>>) -> Seq<(Seq<char>, ())>
    decreases hs.len(),
{
    if hs.len() == 0 {
        Seq::empty()
    } else {
        insert_entry(hint_set(hs.drop_last()), hs.last(), ())
    }
}

pub open spec fn set_keys(s: Seq<(Seq<char>, ())>) -> Seq<Seq<char>> {
    s.map_values(|e: (Seq<char>, ())| e.0)
}

/// The parts of a field line.
pub struct FieldText {
    pub id: u32,
    pub name: Seq<char>,
    pub ty: Ty,
    pub optional: bool,
    pub default: Option<Seq<char>>,
    pub hints: Seq<Seq<char>>,
}

/// A field line: `[@hint ...] #id name[?]: type [= default]`, with a
/// trailing comma ignored; the hints sorted without repeats.
pub open spec fn field_parts(line: Seq<char>) -> Result<FieldText, Seq<char>> {
    let l2 = trim(trim_end_char(line, ','));
    let (hs, q) = hints_from(l2, 0, Seq::empty());
    let l = trim(l2.subrange(q, l2.len() as int));
    if !(l.len() > 0 && l[0] == '#') {
        Err("field line must start with '#': "@ + l)
    } else {
        let after = l.drop_first();
        let k = next_white(after, 0);
        if k >= after.len() {
            Err("field id missing"@)
        } else {
            match spec_parse_u32(after.subrange(0, k)) {
                None => Err("invalid field id: "@ + u32_error_text(after.subrange(0, k))),
                Some(id) => {
                    let a2 = trim(after.subrange(k, after.len() as int));
                    match first_index(a2, ':') {
                        None => Err("field missing ':'"@),
                        Some(c) => {
                            let np = a2.subrange(0, c);
                            let right = a2.subrange(c + 1, a2.len() as int);
                            let te = trim_end(np);
                            let optional = te.len() > 0 && te.last() == '?';
                            let name = trim(trim_end_char(np, '?'));
                            let (tt, dt) = match first_index(right, '=') {
                                Some(e) => (
                                    trim(right.subrange(0, e)),
                                    Some(trim(right.subrange(e + 1, right.len() as int))),
                                ),
                                None => (trim(right), None),
                            };
                            match spec_parse_type(tt) {
                                Err(m) => Err(m),
                                Ok(t) => Ok(
                                    FieldText {
                                        id,
                                        name,
                                        ty: t,
                                        optional,
                                        default: dt,
                                        hints: set_keys(hint_set(hs)),
                                    },
                                ),
                            }
                        },
                    }
                },
            }
        }
    }
}

/// A field line's parts.
#[derive(Debug)]
pub struct FieldLine {
    pub id: u32,
    pub name: String,
    pub ty: SchemaType,
    pub optional: bool,
    pub default_text: Option<String>,
    pub hints: Vec<String>,
}

/// `cs[a..b]` trimmed.
fn trimmed(cs: &Vec<char>, a: usize, b: usize) -> (r: Vec<char>)
    requires
        a <= b <= cs@.len(),
    ensures
        r@ == trim(cs@.subrange(a as int, b as int)),
{
    let seg = str_chars(slice_string(cs, a, b).as_str());
    let (x, y) = trim_bounds(&seg);
    str_chars(slice_string(&seg, x, y).as_str())
}

fn next_white_exec(cs: &Vec<char>, i: usize) -> (r: usize)
    requires
        i <= cs@.len(),
    ensures
        r == next_white(cs@, i as int),
        i <= r <= cs@.len(),
{
    let mut j = i;
    while j < cs.len() && !crate::parser::is_white_char(cs[j])
        invariant
            i <= j <= cs@.len(),
            next_white(cs@, i as int) == next_white(cs@, j as int),
        decreases cs@.len() - j,
    {
        j += 1;
    }
    j
}

fn skip_white_exec(cs: &Vec<char>, i: usize) -> (r: usize)
    requires
        i <= cs@.len(),
    ensures
        r == skip_white(cs@, i as int),
        i <= r <= cs@.len(),
{
    let mut j = i;
    while j < cs.len() && crate::parser::is_white_char(cs[j])
        invariant
            i <= j <= cs@.len(),
            skip_white(cs@, i as int) == skip_white(cs@, j as int),
        decreases cs@.len() - j,
    {
        j += 1;
    }
    j
}

fn hints_exec(cs: &Vec<char>) -> (r: (Vec<String>, usize))
    ensures
        (strs(r.0@), r.1 as int) == hints_from(cs@, 0, Seq::empty()),
        r.1 <= cs@.len(),
{
    let mut out: Vec<String> = Vec::new();
    let mut i: usize = 0;
    assert(strs(out@) =~= Seq::<Seq<char>>::empty());
    loop
        invariant
            i <= cs@.len(),
            hints_from(cs@, 0, Seq::empty()) == hints_from(cs@, i as int, strs(out@)),
        decreases cs@.len() - i,
    {
        let q = skip_white_exec(cs, i);
        if q < cs.len() && cs[q] == '@' {
            let w = next_white_exec(cs, q + 1);
            let h = slice_string(cs, q + 1, w);
            let ghost before = out@;
            out.push(h);
            assert(strs(out@) =~= strs(before).push(h@));
            if w < cs.len() {
                i = w + 1;
            } else {
                return (out, cs.len());
            }
        } else {
            return (out, q);
        }
    }
}

pub open spec fn pairs_view(v: Seq<(String, ())>) -> Seq<(Seq<char>, ())> {
    v.map_values(|e: (String, ())| (e.0@, ()))
}

fn hint_set_exec(hs: &Vec<String>) -> (r: Vec<String>)
    ensures
        strs(r@) == set_keys(hint_set(strs(hs@))),
{
    let ghost hv = strs(hs@);
    let mut acc: Vec<(String, ())> = Vec::new();
    let mut i: usize = 0;
    assert(pairs_view(acc@) =~= hint_set(hv.subrange(0, 0)));
    while i < hs.len()
        invariant
            i <= hs@.len(),
            hv == strs(hs@),
            pairs_view(acc@) == hint_set(hv.subrange(0, i as int)),
            sorted_keys(pairs_view(acc@)),
        decreases hs.len() - i,
    {
        let ghost ks = pairs_view(acc@);
        let k = hs[i].clone();
        assert(hv.subrange(0, i + 1).drop_last() =~= hv.subrange(0, i as int));
        assert(sorted_str_keys(acc@)) by {
            assert forall|a: int, b: int| 0 <= a < b < acc@.len() implies key_lt(#[trigger] acc@[a].0@, #[trigger] acc@[b].0@) by {
                assert(ks[a].0 == acc@[a].0@ && ks[b].0 == acc@[b].0@);
            }
        }
        let p = key_position(&acc, k.as_str());
        proof {
            assert forall|j: int| 0 <= j < p implies key_lt(#[trigger] ks[j].0, k@) by {
                assert(ks[j].0 == acc@[j].0@);
            }
            if p < acc@.len() {
                assert(ks[p as int].0 == acc@[p as int].0@);
            }
            lemma_insert_at(ks, k@, (), p as int);
            lemma_insert_sorted(ks, k@, (), p as int);
        }
        if p < acc.len() && str_equal(acc[p].0.as_str(), k.as_str()) {
            acc.set(p, (k, ()));
            assert(pairs_view(acc@) =~= ks.update(p as int, (hv[i as int], ())));
        } else {
            acc.insert(p, (k, ()));
            assert(pairs_view(acc@) =~= ks.insert(p as int, (hv[i as int], ())));
        }
        i += 1;
    }
    assert(hv.subrange(0, i as int) =~= hv);
    let mut out: Vec<String> = Vec::new();
    let mut j: usize = 0;
    while j < acc.len()
        invariant
            j <= acc@.len(),
            strs(out@) == set_keys(pairs_view(acc@)).subrange(0, j as int),
        decreases acc.len() - j,
    {
        let ghost before = out@;
        let kk = acc[j].0.clone();
        out.push(kk);
        assert(pairs_view(acc@)[j as int].0 == acc@[j as int].0@);
        assert(strs(out@) =~= strs(before).push(kk@));
        assert(strs(out@) =~= set_keys(pairs_view(acc@)).subrange(0, j + 1));
        j += 1;
    }
    assert(set_keys(pairs_view(acc@)).subrange(0, j as int) =~= set_keys(pairs_view(acc@)));
    out
}

/// The first index of `c` in `cs`, else its length.
fn index_of(cs: &Vec<char>, c: char) -> (r: usize)
    ensures
        r <= cs@.len(),
        match crate::parser::first_index(cs@, c) {
            Some(k) => r == k && k < cs@.len(),
            None => r == cs@.len(),
        },
{
    proof {
        crate::parser::lemma_first_index(cs@, c);
    }
    let mut j: usize = 0;
    while j < cs.len() && cs[j] != c
        invariant
            j <= cs@.len(),
            forall|k: int| 0 <= k < j ==> cs@[k] != c,
        decreases cs@.len() - j,
    {
        j += 1;
    }
    proof {
        match crate::parser::first_index(cs@, c) {
            Some(k) => {
                if k < j {
                    assert(cs@[k] != c);
                }
                if k > j {
                    assert(cs@[j as int] == c);
                }
            },
            None => {
                if j < cs@.len() {
                    assert(cs@[j as int] == c);
                }
            },
        }
    }
    j
}

/// The parts of a field line.
pub fn field_line_parts(line: &str) -> (r: SxResult<FieldLine>)
    ensures
        match field_parts(line@) {
            Ok(f) => (r matches Ok(x) && x.id == f.id && x.name@ == f.name && ty_view(x.ty) == f.ty
                && x.optional == f.optional && crate::value::opt_str(x.default_text) == f.default
                && strs(x.hints@) == f.hints),
            Err(m) => (r matches Err(e) && e.code == SxErrorCode::ParseError && e.message@ == m),
        },
{
    let l0 = trim_end_char_exec(&str_chars(line), ',');
    let l2 = trimmed(&l0, 0, l0.len());
    assert(l0@.subrange(0, l0@.len() as int) =~= l0@);
    let (hs, q) = hints_exec(&l2);
    let l = trimmed(&l2, q, l2.len());
    if !(l.len() > 0 && l[0] == '#') {
        let mut m = "field line must start with '#': ".to_owned();
        m.append(chars_string(&l).as_str());
        return Err(SxError::new(SxErrorCode::ParseError, m));
    }
    let after = str_chars(slice_string(&l, 1, l.len()).as_str());
    assert(after@ =~= l@.drop_first());
    let k = next_white_exec(&after, 0);
    if k >= after.len() {
        return Err(SxError::msg(SxErrorCode::ParseError, "field id missing"));
    }
    let id_text = slice_string(&after, 0, k);
    let id = match parse_u32(id_text.as_str()) {
        Ok(v) => v,
        Err(e) => {
            let mut m = "invalid field id: ".to_owned();
            m.append(e.as_str());
            return Err(SxError::new(SxErrorCode::ParseError, m));
        },
    };
    let a2 = trimmed(&after, k, after.len());
    let c = index_of(&a2, ':');
    proof {
        let ll2 = trim(trim_end_char(line@, ','));
        assert(ll2 == l2@);
        assert(hints_from(ll2, 0, Seq::empty()).1 == q as int);
        assert(trim(ll2.subrange(q as int, ll2.len() as int)) == l@);
        assert(spec_parse_u32(after@.subrange(0, k as int)) == Some(id));
        assert(a2@ == trim(after@.subrange(k as int, after@.len() as int)));
    }
    if c == a2.len() {
        return Err(SxError::msg(SxErrorCode::ParseError, "field missing ':'"));
    }
    let np = str_chars(slice_string(&a2, 0, c).as_str());
    let right = str_chars(slice_string(&a2, c + 1, a2.len()).as_str());
    let (_, te_end) = trim_end_bounds(&np);
    let optional = te_end > 0 && np[te_end - 1] == '?';
    let np2 = trim_end_char_exec(&np, '?');
    let name_chars = trimmed(&np2, 0, np2.len());
    assert(np2@.subrange(0, np2@.len() as int) =~= np2@);
    let e = index_of(&right, '=');
    let (tt, dt) = if e < right.len() {
        (chars_string(&trimmed(&right, 0, e)), Some(chars_string(&trimmed(&right, e + 1, right.len()))))
    } else {
        assert(right@.subrange(0, right@.len() as int) =~= right@);
        (chars_string(&trimmed(&right, 0, right.len())), None)
    };
    proof {
        let te = trim_end(np@);
        assert(te.len() > 0 ==> te.last() == np@[te_end - 1]);
        assert(np@ == a2@.subrange(0, c as int));
        assert(right@ == a2@.subrange(c + 1, a2@.len() as int));
    }
    let ty = match parse_type(tt.as_str()) {
        Ok(t) => t,
        Err(err) => {
            return Err(err);
        },
    };
    let hints = hint_set_exec(&hs);
    Ok(FieldLine { id, name: chars_string(&name_chars), ty, optional, default_text: dt, hints })
}

/// The end of `cs` without trailing white space.
fn trim_end_bounds(cs: &Vec<char>) -> (r: ((), usize))
    ensures
        r.1 <= cs@.len(),
        trim_end(cs@) == cs@.subrange(0, r.1 as int),
{
    let mut b: usize = cs.len();
    assert(cs@.subrange(0, b as int) =~= cs@);
    while b > 0 && crate::parser::is_white_char(cs[b - 1])
        invariant
            b <= cs@.len(),
            trim_end(cs@) == trim_end(cs@.subrange(0, b as int)),
        decreases b,
    {
        assert(cs@.subrange(0, b as int).drop_last() =~= cs@.subrange(0, b - 1));
        b -= 1;
    }
    ((), b)
}

} // verus!
