//! Parser of SX text.
//!
//! Recursive descent over the lexer's tokens.  Number literals that denote
//! floats (they hold `.`, `e` or `E`, or stand in an `f32[...]` or `f64[...]`
//! array) are read through [`FloatReading`]s that the caller supplies: the
//! library holds floats only as IEEE-754 bit patterns and does not convert
//! decimal text to them itself.
use crate::chars::{all_digits, digits_value, string_push, u64_to_decimal, decimal_text};
use crate::decode::insert_column;
use crate::diagnostics::ParseDiagnostic;
use crate::error::{SxError, SxErrorCode, SxResult};
use crate::fields::{find_key, has_key, insert_entry, insert_field, lemma_dv_fields, lemma_dv_vals};
use crate::json::{b64_bytes, base64_decode, uuid_parse, uuid_parsed};
use crate::json_read::kind_of;
use crate::keys::{sorted_keys, str_equal};
use vstd::string::StringSliceAdditionalSpecFns;
use crate::lexer::{lex, tokens_view, Lexer, Tok, TokAt, Token, TokenKind};
use crate::path::{spec_parse_path, Seg, SxPath};
use crate::value::{
    dv, dv_columns, dv_fields, dv_ops, dv_vals, DecimalValue, DeltaDocument, DeltaOp, DeltaOpKind, MessageEnvelope,
    MoneyValue, ReferenceValue, SxColumn, SxTable, SxTypedArray, SxValue, VColumn, VMessage, VOp, VTyped, V,
};
use crate::int_text::{lemma_parse_int_text, parse_int, parse_int_text};
use vstd::prelude::*;

verus! {

// ---------------------------------------------------------------------------
// Inputs and outcomes
// ---------------------------------------------------------------------------

/// How the text of a number literal reads as a float: the `f64` bits and the
/// bits of that `f64` narrowed to `f32`, or the message of the failure.
pub struct FloatReading {
    pub text: String,
    pub reading: Result<(u64, u32), String>,
}

/// View of a float reading.
pub open spec fn reading_view(r: FloatReading) -> (Seq<char>, Result<(u64, u32), Seq<char>>) {
    (r.text@, match r.reading {
        Ok(b) => Ok(b),
        Err(m) => Err(m@),
    })
}

pub open spec fn readings_view(rs: Seq<FloatReading>) -> Seq<(Seq<char>, Result<(u64, u32), Seq<char>>)> {
    rs.map_values(|r: FloatReading| reading_view(r))
}

/// The reading of the first entry for `text`.
pub open spec fn reading_of(rs: Seq<(Seq<char>, Result<(u64, u32), Seq<char>>)>, text: Seq<char>) -> Option<
    Result<(u64, u32), Seq<char>>,
>
    decreases rs.len(),
{
    if rs.len() == 0 {
        None
    } else if rs[0].0 == text {
        Some(rs[0].1)
    } else {
        reading_of(rs.drop_first(), text)
    }
}

/// Tokens and float readings: what the parser reads.
pub struct PIn {
    pub ts: Seq<TokAt>,
    pub rs: Seq<(Seq<char>, Result<(u64, u32), Seq<char>>)>,
}

/// A diagnostic: message and position.
pub struct Diag {
    pub message: Seq<char>,
    pub line: int,
    pub column: int,
}

/// Why a parse stops: a diagnostic, or a condition on which the parse does
/// not return (arithmetic overflow of a decimal, a cut inside a character,
/// or a float literal without a reading).
pub enum Fail {
    At(Diag),
    Abort,
}

/// Executable form of [`Fail`].
pub enum ParseFail {
    At(ParseDiagnostic),
    Abort,
}

pub open spec fn diag_view(d: ParseDiagnostic) -> Diag {
    Diag { message: d.message@, line: d.line as int, column: d.column as int }
}

/// An executable failure stands for a specified one.
pub open spec fn fail_is(f: ParseFail, s: Fail) -> bool {
    match s {
        Fail::At(d) => (f matches ParseFail::At(x) && diag_view(x) == d && x.path is None),
        Fail::Abort => f is Abort,
    }
}

// ---------------------------------------------------------------------------
// Number texts
// ---------------------------------------------------------------------------

/// What `i64::from_str` accepts: an optional sign, then one or more digits
/// whose value fits in `i64`.
pub open spec fn spec_parse_i64(s: Seq<char>) -> Option<i64> {
    let neg = s.len() > 0 && s[0] == '-';
    let d = if s.len() > 0 && (s[0] == '-' || s[0] == '+') { s.drop_first() } else { s };
    let v: int = if neg { -(digits_value(d) as int) } else { digits_value(d) as int };
    if d.len() > 0 && all_digits(d) && i64::MIN <= v && v <= i64::MAX {
        Some(v as i64)
    } else {
        None
    }
}

/// The message of the error `i64::from_str` gives for a text it refuses.
pub open spec fn i64_error_text(s: Seq<char>) -> Seq<char> {
    match parse_int_text(s, true, i64::MIN as int, i64::MAX as int) {
        Err(m) => m,
        Ok(_) => Seq::empty(),
    }
}

/// Parses an `i64` the way `i64::from_str` does: the value, or the error's
/// message.
fn parse_i64(s: &str) -> (r: Result<i64, String>)
    ensures
        match r {
            Ok(v) => spec_parse_i64(s@) == Some(v),
            Err(m) => spec_parse_i64(s@) is None && m@ == i64_error_text(s@),
        },
{
    proof {
        lemma_parse_int_text(s@, true, i64::MIN as int, i64::MAX as int);
    }
    match parse_int(s, true, i64::MIN as i128, i64::MAX as i128) {
        Ok(v) => Ok(v as i64),
        Err(m) => Err(m),
    }
}

/// The text of a string between double quotes with Rust's `Debug` escapes.
pub uninterp spec fn str_debug(s: Seq<char>) -> Seq<char>;

/// `<str as Debug>::fmt`: the text quoted, with Rust's escapes.
#[verifier::external_body]
pub(crate) fn debug_quote(s: &str) -> (r: String)
    ensures
        r@ == str_debug(s@),
{
    format!("{:?}", s)
}

/// A number literal denotes a float when it holds `.`, `e` or `E`.
pub open spec fn float_mark(n: Seq<char>) -> bool {
    n.contains('.') || n.contains('e') || n.contains('E')
}

// ---------------------------------------------------------------------------
// Token access
// ---------------------------------------------------------------------------

/// The kind of token `i`; past the end, `Eof`.
pub open spec fn peek(p: PIn, i: int) -> Tok {
    if 0 <= i < p.ts.len() {
        p.ts[i].kind
    } else {
        Tok::Eof
    }
}

/// A diagnostic at token `i`, else at the last token, else at 1:1.
pub open spec fn fail_at(p: PIn, i: int, m: Seq<char>) -> Fail {
    if 0 <= i < p.ts.len() {
        Fail::At(Diag { message: m, line: p.ts[i].line, column: p.ts[i].column })
    } else if p.ts.len() > 0 {
        Fail::At(Diag { message: m, line: p.ts.last().line, column: p.ts.last().column })
    } else {
        Fail::At(Diag { message: m, line: 1, column: 1 })
    }
}

/// The `Debug` text of a token kind.
pub open spec fn tok_debug(t: Tok) -> Seq<char> {
    match t {
        Tok::LBrace => "LBrace"@,
        Tok::RBrace => "RBrace"@,
        Tok::LBracket => "LBracket"@,
        Tok::RBracket => "RBracket"@,
        Tok::LParen => "LParen"@,
        Tok::RParen => "RParen"@,
        Tok::Colon => "Colon"@,
        Tok::Comma => "Comma"@,
        Tok::Eq => "Eq"@,
        Tok::Question => "Question"@,
        Tok::At => "At"@,
        Tok::Identifier(s) => "Identifier("@ + str_debug(s) + ")"@,
        Tok::Str(s) => "String("@ + str_debug(s) + ")"@,
        Tok::Number(s) => "Number("@ + str_debug(s) + ")"@,
        Tok::Path(s) => "Path("@ + str_debug(s) + ")"@,
        Tok::Eof => "Eof"@,
    }
}

/// Consumes token `i` when it is `k`.
pub open spec fn expect(p: PIn, i: int, k: Tok) -> Result<int, Fail> {
    if peek(p, i) == k {
        Ok(i + 1)
    } else {
        Err(fail_at(p, i, "expected "@ + tok_debug(k)))
    }
}

/// Consumes token `i` when it is the identifier `e`.
pub open spec fn expect_ident(p: PIn, i: int, e: Seq<char>) -> Result<int, Fail> {
    if peek(p, i) == Tok::Identifier(e) {
        Ok(i + 1)
    } else {
        Err(fail_at(p, i, "expected identifier '"@ + e + "'"@))
    }
}

/// A key: an identifier or a string.
pub open spec fn parse_key(p: PIn, i: int) -> Result<(Seq<char>, int), Fail> {
    match peek(p, i) {
        Tok::Identifier(s) => Ok((s, i + 1)),
        Tok::Str(s) => Ok((s, i + 1)),
        _ => Err(fail_at(p, i, "expected object key"@)),
    }
}

pub open spec fn parse_ident(p: PIn, i: int) -> Result<(Seq<char>, int), Fail> {
    match peek(p, i) {
        Tok::Identifier(s) => Ok((s, i + 1)),
        _ => Err(fail_at(p, i, "expected identifier"@)),
    }
}

pub open spec fn parse_string(p: PIn, i: int) -> Result<(Seq<char>, int), Fail> {
    match peek(p, i) {
        Tok::Str(s) => Ok((s, i + 1)),
        _ => Err(fail_at(p, i, "expected string"@)),
    }
}

/// An integer literal.
pub open spec fn parse_int_lit(p: PIn, i: int) -> Result<(i64, int), Fail> {
    match peek(p, i) {
        Tok::Number(n) => match spec_parse_i64(n) {
            Some(v) => Ok((v, i + 1)),
            None => Err(fail_at(p, i + 1, "invalid integer: "@ + i64_error_text(n))),
        },
        _ => Err(fail_at(p, i, "expected integer"@)),
    }
}

/// A float literal: its `f64` bits and those of the `f64` narrowed to `f32`.
pub open spec fn parse_float_lit(p: PIn, i: int) -> Result<((u64, u32), int), Fail> {
    match peek(p, i) {
        Tok::Number(n) => match reading_of(p.rs, n) {
            Some(Ok(b)) => Ok((b, i + 1)),
            Some(Err(m)) => Err(fail_at(p, i + 1, "invalid float: "@ + m)),
            None => Err(Fail::Abort),
        },
        _ => Err(fail_at(p, i, "expected float"@)),
    }
}

/// The value of a number literal: a float when it carries a float mark,
/// else an `i64`.
pub open spec fn number_value(p: PIn, n: Seq<char>) -> Result<V, Option<Seq<char>>> {
    if float_mark(n) {
        match reading_of(p.rs, n) {
            Some(Ok(b)) => Ok(V::F64(b.0)),
            Some(Err(m)) => Err(Some("invalid float: "@ + m)),
            None => Err(None),
        }
    } else {
        match spec_parse_i64(n) {
            Some(v) => Ok(V::I64(v)),
            None => Err(Some("invalid int: "@ + i64_error_text(n))),
        }
    }
}

// ---------------------------------------------------------------------------
// Decimal literals
// ---------------------------------------------------------------------------

/// Unicode `White_Space`, what `char::is_whitespace` tests.
pub open spec fn is_white(c: char) -> bool {
    ||| '\u{9}' <= c <= '\u{d}'
    ||| c == ' '
    ||| c == '\u{85}'
    ||| c == '\u{a0}'
    ||| c == '\u{1680}'
    ||| '\u{2000}' <= c <= '\u{200a}'
    ||| c == '\u{2028}'
    ||| c == '\u{2029}'
    ||| c == '\u{202f}'
    ||| c == '\u{205f}'
    ||| c == '\u{3000}'
}

pub open spec fn trim_start(s: Seq<char>) -> Seq<char>
    decreases s.len(),
{
    if s.len() > 0 && is_white(s[0]) {
        trim_start(s.drop_first())
    } else {
        s
    }
}

pub open spec fn trim_end(s: Seq<char>) -> Seq<char>
    decreases s.len(),
{
    if s.len() > 0 && is_white(s.last()) {
        trim_end(s.drop_last())
    } else {
        s
    }
}

/// `str::trim`.
pub open spec fn trim(s: Seq<char>) -> Seq<char> {
    trim_end(trim_start(s))
}

/// `s` without its leading `-` characters.
pub open spec fn strip_dashes(s: Seq<char>) -> Seq<char>
    decreases s.len(),
{
    if s.len() > 0 && s[0] == '-' {
        strip_dashes(s.drop_first())
    } else {
        s
    }
}

/// The index of the first `c` in `s`.
pub open spec fn first_index(s: Seq<char>, c: char) -> Option<int>
    decreases s.len(),
{
    if s.len() == 0 {
        None
    } else if s.last() == c {
        match first_index(s.drop_last(), c) {
            Some(k) => Some(k),
            None => Some(s.len() - 1),
        }
    } else {
        first_index(s.drop_last(), c)
    }
}

/// Length of the UTF-8 encoding of a character.
pub open spec fn char_bytes(c: char) -> nat {
    if (c as u32) < 0x80 {
        1
    } else if (c as u32) < 0x800 {
        2
    } else if (c as u32) < 0x10000 {
        3
    } else {
        4
    }
}

/// Length of the UTF-8 encoding of a text.
pub open spec fn byte_len(s: Seq<char>) -> nat
    decreases s.len(),
{
    if s.len() == 0 {
        0
    } else {
        byte_len(s.drop_last()) + char_bytes(s.last())
    }
}

/// The prefix of `s` whose encoding is `n` bytes long, if `n` falls on a
/// character boundary.
pub open spec fn cut_bytes(s: Seq<char>, n: nat) -> Option<Seq<char>>
    decreases s.len(),
{
    if byte_len(s) == n {
        Some(s)
    } else if s.len() == 0 {
        None
    } else {
        cut_bytes(s.drop_last(), n)
    }
}

/// The fraction digits brought to `scale` bytes: cut when longer (not
/// defined inside a character), padded with `0` when shorter.
pub open spec fn frac_digits(f: Seq<char>, scale: nat) -> Option<Seq<char>> {
    if byte_len(f) > scale {
        cut_bytes(f, scale)
    } else {
        Some(f + Seq::new((scale - byte_len(f)) as nat, |k: int| '0'))
    }
}

pub open spec fn pow10(n: nat) -> int
    decreases n,
{
    if n == 0 {
        1
    } else {
        10 * pow10((n - 1) as nat)
    }
}

pub open spec fn in_i128(x: int) -> bool {
    i128::MIN <= x <= i128::MAX
}

/// `a * 10^scale + f`, then times `sign`, each step within `i128`.
pub open spec fn scaled_sum(sign: int, a: int, f: int, scale: u32) -> Option<i128> {
    let p = pow10(scale as nat);
    let m = a * p;
    let x = m + f;
    let y = sign * x;
    if in_i128(p) && in_i128(m) && in_i128(x) && in_i128(y) {
        Some(y as i128)
    } else {
        None
    }
}

/// The scaled integer of a decimal text at `scale`: `Err(Some(m))` for a
/// diagnostic, `Err(None)` where the computation overflows or cuts inside a
/// character.
pub open spec fn scaled_decimal(text: Seq<char>, scale: u32) -> Result<i128, Option<Seq<char>>> {
    let s = trim(text);
    match first_index(s, '.') {
        Some(k) => {
            let ip = s.subrange(0, k);
            let fp = s.subrange(k + 1, s.len() as int);
            let sign: int = if ip.len() > 0 && ip[0] == '-' { -1 } else { 1 };
            match crate::json::spec_parse_i128(strip_dashes(ip)) {
                None => Err(Some("invalid decimal integer part"@)),
                Some(a) => match frac_digits(fp, scale as nat) {
                    None => Err(None),
                    Some(f) => {
                        let fv: Option<i128> = if f.len() == 0 {
                            Some(0i128)
                        } else {
                            crate::json::spec_parse_i128(f)
                        };
                        match fv {
                            None => Err(Some("invalid decimal fraction"@)),
                            Some(v) => match scaled_sum(sign, a as int, v as int, scale) {
                                Some(y) => Ok(y),
                                None => Err(None),
                            },
                        }
                    },
                },
            }
        },
        None => match crate::json::spec_parse_i128(s) {
            None => Err(Some("invalid decimal value"@)),
            Some(b) => match scaled_sum(1, b as int, 0, scale) {
                Some(y) => Ok(y),
                None => Err(None),
            },
        },
    }
}

// Executable decimal reading.

proof fn lemma_trim_start_skip(s: Seq<char>, a: int)
    requires
        0 <= a <= s.len(),
        forall|k: int| 0 <= k < a ==> is_white(#[trigger] s[k]),
    ensures
        trim_start(s) == trim_start(s.subrange(a, s.len() as int)),
    decreases a,
{
    if a > 0 {
        assert(s.drop_first().subrange(a - 1, s.drop_first().len() as int) =~= s.subrange(a, s.len() as int));
        assert forall|k: int| 0 <= k < a - 1 implies is_white(#[trigger] s.drop_first()[k]) by {
            assert(s.drop_first()[k] == s[k + 1]);
        }
        lemma_trim_start_skip(s.drop_first(), a - 1);
    } else {
        assert(s.subrange(0, s.len() as int) =~= s);
    }
}

pub(crate) proof fn lemma_trim_end_skip(s: Seq<char>, b: int)
    requires
        0 <= b <= s.len(),
        forall|k: int| b <= k < s.len() ==> is_white(#[trigger] s[k]),
    ensures
        trim_end(s) == trim_end(s.subrange(0, b)),
    decreases s.len() - b,
{
    if b < s.len() {
        assert(s.drop_last().subrange(0, b) =~= s.subrange(0, b));
        lemma_trim_end_skip(s.drop_last(), b);
    } else {
        assert(s.subrange(0, b) =~= s);
    }
}

pub(crate) proof fn lemma_first_index(s: Seq<char>, c: char)
    ensures
        match first_index(s, c) {
            Some(k) => 0 <= k < s.len() && s[k] == c && forall|j: int| 0 <= j < k ==> s[j] != c,
            None => forall|j: int| 0 <= j < s.len() ==> s[j] != c,
        },
    decreases s.len(),
{
    if s.len() > 0 {
        lemma_first_index(s.drop_last(), c);
        assert forall|j: int| 0 <= j < s.len() - 1 implies s.drop_last()[j] == s[j] by {}
    }
}

proof fn lemma_strip_dashes(s: Seq<char>, j: int)
    requires
        0 <= j <= s.len(),
        forall|k: int| 0 <= k < j ==> #[trigger] s[k] == '-',
        j == s.len() || s[j] != '-',
    ensures
        strip_dashes(s) == s.subrange(j, s.len() as int),
    decreases j,
{
    if j > 0 {
        assert(s.drop_first().subrange(j - 1, s.drop_first().len() as int) =~= s.subrange(j, s.len() as int));
        assert forall|k: int| 0 <= k < j - 1 implies #[trigger] s.drop_first()[k] == '-' by {
            assert(s.drop_first()[k] == s[k + 1]);
        }
        lemma_strip_dashes(s.drop_first(), j - 1);
    } else {
        assert(s.subrange(0, s.len() as int) =~= s);
    }
}

proof fn lemma_byte_len_step(s: Seq<char>, j: int)
    requires
        0 <= j < s.len(),
    ensures
        byte_len(s.subrange(0, j + 1)) == byte_len(s.subrange(0, j)) + char_bytes(s[j]),
{
    assert(s.subrange(0, j + 1).drop_last() =~= s.subrange(0, j));
}

proof fn lemma_byte_len_prefix(s: Seq<char>, m: int)
    requires
        0 <= m <= s.len(),
    ensures
        byte_len(s.subrange(0, m)) + (s.len() - m) <= byte_len(s),
    decreases s.len() - m,
{
    if m < s.len() {
        lemma_byte_len_step(s, m);
        lemma_byte_len_prefix(s, m + 1);
    } else {
        assert(s.subrange(0, m) =~= s);
    }
}

proof fn lemma_cut_found(s: Seq<char>, n: nat, m: int)
    requires
        0 <= m <= s.len(),
        byte_len(s.subrange(0, m)) == n,
    ensures
        cut_bytes(s, n) == Some(s.subrange(0, m)),
    decreases s.len(),
{
    if m == s.len() {
        assert(s.subrange(0, m) =~= s);
    } else {
        lemma_byte_len_prefix(s, m);
        assert(s.drop_last().subrange(0, m) =~= s.subrange(0, m));
        lemma_cut_found(s.drop_last(), n, m);
    }
}

proof fn lemma_cut_none(s: Seq<char>, n: nat)
    requires
        forall|m: int| 0 <= m <= s.len() ==> byte_len(#[trigger] s.subrange(0, m)) != n,
    ensures
        cut_bytes(s, n) is None,
    decreases s.len(),
{
    assert(s.subrange(0, s.len() as int) =~= s);
    if s.len() > 0 {
        assert forall|m: int| 0 <= m <= s.drop_last().len() implies byte_len(#[trigger] s.drop_last().subrange(0, m)) != n by {
            assert(s.drop_last().subrange(0, m) =~= s.subrange(0, m));
        }
        lemma_cut_none(s.drop_last(), n);
    }
}

proof fn lemma_pow10_mono(a: nat, b: nat)
    requires
        a <= b,
    ensures
        1 <= pow10(a) <= pow10(b),
    decreases b,
{
    if b > 0 {
        if a < b {
            lemma_pow10_mono(a, (b - 1) as nat);
        } else {
            lemma_pow10_mono((a - 1) as nat, (b - 1) as nat);
        }
    }
}

/// The characters of a text.
pub fn str_chars(s: &str) -> (r: Vec<char>)
    ensures
        r@ == s@,
{
    let n = s.unicode_len();
    let mut out: Vec<char> = Vec::new();
    let mut i: usize = 0;
    while i < n
        invariant
            i <= n,
            n == s@.len(),
            out@ == s@.subrange(0, i as int),
        decreases n - i,
    {
        out.push(s.get_char(i));
        assert(s@.subrange(0, i + 1) =~= s@.subrange(0, i as int).push(s@[i as int]));
        i += 1;
    }
    assert(s@.subrange(0, n as int) =~= s@);
    out
}

pub(crate) fn slice_string(cs: &Vec<char>, a: usize, b: usize) -> (r: String)
    requires
        a <= b <= cs@.len(),
    ensures
        r@ == cs@.subrange(a as int, b as int),
{
    let mut s = String::new();
    let mut i: usize = a;
    while i < b
        invariant
            a <= i <= b <= cs@.len(),
            s@ == cs@.subrange(a as int, i as int),
        decreases b - i,
    {
        string_push(&mut s, cs[i]);
        assert(cs@.subrange(a as int, i + 1) =~= cs@.subrange(a as int, i as int).push(cs@[i as int]));
        i += 1;
    }
    s
}

pub(crate) fn is_white_char(c: char) -> (r: bool)
    ensures
        r == is_white(c),
{
    let u = c as u32;
    (9 <= u && u <= 13) || u == 32 || u == 0x85 || u == 0xa0 || u == 0x1680 || (0x2000 <= u && u <= 0x200a)
        || u == 0x2028 || u == 0x2029 || u == 0x202f || u == 0x205f || u == 0x3000
}

fn char_bytes_exec(c: char) -> (r: u128)
    ensures
        r == char_bytes(c),
{
    let u = c as u32;
    if u < 0x80 {
        1
    } else if u < 0x800 {
        2
    } else if u < 0x10000 {
        3
    } else {
        4
    }
}

fn decimal_fail(m: &str) -> (r: ParseFail)
    ensures
        fail_is(r, Fail::At(Diag { message: m@, line: 1, column: 1 })),
{
    ParseFail::At(ParseDiagnostic::new(m, 1, 1))
}

/// `f * 10^scale + v` times `sign` with every step checked.
fn scaled_sum_exec(sign: i128, a: i128, v: i128, scale: u32) -> (r: Option<i128>)
    requires
        sign == 1 || sign == -1,
    ensures
        r == scaled_sum(sign as int, a as int, v as int, scale),
{
    let mut p: i128 = 1;
    let mut k: u32 = 0;
    while k < scale
        invariant
            k <= scale,
            p as int == pow10(k as nat),
        decreases scale - k,
    {
        match p.checked_mul(10) {
            Some(q) => {
                p = q;
            },
            None => {
                proof {
                    lemma_pow10_mono((k + 1) as nat, scale as nat);
                    assert(pow10((k + 1) as nat) == 10 * pow10(k as nat));
                }
                return None;
            },
        }
        k += 1;
    }
    let m = match a.checked_mul(p) {
        Some(m) => m,
        None => {
            return None;
        },
    };
    let x = match m.checked_add(v) {
        Some(x) => x,
        None => {
            return None;
        },
    };
    match sign.checked_mul(x) {
        Some(y) => Some(y),
        None => None,
    }
}

/// The bounds of `cs` without its leading and trailing white space.
pub(crate) fn trim_bounds(cs: &Vec<char>) -> (r: (usize, usize))
    ensures
        r.0 <= r.1 <= cs@.len(),
        trim(cs@) == cs@.subrange(r.0 as int, r.1 as int),
{
    let ghost s0 = cs@;
    let n = cs.len();
    let mut a: usize = 0;
    while a < n && is_white_char(cs[a])
        invariant
            a <= n,
            n == cs@.len(),
            cs@ == s0,
            forall|k: int| 0 <= k < a ==> is_white(#[trigger] s0[k]),
        decreases n - a,
    {
        a += 1;
    }
    proof {
        lemma_trim_start_skip(s0, a as int);
    }
    let mut b: usize = n;
    while b > a && is_white_char(cs[b - 1])
        invariant
            a <= b <= n,
            n == cs@.len(),
            cs@ == s0,
            forall|k: int| b <= k < n ==> is_white(#[trigger] s0[k]),
        decreases b - a,
    {
        b -= 1;
    }
    proof {
        let t = s0.subrange(a as int, b as int);
        let u = s0.subrange(a as int, n as int);
        assert(a == n || !is_white(u[0]));
        assert(trim_start(u) == u);
        assert(u.subrange(0, b - a) =~= t);
        assert forall|k: int| b - a <= k < u.len() implies is_white(#[trigger] u[k]) by {
            assert(u[k] == s0[k + a]);
        }
        lemma_trim_end_skip(u, b - a);
        assert(b == a || !is_white(t.last()));
        assert(trim_end(t) == t);
    }
    (a, b)
}

/// The fraction digits `cs[from..to]` brought to `scale` bytes.
fn frac_chars(cs: &Vec<char>, from: usize, to: usize, scale: u32) -> (r: Result<Vec<char>, ParseFail>)
    requires
        from <= to <= cs@.len(),
    ensures
        match frac_digits(cs@.subrange(from as int, to as int), scale as nat) {
            Some(f) => (r matches Ok(x) && x@ == f),
            None => (r matches Err(e) && e is Abort),
        },
{
    let ghost fp = cs@.subrange(from as int, to as int);
    let mut blen: u128 = 0;
    let mut j: usize = from;
    while j < to
        invariant
            from <= j <= to <= cs@.len(),
            fp == cs@.subrange(from as int, to as int),
            blen == byte_len(fp.subrange(0, j - from)),
            blen <= 4 * (j - from),
        decreases to - j,
    {
        proof {
            lemma_byte_len_step(fp, j - from);
        }
        blen = blen + char_bytes_exec(cs[j]);
        j += 1;
    }
    assert(fp.subrange(0, fp.len() as int) =~= fp);
    let mut frac: Vec<char> = Vec::new();
    if blen > scale as u128 {
        let mut acc: u128 = 0;
        let mut q: usize = from;
        while q < to && acc < scale as u128
            invariant
                from <= q <= to <= cs@.len(),
                fp == cs@.subrange(from as int, to as int),
                acc == byte_len(fp.subrange(0, q - from)),
                acc <= 4 * (q - from),
                q > from ==> byte_len(fp.subrange(0, q - from - 1)) < scale,
                frac@ == fp.subrange(0, q - from),
            decreases to - q,
        {
            proof {
                lemma_byte_len_step(fp, q - from);
                assert(fp.subrange(0, q - from + 1) =~= fp.subrange(0, q - from).push(fp[q - from]));
            }
            acc = acc + char_bytes_exec(cs[q]);
            frac.push(cs[q]);
            q += 1;
        }
        if acc != scale as u128 {
            proof {
                if q == to {
                    assert(fp.subrange(0, q - from) =~= fp);
                }
                assert forall|m: int| 0 <= m <= fp.len() implies byte_len(#[trigger] fp.subrange(0, m)) != scale by {
                    if m >= q - from {
                        lemma_byte_len_prefix(fp.subrange(0, m), q - from);
                        assert(fp.subrange(0, m).subrange(0, q - from) =~= fp.subrange(0, q - from));
                    } else {
                        lemma_prefix_below(fp, m, q - from, scale as nat);
                    }
                }
                lemma_cut_none(fp, scale as nat);
            }
            return Err(ParseFail::Abort);
        }
        proof {
            lemma_cut_found(fp, scale as nat, q - from);
        }
    } else {
        let mut q: usize = from;
        while q < to
            invariant
                from <= q <= to <= cs@.len(),
                frac@ == cs@.subrange(from as int, q as int),
            decreases to - q,
        {
            frac.push(cs[q]);
            assert(cs@.subrange(from as int, q + 1) =~= cs@.subrange(from as int, q as int).push(cs@[q as int]));
            q += 1;
        }
        let pad: u128 = scale as u128 - blen;
        let mut z: u128 = 0;
        while z < pad
            invariant
                z <= pad,
                pad == scale - byte_len(fp),
                frac@ == fp + Seq::new(z as nat, |k: int| '0'),
            decreases pad - z,
        {
            frac.push('0');
            assert(fp + Seq::new((z + 1) as nat, |k: int| '0') =~= (fp + Seq::new(z as nat, |k: int| '0')).push('0'));
            z += 1;
        }
    }
    Ok(frac)
}

/// The scaled integer of a decimal literal's text.
fn scaled_decimal_exec(text: &str, scale: u32) -> (r: Result<i128, ParseFail>)
    ensures
        match scaled_decimal(text@, scale) {
            Ok(y) => r == Ok::<i128, ParseFail>(y),
            Err(Some(m)) => (r matches Err(f) && fail_is(f, Fail::At(Diag { message: m, line: 1, column: 1 }))),
            Err(None) => (r matches Err(f) && f is Abort),
        },
{
    let cs = str_chars(text);
    let ghost s0 = text@;
    let n = cs.len();
    let (a, b) = trim_bounds(&cs);
    let ghost t = s0.subrange(a as int, b as int);
    proof {
        lemma_first_index(t, '.');
    }
    let mut d: usize = a;
    while d < b && cs[d] != '.'
        invariant
            a <= d <= b <= n,
            n == cs@.len(),
            cs@ == s0,
            forall|k: int| a <= k < d ==> s0[k] != '.',
        decreases b - d,
    {
        d += 1;
    }
    if d < b {
        proof {
            assert(t[d - a] == '.');
            match first_index(t, '.') {
                Some(k) => {
                    if k < d - a {
                        assert(t[k] == s0[k + a]);
                    }
                    assert(k == d - a);
                },
                None => {},
            }
        }
        let ghost ip = t.subrange(0, d - a);
        let sign: i128 = if d > a && cs[a] == '-' { -1 } else { 1 };
        let mut e: usize = a;
        while e < d && cs[e] == '-'
            invariant
                a <= e <= d < b <= n,
                n == cs@.len(),
                cs@ == s0,
                forall|k: int| a <= k < e ==> s0[k] == '-',
            decreases d - e,
        {
            e += 1;
        }
        proof {
            assert forall|k: int| 0 <= k < e - a implies #[trigger] ip[k] == '-' by {
                assert(ip[k] == s0[k + a]);
            }
            assert(e == d || ip[e - a] != '-');
            lemma_strip_dashes(ip, e - a);
            assert(ip.subrange(e - a, ip.len() as int) =~= s0.subrange(e as int, d as int));
            assert(t.subrange(d - a + 1, t.len() as int) =~= s0.subrange(d + 1, b as int));
            assert(ip.len() > 0 ==> ip[0] == s0[a as int]);
        }
        let int_text = slice_string(&cs, e, d);
        let av = match crate::json::parse_i128(int_text.as_str()) {
            Ok(v) => v,
            Err(_) => {
                return Err(decimal_fail("invalid decimal integer part"));
            },
        };
        let frac = match frac_chars(&cs, d + 1, b, scale) {
            Ok(f) => f,
            Err(e) => {
                return Err(e);
            },
        };
        let fv: i128 = if frac.len() == 0 {
            0
        } else {
            let ft = slice_string(&frac, 0, frac.len());
            assert(frac@.subrange(0, frac@.len() as int) =~= frac@);
            match crate::json::parse_i128(ft.as_str()) {
                Ok(v) => v,
                Err(_) => {
                    return Err(decimal_fail("invalid decimal fraction"));
                },
            }
        };
        match scaled_sum_exec(sign, av, fv, scale) {
            Some(y) => Ok(y),
            None => Err(ParseFail::Abort),
        }
    } else {
        proof {
            match first_index(t, '.') {
                Some(k) => {
                    assert(t[k] == s0[k + a]);
                },
                None => {},
            }
        }
        let whole = slice_string(&cs, a, b);
        let bv = match crate::json::parse_i128(whole.as_str()) {
            Ok(v) => v,
            Err(_) => {
                return Err(decimal_fail("invalid decimal value"));
            },
        };
        match scaled_sum_exec(1, bv, 0, scale) {
            Some(y) => Ok(y),
            None => Err(ParseFail::Abort),
        }
    }
}

proof fn lemma_prefix_below(s: Seq<char>, m: int, q: int, n: nat)
    requires
        0 <= m < q <= s.len(),
        byte_len(s.subrange(0, q - 1)) < n,
    ensures
        byte_len(s.subrange(0, m)) < n,
{
    lemma_byte_len_prefix(s.subrange(0, q - 1), m);
    assert(s.subrange(0, q - 1).subrange(0, m) =~= s.subrange(0, m));
}

// ---------------------------------------------------------------------------
// The grammar
// ---------------------------------------------------------------------------

/// `u8`, `i32`, `f32`, `f64` and `bool` name typed arrays.
pub open spec fn typed_array_ident(id: Seq<char>) -> bool {
    id == "u8"@ || id == "i32"@ || id == "f32"@ || id == "f64"@ || id == "bool"@
}

/// The empty typed array named by `id`.
pub open spec fn empty_typed(id: Seq<char>) -> VTyped {
    if id == "u8"@ {
        VTyped::U8(Seq::empty())
    } else if id == "i32"@ {
        VTyped::I32(Seq::empty())
    } else if id == "f32"@ {
        VTyped::F32(Seq::empty())
    } else if id == "f64"@ {
        VTyped::F64(Seq::empty())
    } else {
        VTyped::Bool(Seq::empty())
    }
}

/// One element of a typed array, appended to `acc`.
pub open spec fn read_elem(p: PIn, i: int, acc: VTyped) -> Result<(VTyped, int), Fail> {
    match acc {
        VTyped::U8(xs) => match parse_int_lit(p, i) {
            Ok((n, j)) => Ok((VTyped::U8(xs.push(n as u8)), j)),
            Err(f) => Err(f),
        },
        VTyped::I32(xs) => match parse_int_lit(p, i) {
            Ok((n, j)) => Ok((VTyped::I32(xs.push(n as i32)), j)),
            Err(f) => Err(f),
        },
        VTyped::F32(xs) => match parse_float_lit(p, i) {
            Ok((b, j)) => Ok((VTyped::F32(xs.push(b.1)), j)),
            Err(f) => Err(f),
        },
        VTyped::F64(xs) => match parse_float_lit(p, i) {
            Ok((b, j)) => Ok((VTyped::F64(xs.push(b.0)), j)),
            Err(f) => Err(f),
        },
        VTyped::Bool(xs) => if peek(p, i) == Tok::Identifier("true"@) {
            Ok((VTyped::Bool(xs.push(true)), i + 1))
        } else if peek(p, i) == Tok::Identifier("false"@) {
            Ok((VTyped::Bool(xs.push(false)), i + 1))
        } else {
            Err(fail_at(p, i, "expected true/false in bool[]"@))
        },
    }
}

/// After an element: a comma is consumed, a closing bracket is left.
pub open spec fn arr_sep(p: PIn, i: int) -> Result<int, Fail> {
    if peek(p, i) == Tok::Comma {
        Ok(i + 1)
    } else if peek(p, i) == Tok::RBracket {
        Ok(i)
    } else {
        Err(fail_at(p, i, "expected ',' or ']'"@))
    }
}

/// The elements of a typed array up to its closing bracket.
pub open spec fn elems(p: PIn, i: int, acc: VTyped) -> Result<(VTyped, int), Fail>
    decreases p.ts.len() - i,
{
    if i < 0 || i > p.ts.len() {
        Err(Fail::Abort)
    } else if peek(p, i) == Tok::RBracket {
        Ok((acc, i + 1))
    } else {
        match read_elem(p, i, acc) {
            Err(f) => Err(f),
            Ok((acc2, j)) => match arr_sep(p, j) {
                Err(f) => Err(f),
                Ok(k) => if k <= i || k > p.ts.len() {
                    Err(Fail::Abort)
                } else {
                    elems(p, k, acc2)
                },
            },
        }
    }
}

/// A typed array whose `[` is token `i`.
pub open spec fn typed_array(p: PIn, i: int, id: Seq<char>) -> Result<(V, int), Fail> {
    match expect(p, i, Tok::LBracket) {
        Err(f) => Err(f),
        Ok(j) => if typed_array_ident(id) {
            match elems(p, j, empty_typed(id)) {
                Ok((t, k)) => Ok((V::TypedArray(t), k)),
                Err(f) => Err(f),
            }
        } else {
            Err(fail_at(p, j, "unsupported typed array"@))
        },
    }
}

/// The message of the error `Uuid::parse_str` gives for a text it refuses.
pub open spec fn uuid_error_at(p: PIn, k: int, s: Seq<char>) -> Fail {
    fail_at(p, k, "invalid uuid: "@ + crate::json::uuid_error_text(s))
}

/// The text of a `bytes(...)` literal without its `base64:` prefix.
pub open spec fn base64_payload(s: Seq<char>) -> Seq<char> {
    if "base64:"@.is_prefix_of(s) {
        s.subrange("base64:"@.len() as int, s.len() as int)
    } else {
        s
    }
}

/// The optional `, scale: n` of a decimal literal.
pub open spec fn decimal_scale(p: PIn, k: int) -> Result<(u32, int), Fail> {
    if peek(p, k) == Tok::Comma {
        match parse_key(p, k + 1) {
            Err(f) => Err(f),
            Ok((key, k2)) => if key != "scale"@ {
                Err(fail_at(p, k2, "expected scale"@))
            } else {
                match expect(p, k2, Tok::Colon) {
                    Err(f) => Err(f),
                    Ok(k3) => match parse_int_lit(p, k3) {
                        Err(f) => Err(f),
                        Ok((n, k4)) => Ok((n as u32, k4)),
                    },
                }
            },
        }
    } else {
        Ok((0u32, k))
    }
}

pub open spec fn decimal_body(p: PIn, j: int) -> Result<(V, int), Fail> {
    match parse_string(p, j) {
        Err(f) => Err(f),
        Ok((text, k)) => match decimal_scale(p, k) {
            Err(f) => Err(f),
            Ok((scale, k2)) => match scaled_decimal(text, scale) {
                Ok(y) => Ok((V::Decimal(y, scale), k2)),
                Err(Some(m)) => Err(Fail::At(Diag { message: m, line: 1, column: 1 })),
                Err(None) => Err(Fail::Abort),
            },
        },
    }
}

pub open spec fn money_body(p: PIn, j: int) -> Result<(V, int), Fail> {
    match parse_string(p, j) {
        Err(f) => Err(f),
        Ok((cur, k)) => match expect(p, k, Tok::Comma) {
            Err(f) => Err(f),
            Ok(k2) => match parse_int_lit(p, k2) {
                Err(f) => Err(f),
                Ok((scaled, k3)) => match expect(p, k3, Tok::Comma) {
                    Err(f) => Err(f),
                    Ok(k4) => match parse_key(p, k4) {
                        Err(f) => Err(f),
                        Ok((key, k5)) => if key != "scale"@ {
                            Err(fail_at(p, k5, "expected scale"@))
                        } else {
                            match expect(p, k5, Tok::Colon) {
                                Err(f) => Err(f),
                                Ok(k6) => match parse_int_lit(p, k6) {
                                    Err(f) => Err(f),
                                    Ok((n, k7)) => Ok((V::Money(cur, scaled, n as u32), k7)),
                                },
                            }
                        },
                    },
                },
            },
        },
    }
}

/// A string argument wrapped by `make`.
pub open spec fn string_lit(p: PIn, j: int, id: Seq<char>) -> Result<(V, int), Fail> {
    match parse_string(p, j) {
        Err(f) => Err(f),
        Ok((s, k)) => Ok((
            if id == "timestamp"@ {
                V::Timestamp(s)
            } else if id == "date"@ {
                V::Date(s)
            } else if id == "duration"@ {
                V::Duration(s)
            } else if id == "url"@ {
                V::Url(s)
            } else if id == "email"@ {
                V::Email(s)
            } else {
                V::Reference(s)
            },
            k,
        )),
    }
}

/// The body of a typed literal `id(...)`, from token `j` after `(`.
pub open spec fn literal_body(p: PIn, j: int, id: Seq<char>) -> Result<(V, int), Fail> {
    if id == "uuid"@ {
        match parse_string(p, j) {
            Err(f) => Err(f),
            Ok((s, k)) => match uuid_parsed(s) {
                Some(b) => Ok((V::Uuid(b), k)),
                None => Err(uuid_error_at(p, k, s)),
            },
        }
    } else if id == "timestamp"@ || id == "date"@ || id == "duration"@ || id == "url"@ || id == "email"@
        || id == "ref"@ {
        string_lit(p, j, id)
    } else if id == "bytes"@ {
        match parse_string(p, j) {
            Err(f) => Err(f),
            Ok((s, k)) => match b64_bytes(base64_payload(s)) {
                Some(b) => Ok((V::Bytes(b), k)),
                None => Err(
                    fail_at(p, k, "invalid base64: "@ + crate::json::b64_error_text(base64_payload(s))),
                ),
            },
        }
    } else if id == "decimal"@ {
        decimal_body(p, j)
    } else if id == "money"@ {
        money_body(p, j)
    } else {
        Err(fail_at(p, j, "unsupported typed literal '"@ + id + "'"@))
    }
}

/// A typed literal whose `(` is token `i`.
pub open spec fn typed_literal(p: PIn, i: int, id: Seq<char>) -> Result<(V, int), Fail> {
    match expect(p, i, Tok::LParen) {
        Err(f) => Err(f),
        Ok(j) => match literal_body(p, j, id) {
            Err(f) => Err(f),
            Ok((v, k)) => match expect(p, k, Tok::RParen) {
                Ok(k2) => Ok((v, k2)),
                Err(f) => Err(f),
            },
        },
    }
}

/// A value starting at token `i`, and the index after it.
pub open spec fn parse_value(p: PIn, i: int) -> Result<(V, int), Fail>
    decreases p.ts.len() - i, 2int,
{
    if i < 0 || i > p.ts.len() {
        Err(Fail::Abort)
    } else {
        match peek(p, i) {
            Tok::LBrace => match parse_object(p, i) {
                Ok((fs, j)) => Ok((V::Object(fs), j)),
                Err(f) => Err(f),
            },
            Tok::LBracket => match parse_array(p, i) {
                Ok((xs, j)) => Ok((V::Array(xs), j)),
                Err(f) => Err(f),
            },
            Tok::Str(s) => Ok((V::String(s), i + 1)),
            Tok::Number(n) => match number_value(p, n) {
                Ok(v) => Ok((v, i + 1)),
                Err(Some(m)) => Err(fail_at(p, i + 1, m)),
                Err(None) => Err(Fail::Abort),
            },
            Tok::Identifier(id) => if id == "null"@ {
                Ok((V::Null, i + 1))
            } else if id == "true"@ {
                Ok((V::Bool(true), i + 1))
            } else if id == "false"@ {
                Ok((V::Bool(false), i + 1))
            } else if peek(p, i + 1) == Tok::LParen {
                typed_literal(p, i + 1, id)
            } else if peek(p, i + 1) == Tok::LBracket && typed_array_ident(id) {
                typed_array(p, i + 1, id)
            } else {
                Ok((V::String(id), i + 1))
            },
            t => Err(fail_at(p, i, "unexpected token "@ + tok_debug(t))),
        }
    }
}

/// An object whose `{` is token `i`.
pub open spec fn parse_object(p: PIn, i: int) -> Result<(Seq<(Seq<char>, V)>, int), Fail>
    decreases p.ts.len() - i, 1int,
{
    if peek(p, i) == Tok::LBrace {
        obj_rest(p, i + 1, Seq::empty())
    } else {
        Err(fail_at(p, i, "expected LBrace"@))
    }
}

/// The entries of an object from token `i` to its closing brace, added to
/// `acc`; a repeated key is refused.
pub open spec fn obj_rest(p: PIn, i: int, acc: Seq<(Seq<char>, V)>) -> Result<(Seq<(Seq<char>, V)>, int), Fail>
    decreases p.ts.len() - i, 0int,
{
    if i < 0 || i > p.ts.len() {
        Err(Fail::Abort)
    } else if peek(p, i) == Tok::RBrace {
        Ok((acc, i + 1))
    } else {
        match parse_key(p, i) {
            Err(f) => Err(f),
            Ok((k, j)) => if peek(p, j) != Tok::Colon {
                Err(fail_at(p, j, "expected Colon"@))
            } else {
                match parse_value(p, j + 1) {
                    Err(f) => Err(f),
                    Ok((v, j3)) => if has_key(acc, k) {
                        Err(fail_at(p, j3, "duplicate key '"@ + k + "'"@))
                    } else if peek(p, j3) == Tok::Comma {
                        if peek(p, j3 + 1) == Tok::RBrace {
                            Ok((insert_entry(acc, k, v), j3 + 2))
                        } else if j3 <= i {
                            Err(Fail::Abort)
                        } else {
                            obj_rest(p, j3 + 1, insert_entry(acc, k, v))
                        }
                    } else if peek(p, j3) == Tok::RBrace {
                        Ok((insert_entry(acc, k, v), j3 + 1))
                    } else {
                        Err(fail_at(p, j3, "expected ',' or '}'"@))
                    },
                }
            },
        }
    }
}

/// An array whose `[` is token `i`.
pub open spec fn parse_array(p: PIn, i: int) -> Result<(Seq<V>, int), Fail>
    decreases p.ts.len() - i, 1int,
{
    if peek(p, i) == Tok::LBracket {
        arr_rest(p, i + 1, Seq::empty())
    } else {
        Err(fail_at(p, i, "expected LBracket"@))
    }
}

/// The items of an array from token `i` to its closing bracket.
pub open spec fn arr_rest(p: PIn, i: int, acc: Seq<V>) -> Result<(Seq<V>, int), Fail>
    decreases p.ts.len() - i, 3int,
{
    if i < 0 || i > p.ts.len() {
        Err(Fail::Abort)
    } else if peek(p, i) == Tok::RBracket {
        Ok((acc, i + 1))
    } else {
        match parse_value(p, i) {
            Err(f) => Err(f),
            Ok((v, j)) => if peek(p, j) == Tok::Comma {
                if peek(p, j + 1) == Tok::RBracket {
                    Ok((acc.push(v), j + 2))
                } else if j <= i {
                    Err(Fail::Abort)
                } else {
                    arr_rest(p, j + 1, acc.push(v))
                }
            } else if peek(p, j) == Tok::RBracket {
                Ok((acc.push(v), j + 1))
            } else {
                Err(fail_at(p, j, "expected ',' or ']'"@))
            },
        }
    }
}

/// Skips a name token after a keyword such as `table` or `message`.
pub open spec fn skip_name(p: PIn, j: int) -> int {
    if peek(p, j) is Identifier {
        j + 1
    } else {
        j
    }
}

/// The column that a parsed column value gives.
pub open spec fn column_of(v: V) -> Option<VColumn> {
    match v {
        V::TypedArray(t) => Some(VColumn::Typed(t)),
        V::Array(xs) => Some(VColumn::Values(xs)),
        _ => None,
    }
}

/// The columns of a table from token `i` to its closing brace; a repeated
/// name replaces the earlier column.
pub open spec fn cols_rest(p: PIn, i: int, acc: Seq<(Seq<char>, VColumn)>) -> Result<
    (Seq<(Seq<char>, VColumn)>, int),
    Fail,
>
    decreases p.ts.len() - i,
{
    if i < 0 || i > p.ts.len() {
        Err(Fail::Abort)
    } else if peek(p, i) == Tok::RBrace {
        Ok((acc, i + 1))
    } else {
        match parse_key(p, i) {
            Err(f) => Err(f),
            Ok((k, j)) => match expect(p, j, Tok::Colon) {
                Err(f) => Err(f),
                Ok(j2) => match parse_value(p, j2) {
                    Err(f) => Err(f),
                    Ok((v, j3)) => match column_of(v) {
                        None => Err(fail_at(p, j3, "table column must be array or typed array"@)),
                        Some(c) => if peek(p, j3) == Tok::Comma {
                            if peek(p, j3 + 1) == Tok::RBrace {
                                Ok((insert_entry(acc, k, c), j3 + 2))
                            } else if j3 <= i || j3 >= p.ts.len() {
                                Err(Fail::Abort)
                            } else {
                                cols_rest(p, j3 + 1, insert_entry(acc, k, c))
                            }
                        } else if peek(p, j3) == Tok::RBrace {
                            Ok((insert_entry(acc, k, c), j3 + 1))
                        } else {
                            Err(fail_at(p, j3, "expected ',' or '}'"@))
                        },
                    },
                },
            },
        }
    }
}

/// `table [name] { column: array, ... }` from token `i`.
pub open spec fn parse_table(p: PIn, i: int) -> Result<(V, int), Fail> {
    match expect_ident(p, i, "table"@) {
        Err(f) => Err(f),
        Ok(j) => match expect(p, skip_name(p, j), Tok::LBrace) {
            Err(f) => Err(f),
            Ok(j2) => match cols_rest(p, j2, Seq::empty()) {
                Ok((cs, k)) => Ok((V::Table(cs), k)),
                Err(f) => Err(f),
            },
        },
    }
}

/// `message [name] { ... }` from token `i`: version 1, the object's entries
/// as both fields and payload.
pub open spec fn parse_message(p: PIn, i: int) -> Result<(V, int), Fail> {
    match expect_ident(p, i, "message"@) {
        Err(f) => Err(f),
        Ok(j) => match parse_object(p, skip_name(p, j)) {
            Err(f) => Err(f),
            Ok((fs, k)) => Ok((
                V::Message(
                    VMessage {
                        sx_version: 1,
                        message_id: None,
                        message_type: None,
                        schema: None,
                        timestamp: None,
                        logical_hash: None,
                        fields: fs,
                        payload: Some(Box::new(V::Object(fs))),
                    },
                ),
                k,
            )),
        },
    }
}

/// The arguments of a delta operation after its path (token `k` on).
pub open spec fn op_args(p: PIn, k: int, kind: DeltaOpKind, path: Seq<Seg>) -> Result<(VOp, int), Fail> {
    match kind {
        DeltaOpKind::Remove | DeltaOpKind::Clear => Ok(
            (VOp { kind, path, value: None, from: None, index: None }, k),
        ),
        DeltaOpKind::Increment | DeltaOpKind::Decrement => match expect_ident(p, k, "by"@) {
            Err(f) => Err(f),
            Ok(k1) => match parse_value(p, k1) {
                Err(f) => Err(f),
                Ok((v, k2)) => Ok((VOp { kind, path, value: Some(v), from: None, index: None }, k2)),
            },
        },
        DeltaOpKind::Insert => match expect_ident(p, k, "at"@) {
            Err(f) => Err(f),
            Ok(k1) => match parse_int_lit(p, k1) {
                Err(f) => Err(f),
                Ok((n, k2)) => match parse_value(p, k2) {
                    Err(f) => Err(f),
                    Ok((v, k3)) => Ok(
                        (VOp { kind, path, value: Some(v), from: None, index: Some(n as usize) }, k3),
                    ),
                },
            },
        },
        DeltaOpKind::Move | DeltaOpKind::Copy => match expect_ident(p, k, "from"@) {
            Err(f) => Err(f),
            Ok(k1) => match peek(p, k1) {
                Tok::Path(q) => match spec_parse_path(q) {
                    None => Err(fail_at(p, k1 + 1, "path must start with '/'"@)),
                    Some(src) => Ok((VOp { kind, path, value: None, from: Some(src), index: None }, k1 + 1)),
                },
                _ => Err(fail_at(p, k1, "expected source path"@)),
            },
        },
        _ => {
            let k1 = if peek(p, k) == Tok::Eq {
                k + 1
            } else {
                k
            };
            match parse_value(p, k1) {
                Err(f) => Err(f),
                Ok((v, k2)) => Ok((VOp { kind, path, value: Some(v), from: None, index: None }, k2)),
            }
        },
    }
}

/// One delta operation from token `i`: its name, its path and arguments.
pub open spec fn delta_op(p: PIn, i: int) -> Result<(VOp, int), Fail> {
    match parse_ident(p, i) {
        Err(f) => Err(f),
        Ok((name, j)) => match kind_of(name) {
            None => Err(fail_at(p, j, "invalid delta op"@)),
            Some(kind) => match peek(p, j) {
                Tok::Path(pt) => match spec_parse_path(pt) {
                    None => Err(fail_at(p, j + 1, "path must start with '/'"@)),
                    Some(path) => op_args(p, j + 1, kind, path),
                },
                _ => Err(fail_at(p, j, "delta op requires path"@)),
            },
        },
    }
}

/// The operations of a delta from token `i` to its closing brace; commas
/// between them are optional.
pub open spec fn ops_rest(p: PIn, i: int, acc: Seq<VOp>) -> Result<(Seq<VOp>, int), Fail>
    decreases p.ts.len() - i,
{
    if i < 0 || i > p.ts.len() {
        Err(Fail::Abort)
    } else if peek(p, i) == Tok::RBrace {
        Ok((acc, i + 1))
    } else {
        match delta_op(p, i) {
            Err(f) => Err(f),
            Ok((op, e)) => {
                let nx = if peek(p, e) == Tok::Comma {
                    e + 1
                } else {
                    e
                };
                if nx <= i || nx > p.ts.len() {
                    Err(Fail::Abort)
                } else {
                    ops_rest(p, nx, acc.push(op))
                }
            },
        }
    }
}

/// The optional `from hash("...")` of a delta, from token `j`.
pub open spec fn delta_from(p: PIn, j: int) -> Result<(Option<Seq<char>>, int), Fail> {
    if peek(p, j) == Tok::Identifier("from"@) {
        match expect_ident(p, j + 1, "hash"@) {
            Err(f) => Err(f),
            Ok(j2) => match expect(p, j2, Tok::LParen) {
                Err(f) => Err(f),
                Ok(j3) => match parse_string(p, j3) {
                    Err(f) => Err(f),
                    Ok((h, j4)) => match expect(p, j4, Tok::RParen) {
                        Err(f) => Err(f),
                        Ok(j5) => Ok((Some(h), j5)),
                    },
                },
            },
        }
    } else {
        Ok((None, j))
    }
}

/// `delta [from hash("...")] { op, ... }` from token `i`.
pub open spec fn parse_delta(p: PIn, i: int) -> Result<(V, int), Fail> {
    match expect_ident(p, i, "delta"@) {
        Err(f) => Err(f),
        Ok(j) => match delta_from(p, j) {
            Err(f) => Err(f),
            Ok((from, j2)) => match expect(p, j2, Tok::LBrace) {
                Err(f) => Err(f),
                Ok(k) => match ops_rest(p, k, Seq::empty()) {
                    Err(f) => Err(f),
                    Ok((ops, e)) => Ok((V::Delta(from, ops), e)),
                },
            },
        },
    }
}

/// The `@hint` names before a schema field, from token `i`.
pub open spec fn hints(p: PIn, i: int, acc: Seq<Seq<char>>) -> Result<(Seq<Seq<char>>, int), Fail>
    decreases p.ts.len() - i,
{
    if i < 0 || i > p.ts.len() {
        Err(Fail::Abort)
    } else if peek(p, i) == Tok::At {
        match peek(p, i + 1) {
            Tok::Identifier(h) => hints(p, i + 2, acc.push(h)),
            _ => Err(fail_at(p, i + 1, "expected identifier"@)),
        }
    } else {
        Ok((acc, i))
    }
}

/// The hint names as string values.
pub open spec fn hint_values(hs: Seq<Seq<char>>) -> Seq<V> {
    hs.map_values(|h: Seq<char>| V::String(h))
}

/// The object describing one schema field.
pub open spec fn field_object(id: i64, name: Seq<char>, ty: Seq<char>, optional: bool, hs: Seq<Seq<char>>) -> V {
    let o0: Seq<(Seq<char>, V)> = Seq::empty();
    let o1 = insert_entry(o0, "id"@, V::I64(id));
    let o2 = insert_entry(o1, "name"@, V::String(name));
    let o3 = insert_entry(o2, "type"@, V::String(ty));
    let o4 = insert_entry(o3, "optional"@, V::Bool(optional));
    V::Object(insert_entry(o4, "hints"@, V::Array(hint_values(hs))))
}

/// The field id: a number token, else one more than the fields so far.
pub open spec fn field_id(p: PIn, j: int, count: nat) -> Result<(i64, int), Fail> {
    match peek(p, j) {
        Tok::Number(n) => match spec_parse_i64(n) {
            Some(x) => Ok((x, j + 1)),
            None => Err(fail_at(p, j, "invalid schema field id"@)),
        },
        _ => Ok(((count + 1) as i64, j)),
    }
}

/// One schema field from token `i`: hints, id, name, `?`, `:` and type.
pub open spec fn schema_field(p: PIn, i: int, count: nat) -> Result<(V, int), Fail> {
    match hints(p, i, Seq::empty()) {
        Err(f) => Err(f),
        Ok((hs, j)) => match field_id(p, j, count) {
            Err(f) => Err(f),
            Ok((id, j1)) => match parse_key(p, j1) {
                Err(f) => Err(f),
                Ok((name, j2)) => {
                    let optional = peek(p, j2) == Tok::Question;
                    let j3 = if optional {
                        j2 + 1
                    } else {
                        j2
                    };
                    match expect(p, j3, Tok::Colon) {
                        Err(f) => Err(f),
                        Ok(j4) => match peek(p, j4) {
                            Tok::Identifier(ty) => Ok((field_object(id, name, ty, optional, hs), j4 + 1)),
                            _ => Err(fail_at(p, j4, "schema field type expected"@)),
                        },
                    }
                },
            },
        },
    }
}

/// The fields of a schema from token `i` to its closing brace.
pub open spec fn fields_rest(p: PIn, i: int, acc: Seq<V>) -> Result<(Seq<V>, int), Fail>
    decreases p.ts.len() - i,
{
    if i < 0 || i > p.ts.len() {
        Err(Fail::Abort)
    } else if peek(p, i) == Tok::RBrace {
        Ok((acc, i + 1))
    } else {
        match schema_field(p, i, acc.len()) {
            Err(f) => Err(f),
            Ok((fv, e)) => {
                let nx = if peek(p, e) == Tok::Comma {
                    e + 1
                } else {
                    e
                };
                if nx <= i || nx > p.ts.len() {
                    Err(Fail::Abort)
                } else {
                    fields_rest(p, nx, acc.push(fv))
                }
            },
        }
    }
}

/// The version after a schema's name: `vN`, else 1.
pub open spec fn schema_version(p: PIn, j: int) -> Result<(i64, int), Fail> {
    match peek(p, j) {
        Tok::Identifier(v) => if v.len() > 0 && v[0] == 'v' {
            match spec_parse_i64(v.drop_first()) {
                Some(n) => Ok((n, j + 1)),
                None => Err(fail_at(p, j, "invalid schema version"@)),
            }
        } else {
            Ok((1, j))
        },
        _ => Ok((1, j)),
    }
}

/// `schema Name [vN] { fields }` from token `i`, as an object with the
/// name, the version and the field objects.
pub open spec fn parse_schema(p: PIn, i: int) -> Result<(V, int), Fail> {
    match expect_ident(p, i, "schema"@) {
        Err(f) => Err(f),
        Ok(j) => match parse_ident(p, j) {
            Err(f) => Err(f),
            Ok((name, j1)) => match schema_version(p, j1) {
                Err(f) => Err(f),
                Ok((ver, j2)) => match expect(p, j2, Tok::LBrace) {
                    Err(f) => Err(f),
                    Ok(k) => match fields_rest(p, k, Seq::empty()) {
                        Err(f) => Err(f),
                        Ok((fields, e)) => {
                            let o0: Seq<(Seq<char>, V)> = Seq::empty();
                            let o1 = insert_entry(o0, "$schema_name"@, V::String(name));
                            let o2 = insert_entry(o1, "$schema_version"@, V::I64(ver));
                            Ok((V::Object(insert_entry(o2, "$fields"@, V::Array(fields))), e))
                        },
                    },
                },
            },
        },
    }
}

/// A document: a message, table, delta or schema by its first word, else a
/// value.
pub open spec fn parse_root(p: PIn) -> Result<(V, int), Fail> {
    match peek(p, 0) {
        Tok::Identifier(id) => if id == "message"@ {
            parse_message(p, 0)
        } else if id == "table"@ {
            parse_table(p, 0)
        } else if id == "delta"@ {
            parse_delta(p, 0)
        } else if id == "schema"@ {
            parse_schema(p, 0)
        } else {
            parse_value(p, 0)
        },
        _ => parse_value(p, 0),
    }
}

/// The value of SX text given as UTF-8 bytes, with the given float readings:
/// lexing errors are reported at 1:1; anything after the document is
/// refused.
pub open spec fn text_parse(b: Seq<u8>, rs: Seq<(Seq<char>, Result<(u64, u32), Seq<char>>)>) -> Result<V, Fail> {
    match lex(b) {
        Err(m) => Err(Fail::At(Diag { message: m, line: 1, column: 1 })),
        Ok(ts) => {
            let p = PIn { ts, rs };
            match parse_root(p) {
                Err(f) => Err(f),
                Ok((v, j)) => if peek(p, j) == Tok::Eof {
                    Ok(v)
                } else {
                    Err(fail_at(p, j, "unexpected trailing tokens"@))
                },
            }
        },
    }
}

// ---------------------------------------------------------------------------
// Executable parser
// ---------------------------------------------------------------------------

/// Punctuation tokens.
#[derive(Clone, Copy)]
pub enum Punct {
    LBrace,
    RBrace,
    LBracket,
    RBracket,
    LParen,
    RParen,
    Colon,
    Comma,
    Eq,
    Question,
    At,
}

pub open spec fn punct_tok(k: Punct) -> Tok {
    match k {
        Punct::LBrace => Tok::LBrace,
        Punct::RBrace => Tok::RBrace,
        Punct::LBracket => Tok::LBracket,
        Punct::RBracket => Tok::RBracket,
        Punct::LParen => Tok::LParen,
        Punct::RParen => Tok::RParen,
        Punct::Colon => Tok::Colon,
        Punct::Comma => Tok::Comma,
        Punct::Eq => Tok::Eq,
        Punct::Question => Tok::Question,
        Punct::At => Tok::At,
    }
}

pub open spec fn str_res(r: Result<(String, usize), ParseFail>, s: Result<(Seq<char>, int), Fail>) -> bool {
    match s {
        Ok((x, j)) => (r matches Ok((y, k)) && y@ == x && k == j),
        Err(f) => (r matches Err(e) && fail_is(e, f)),
    }
}

pub open spec fn int_res(r: Result<(i64, usize), ParseFail>, s: Result<(i64, int), Fail>) -> bool {
    match s {
        Ok((x, j)) => (r matches Ok((y, k)) && y == x && k == j),
        Err(f) => (r matches Err(e) && fail_is(e, f)),
    }
}

pub open spec fn float_res(r: Result<((u64, u32), usize), ParseFail>, s: Result<((u64, u32), int), Fail>) -> bool {
    match s {
        Ok((x, j)) => (r matches Ok((y, k)) && y == x && k == j),
        Err(f) => (r matches Err(e) && fail_is(e, f)),
    }
}

pub open spec fn idx_res(r: Result<usize, ParseFail>, s: Result<int, Fail>) -> bool {
    match s {
        Ok(j) => (r matches Ok(k) && k == j),
        Err(f) => (r matches Err(e) && fail_is(e, f)),
    }
}

pub open spec fn val_res(r: Result<(SxValue, usize), ParseFail>, s: Result<(V, int), Fail>) -> bool {
    match s {
        Ok((x, j)) => (r matches Ok((y, k)) && dv(y) == x && k == j),
        Err(f) => (r matches Err(e) && fail_is(e, f)),
    }
}

pub open spec fn fields_res(r: Result<(Vec<(String, SxValue)>, usize), ParseFail>, s: Result<(Seq<(Seq<char>, V)>, int), Fail>) -> bool {
    match s {
        Ok((x, j)) => (r matches Ok((y, k)) && dv_fields(y@) == x && k == j),
        Err(f) => (r matches Err(e) && fail_is(e, f)),
    }
}

pub open spec fn vals_res(r: Result<(Vec<SxValue>, usize), ParseFail>, s: Result<(Seq<V>, int), Fail>) -> bool {
    match s {
        Ok((x, j)) => (r matches Ok((y, k)) && dv_vals(y@) == x && k == j),
        Err(f) => (r matches Err(e) && fail_is(e, f)),
    }
}

/// Ok results end after the start and within the tokens.
pub open spec fn advances<T>(r: Result<(T, usize), ParseFail>, i: int, n: int) -> bool {
    r matches Ok((_, k)) ==> i < k <= n
}

fn cat(a: &str, b: &str) -> (r: String)
    ensures
        r@ == a@ + b@,
{
    let mut m = a.to_owned();
    m.append(b);
    m
}

fn cat3(a: &str, b: &str, c: &str) -> (r: String)
    ensures
        r@ == a@ + b@ + c@,
{
    let mut m = a.to_owned();
    m.append(b);
    m.append(c);
    m
}

fn punct_name(k: Punct) -> (r: &'static str)
    ensures
        r@ == tok_debug(punct_tok(k)),
{
    match k {
        Punct::LBrace => "LBrace",
        Punct::RBrace => "RBrace",
        Punct::LBracket => "LBracket",
        Punct::RBracket => "RBracket",
        Punct::LParen => "LParen",
        Punct::RParen => "RParen",
        Punct::Colon => "Colon",
        Punct::Comma => "Comma",
        Punct::Eq => "Eq",
        Punct::Question => "Question",
        Punct::At => "At",
    }
}

/// The `Debug` text of a token kind.
fn kind_debug(k: &TokenKind) -> (r: String)
    ensures
        r@ == tok_debug(k.view_tok()),
{
    match k {
        TokenKind::LBrace => "LBrace".to_owned(),
        TokenKind::RBrace => "RBrace".to_owned(),
        TokenKind::LBracket => "LBracket".to_owned(),
        TokenKind::RBracket => "RBracket".to_owned(),
        TokenKind::LParen => "LParen".to_owned(),
        TokenKind::RParen => "RParen".to_owned(),
        TokenKind::Colon => "Colon".to_owned(),
        TokenKind::Comma => "Comma".to_owned(),
        TokenKind::Eq => "Eq".to_owned(),
        TokenKind::Question => "Question".to_owned(),
        TokenKind::At => "At".to_owned(),
        TokenKind::Identifier(s) => cat3("Identifier(", debug_quote(s.as_str()).as_str(), ")"),
        TokenKind::String(s) => cat3("String(", debug_quote(s.as_str()).as_str(), ")"),
        TokenKind::Number(s) => cat3("Number(", debug_quote(s.as_str()).as_str(), ")"),
        TokenKind::Path(s) => cat3("Path(", debug_quote(s.as_str()).as_str(), ")"),
        TokenKind::Eof => "Eof".to_owned(),
    }
}

/// True when `n` holds `.`, `e` or `E`.
fn has_float_mark(n: &str) -> (r: bool)
    ensures
        r == float_mark(n@),
{
    let len = n.unicode_len();
    let mut i: usize = 0;
    while i < len
        invariant
            i <= len,
            len == n@.len(),
            forall|k: int| 0 <= k < i ==> n@[k] != '.' && n@[k] != 'e' && n@[k] != 'E',
        decreases len - i,
    {
        let c = n.get_char(i);
        if c == '.' || c == 'e' || c == 'E' {
            proof {
                if c == '.' {
                    assert(n@.contains('.'));
                } else if c == 'e' {
                    assert(n@.contains('e'));
                } else {
                    assert(n@.contains('E'));
                }
            }
            return true;
        }
        i += 1;
    }
    false
}

/// True when `p` is a prefix of `s`.
fn starts_with(s: &str, p: &str) -> (r: bool)
    ensures
        r == p@.is_prefix_of(s@),
{
    let n = s.unicode_len();
    let m = p.unicode_len();
    if m > n {
        return false;
    }
    let mut i: usize = 0;
    while i < m
        invariant
            i <= m <= n,
            n == s@.len(),
            m == p@.len(),
            forall|j: int| 0 <= j < i ==> s@[j] == p@[j],
        decreases m - i,
    {
        if s.get_char(i) != p.get_char(i) {
            return false;
        }
        i += 1;
    }
    true
}

struct Parser<'a> {
    ts: &'a Vec<Token>,
    rs: &'a Vec<FloatReading>,
}

impl<'a> Parser<'a> {
    spec fn pin(&self) -> PIn {
        PIn { ts: tokens_view(self.ts@), rs: readings_view(self.rs@) }
    }

    spec fn n(&self) -> int {
        self.ts@.len() as int
    }

    fn kind_at(&self, i: usize) -> (r: Option<&TokenKind>)
        ensures
            match r {
                Some(k) => i < self.ts@.len() && k.view_tok() == peek(self.pin(), i as int),
                None => i >= self.ts@.len() && peek(self.pin(), i as int) == Tok::Eof,
            },
            self.ts@.len() <= usize::MAX,
    {
        if i < self.ts.len() {
            Some(&self.ts[i].kind)
        } else {
            None
        }
    }

    fn peek_is(&self, i: usize, want: Punct) -> (r: bool)
        ensures
            r == (peek(self.pin(), i as int) == punct_tok(want)),
            r ==> i < self.ts@.len(),
            self.ts@.len() <= usize::MAX,
    {
        match self.kind_at(i) {
            None => false,
            Some(k) => match (k, want) {
                (TokenKind::LBrace, Punct::LBrace) => true,
                (TokenKind::RBrace, Punct::RBrace) => true,
                (TokenKind::LBracket, Punct::LBracket) => true,
                (TokenKind::RBracket, Punct::RBracket) => true,
                (TokenKind::LParen, Punct::LParen) => true,
                (TokenKind::RParen, Punct::RParen) => true,
                (TokenKind::Colon, Punct::Colon) => true,
                (TokenKind::Comma, Punct::Comma) => true,
                (TokenKind::Eq, Punct::Eq) => true,
                (TokenKind::Question, Punct::Question) => true,
                (TokenKind::At, Punct::At) => true,
                _ => false,
            },
        }
    }

    fn is_eof(&self, i: usize) -> (r: bool)
        ensures
            r == (peek(self.pin(), i as int) == Tok::Eof),
    {
        match self.kind_at(i) {
            None => true,
            Some(TokenKind::Eof) => true,
            Some(_) => false,
        }
    }

    fn ident_is(&self, i: usize, e: &str) -> (r: bool)
        ensures
            r == (peek(self.pin(), i as int) == Tok::Identifier(e@)),
            r ==> i < self.ts@.len(),
            self.ts@.len() <= usize::MAX,
    {
        match self.kind_at(i) {
            Some(TokenKind::Identifier(s)) => str_equal(s.as_str(), e),
            _ => false,
        }
    }

    fn fail(&self, i: usize, m: String) -> (r: ParseFail)
        ensures
            fail_is(r, fail_at(self.pin(), i as int, m@)),
    {
        let n = self.ts.len();
        if i < n {
            ParseFail::At(ParseDiagnostic { message: m, line: self.ts[i].line, column: self.ts[i].column, path: None })
        } else if n > 0 {
            ParseFail::At(
                ParseDiagnostic { message: m, line: self.ts[n - 1].line, column: self.ts[n - 1].column, path: None },
            )
        } else {
            ParseFail::At(ParseDiagnostic { message: m, line: 1, column: 1, path: None })
        }
    }

    fn expect(&self, i: usize, k: Punct) -> (r: Result<usize, ParseFail>)
        requires
            i <= self.ts@.len(),
        ensures
            idx_res(r, expect(self.pin(), i as int, punct_tok(k))),
            r matches Ok(j) ==> j == i + 1 && j <= self.ts@.len(),
            self.ts@.len() <= usize::MAX,
    {
        if self.peek_is(i, k) {
            Ok(i + 1)
        } else {
            Err(self.fail(i, cat("expected ", punct_name(k))))
        }
    }

    fn expect_ident(&self, i: usize, e: &str) -> (r: Result<usize, ParseFail>)
        requires
            i <= self.ts@.len(),
        ensures
            idx_res(r, expect_ident(self.pin(), i as int, e@)),
            r matches Ok(j) ==> j == i + 1 && j <= self.ts@.len(),
    {
        if self.ident_is(i, e) {
            Ok(i + 1)
        } else {
            Err(self.fail(i, cat3("expected identifier '", e, "'")))
        }
    }

    fn parse_key(&self, i: usize) -> (r: Result<(String, usize), ParseFail>)
        ensures
            str_res(r, parse_key(self.pin(), i as int)),
            r matches Ok((_, j)) ==> j == i + 1 && j <= self.ts@.len(),
    {
        match self.kind_at(i) {
            Some(TokenKind::Identifier(s)) => Ok((s.clone(), i + 1)),
            Some(TokenKind::String(s)) => Ok((s.clone(), i + 1)),
            _ => Err(self.fail(i, "expected object key".to_owned())),
        }
    }

    fn parse_ident(&self, i: usize) -> (r: Result<(String, usize), ParseFail>)
        ensures
            str_res(r, parse_ident(self.pin(), i as int)),
            r matches Ok((_, j)) ==> j == i + 1 && j <= self.ts@.len(),
    {
        match self.kind_at(i) {
            Some(TokenKind::Identifier(s)) => Ok((s.clone(), i + 1)),
            _ => Err(self.fail(i, "expected identifier".to_owned())),
        }
    }

    fn parse_string(&self, i: usize) -> (r: Result<(String, usize), ParseFail>)
        ensures
            str_res(r, parse_string(self.pin(), i as int)),
            r matches Ok((_, j)) ==> j == i + 1 && j <= self.ts@.len(),
    {
        match self.kind_at(i) {
            Some(TokenKind::String(s)) => Ok((s.clone(), i + 1)),
            _ => Err(self.fail(i, "expected string".to_owned())),
        }
    }

    fn parse_int_lit(&self, i: usize) -> (r: Result<(i64, usize), ParseFail>)
        ensures
            int_res(r, parse_int_lit(self.pin(), i as int)),
            r matches Ok((_, j)) ==> j == i + 1 && j <= self.ts@.len(),
    {
        match self.kind_at(i) {
            Some(TokenKind::Number(n)) => match parse_i64(n.as_str()) {
                Ok(v) => Ok((v, i + 1)),
                Err(m) => Err(self.fail(i + 1, cat("invalid integer: ", m.as_str()))),
            },
            _ => Err(self.fail(i, "expected integer".to_owned())),
        }
    }

    /// The reading supplied for `t`.
    fn reading_for(&self, t: &str) -> (r: Option<Result<(u64, u32), String>>)
        ensures
            match reading_of(self.pin().rs, t@) {
                None => r is None,
                Some(Ok(b)) => (r matches Some(Ok(c)) && c == b),
                Some(Err(m)) => (r matches Some(Err(e)) && e@ == m),
            },
    {
        let ghost rv = readings_view(self.rs@);
        assert(rv.skip(0) =~= rv);
        let mut k: usize = 0;
        while k < self.rs.len()
            invariant
                k <= self.rs@.len(),
                rv == readings_view(self.rs@),
                rv.len() == self.rs@.len(),
                reading_of(rv, t@) == reading_of(rv.skip(k as int), t@),
            decreases self.rs.len() - k,
        {
            assert(rv.skip(k as int)[0] == reading_view(self.rs@[k as int]));
            if str_equal(self.rs[k].text.as_str(), t) {
                return match &self.rs[k].reading {
                    Ok(b) => Some(Ok(*b)),
                    Err(m) => Some(Err(m.clone())),
                };
            }
            assert(rv.skip(k as int).drop_first() =~= rv.skip(k + 1));
            k += 1;
        }
        None
    }

    fn parse_float_lit(&self, i: usize) -> (r: Result<((u64, u32), usize), ParseFail>)
        ensures
            float_res(r, parse_float_lit(self.pin(), i as int)),
            r matches Ok((_, j)) ==> j == i + 1 && j <= self.ts@.len(),
    {
        match self.kind_at(i) {
            Some(TokenKind::Number(n)) => match self.reading_for(n.as_str()) {
                Some(Ok(b)) => Ok((b, i + 1)),
                Some(Err(m)) => Err(self.fail(i + 1, cat("invalid float: ", m.as_str()))),
                None => Err(ParseFail::Abort),
            },
            _ => Err(self.fail(i, "expected float".to_owned())),
        }
    }

    /// The value of the number literal `n` at token `i`.
    fn number_at(&self, i: usize, n: &str) -> (r: Result<(SxValue, usize), ParseFail>)
        requires
            i < self.ts@.len() <= usize::MAX,
            peek(self.pin(), i as int) == Tok::Number(n@),
        ensures
            val_res(r, parse_value(self.pin(), i as int)),
            advances(r, i as int, self.n()),
    {
        if has_float_mark(n) {
            match self.reading_for(n) {
                Some(Ok(b)) => Ok((SxValue::F64(b.0), i + 1)),
                Some(Err(m)) => Err(self.fail(i + 1, cat("invalid float: ", m.as_str()))),
                None => Err(ParseFail::Abort),
            }
        } else {
            match parse_i64(n) {
                Ok(v) => Ok((SxValue::I64(v), i + 1)),
                Err(m) => Err(self.fail(i + 1, cat("invalid int: ", m.as_str()))),
            }
        }
    }
}

/// The typed array of element kind `mode` (0 `u8`, 1 `i32`, 2 `f32`,
/// 3 `f64`, 4 `bool`) from the element vectors.
pub open spec fn typed_view(mode: u8, a: Seq<u8>, b: Seq<i32>, c: Seq<u32>, d: Seq<u64>, e: Seq<bool>) -> VTyped {
    if mode == 0 {
        VTyped::U8(a)
    } else if mode == 1 {
        VTyped::I32(b)
    } else if mode == 2 {
        VTyped::F32(c)
    } else if mode == 3 {
        VTyped::F64(d)
    } else {
        VTyped::Bool(e)
    }
}

impl<'a> Parser<'a> {
    fn parse_value(&self, i: usize) -> (r: Result<(SxValue, usize), ParseFail>)
        requires
            i <= self.ts@.len(),
        ensures
            val_res(r, parse_value(self.pin(), i as int)),
            advances(r, i as int, self.n()),
        decreases self.ts@.len() - i, 2nat,
    {
        match self.kind_at(i) {
            Some(TokenKind::LBrace) => match self.parse_object(i) {
                Ok((fs, j)) => Ok((SxValue::Object(fs), j)),
                Err(e) => Err(e),
            },
            Some(TokenKind::LBracket) => match self.parse_array(i) {
                Ok((xs, j)) => Ok((SxValue::Array(xs), j)),
                Err(e) => Err(e),
            },
            Some(TokenKind::String(s)) => Ok((SxValue::String(s.clone()), i + 1)),
            Some(TokenKind::Number(n)) => self.number_at(i, n.as_str()),
            Some(TokenKind::Identifier(id)) => {
                if str_equal(id.as_str(), "null") {
                    Ok((SxValue::Null, i + 1))
                } else if str_equal(id.as_str(), "true") {
                    Ok((SxValue::Bool(true), i + 1))
                } else if str_equal(id.as_str(), "false") {
                    Ok((SxValue::Bool(false), i + 1))
                } else if self.peek_is(i + 1, Punct::LParen) {
                    self.typed_literal(i + 1, id.as_str())
                } else if self.peek_is(i + 1, Punct::LBracket) && is_typed_array_name(id.as_str()) {
                    self.typed_array(i + 1, id.as_str())
                } else {
                    Ok((SxValue::String(id.clone()), i + 1))
                }
            },
            Some(k) => Err(self.fail(i, cat("unexpected token ", kind_debug(k).as_str()))),
            None => Err(self.fail(i, cat("unexpected token ", "Eof"))),
        }
    }

    fn parse_object(&self, i: usize) -> (r: Result<(Vec<(String, SxValue)>, usize), ParseFail>)
        requires
            i <= self.ts@.len(),
        ensures
            fields_res(r, parse_object(self.pin(), i as int)),
            advances(r, i as int, self.n()),
            r matches Ok((fs, _)) ==> sorted_keys(dv_fields(fs@)),
        decreases self.ts@.len() - i, 1nat,
    {
        if !self.peek_is(i, Punct::LBrace) {
            return Err(self.fail(i, "expected LBrace".to_owned()));
        }
        let mut out: Vec<(String, SxValue)> = Vec::new();
        let mut k: usize = i + 1;
        loop
            invariant
                i < k <= self.ts@.len() <= usize::MAX,
                parse_object(self.pin(), i as int) == obj_rest(self.pin(), k as int, dv_fields(out@)),
                sorted_keys(dv_fields(out@)),
            decreases self.ts@.len() - k,
        {
            if self.peek_is(k, Punct::RBrace) {
                return Ok((out, k + 1));
            }
            let (key, j) = match self.parse_key(k) {
                Ok(x) => x,
                Err(e) => {
                    return Err(e);
                },
            };
            if !self.peek_is(j, Punct::Colon) {
                return Err(self.fail(j, "expected Colon".to_owned()));
            }
            let (v, j3) = match self.parse_value(j + 1) {
                Ok(x) => x,
                Err(e) => {
                    return Err(e);
                },
            };
            proof {
                lemma_dv_fields(out@);
            }
            match find_key(&out, key.as_str()) {
                Some(idx) => {
                    proof {
                        assert(dv_fields(out@)[idx as int].0 == key@);
                    }
                    return Err(self.fail(j3, cat3("duplicate key '", key.as_str(), "'")));
                },
                None => {
                    proof {
                        assert(!has_key(dv_fields(out@), key@));
                    }
                },
            }
            insert_field(&mut out, key, v);
            if self.peek_is(j3, Punct::Comma) {
                if self.peek_is(j3 + 1, Punct::RBrace) {
                    return Ok((out, j3 + 2));
                }
                k = j3 + 1;
            } else if self.peek_is(j3, Punct::RBrace) {
                return Ok((out, j3 + 1));
            } else {
                return Err(self.fail(j3, "expected ',' or '}'".to_owned()));
            }
        }
    }

    fn parse_array(&self, i: usize) -> (r: Result<(Vec<SxValue>, usize), ParseFail>)
        requires
            i <= self.ts@.len(),
        ensures
            vals_res(r, parse_array(self.pin(), i as int)),
            advances(r, i as int, self.n()),
        decreases self.ts@.len() - i, 1nat,
    {
        if !self.peek_is(i, Punct::LBracket) {
            return Err(self.fail(i, "expected LBracket".to_owned()));
        }
        let mut out: Vec<SxValue> = Vec::new();
        let mut k: usize = i + 1;
        assert(dv_vals(out@) =~= Seq::<V>::empty());
        loop
            invariant
                i < k <= self.ts@.len() <= usize::MAX,
                parse_array(self.pin(), i as int) == arr_rest(self.pin(), k as int, dv_vals(out@)),
            decreases self.ts@.len() - k,
        {
            if self.peek_is(k, Punct::RBracket) {
                return Ok((out, k + 1));
            }
            let (v, j) = match self.parse_value(k) {
                Ok(x) => x,
                Err(e) => {
                    return Err(e);
                },
            };
            let ghost before = out@;
            out.push(v);
            assert(out@.drop_last() =~= before);
            if self.peek_is(j, Punct::Comma) {
                if self.peek_is(j + 1, Punct::RBracket) {
                    return Ok((out, j + 2));
                }
                k = j + 1;
            } else if self.peek_is(j, Punct::RBracket) {
                return Ok((out, j + 1));
            } else {
                return Err(self.fail(j, "expected ',' or ']'".to_owned()));
            }
        }
    }

    fn typed_array(&self, i: usize, id: &str) -> (r: Result<(SxValue, usize), ParseFail>)
        requires
            i <= self.ts@.len(),
        ensures
            val_res(r, typed_array(self.pin(), i as int, id@)),
            advances(r, i as int, self.n()),
    {
        let j0 = match self.expect(i, Punct::LBracket) {
            Ok(x) => x,
            Err(e) => {
                return Err(e);
            },
        };
        let mode: u8 = if str_equal(id, "u8") {
            0
        } else if str_equal(id, "i32") {
            1
        } else if str_equal(id, "f32") {
            2
        } else if str_equal(id, "f64") {
            3
        } else if str_equal(id, "bool") {
            4
        } else {
            return Err(self.fail(i + 1, "unsupported typed array".to_owned()));
        };
        let mut a: Vec<u8> = Vec::new();
        let mut b: Vec<i32> = Vec::new();
        let mut c: Vec<u32> = Vec::new();
        let mut d: Vec<u64> = Vec::new();
        let mut e: Vec<bool> = Vec::new();
        assert(empty_typed(id@) == typed_view(mode, a@, b@, c@, d@, e@));
        let mut k: usize = j0;
        loop
            invariant
                i < k <= self.ts@.len() <= usize::MAX,
                mode <= 4,
                typed_array(self.pin(), i as int, id@) == (match elems(self.pin(), k as int, typed_view(mode, a@, b@, c@, d@, e@)) {
                    Ok((t, j)) => Ok::<(V, int), Fail>((V::TypedArray(t), j)),
                    Err(f) => Err(f),
                }),
            decreases self.ts@.len() - k,
        {
            if self.peek_is(k, Punct::RBracket) {
                let t = if mode == 0 {
                    SxTypedArray::U8(a)
                } else if mode == 1 {
                    SxTypedArray::I32(b)
                } else if mode == 2 {
                    SxTypedArray::F32(c)
                } else if mode == 3 {
                    SxTypedArray::F64(d)
                } else {
                    SxTypedArray::Bool(e)
                };
                return Ok((SxValue::TypedArray(t), k + 1));
            }
            let j: usize;
            if mode <= 1 {
                let (n, j1) = match self.parse_int_lit(k) {
                    Ok(x) => x,
                    Err(f) => {
                        return Err(f);
                    },
                };
                if mode == 0 {
                    a.push(n as u8);
                } else {
                    b.push(n as i32);
                }
                j = j1;
            } else if mode <= 3 {
                let (bits, j1) = match self.parse_float_lit(k) {
                    Ok(x) => x,
                    Err(f) => {
                        return Err(f);
                    },
                };
                if mode == 2 {
                    c.push(bits.1);
                } else {
                    d.push(bits.0);
                }
                j = j1;
            } else {
                if self.ident_is(k, "true") {
                    e.push(true);
                } else if self.ident_is(k, "false") {
                    e.push(false);
                } else {
                    return Err(self.fail(k, "expected true/false in bool[]".to_owned()));
                }
                j = k + 1;
            }
            if self.peek_is(j, Punct::Comma) {
                k = j + 1;
            } else if self.peek_is(j, Punct::RBracket) {
                k = j;
            } else {
                return Err(self.fail(j, "expected ',' or ']'".to_owned()));
            }
        }
    }
}

fn is_typed_array_name(id: &str) -> (r: bool)
    ensures
        r == typed_array_ident(id@),
{
    str_equal(id, "u8") || str_equal(id, "i32") || str_equal(id, "f32") || str_equal(id, "f64") || str_equal(id, "bool")
}

impl<'a> Parser<'a> {
    fn typed_literal(&self, i: usize, id: &str) -> (r: Result<(SxValue, usize), ParseFail>)
        requires
            i <= self.ts@.len(),
        ensures
            val_res(r, typed_literal(self.pin(), i as int, id@)),
            advances(r, i as int, self.n()),
    {
        let j0 = match self.expect(i, Punct::LParen) {
            Ok(x) => x,
            Err(e) => {
                return Err(e);
            },
        };
        let (v, k) = match self.literal_body(j0, id) {
            Ok(x) => x,
            Err(e) => {
                return Err(e);
            },
        };
        match self.expect(k, Punct::RParen) {
            Ok(k2) => Ok((v, k2)),
            Err(e) => Err(e),
        }
    }

    fn literal_body(&self, j: usize, id: &str) -> (r: Result<(SxValue, usize), ParseFail>)
        requires
            j <= self.ts@.len(),
        ensures
            val_res(r, literal_body(self.pin(), j as int, id@)),
            advances(r, j as int, self.n()),
    {
        if str_equal(id, "uuid") {
            let (s, k) = match self.parse_string(j) {
                Ok(x) => x,
                Err(e) => {
                    return Err(e);
                },
            };
            match uuid_parse(s.as_str()) {
                Ok(b) => Ok((SxValue::Uuid(b), k)),
                Err(m) => Err(self.fail(k, cat("invalid uuid: ", m.as_str()))),
            }
        } else if str_equal(id, "timestamp") || str_equal(id, "date") || str_equal(id, "duration") || str_equal(
            id,
            "url",
        ) || str_equal(id, "email") || str_equal(id, "ref") {
            let (s, k) = match self.parse_string(j) {
                Ok(x) => x,
                Err(e) => {
                    return Err(e);
                },
            };
            let v = if str_equal(id, "timestamp") {
                SxValue::Timestamp(s)
            } else if str_equal(id, "date") {
                SxValue::Date(s)
            } else if str_equal(id, "duration") {
                SxValue::Duration(s)
            } else if str_equal(id, "url") {
                SxValue::Url(s)
            } else if str_equal(id, "email") {
                SxValue::Email(s)
            } else {
                SxValue::Reference(ReferenceValue { target: s })
            };
            Ok((v, k))
        } else if str_equal(id, "bytes") {
            let (s, k) = match self.parse_string(j) {
                Ok(x) => x,
                Err(e) => {
                    return Err(e);
                },
            };
            let payload = if starts_with(s.as_str(), "base64:") {
                let cs = str_chars(s.as_str());
                slice_string(&cs, "base64:".unicode_len(), cs.len())
            } else {
                s
            };
            match base64_decode(payload.as_str()) {
                Ok(b) => Ok((SxValue::Bytes(b), k)),
                Err(m) => Err(self.fail(k, cat("invalid base64: ", m.as_str()))),
            }
        } else if str_equal(id, "decimal") {
            self.decimal_body(j)
        } else if str_equal(id, "money") {
            self.money_body(j)
        } else {
            Err(self.fail(j, cat3("unsupported typed literal '", id, "'")))
        }
    }

    fn decimal_body(&self, j: usize) -> (r: Result<(SxValue, usize), ParseFail>)
        requires
            j <= self.ts@.len(),
        ensures
            val_res(r, decimal_body(self.pin(), j as int)),
            advances(r, j as int, self.n()),
    {
        let (text, k) = match self.parse_string(j) {
            Ok(x) => x,
            Err(e) => {
                return Err(e);
            },
        };
        let (scale, k2): (u32, usize) = if self.peek_is(k, Punct::Comma) {
            let (key, k1) = match self.parse_key(k + 1) {
                Ok(x) => x,
                Err(e) => {
                    return Err(e);
                },
            };
            if !str_equal(key.as_str(), "scale") {
                return Err(self.fail(k1, "expected scale".to_owned()));
            }
            let k3 = match self.expect(k1, Punct::Colon) {
                Ok(x) => x,
                Err(e) => {
                    return Err(e);
                },
            };
            let (n, k4) = match self.parse_int_lit(k3) {
                Ok(x) => x,
                Err(e) => {
                    return Err(e);
                },
            };
            (n as u32, k4)
        } else {
            (0u32, k)
        };
        assert(decimal_scale(self.pin(), k as int) == Ok::<(u32, int), Fail>((scale, k2 as int)));
        match scaled_decimal_exec(text.as_str(), scale) {
            Ok(y) => Ok((SxValue::Decimal(DecimalValue { scaled: y, scale }), k2)),
            Err(e) => Err(e),
        }
    }

    fn money_body(&self, j: usize) -> (r: Result<(SxValue, usize), ParseFail>)
        requires
            j <= self.ts@.len(),
        ensures
            val_res(r, money_body(self.pin(), j as int)),
            advances(r, j as int, self.n()),
    {
        let (cur, k) = match self.parse_string(j) {
            Ok(x) => x,
            Err(e) => {
                return Err(e);
            },
        };
        let k2 = match self.expect(k, Punct::Comma) {
            Ok(x) => x,
            Err(e) => {
                return Err(e);
            },
        };
        let (scaled, k3) = match self.parse_int_lit(k2) {
            Ok(x) => x,
            Err(e) => {
                return Err(e);
            },
        };
        let k4 = match self.expect(k3, Punct::Comma) {
            Ok(x) => x,
            Err(e) => {
                return Err(e);
            },
        };
        let (key, k5) = match self.parse_key(k4) {
            Ok(x) => x,
            Err(e) => {
                return Err(e);
            },
        };
        if !str_equal(key.as_str(), "scale") {
            return Err(self.fail(k5, "expected scale".to_owned()));
        }
        let k6 = match self.expect(k5, Punct::Colon) {
            Ok(x) => x,
            Err(e) => {
                return Err(e);
            },
        };
        let (n, k7) = match self.parse_int_lit(k6) {
            Ok(x) => x,
            Err(e) => {
                return Err(e);
            },
        };
        Ok((SxValue::Money(MoneyValue { currency: cur, scaled, scale: n as u32 }), k7))
    }
}

pub open spec fn op_res(r: Result<(DeltaOp, usize), ParseFail>, s: Result<(VOp, int), Fail>) -> bool {
    match s {
        Ok((x, j)) => (r matches Ok((y, k)) && crate::value::dv_op(y) == x && k == j),
        Err(f) => (r matches Err(e) && fail_is(e, f)),
    }
}

impl<'a> Parser<'a> {
    /// Skips a name token after a keyword.
    fn skip_name(&self, j: usize) -> (r: usize)
        requires
            j <= self.ts@.len(),
        ensures
            r == skip_name(self.pin(), j as int),
            r <= self.ts@.len(),
    {
        match self.kind_at(j) {
            Some(TokenKind::Identifier(_)) => j + 1,
            _ => j,
        }
    }

    fn parse_table(&self, i: usize) -> (r: Result<(SxValue, usize), ParseFail>)
        requires
            i <= self.ts@.len(),
        ensures
            val_res(r, parse_table(self.pin(), i as int)),
            advances(r, i as int, self.n()),
    {
        let j = match self.expect_ident(i, "table") {
            Ok(x) => x,
            Err(e) => {
                return Err(e);
            },
        };
        let j1 = self.skip_name(j);
        let j2 = match self.expect(j1, Punct::LBrace) {
            Ok(x) => x,
            Err(e) => {
                return Err(e);
            },
        };
        let mut out: Vec<(String, SxColumn)> = Vec::new();
        let mut k: usize = j2;
        assert(dv_columns(out@) =~= Seq::<(Seq<char>, VColumn)>::empty());
        loop
            invariant
                i < k <= self.ts@.len() <= usize::MAX,
                parse_table(self.pin(), i as int) == (match cols_rest(self.pin(), k as int, dv_columns(out@)) {
                    Ok((cs, e)) => Ok::<(V, int), Fail>((V::Table(cs), e)),
                    Err(f) => Err(f),
                }),
                sorted_keys(dv_columns(out@)),
            decreases self.ts@.len() - k,
        {
            if self.peek_is(k, Punct::RBrace) {
                return Ok((SxValue::Table(SxTable { columns: out }), k + 1));
            }
            let (name, j3) = match self.parse_key(k) {
                Ok(x) => x,
                Err(e) => {
                    return Err(e);
                },
            };
            let j4 = match self.expect(j3, Punct::Colon) {
                Ok(x) => x,
                Err(e) => {
                    return Err(e);
                },
            };
            let (v, j5) = match self.parse_value(j4) {
                Ok(x) => x,
                Err(e) => {
                    return Err(e);
                },
            };
            let col = match v {
                SxValue::TypedArray(t) => SxColumn::Typed(t),
                SxValue::Array(xs) => SxColumn::Values(xs),
                _ => {
                    return Err(self.fail(j5, "table column must be array or typed array".to_owned()));
                },
            };
            insert_column(&mut out, name, col);
            if self.peek_is(j5, Punct::Comma) {
                if self.peek_is(j5 + 1, Punct::RBrace) {
                    return Ok((SxValue::Table(SxTable { columns: out }), j5 + 2));
                }
                k = j5 + 1;
            } else if self.peek_is(j5, Punct::RBrace) {
                return Ok((SxValue::Table(SxTable { columns: out }), j5 + 1));
            } else {
                return Err(self.fail(j5, "expected ',' or '}'".to_owned()));
            }
        }
    }

    fn parse_message(&self, i: usize) -> (r: Result<(SxValue, usize), ParseFail>)
        requires
            i <= self.ts@.len(),
        ensures
            val_res(r, parse_message(self.pin(), i as int)),
            advances(r, i as int, self.n()),
    {
        let j = match self.expect_ident(i, "message") {
            Ok(x) => x,
            Err(e) => {
                return Err(e);
            },
        };
        let j1 = self.skip_name(j);
        let (fs, k) = match self.parse_object(j1) {
            Ok(x) => x,
            Err(e) => {
                return Err(e);
            },
        };
        let copy = crate::copy::copy_fields(&fs);
        let m = MessageEnvelope {
            sx_version: 1,
            message_id: None,
            message_type: None,
            schema: None,
            timestamp: None,
            logical_hash: None,
            fields: copy,
            payload: Some(Box::new(SxValue::Object(fs))),
        };
        let r = SxValue::Message(m);
        proof {
            let pv = V::Message(
                VMessage {
                    sx_version: 1,
                    message_id: None,
                    message_type: None,
                    schema: None,
                    timestamp: None,
                    logical_hash: None,
                    fields: dv_fields(fs@),
                    payload: Some(Box::new(V::Object(dv_fields(fs@)))),
                },
            );
            assert(dv(SxValue::Object(fs)) == V::Object(dv_fields(fs@)));
            assert(dv(r) == pv);
        }
        Ok((r, k))
    }

    fn parse_op_path(&self, j: usize, msg: &str) -> (r: Result<SxPath, ParseFail>)
        requires
            j <= self.ts@.len(),
        ensures
            match peek(self.pin(), j as int) {
                Tok::Path(q) => match spec_parse_path(q) {
                    Some(x) => (r matches Ok(y) && y@ == x),
                    None => (r matches Err(e) && fail_is(e, fail_at(self.pin(), j + 1, "path must start with '/'"@))),
                },
                _ => (r matches Err(e) && fail_is(e, fail_at(self.pin(), j as int, msg@))),
            },
            r is Ok ==> j < self.ts@.len() <= usize::MAX,
    {
        match self.kind_at(j) {
            Some(TokenKind::Path(q)) => match SxPath::parse(q.as_str()) {
                Ok(x) => Ok(x),
                Err(e) => Err(self.fail(j + 1, e.message)),
            },
            _ => Err(self.fail(j, msg.to_owned())),
        }
    }

    fn op_args(&self, k: usize, kind: DeltaOpKind, path: SxPath) -> (r: Result<(DeltaOp, usize), ParseFail>)
        requires
            1 <= k <= self.ts@.len(),
        ensures
            op_res(r, op_args(self.pin(), k as int, kind, path@)),
            r matches Ok((_, e)) ==> k <= e <= self.ts@.len(),
    {
        match kind {
            DeltaOpKind::Remove | DeltaOpKind::Clear => Ok(
                (DeltaOp { kind, path, value: None, from: None, index: None }, k),
            ),
            DeltaOpKind::Increment | DeltaOpKind::Decrement => {
                let k1 = match self.expect_ident(k, "by") {
                    Ok(x) => x,
                    Err(e) => {
                        return Err(e);
                    },
                };
                match self.parse_value(k1) {
                    Ok((v, k2)) => Ok((DeltaOp { kind, path, value: Some(v), from: None, index: None }, k2)),
                    Err(e) => Err(e),
                }
            },
            DeltaOpKind::Insert => {
                let k1 = match self.expect_ident(k, "at") {
                    Ok(x) => x,
                    Err(e) => {
                        return Err(e);
                    },
                };
                let (n, k2) = match self.parse_int_lit(k1) {
                    Ok(x) => x,
                    Err(e) => {
                        return Err(e);
                    },
                };
                match self.parse_value(k2) {
                    Ok((v, k3)) => Ok(
                        (DeltaOp { kind, path, value: Some(v), from: None, index: Some(n as usize) }, k3),
                    ),
                    Err(e) => Err(e),
                }
            },
            DeltaOpKind::Move | DeltaOpKind::Copy => {
                let k1 = match self.expect_ident(k, "from") {
                    Ok(x) => x,
                    Err(e) => {
                        return Err(e);
                    },
                };
                match self.parse_op_path(k1, "expected source path") {
                    Ok(src) => Ok((DeltaOp { kind, path, value: None, from: Some(src), index: None }, k1 + 1)),
                    Err(e) => Err(e),
                }
            },
            _ => {
                let k1 = if self.peek_is(k, Punct::Eq) {
                    k + 1
                } else {
                    k
                };
                match self.parse_value(k1) {
                    Ok((v, k2)) => Ok((DeltaOp { kind, path, value: Some(v), from: None, index: None }, k2)),
                    Err(e) => Err(e),
                }
            },
        }
    }

    fn delta_op(&self, i: usize) -> (r: Result<(DeltaOp, usize), ParseFail>)
        requires
            i <= self.ts@.len(),
        ensures
            op_res(r, delta_op(self.pin(), i as int)),
            r matches Ok((_, e)) ==> i < e <= self.ts@.len(),
    {
        let (name, j) = match self.parse_ident(i) {
            Ok(x) => x,
            Err(e) => {
                return Err(e);
            },
        };
        let kind = match crate::json_read::kind_from_text(name.as_str()) {
            Some(k) => k,
            None => {
                return Err(self.fail(j, "invalid delta op".to_owned()));
            },
        };
        let path = match self.parse_op_path(j, "delta op requires path") {
            Ok(p) => p,
            Err(e) => {
                return Err(e);
            },
        };
        self.op_args(j + 1, kind, path)
    }

    fn delta_from(&self, j: usize) -> (r: Result<(Option<String>, usize), ParseFail>)
        requires
            j <= self.ts@.len(),
        ensures
            match delta_from(self.pin(), j as int) {
                Ok((h, k)) => (r matches Ok((x, e)) && crate::value::opt_str(x) == h && e == k),
                Err(f) => (r matches Err(e) && fail_is(e, f)),
            },
            r matches Ok((_, e)) ==> j <= e <= self.ts@.len(),
    {
        if self.ident_is(j, "from") {
            let j2 = match self.expect_ident(j + 1, "hash") {
                Ok(x) => x,
                Err(e) => {
                    return Err(e);
                },
            };
            let j3 = match self.expect(j2, Punct::LParen) {
                Ok(x) => x,
                Err(e) => {
                    return Err(e);
                },
            };
            let (h, j4) = match self.parse_string(j3) {
                Ok(x) => x,
                Err(e) => {
                    return Err(e);
                },
            };
            match self.expect(j4, Punct::RParen) {
                Ok(j5) => Ok((Some(h), j5)),
                Err(e) => Err(e),
            }
        } else {
            Ok((None, j))
        }
    }

    fn parse_delta(&self, i: usize) -> (r: Result<(SxValue, usize), ParseFail>)
        requires
            i <= self.ts@.len(),
        ensures
            val_res(r, parse_delta(self.pin(), i as int)),
            advances(r, i as int, self.n()),
    {
        let j = match self.expect_ident(i, "delta") {
            Ok(x) => x,
            Err(e) => {
                return Err(e);
            },
        };
        let (from, j2) = match self.delta_from(j) {
            Ok(x) => x,
            Err(e) => {
                return Err(e);
            },
        };
        let k0 = match self.expect(j2, Punct::LBrace) {
            Ok(x) => x,
            Err(e) => {
                return Err(e);
            },
        };
        let mut ops: Vec<DeltaOp> = Vec::new();
        let mut k: usize = k0;
        assert(dv_ops(ops@) =~= Seq::<VOp>::empty());
        loop
            invariant
                i < k <= self.ts@.len() <= usize::MAX,
                delta_from(self.pin(), j as int) == Ok::<(Option<Seq<char>>, int), Fail>((crate::value::opt_str(from), j2 as int)),
                parse_delta(self.pin(), i as int) == (match ops_rest(self.pin(), k as int, dv_ops(ops@)) {
                    Ok((os, e)) => Ok::<(V, int), Fail>((V::Delta(crate::value::opt_str(from), os), e)),
                    Err(f) => Err(f),
                }),
            decreases self.ts@.len() - k,
        {
            if self.peek_is(k, Punct::RBrace) {
                return Ok((SxValue::Delta(DeltaDocument { from_hash: from, ops }), k + 1));
            }
            let (op, e) = match self.delta_op(k) {
                Ok(x) => x,
                Err(f) => {
                    return Err(f);
                },
            };
            proof {
                crate::value_ops::lemma_dv_ops(ops@);
            }
            let ghost before = ops@;
            ops.push(op);
            proof {
                assert(ops@.drop_last() =~= before);
            }
            k = if self.peek_is(e, Punct::Comma) {
                e + 1
            } else {
                e
            };
        }
    }
}

pub open spec fn strings_view(v: Seq<String>) -> Seq<Seq<char>> {
    v.map_values(|x: String| x@)
}

/// The hint names as string values.
fn hint_array(hs: &Vec<String>) -> (r: Vec<SxValue>)
    ensures
        dv_vals(r@) == hint_values(strings_view(hs@)),
{
    let mut out: Vec<SxValue> = Vec::new();
    let mut i: usize = 0;
    while i < hs.len()
        invariant
            i <= hs@.len(),
            out@.len() == i,
            forall|k: int| 0 <= k < i ==> dv(#[trigger] out@[k]) == V::String(hs@[k]@),
        decreases hs.len() - i,
    {
        out.push(SxValue::String(hs[i].clone()));
        i += 1;
    }
    proof {
        lemma_dv_vals(out@);
        assert(dv_vals(out@) =~= hint_values(strings_view(hs@)));
    }
    out
}

impl<'a> Parser<'a> {
    fn hints(&self, i: usize) -> (r: Result<(Vec<String>, usize), ParseFail>)
        requires
            i <= self.ts@.len(),
        ensures
            match hints(self.pin(), i as int, Seq::empty()) {
                Ok((hs, k)) => (r matches Ok((x, e)) && strings_view(x@) == hs && e == k),
                Err(f) => (r matches Err(e) && fail_is(e, f)),
            },
            r matches Ok((_, e)) ==> i <= e <= self.ts@.len(),
    {
        let mut out: Vec<String> = Vec::new();
        let mut k: usize = i;
        assert(strings_view(out@) =~= Seq::<Seq<char>>::empty());
        loop
            invariant
                i <= k <= self.ts@.len(),
                hints(self.pin(), i as int, Seq::empty()) == hints(self.pin(), k as int, strings_view(out@)),
            decreases self.ts@.len() - k,
        {
            if !self.peek_is(k, Punct::At) {
                return Ok((out, k));
            }
            match self.kind_at(k + 1) {
                Some(TokenKind::Identifier(h)) => {
                    let ghost before = out@;
                    out.push(h.clone());
                    assert(strings_view(out@) =~= strings_view(before).push(h@));
                    k = k + 2;
                },
                _ => {
                    return Err(self.fail(k + 1, "expected identifier".to_owned()));
                },
            }
        }
    }

    fn schema_field(&self, i: usize, count: usize) -> (r: Result<(SxValue, usize), ParseFail>)
        requires
            i <= self.ts@.len(),
            count < i64::MAX,
        ensures
            val_res(r, schema_field(self.pin(), i as int, count as nat)),
            advances(r, i as int, self.n()),
            r matches Ok((_, e)) ==> e >= i + 3,
    {
        let (hs, j) = match self.hints(i) {
            Ok(x) => x,
            Err(e) => {
                return Err(e);
            },
        };
        let (id, j1): (i64, usize) = match self.kind_at(j) {
            Some(TokenKind::Number(n)) => match parse_i64(n.as_str()) {
                Ok(x) => (x, j + 1),
                Err(_) => {
                    return Err(self.fail(j, "invalid schema field id".to_owned()));
                },
            },
            _ => ((count as i64) + 1, j),
        };
        assert(field_id(self.pin(), j as int, count as nat) == Ok::<(i64, int), Fail>((id, j1 as int)));
        let (name, j2) = match self.parse_key(j1) {
            Ok(x) => x,
            Err(e) => {
                return Err(e);
            },
        };
        let optional = self.peek_is(j2, Punct::Question);
        let j3 = if optional {
            j2 + 1
        } else {
            j2
        };
        let j4 = match self.expect(j3, Punct::Colon) {
            Ok(x) => x,
            Err(e) => {
                return Err(e);
            },
        };
        let ty = match self.kind_at(j4) {
            Some(TokenKind::Identifier(t)) => t.clone(),
            _ => {
                return Err(self.fail(j4, "schema field type expected".to_owned()));
            },
        };
        let mut o: Vec<(String, SxValue)> = Vec::new();
        assert(dv_fields(o@) =~= Seq::<(Seq<char>, V)>::empty());
        insert_field(&mut o, "id".to_owned(), SxValue::I64(id));
        insert_field(&mut o, "name".to_owned(), SxValue::String(name));
        insert_field(&mut o, "type".to_owned(), SxValue::String(ty));
        insert_field(&mut o, "optional".to_owned(), SxValue::Bool(optional));
        let arr = hint_array(&hs);
        insert_field(&mut o, "hints".to_owned(), SxValue::Array(arr));
        Ok((SxValue::Object(o), j4 + 1))
    }

    fn schema_version(&self, j: usize) -> (r: Result<(i64, usize), ParseFail>)
        requires
            j <= self.ts@.len(),
        ensures
            int_res(r, schema_version(self.pin(), j as int)),
            r matches Ok((_, e)) ==> j <= e <= self.ts@.len(),
    {
        match self.kind_at(j) {
            Some(TokenKind::Identifier(v)) => {
                let cs = str_chars(v.as_str());
                if cs.len() > 0 && cs[0] == 'v' {
                    let rest = slice_string(&cs, 1, cs.len());
                    assert(rest@ =~= v@.drop_first());
                    match parse_i64(rest.as_str()) {
                        Ok(n) => Ok((n, j + 1)),
                        Err(_) => Err(self.fail(j, "invalid schema version".to_owned())),
                    }
                } else {
                    Ok((1, j))
                }
            },
            _ => Ok((1, j)),
        }
    }

    fn parse_schema(&self, i: usize) -> (r: Result<(SxValue, usize), ParseFail>)
        requires
            i <= self.ts@.len(),
        ensures
            val_res(r, parse_schema(self.pin(), i as int)),
            advances(r, i as int, self.n()),
    {
        let j = match self.expect_ident(i, "schema") {
            Ok(x) => x,
            Err(e) => {
                return Err(e);
            },
        };
        let (name, j1) = match self.parse_ident(j) {
            Ok(x) => x,
            Err(e) => {
                return Err(e);
            },
        };
        let (ver, j2) = match self.schema_version(j1) {
            Ok(x) => x,
            Err(e) => {
                return Err(e);
            },
        };
        let k0 = match self.expect(j2, Punct::LBrace) {
            Ok(x) => x,
            Err(e) => {
                return Err(e);
            },
        };
        let mut fields: Vec<SxValue> = Vec::new();
        let mut k: usize = k0;
        assert(dv_vals(fields@) =~= Seq::<V>::empty());
        loop
            invariant
                i < k <= self.ts@.len() <= usize::MAX,
                3 * fields@.len() <= k,
                parse_ident(self.pin(), j as int) == Ok::<(Seq<char>, int), Fail>((name@, j1 as int)),
                schema_version(self.pin(), j1 as int) == Ok::<(i64, int), Fail>((ver, j2 as int)),
                expect(self.pin(), j2 as int, Tok::LBrace) == Ok::<int, Fail>(k0 as int),
                expect_ident(self.pin(), i as int, "schema"@) == Ok::<int, Fail>(j as int),
                fields_rest(self.pin(), k0 as int, Seq::empty()) == fields_rest(self.pin(), k as int, dv_vals(fields@)),
            decreases self.ts@.len() - k,
        {
            if self.peek_is(k, Punct::RBrace) {
                let mut o: Vec<(String, SxValue)> = Vec::new();
                assert(dv_fields(o@) =~= Seq::<(Seq<char>, V)>::empty());
                insert_field(&mut o, "$schema_name".to_owned(), SxValue::String(name));
                insert_field(&mut o, "$schema_version".to_owned(), SxValue::I64(ver));
                insert_field(&mut o, "$fields".to_owned(), SxValue::Array(fields));
                return Ok((SxValue::Object(o), k + 1));
            }
            proof {
                lemma_dv_vals(fields@);
            }
            let (fv, e) = match self.schema_field(k, fields.len()) {
                Ok(x) => x,
                Err(f) => {
                    return Err(f);
                },
            };
            let ghost before = fields@;
            fields.push(fv);
            assert(fields@.drop_last() =~= before);
            k = if self.peek_is(e, Punct::Comma) {
                e + 1
            } else {
                e
            };
        }
    }

    fn parse_root(&self) -> (r: Result<(SxValue, usize), ParseFail>)
        ensures
            val_res(r, parse_root(self.pin())),
            advances(r, 0, self.n()),
    {
        match self.kind_at(0) {
            Some(TokenKind::Identifier(id)) => {
                if str_equal(id.as_str(), "message") {
                    self.parse_message(0)
                } else if str_equal(id.as_str(), "table") {
                    self.parse_table(0)
                } else if str_equal(id.as_str(), "delta") {
                    self.parse_delta(0)
                } else if str_equal(id.as_str(), "schema") {
                    self.parse_schema(0)
                } else {
                    self.parse_value(0)
                }
            },
            _ => self.parse_value(0),
        }
    }
}

// ---------------------------------------------------------------------------
// Public interface
// ---------------------------------------------------------------------------

/// The texts of the number tokens, in order.
pub open spec fn number_texts(ts: Seq<TokAt>) -> Seq<Seq<char>>
    decreases ts.len(),
{
    if ts.len() == 0 {
        Seq::empty()
    } else {
        match ts.last().kind {
            Tok::Number(n) => number_texts(ts.drop_last()).push(n),
            _ => number_texts(ts.drop_last()),
        }
    }
}

/// The texts of the number literals of SX text, in order: what float
/// readings are needed for.  Empty when the text does not lex.
pub fn number_literals(input: &str) -> (r: Vec<String>)
    requires
        input.spec_bytes().len() < usize::MAX,
    ensures
        match lex(input.spec_bytes()) {
            Ok(ts) => strings_view(r@) == number_texts(ts),
            Err(_) => r@.len() == 0,
        },
{
    let lx = Lexer::new(input);
    let toks = match lx.tokenize() {
        Ok(t) => t,
        Err(_) => {
            return Vec::new();
        },
    };
    let ghost tv = tokens_view(toks@);
    let mut out: Vec<String> = Vec::new();
    let mut i: usize = 0;
    assert(strings_view(out@) =~= number_texts(tv.subrange(0, 0)));
    while i < toks.len()
        invariant
            i <= toks@.len(),
            tv == tokens_view(toks@),
            strings_view(out@) == number_texts(tv.subrange(0, i as int)),
        decreases toks.len() - i,
    {
        assert(tv.subrange(0, i + 1).drop_last() =~= tv.subrange(0, i as int));
        match &toks[i].kind {
            TokenKind::Number(n) => {
                let ghost before = out@;
                out.push(n.clone());
                assert(strings_view(out@) =~= strings_view(before).push(n@));
            },
            _ => {},
        }
        i += 1;
    }
    assert(tv.subrange(0, i as int) =~= tv);
    out
}

/// Parses SX text; `None` where the parse does not return: a decimal
/// literal whose scaled value overflows `i128` or whose fraction is cut
/// inside a character, or a float literal without a reading.
pub fn try_parse_sx_text(input: &str, readings: &Vec<FloatReading>) -> (r: Option<Result<SxValue, ParseDiagnostic>>)
    requires
        input.spec_bytes().len() < usize::MAX,
    ensures
        match text_parse(input.spec_bytes(), readings_view(readings@)) {
            Ok(v) => (r matches Some(Ok(x)) && dv(x) == v),
            Err(Fail::At(d)) => (r matches Some(Err(e)) && diag_view(e) == d && e.path is None),
            Err(Fail::Abort) => r is None,
        },
{
    let lx = Lexer::new(input);
    let toks = match lx.tokenize() {
        Ok(t) => t,
        Err(m) => {
            return Some(Err(ParseDiagnostic::new(m.as_str(), 1, 1)));
        },
    };
    let p = Parser { ts: &toks, rs: readings };
    match p.parse_root() {
        Ok((v, j)) => {
            if p.is_eof(j) {
                Some(Ok(v))
            } else {
                match p.fail(j, "unexpected trailing tokens".to_owned()) {
                    ParseFail::At(d) => Some(Err(d)),
                    ParseFail::Abort => None,
                }
            }
        },
        Err(ParseFail::At(d)) => Some(Err(d)),
        Err(ParseFail::Abort) => None,
    }
}

/// The parse of SX text returns: it does not end in [`Fail::Abort`].
pub open spec fn parse_returns(input: &str, readings: Seq<FloatReading>) -> bool {
    !(text_parse(input.spec_bytes(), readings_view(readings)) matches Err(Fail::Abort))
}

/// Parses SX text and returns structured diagnostics.
pub fn parse_sx_text_with_diagnostics(input: &str, readings: &Vec<FloatReading>) -> (r: Result<SxValue, ParseDiagnostic>)
    requires
        input.spec_bytes().len() < usize::MAX,
        parse_returns(input, readings@),
    ensures
        match text_parse(input.spec_bytes(), readings_view(readings@)) {
            Ok(v) => (r matches Ok(x) && dv(x) == v),
            Err(Fail::At(d)) => (r matches Err(e) && diag_view(e) == d && e.path is None),
            Err(Fail::Abort) => false,
        },
{
    match try_parse_sx_text(input, readings) {
        Some(r) => r,
        None => Err(ParseDiagnostic::new("", 1, 1)),
    }
}

/// The message of a parse error: the diagnostic with its position.
pub open spec fn located_message(d: Diag) -> Seq<char> {
    d.message + " at "@ + decimal_text(d.line as nat) + ":"@ + decimal_text(d.column as nat)
}

/// Parses SX text into a logical SX value; a diagnostic becomes a
/// `ParseError` whose message ends with ` at line:column`.
pub fn parse_sx_text(input: &str, readings: &Vec<FloatReading>) -> (r: SxResult<SxValue>)
    requires
        input.spec_bytes().len() < usize::MAX,
        parse_returns(input, readings@),
    ensures
        match text_parse(input.spec_bytes(), readings_view(readings@)) {
            Ok(v) => (r matches Ok(x) && dv(x) == v),
            Err(Fail::At(d)) => (r matches Err(e) && e.code == SxErrorCode::ParseError
                && e.message@ == located_message(d)),
            Err(Fail::Abort) => false,
        },
        r matches Ok(x) ==> crate::delta::sorted_objects(dv(x)),
{
    proof {
        law_parsed_objects_sorted(input.spec_bytes(), readings_view(readings@));
    }
    match parse_sx_text_with_diagnostics(input, readings) {
        Ok(v) => Ok(v),
        Err(d) => {
            let mut m = d.message.clone();
            m.append(" at ");
            m.append(u64_to_decimal(d.line as u64).as_str());
            m.append(":");
            m.append(u64_to_decimal(d.column as u64).as_str());
            Err(SxError::new(SxErrorCode::ParseError, m))
        },
    }
}

// ---------------------------------------------------------------------------
// Parsed objects are sorted
// ---------------------------------------------------------------------------

/// The number of leading entries whose keys sort before `k`.
pub open spec fn pos_before<T>(s: Seq<(Seq<char>, T)>, k: Seq<char>) -> nat
    decreases s.len(),
{
    if s.len() > 0 && crate::keys::key_lt(s[0].0, k) {
        1 + pos_before(s.drop_first(), k)
    } else {
        0
    }
}

proof fn lemma_pos_before<T>(s: Seq<(Seq<char>, T)>, k: Seq<char>)
    requires
        sorted_keys(s),
    ensures
        pos_before(s, k) <= s.len(),
        forall|j: int| 0 <= j < pos_before(s, k) ==> crate::keys::key_lt(#[trigger] s[j].0, k),
        pos_before(s, k) < s.len() ==> !crate::keys::key_lt(s[pos_before(s, k) as int].0, k),
    decreases s.len(),
{
    if s.len() > 0 && crate::keys::key_lt(s[0].0, k) {
        let t = s.drop_first();
        assert(sorted_keys(t)) by {
            assert forall|a: int, b: int| 0 <= a < b < t.len() implies crate::keys::key_lt(#[trigger] t[a].0, #[trigger] t[b].0) by {
                assert(t[a] == s[a + 1] && t[b] == s[b + 1]);
            }
        }
        lemma_pos_before(t, k);
        assert forall|j: int| 0 <= j < pos_before(s, k) implies crate::keys::key_lt(#[trigger] s[j].0, k) by {
            if j > 0 {
                assert(s[j] == t[j - 1]);
            }
        }
        if pos_before(s, k) < s.len() {
            assert(s[pos_before(s, k) as int] == t[pos_before(t, k) as int]);
        }
    }
}

/// Inserting into sorted entries keeps them sorted.
pub proof fn lemma_insert_keeps_keys_sorted<T>(s: Seq<(Seq<char>, T)>, k: Seq<char>, v: T)
    requires
        sorted_keys(s),
    ensures
        sorted_keys(insert_entry(s, k, v)),
{
    lemma_pos_before(s, k);
    crate::fields::lemma_insert_sorted(s, k, v, pos_before(s, k) as int);
}

proof fn lemma_sorted_value(p: PIn, i: int)
    ensures
        parse_value(p, i) matches Ok((v, _)) ==> crate::delta::sorted_objects(v),
    decreases p.ts.len() - i, 2int,
{
    if 0 <= i <= p.ts.len() {
        match peek(p, i) {
            Tok::LBrace => lemma_sorted_object(p, i),
            Tok::LBracket => lemma_sorted_array(p, i),
            _ => {},
        }
    }
}

proof fn lemma_sorted_object(p: PIn, i: int)
    ensures
        parse_object(p, i) matches Ok((fs, _)) ==> sorted_keys(fs) && crate::delta::entries_sorted_objects(fs),
    decreases p.ts.len() - i, 1int,
{
    if peek(p, i) == Tok::LBrace {
        lemma_sorted_obj_rest(p, i + 1, Seq::empty());
    }
}

proof fn lemma_sorted_obj_rest(p: PIn, i: int, acc: Seq<(Seq<char>, V)>)
    requires
        sorted_keys(acc),
        crate::delta::entries_sorted_objects(acc),
    ensures
        obj_rest(p, i, acc) matches Ok((fs, _)) ==> sorted_keys(fs) && crate::delta::entries_sorted_objects(fs),
    decreases p.ts.len() - i, 0int,
{
    if 0 <= i <= p.ts.len() && peek(p, i) != Tok::RBrace {
        match parse_key(p, i) {
            Ok((k, j)) => if peek(p, j) == Tok::Colon {
                lemma_sorted_value(p, j + 1);
                match parse_value(p, j + 1) {
                    Ok((v, j3)) => {
                        lemma_insert_keeps_keys_sorted(acc, k, v);
                        crate::delta::lemma_insert_keeps_sorted(acc, k, v);
                        if peek(p, j3) == Tok::Comma && peek(p, j3 + 1) != Tok::RBrace && j3 > i {
                            lemma_sorted_obj_rest(p, j3 + 1, insert_entry(acc, k, v));
                        }
                    },
                    Err(_) => {},
                }
            },
            Err(_) => {},
        }
    }
}

proof fn lemma_sorted_array(p: PIn, i: int)
    ensures
        parse_array(p, i) matches Ok((xs, _)) ==> crate::delta::all_sorted_objects(xs),
    decreases p.ts.len() - i, 1int,
{
    if peek(p, i) == Tok::LBracket {
        lemma_sorted_arr_rest(p, i + 1, Seq::empty());
    }
}

proof fn lemma_sorted_arr_rest(p: PIn, i: int, acc: Seq<V>)
    requires
        crate::delta::all_sorted_objects(acc),
    ensures
        arr_rest(p, i, acc) matches Ok((xs, _)) ==> crate::delta::all_sorted_objects(xs),
    decreases p.ts.len() - i, 3int,
{
    if 0 <= i <= p.ts.len() && peek(p, i) != Tok::RBracket {
        lemma_sorted_value(p, i);
        match parse_value(p, i) {
            Ok((v, j)) => {
                assert(acc.push(v).drop_last() =~= acc);
                if peek(p, j) == Tok::Comma && peek(p, j + 1) != Tok::RBracket && j > i {
                    lemma_sorted_arr_rest(p, j + 1, acc.push(v));
                }
            },
            Err(_) => {},
        }
    }
}

/// Every object that parsing SX text gives has its keys in ascending order,
/// no key twice, at every level of arrays and objects.
pub proof fn law_parsed_objects_sorted(b: Seq<u8>, rs: Seq<(Seq<char>, Result<(u64, u32), Seq<char>>)>)
    ensures
        text_parse(b, rs) matches Ok(v) ==> crate::delta::sorted_objects(v),
{
    match lex(b) {
        Ok(ts) => {
            let p = PIn { ts, rs };
            match peek(p, 0) {
                Tok::Identifier(id) => {
                    if id == "message"@ || id == "table"@ || id == "delta"@ {
                    } else if id == "schema"@ {
                        lemma_sorted_schema(p);
                    } else {
                        lemma_sorted_value(p, 0);
                    }
                },
                _ => lemma_sorted_value(p, 0),
            }
        },
        Err(_) => {},
    }
}

proof fn lemma_field_object_sorted(id: i64, name: Seq<char>, ty: Seq<char>, optional: bool, hs: Seq<Seq<char>>)
    ensures
        crate::delta::sorted_objects(field_object(id, name, ty, optional, hs)),
{
    let o0: Seq<(Seq<char>, V)> = Seq::empty();
    let o1 = insert_entry(o0, "id"@, V::I64(id));
    let o2 = insert_entry(o1, "name"@, V::String(name));
    let o3 = insert_entry(o2, "type"@, V::String(ty));
    let o4 = insert_entry(o3, "optional"@, V::Bool(optional));
    let hv = V::Array(hint_values(hs));
    crate::delta::lemma_all_sorted_objects(hint_values(hs));
    assert forall|i: int| 0 <= i < hint_values(hs).len() implies #[trigger] crate::delta::sorted_objects(hint_values(hs)[i]) by {
        assert(hint_values(hs)[i] == V::String(hs[i]));
    }
    lemma_insert_keeps_keys_sorted(o0, "id"@, V::I64(id));
    crate::delta::lemma_insert_keeps_sorted(o0, "id"@, V::I64(id));
    lemma_insert_keeps_keys_sorted(o1, "name"@, V::String(name));
    crate::delta::lemma_insert_keeps_sorted(o1, "name"@, V::String(name));
    lemma_insert_keeps_keys_sorted(o2, "type"@, V::String(ty));
    crate::delta::lemma_insert_keeps_sorted(o2, "type"@, V::String(ty));
    lemma_insert_keeps_keys_sorted(o3, "optional"@, V::Bool(optional));
    crate::delta::lemma_insert_keeps_sorted(o3, "optional"@, V::Bool(optional));
    lemma_insert_keeps_keys_sorted(o4, "hints"@, hv);
    crate::delta::lemma_insert_keeps_sorted(o4, "hints"@, hv);
}

proof fn lemma_sorted_fields_rest(p: PIn, i: int, acc: Seq<V>)
    requires
        crate::delta::all_sorted_objects(acc),
    ensures
        fields_rest(p, i, acc) matches Ok((fs, _)) ==> crate::delta::all_sorted_objects(fs),
    decreases p.ts.len() - i,
{
    if 0 <= i <= p.ts.len() && peek(p, i) != Tok::RBrace {
        match schema_field(p, i, acc.len()) {
            Ok((fv, e)) => {
                match hints(p, i, Seq::empty()) {
                    Ok((hs, j)) => match field_id(p, j, acc.len()) {
                        Ok((id, j1)) => match parse_key(p, j1) {
                            Ok((name, j2)) => {
                                let optional = peek(p, j2) == Tok::Question;
                                let j3 = if optional { j2 + 1 } else { j2 };
                                match expect(p, j3, Tok::Colon) {
                                    Ok(j4) => match peek(p, j4) {
                                        Tok::Identifier(ty) => lemma_field_object_sorted(id, name, ty, optional, hs),
                                        _ => {},
                                    },
                                    Err(_) => {},
                                }
                            },
                            Err(_) => {},
                        },
                        Err(_) => {},
                    },
                    Err(_) => {},
                }
                assert(acc.push(fv).drop_last() =~= acc);
                let nx = if peek(p, e) == Tok::Comma { e + 1 } else { e };
                if nx > i && nx <= p.ts.len() {
                    lemma_sorted_fields_rest(p, nx, acc.push(fv));
                }
            },
            Err(_) => {},
        }
    }
}

proof fn lemma_sorted_schema(p: PIn)
    ensures
        parse_schema(p, 0) matches Ok((v, _)) ==> crate::delta::sorted_objects(v),
{
    match expect_ident(p, 0, "schema"@) {
        Ok(j) => match parse_ident(p, j) {
            Ok((name, j1)) => match schema_version(p, j1) {
                Ok((ver, j2)) => match expect(p, j2, Tok::LBrace) {
                    Ok(k) => {
                        lemma_sorted_fields_rest(p, k, Seq::empty());
                        match fields_rest(p, k, Seq::empty()) {
                            Ok((fields, e)) => {
                                let o0: Seq<(Seq<char>, V)> = Seq::empty();
                                let o1 = insert_entry(o0, "$schema_name"@, V::String(name));
                                let o2 = insert_entry(o1, "$schema_version"@, V::I64(ver));
                                lemma_insert_keeps_keys_sorted(o0, "$schema_name"@, V::String(name));
                                crate::delta::lemma_insert_keeps_sorted(o0, "$schema_name"@, V::String(name));
                                lemma_insert_keeps_keys_sorted(o1, "$schema_version"@, V::I64(ver));
                                crate::delta::lemma_insert_keeps_sorted(o1, "$schema_version"@, V::I64(ver));
                                lemma_insert_keeps_keys_sorted(o2, "$fields"@, V::Array(fields));
                                crate::delta::lemma_insert_keeps_sorted(o2, "$fields"@, V::Array(fields));
                            },
                            Err(_) => {},
                        }
                    },
                    Err(_) => {},
                },
                Err(_) => {},
            },
            Err(_) => {},
        },
        Err(_) => {},
    }
}

} // verus!
