//! Tokens of SX text.
//!
//! The lexer walks the UTF-8 bytes of the source.  Whitespace, `//` and `#`
//! line comments (a `#` followed by a digit starts a number instead) and
//! `/* */` block comments separate tokens.  Every token records the line and
//! column, both counted from 1, of its first byte.
use crate::chars::{decimal_text, string_push, u64_to_decimal};
use vstd::string::StringSliceAdditionalSpecFns;
use vstd::prelude::*;

verus! {

/// Kind of a token, with its text where it has one.
#[derive(Debug, Clone, PartialEq)]
pub enum TokenKind {
    LBrace,
    RBrace,
    LBracket,
    RBracket,
    LParen,
    RParen,
    Colon,
    Comma,
    Eq,
    Question,
    At,
    Identifier(String),
    String(String),
    Number(String),
    Path(String),
    Eof,
}

/// A token with the position of its first byte.
#[derive(Debug, Clone, PartialEq)]
pub struct Token {
    pub kind: TokenKind,
    pub line: usize,
    pub column: usize,
}

/// Lexer over the bytes of a source text.
pub struct Lexer<'a> {
    src: &'a [u8],
    i: usize,
    line: usize,
    col: usize,
}

// ---------------------------------------------------------------------------
// Specification
// ---------------------------------------------------------------------------

/// View of a token kind.
pub enum Tok {
    LBrace,
    RBrace,
    LBracket,
    RBracket,
    LParen,
    RParen,
    Colon,
    Comma,
    Eq,
    Question,
    At,
    Identifier(Seq<char>),
    Str(Seq<char>),
    Number(Seq<char>),
    Path(Seq<char>),
    Eof,
}

/// View of a token.
pub struct TokAt {
    pub kind: Tok,
    pub line: int,
    pub column: int,
}

impl TokenKind {
    pub open spec fn view_tok(&self) -> Tok {
        match self {
            TokenKind::LBrace => Tok::LBrace,
            TokenKind::RBrace => Tok::RBrace,
            TokenKind::LBracket => Tok::LBracket,
            TokenKind::RBracket => Tok::RBracket,
            TokenKind::LParen => Tok::LParen,
            TokenKind::RParen => Tok::RParen,
            TokenKind::Colon => Tok::Colon,
            TokenKind::Comma => Tok::Comma,
            TokenKind::Eq => Tok::Eq,
            TokenKind::Question => Tok::Question,
            TokenKind::At => Tok::At,
            TokenKind::Identifier(s) => Tok::Identifier(s@),
            TokenKind::String(s) => Tok::Str(s@),
            TokenKind::Number(s) => Tok::Number(s@),
            TokenKind::Path(s) => Tok::Path(s@),
            TokenKind::Eof => Tok::Eof,
        }
    }
}

impl Token {
    pub open spec fn view_token(&self) -> TokAt {
        TokAt { kind: self.kind.view_tok(), line: self.line as int, column: self.column as int }
    }
}

pub open spec fn tokens_view(ts: Seq<Token>) -> Seq<TokAt> {
    ts.map_values(|t: Token| t.view_token())
}

/// Line and column, from 1, of byte `i`: a newline starts the next line.
pub open spec fn pos(s: Seq<u8>, i: int) -> (int, int)
    decreases i,
{
    if i <= 0 {
        (1, 1)
    } else {
        let (l, c) = pos(s, i - 1);
        if s[i - 1] == 10u8 {
            (l + 1, 1)
        } else {
            (l, c + 1)
        }
    }
}

pub open spec fn is_ws(c: u8) -> bool {
    c == 32u8 || c == 9u8 || c == 10u8 || c == 13u8
}

pub open spec fn is_digit(c: u8) -> bool {
    48u8 <= c <= 57u8
}

pub open spec fn is_alpha(c: u8) -> bool {
    (65u8 <= c <= 90u8) || (97u8 <= c <= 122u8)
}

pub open spec fn is_alnum(c: u8) -> bool {
    is_alpha(c) || is_digit(c)
}

pub open spec fn is_ident_start(c: u8) -> bool {
    is_alpha(c) || c == 95u8
}

pub open spec fn is_ident_continue(c: u8) -> bool {
    is_alnum(c) || c == 95u8 || c == 46u8 || c == 45u8
}

pub open spec fn is_num_start(c: u8) -> bool {
    is_digit(c) || c == 45u8
}

pub open spec fn is_num_continue(c: u8) -> bool {
    is_digit(c) || c == 46u8 || c == 101u8 || c == 69u8 || c == 43u8 || c == 45u8
}

pub open spec fn is_path_continue(c: u8) -> bool {
    is_alnum(c) || c == 95u8 || c == 45u8 || c == 47u8 || c == 46u8
}

/// The byte at `i`, if there is one.
pub open spec fn at(s: Seq<u8>, i: int) -> Option<u8> {
    if 0 <= i < s.len() {
        Some(s[i])
    } else {
        None
    }
}

/// The first index from `i` whose byte is not whitespace.
pub open spec fn ws_end(s: Seq<u8>, i: int) -> int
    decreases s.len() - i,
{
    if i < s.len() && is_ws(s[i]) {
        ws_end(s, i + 1)
    } else {
        i
    }
}

/// The index just past the first newline from `i`, or the end.
pub open spec fn line_end(s: Seq<u8>, i: int) -> int
    decreases s.len() - i,
{
    if i >= s.len() {
        s.len() as int
    } else if s[i] == 10u8 {
        i + 1
    } else {
        line_end(s, i + 1)
    }
}

/// The index just past the first `*/` from `i`, if there is one.
pub open spec fn block_end(s: Seq<u8>, i: int) -> Option<int>
    decreases s.len() - i,
{
    if i >= s.len() {
        None
    } else if s[i] == 42u8 && at(s, i + 1) == Some(47u8) {
        Some(i + 2)
    } else {
        block_end(s, i + 1)
    }
}

/// True when a `#` at `i` starts a number rather than a comment.
pub open spec fn hash_number_at(s: Seq<u8>, i: int) -> bool {
    at(s, i + 1) matches Some(c) && is_digit(c)
}

/// The start of the next token from `i`, past whitespace and comments.
pub open spec fn skip(s: Seq<u8>, i: int) -> Result<int, Seq<char>>
    decreases s.len() - i,
{
    if i < 0 || i > s.len() {
        Ok(i)
    } else {
        let j = ws_end(s, i);
        proof {
            lemma_ws_end(s, i);
            lemma_line_end(s, j);
            lemma_block_end(s, j + 2);
        }
        if at(s, j) == Some(47u8) && at(s, j + 1) == Some(47u8) {
            skip(s, line_end(s, j))
        } else if at(s, j) == Some(35u8) && !hash_number_at(s, j) {
            skip(s, line_end(s, j))
        } else if at(s, j) == Some(47u8) && at(s, j + 1) == Some(42u8) {
            match block_end(s, j + 2) {
                Some(k) => skip(s, k),
                None => Err("unterminated block comment"@),
            }
        } else {
            Ok(j)
        }
    }
}

/// The index just past the run of bytes from `i` that satisfy `p`.
pub open spec fn run_end(s: Seq<u8>, i: int, p: spec_fn(u8) -> bool) -> int
    decreases s.len() - i,
{
    if 0 <= i < s.len() && p(s[i]) {
        run_end(s, i + 1, p)
    } else {
        i
    }
}

/// Bytes as the characters of the same code.
pub open spec fn byte_chars(b: Seq<u8>) -> Seq<char> {
    b.map_values(|c: u8| c as char)
}

/// The character an escape letter stands for.
pub open spec fn escape_char(c: u8) -> Option<char> {
    if c == 34u8 {
        Some('"')
    } else if c == 92u8 {
        Some('\\')
    } else if c == 47u8 {
        Some('/')
    } else if c == 98u8 {
        Some('\u{0008}')
    } else if c == 102u8 {
        Some('\u{000C}')
    } else if c == 110u8 {
        Some('\n')
    } else if c == 114u8 {
        Some('\r')
    } else if c == 116u8 {
        Some('\t')
    } else {
        None
    }
}

/// The body of a string literal from `i` (past the opening quote): its
/// characters, and the index past the closing quote.  Bytes other than
/// escapes stand for the character of the same code.
pub open spec fn string_body(s: Seq<u8>, i: int) -> Result<(Seq<char>, int), Seq<char>>
    decreases s.len() - i,
{
    if i < 0 || i >= s.len() {
        Err("unterminated string"@)
    } else if s[i] == 34u8 {
        Ok((Seq::empty(), i + 1))
    } else if s[i] == 92u8 {
        if i + 1 >= s.len() {
            Err("unterminated escape"@)
        } else {
            match escape_char(s[i + 1]) {
                None => Err("unsupported escape"@),
                Some(c) => match string_body(s, i + 2) {
                    Ok((rest, e)) => Ok((seq![c] + rest, e)),
                    Err(m) => Err(m),
                },
            }
        }
    } else {
        match string_body(s, i + 1) {
            Ok((rest, e)) => Ok((seq![s[i] as char] + rest, e)),
            Err(m) => Err(m),
        }
    }
}

/// The message for a byte that starts no token.
pub open spec fn unexpected(s: Seq<u8>, j: int) -> Seq<char> {
    "unexpected character '"@ + seq![s[j] as char] + "' at "@ + decimal_text(pos(s, j).0 as nat) + ":"@
        + decimal_text(pos(s, j).1 as nat)
}

pub open spec fn single(c: u8) -> Option<Tok> {
    if c == 123u8 {
        Some(Tok::LBrace)
    } else if c == 125u8 {
        Some(Tok::RBrace)
    } else if c == 91u8 {
        Some(Tok::LBracket)
    } else if c == 93u8 {
        Some(Tok::RBracket)
    } else if c == 40u8 {
        Some(Tok::LParen)
    } else if c == 41u8 {
        Some(Tok::RParen)
    } else if c == 58u8 {
        Some(Tok::Colon)
    } else if c == 44u8 {
        Some(Tok::Comma)
    } else if c == 61u8 {
        Some(Tok::Eq)
    } else {
        None
    }
}

/// The token that starts at byte `j` (which exists), and the index past it.
pub open spec fn token_at(s: Seq<u8>, j: int) -> Result<(Tok, int), Seq<char>> {
    let c = s[j];
    if single(c) is Some {
        Ok((single(c)->Some_0, j + 1))
    } else if c == 35u8 && hash_number_at(s, j) {
        let e = run_end(s, j + 1, |b: u8| is_digit(b));
        Ok((Tok::Number(byte_chars(s.subrange(j + 1, e))), e))
    } else if c == 63u8 {
        Ok((Tok::Question, j + 1))
    } else if c == 64u8 {
        Ok((Tok::At, j + 1))
    } else if c == 34u8 {
        match string_body(s, j + 1) {
            Ok((text, e)) => Ok((Tok::Str(text), e)),
            Err(m) => Err(m),
        }
    } else if c == 47u8 {
        let e = run_end(s, j + 1, |b: u8| is_path_continue(b));
        Ok((Tok::Path(byte_chars(s.subrange(j, e))), e))
    } else if is_ident_start(c) {
        let e = run_end(s, j + 1, |b: u8| is_ident_continue(b));
        Ok((Tok::Identifier(byte_chars(s.subrange(j, e))), e))
    } else if is_num_start(c) {
        let e = run_end(s, j + 1, |b: u8| is_num_continue(b));
        Ok((Tok::Number(byte_chars(s.subrange(j, e))), e))
    } else {
        Err(unexpected(s, j))
    }
}

pub proof fn lemma_ws_end(s: Seq<u8>, i: int)
    requires
        0 <= i <= s.len(),
    ensures
        i <= ws_end(s, i) <= s.len(),
    decreases s.len() - i,
{
    if i < s.len() && is_ws(s[i]) {
        lemma_ws_end(s, i + 1);
    }
}

pub proof fn lemma_line_end(s: Seq<u8>, i: int)
    requires
        0 <= i <= s.len(),
    ensures
        i <= line_end(s, i) <= s.len(),
        i < s.len() ==> i < line_end(s, i),
    decreases s.len() - i,
{
    if i < s.len() && s[i] != 10u8 {
        lemma_line_end(s, i + 1);
    }
}

pub proof fn lemma_block_end(s: Seq<u8>, i: int)
    requires
        0 <= i,
    ensures
        block_end(s, i) matches Some(k) ==> i + 2 <= k <= s.len(),
    decreases s.len() - i,
{
    if i < s.len() && !(s[i] == 42u8 && at(s, i + 1) == Some(47u8)) {
        lemma_block_end(s, i + 1);
    }
}

pub proof fn lemma_skip(s: Seq<u8>, i: int)
    requires
        0 <= i <= s.len(),
    ensures
        skip(s, i) matches Ok(j) ==> i <= j <= s.len(),
    decreases s.len() - i,
{
    let j = ws_end(s, i);
    lemma_ws_end(s, i);
    lemma_line_end(s, j);
    lemma_block_end(s, j + 2);
    if at(s, j) == Some(47u8) && at(s, j + 1) == Some(47u8) {
        lemma_skip(s, line_end(s, j));
    } else if at(s, j) == Some(35u8) && !hash_number_at(s, j) {
        lemma_skip(s, line_end(s, j));
    } else if at(s, j) == Some(47u8) && at(s, j + 1) == Some(42u8) {
        if let Some(k) = block_end(s, j + 2) {
            lemma_skip(s, k);
        }
    }
}

pub proof fn lemma_run_end(s: Seq<u8>, i: int, p: spec_fn(u8) -> bool)
    requires
        0 <= i <= s.len(),
    ensures
        i <= run_end(s, i, p) <= s.len(),
    decreases s.len() - i,
{
    if i < s.len() && p(s[i]) {
        lemma_run_end(s, i + 1, p);
    }
}

pub proof fn lemma_string_body(s: Seq<u8>, i: int)
    requires
        0 <= i,
    ensures
        string_body(s, i) matches Ok((t, e)) ==> i < e <= s.len(),
    decreases s.len() - i,
{
    if 0 <= i < s.len() && s[i] != 34u8 {
        if s[i] == 92u8 {
            if i + 1 < s.len() {
                lemma_string_body(s, i + 2);
            }
        } else {
            lemma_string_body(s, i + 1);
        }
    }
}

pub proof fn lemma_token_at(s: Seq<u8>, j: int)
    requires
        0 <= j < s.len(),
    ensures
        token_at(s, j) matches Ok((k, e)) ==> j < e <= s.len(),
{
    lemma_run_end(s, j + 1, |b: u8| is_digit(b));
    lemma_run_end(s, j + 1, |b: u8| is_path_continue(b));
    lemma_run_end(s, j + 1, |b: u8| is_ident_continue(b));
    lemma_run_end(s, j + 1, |b: u8| is_num_continue(b));
    lemma_string_body(s, j + 1);
}

/// The tokens from index `i` on, the last one `Eof`; or the message of the
/// first failure.
pub open spec fn lex_from(s: Seq<u8>, i: int) -> Result<Seq<TokAt>, Seq<char>>
    decreases s.len() - i,
{
    if i < 0 || i > s.len() {
        Err(Seq::empty())
    } else {
        match skip(s, i) {
            Err(m) => Err(m),
            Ok(j) => {
                proof {
                    lemma_skip(s, i);
                }
                let (l, c) = pos(s, j);
                if j >= s.len() {
                    Ok(seq![TokAt { kind: Tok::Eof, line: l, column: c }])
                } else {
                    match token_at(s, j) {
                        Err(m) => Err(m),
                        Ok((k, e)) => {
                            proof {
                                lemma_token_at(s, j);
                            }
                            match lex_from(s, e) {
                                Ok(rest) => Ok(seq![TokAt { kind: k, line: l, column: c }] + rest),
                                Err(m) => Err(m),
                            }
                        },
                    }
                }
            },
        }
    }
}

/// The tokens of a source text.
pub open spec fn lex(s: Seq<u8>) -> Result<Seq<TokAt>, Seq<char>> {
    lex_from(s, 0)
}

pub proof fn lemma_pos_bounds(s: Seq<u8>, i: int)
    requires
        0 <= i,
    ensures
        1 <= pos(s, i).0 <= i + 1,
        1 <= pos(s, i).1 <= i + 1,
    decreases i,
{
    if i > 0 {
        lemma_pos_bounds(s, i - 1);
    }
}

// ---------------------------------------------------------------------------
// Executable lexer
// ---------------------------------------------------------------------------

/// Byte classes that tokens run over.
pub enum Class {
    Digit,
    PathByte,
    IdentByte,
    NumByte,
}

pub open spec fn class_fn(k: Class) -> spec_fn(u8) -> bool {
    match k {
        Class::Digit => |b: u8| is_digit(b),
        Class::PathByte => |b: u8| is_path_continue(b),
        Class::IdentByte => |b: u8| is_ident_continue(b),
        Class::NumByte => |b: u8| is_num_continue(b),
    }
}

fn digit_byte(c: u8) -> (r: bool)
    ensures
        r == is_digit(c),
{
    48u8 <= c && c <= 57u8
}

fn alnum_byte(c: u8) -> (r: bool)
    ensures
        r == is_alnum(c),
{
    (65u8 <= c && c <= 90u8) || (97u8 <= c && c <= 122u8) || (48u8 <= c && c <= 57u8)
}

fn in_class(c: u8, k: &Class) -> (r: bool)
    ensures
        r == (class_fn(*k))(c),
{
    match k {
        Class::Digit => digit_byte(c),
        Class::PathByte => alnum_byte(c) || c == 95u8 || c == 45u8 || c == 47u8 || c == 46u8,
        Class::IdentByte => alnum_byte(c) || c == 95u8 || c == 46u8 || c == 45u8,
        Class::NumByte => digit_byte(c) || c == 46u8 || c == 101u8 || c == 69u8 || c == 43u8 || c == 45u8,
    }
}

/// The bytes `a..b` as characters of the same code.
fn chars_of(s: &[u8], a: usize, b: usize) -> (r: String)
    requires
        a <= b <= s@.len(),
    ensures
        r@ == byte_chars(s@.subrange(a as int, b as int)),
{
    let mut out = String::new();
    let mut i: usize = a;
    while i < b
        invariant
            a <= i <= b <= s@.len(),
            out@ == byte_chars(s@.subrange(a as int, i as int)),
        decreases b - i,
    {
        string_push(&mut out, s[i] as char);
        proof {
            assert(byte_chars(s@.subrange(a as int, i + 1)) =~= byte_chars(s@.subrange(a as int, i as int)).push(
                s@[i as int] as char,
            ));
        }
        i += 1;
    }
    out
}

pub open spec fn prepend_chars(out: Seq<char>, r: Result<(Seq<char>, int), Seq<char>>) -> Result<
    (Seq<char>, int),
    Seq<char>,
> {
    match r {
        Ok((rest, e)) => Ok((out + rest, e)),
        Err(m) => Err(m),
    }
}

pub open spec fn prepend_tokens(out: Seq<TokAt>, r: Result<Seq<TokAt>, Seq<char>>) -> Result<Seq<TokAt>, Seq<char>> {
    match r {
        Ok(rest) => Ok(out + rest),
        Err(m) => Err(m),
    }
}

impl<'a> Lexer<'a> {
    /// The bytes being read.
    pub closed spec fn bytes(&self) -> Seq<u8> {
        self.src@
    }

    /// The index of the next byte to read.
    pub closed spec fn position(&self) -> int {
        self.i as int
    }

    /// The position is within the bytes and the line and column are those
    /// of the position.
    pub closed spec fn wf(&self) -> bool {
        &&& self.i <= self.src@.len()
        &&& self.src@.len() < usize::MAX
        &&& self.line == pos(self.src@, self.i as int).0
        &&& self.col == pos(self.src@, self.i as int).1
    }

    /// A lexer at the start of `src`.
    pub fn new(src: &'a str) -> (r: Self)
        requires
            src.spec_bytes().len() < usize::MAX,
        ensures
            r.wf(),
            r.bytes() == src.spec_bytes(),
            r.position() == 0,
    {
        Lexer { src: src.as_bytes(), i: 0, line: 1, col: 1 }
    }

    fn peek(&self) -> (r: Option<u8>)
        requires
            self.wf(),
        ensures
            r == at(self.src@, self.i as int),
    {
        if self.i < self.src.len() {
            Some(self.src[self.i])
        } else {
            None
        }
    }

    fn peek_next(&self) -> (r: Option<u8>)
        requires
            self.wf(),
        ensures
            r == at(self.src@, self.i + 1),
    {
        if self.i + 1 < self.src.len() {
            Some(self.src[self.i + 1])
        } else {
            None
        }
    }

    fn bump(&mut self)
        requires
            old(self).wf(),
        ensures
            final(self).wf(),
            final(self).src == old(self).src,
            final(self).i == if old(self).i < old(self).src@.len() {
                old(self).i + 1
            } else {
                old(self).i as int
            },
    {
        if self.i < self.src.len() {
            proof {
                lemma_pos_bounds(self.src@, self.i as int);
            }
            let c = self.src[self.i];
            self.i += 1;
            if c == 10u8 {
                self.line += 1;
                self.col = 1;
            } else {
                self.col += 1;
            }
        }
    }

    fn skip_ws(&mut self)
        requires
            old(self).wf(),
        ensures
            final(self).wf(),
            final(self).src == old(self).src,
            final(self).i == ws_end(old(self).src@, old(self).i as int),
    {
        while self.i < self.src.len() && (self.src[self.i] == 32u8 || self.src[self.i] == 9u8
            || self.src[self.i] == 10u8 || self.src[self.i] == 13u8)
            invariant
                self.wf(),
                self.src == old(self).src,
                ws_end(self.src@, self.i as int) == ws_end(old(self).src@, old(self).i as int),
            decreases self.src@.len() - self.i,
        {
            self.bump();
        }
    }

    /// Consumes through the next newline, or to the end.
    fn skip_line(&mut self)
        requires
            old(self).wf(),
        ensures
            final(self).wf(),
            final(self).src == old(self).src,
            final(self).i == line_end(old(self).src@, old(self).i as int),
    {
        while self.i < self.src.len()
            invariant
                self.wf(),
                self.src == old(self).src,
                line_end(self.src@, self.i as int) == line_end(old(self).src@, old(self).i as int),
            decreases self.src@.len() - self.i,
        {
            let c = self.src[self.i];
            self.bump();
            if c == 10u8 {
                return;
            }
        }
    }

    /// Consumes through the next `*/`; false when there is none.
    fn skip_block(&mut self) -> (ok: bool)
        requires
            old(self).wf(),
        ensures
            final(self).wf(),
            final(self).src == old(self).src,
            ok == block_end(old(self).src@, old(self).i as int) is Some,
            ok ==> final(self).i == block_end(old(self).src@, old(self).i as int)->Some_0,
    {
        while self.i < self.src.len()
            invariant
                self.wf(),
                self.src == old(self).src,
                block_end(self.src@, self.i as int) == block_end(old(self).src@, old(self).i as int),
            decreases self.src@.len() - self.i,
        {
            if self.src[self.i] == 42u8 && self.peek_next() == Some(47u8) {
                self.bump();
                self.bump();
                return true;
            }
            self.bump();
        }
        false
    }

    fn skip_ws_and_comments(&mut self) -> (r: Result<(), String>)
        requires
            old(self).wf(),
        ensures
            final(self).wf(),
            final(self).src == old(self).src,
            match skip(old(self).src@, old(self).i as int) {
                Ok(j) => r is Ok && final(self).i == j,
                Err(m) => r matches Err(e) && e@ == m,
            },
    {
        loop
            invariant
                self.wf(),
                self.src == old(self).src,
                skip(self.src@, self.i as int) == skip(old(self).src@, old(self).i as int),
            decreases self.src@.len() - self.i,
        {
            let ghost i0 = self.i as int;
            proof {
                lemma_ws_end(self.src@, i0);
            }
            self.skip_ws();
            let ghost j = self.i as int;
            proof {
                lemma_line_end(self.src@, j);
                lemma_block_end(self.src@, j + 2);
            }
            let c0 = self.peek();
            let c1 = self.peek_next();
            if c0 == Some(47u8) && c1 == Some(47u8) {
                self.skip_line();
            } else if c0 == Some(35u8) && !(match c1 {
                Some(c) => digit_byte(c),
                None => false,
            }) {
                self.skip_line();
            } else if c0 == Some(47u8) && c1 == Some(42u8) {
                self.bump();
                self.bump();
                if !self.skip_block() {
                    return Err("unterminated block comment".to_owned());
                }
            } else {
                return Ok(());
            }
        }
    }

    fn take_run(&mut self, k: Class)
        requires
            old(self).wf(),
        ensures
            final(self).wf(),
            final(self).src == old(self).src,
            final(self).i == run_end(old(self).src@, old(self).i as int, class_fn(k)),
    {
        while self.i < self.src.len() && in_class(self.src[self.i], &k)
            invariant
                self.wf(),
                self.src == old(self).src,
                run_end(self.src@, self.i as int, class_fn(k)) == run_end(
                    old(self).src@,
                    old(self).i as int,
                    class_fn(k),
                ),
            decreases self.src@.len() - self.i,
        {
            self.bump();
        }
    }

    /// Reads a string literal body, the opening quote already consumed.
    fn lex_string_body(&mut self) -> (r: Result<String, String>)
        requires
            old(self).wf(),
        ensures
            final(self).wf(),
            final(self).src == old(self).src,
            match string_body(old(self).src@, old(self).i as int) {
                Ok((text, e)) => r matches Ok(t) && t@ == text && final(self).i == e,
                Err(m) => r matches Err(e) && e@ == m,
            },
    {
        let mut out = String::new();
        while self.i < self.src.len()
            invariant
                self.wf(),
                self.src == old(self).src,
                string_body(old(self).src@, old(self).i as int) == prepend_chars(
                    out@,
                    string_body(self.src@, self.i as int),
                ),
            decreases self.src@.len() - self.i,
        {
            let ch = self.src[self.i];
            self.bump();
            if ch == 34u8 {
                proof {
                    assert(out@ + Seq::<char>::empty() =~= out@);
                }
                return Ok(out);
            } else if ch == 92u8 {
                let next = match self.peek() {
                    Some(n) => n,
                    None => {
                        return Err("unterminated escape".to_owned());
                    },
                };
                self.bump();
                let c = if next == 34u8 {
                    '"'
                } else if next == 92u8 {
                    '\\'
                } else if next == 47u8 {
                    '/'
                } else if next == 98u8 {
                    '\u{0008}'
                } else if next == 102u8 {
                    '\u{000C}'
                } else if next == 110u8 {
                    '\n'
                } else if next == 114u8 {
                    '\r'
                } else if next == 116u8 {
                    '\t'
                } else {
                    return Err("unsupported escape".to_owned());
                };
                let ghost before = out@;
                string_push(&mut out, c);
                proof {
                    assert(before + (seq![c] + string_body(self.src@, self.i as int)->Ok_0.0) =~= out@ + string_body(
                        self.src@,
                        self.i as int,
                    )->Ok_0.0);
                }
            } else {
                let ghost before = out@;
                string_push(&mut out, ch as char);
                proof {
                    assert(before + (seq![ch as char] + string_body(self.src@, self.i as int)->Ok_0.0) =~= out@
                        + string_body(self.src@, self.i as int)->Ok_0.0);
                }
            }
        }
        Err("unterminated string".to_owned())
    }

    fn unexpected_message(&self, c: u8) -> (r: String)
        requires
            self.wf(),
            self.i < self.src@.len(),
            c == self.src@[self.i as int],
        ensures
            r@ == unexpected(self.src@, self.i as int),
    {
        let mut m = "unexpected character '".to_owned();
        string_push(&mut m, c as char);
        m.append("' at ");
        let l = u64_to_decimal(self.line as u64);
        m.append(l.as_str());
        m.append(":");
        let k = u64_to_decimal(self.col as u64);
        m.append(k.as_str());
        m
    }

    /// Reads the token that starts at the current byte, which exists.
    fn next_token(&mut self) -> (r: Result<TokenKind, String>)
        requires
            old(self).wf(),
            old(self).i < old(self).src@.len(),
        ensures
            final(self).wf(),
            final(self).src == old(self).src,
            match token_at(old(self).src@, old(self).i as int) {
                Ok((k, e)) => r matches Ok(t) && t.view_tok() == k && final(self).i == e,
                Err(m) => r matches Err(e) && e@ == m,
            },
    {
        let c = self.src[self.i];
        let start = self.i;
        let c1 = self.peek_next();
        if c == 123u8 {
            self.bump();
            Ok(TokenKind::LBrace)
        } else if c == 125u8 {
            self.bump();
            Ok(TokenKind::RBrace)
        } else if c == 91u8 {
            self.bump();
            Ok(TokenKind::LBracket)
        } else if c == 93u8 {
            self.bump();
            Ok(TokenKind::RBracket)
        } else if c == 40u8 {
            self.bump();
            Ok(TokenKind::LParen)
        } else if c == 41u8 {
            self.bump();
            Ok(TokenKind::RParen)
        } else if c == 58u8 {
            self.bump();
            Ok(TokenKind::Colon)
        } else if c == 44u8 {
            self.bump();
            Ok(TokenKind::Comma)
        } else if c == 61u8 {
            self.bump();
            Ok(TokenKind::Eq)
        } else if c == 35u8 && (match c1 {
            Some(d) => digit_byte(d),
            None => false,
        }) {
            self.bump();
            let from = self.i;
            proof {
                lemma_run_end(self.src@, self.i as int, class_fn(Class::Digit));
            }
            self.take_run(Class::Digit);
            Ok(TokenKind::Number(chars_of(self.src, from, self.i)))
        } else if c == 63u8 {
            self.bump();
            Ok(TokenKind::Question)
        } else if c == 64u8 {
            self.bump();
            Ok(TokenKind::At)
        } else if c == 34u8 {
            self.bump();
            match self.lex_string_body() {
                Ok(t) => Ok(TokenKind::String(t)),
                Err(e) => Err(e),
            }
        } else if c == 47u8 {
            self.bump();
            proof {
                lemma_run_end(self.src@, self.i as int, class_fn(Class::PathByte));
            }
            self.take_run(Class::PathByte);
            Ok(TokenKind::Path(chars_of(self.src, start, self.i)))
        } else if (65u8 <= c && c <= 90u8) || (97u8 <= c && c <= 122u8) || c == 95u8 {
            self.bump();
            proof {
                lemma_run_end(self.src@, self.i as int, class_fn(Class::IdentByte));
            }
            self.take_run(Class::IdentByte);
            Ok(TokenKind::Identifier(chars_of(self.src, start, self.i)))
        } else if digit_byte(c) || c == 45u8 {
            self.bump();
            proof {
                lemma_run_end(self.src@, self.i as int, class_fn(Class::NumByte));
            }
            self.take_run(Class::NumByte);
            Ok(TokenKind::Number(chars_of(self.src, start, self.i)))
        } else {
            Err(self.unexpected_message(c))
        }
    }

    /// Splits the rest of the source into tokens, ending with `Eof`; the
    /// message of the first failure otherwise.
    pub fn tokenize(self) -> (r: Result<Vec<Token>, String>)
        requires
            self.wf(),
        ensures
            match lex_from(self.bytes(), self.position()) {
                Ok(ts) => r matches Ok(v) && tokens_view(v@) == ts,
                Err(m) => r matches Err(e) && e@ == m,
            },
    {
        let mut lx = self;
        let ghost s = lx.src@;
        let ghost i_start = lx.i as int;
        let mut out: Vec<Token> = Vec::new();
        proof {
            assert(tokens_view(out@) =~= Seq::<TokAt>::empty());
            assert(prepend_tokens(Seq::empty(), lex_from(s, i_start)) =~= lex_from(s, i_start)) by {
                match lex_from(s, i_start) {
                    Ok(ts) => {
                        assert(Seq::<TokAt>::empty() + ts =~= ts);
                    },
                    Err(_) => {},
                }
            }
        }
        loop
            invariant
                lx.wf(),
                lx.src@ == s,
                s == self.bytes(),
                i_start == self.position(),
                lex_from(s, i_start) == prepend_tokens(tokens_view(out@), lex_from(s, lx.i as int)),
            decreases s.len() - lx.i,
        {
            let ghost i0 = lx.i as int;
            proof {
                lemma_skip(s, i0);
            }
            match lx.skip_ws_and_comments() {
                Err(e) => {
                    proof {
                        assert(lex_from(s, i0) == Err::<Seq<TokAt>, Seq<char>>(e@));
                    }
                    return Err(e);
                },
                Ok(()) => {},
            }
            let line = lx.line;
            let column = lx.col;
            if lx.i >= lx.src.len() {
                let ghost before = out@;
                out.push(Token { kind: TokenKind::Eof, line, column });
                proof {
                    assert(tokens_view(out@) =~= tokens_view(before).push(
                        TokAt { kind: Tok::Eof, line: line as int, column: column as int },
                    ));
                    assert(tokens_view(out@) =~= tokens_view(before) + seq![
                        TokAt { kind: Tok::Eof, line: line as int, column: column as int },
                    ]);
                }
                return Ok(out);
            }
            proof {
                lemma_token_at(s, lx.i as int);
            }
            let ghost j = lx.i as int;
            match lx.next_token() {
                Err(e) => {
                    proof {
                        assert(token_at(s, j) == Err::<(Tok, int), Seq<char>>(e@));
                        assert(lex_from(s, i0) == Err::<Seq<TokAt>, Seq<char>>(e@));
                    }
                    return Err(e);
                },
                Ok(kind) => {
                    let ghost before = out@;
                    let ghost t = TokAt { kind: kind.view_tok(), line: line as int, column: column as int };
                    out.push(Token { kind, line, column });
                    proof {
                        assert(tokens_view(out@) =~= tokens_view(before).push(t));
                        match lex_from(s, lx.i as int) {
                            Ok(rest) => {
                                assert(tokens_view(before) + (seq![t] + rest) =~= tokens_view(out@) + rest);
                            },
                            Err(_) => {},
                        }
                    }
                },
            }
        }
    }
}

} // verus!
