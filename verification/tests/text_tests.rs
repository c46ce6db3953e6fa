use sx_protocol::diagnostics::ParseDiagnostic;
use sx_protocol::lexer::{Lexer, Token, TokenKind};

fn kinds(src: &str) -> Vec<TokenKind> {
    Lexer::new(src).tokenize().unwrap().into_iter().map(|t| t.kind).collect()
}

#[test]
fn tokens_of_an_object_with_comments() {
    let src = "{\n  // comment\n  name: \"Asha\", # note\n  n: -1.5e3,\n}";
    let toks = Lexer::new(src).tokenize().unwrap();
    let ks: Vec<TokenKind> = toks.iter().map(|t| t.kind.clone()).collect();
    assert_eq!(
        ks,
        vec![
            TokenKind::LBrace,
            TokenKind::Identifier("name".to_string()),
            TokenKind::Colon,
            TokenKind::String("Asha".to_string()),
            TokenKind::Comma,
            TokenKind::Identifier("n".to_string()),
            TokenKind::Colon,
            TokenKind::Number("-1.5e3".to_string()),
            TokenKind::Comma,
            TokenKind::RBrace,
            TokenKind::Eof,
        ]
    );
    assert_eq!(toks[1], Token { kind: TokenKind::Identifier("name".to_string()), line: 3, column: 3 });
    assert_eq!(toks[5].line, 4);
    assert_eq!(toks[5].column, 3);
    assert_eq!(toks[10].line, 5);
    assert_eq!(toks[10].column, 2);
}

#[test]
fn block_comments_hash_numbers_paths_and_punctuation() {
    assert_eq!(
        kinds("/* a\n b */ #12 /a/b-c.d ? @ ( ) [ ] = x.y_z-1"),
        vec![
            TokenKind::Number("12".to_string()),
            TokenKind::Path("/a/b-c.d".to_string()),
            TokenKind::Question,
            TokenKind::At,
            TokenKind::LParen,
            TokenKind::RParen,
            TokenKind::LBracket,
            TokenKind::RBracket,
            TokenKind::Eq,
            TokenKind::Identifier("x.y_z-1".to_string()),
            TokenKind::Eof,
        ]
    );
    assert_eq!(kinds(""), vec![TokenKind::Eof]);
}

#[test]
fn string_escapes() {
    assert_eq!(
        kinds(r#""a\"b\\c\/d\n\t""#),
        vec![TokenKind::String("a\"b\\c/d\n\t".to_string()), TokenKind::Eof]
    );
}

#[test]
fn lexer_errors() {
    assert_eq!(Lexer::new("\"abc").tokenize().unwrap_err(), "unterminated string");
    assert_eq!(Lexer::new("\"a\\q\"").tokenize().unwrap_err(), "unsupported escape");
    assert_eq!(Lexer::new("\"a\\").tokenize().unwrap_err(), "unterminated escape");
    assert_eq!(Lexer::new("/* open").tokenize().unwrap_err(), "unterminated block comment");
    assert_eq!(Lexer::new("a\n  $").tokenize().unwrap_err(), "unexpected character '$' at 2:3");
}

#[test]
fn diagnostic_new_has_no_path() {
    let d = ParseDiagnostic::new("bad token", 3, 7);
    assert_eq!(d.message, "bad token");
    assert_eq!((d.line, d.column), (3, 7));
    assert!(d.path.is_none());
}
