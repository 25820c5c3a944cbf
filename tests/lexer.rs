use idle::error::ErrorKind;
use idle::lexer::{Lexer, Token, TokenType};

fn first_token(src: &str) -> Result<Token, idle::error::Error> {
    let mut lexer = Lexer::new(src.to_string());
    lexer.next_token()
}

fn all_tokens(src: &str) -> Vec<(TokenType, String)> {
    let mut lexer = Lexer::new(src.to_string());
    let mut out = Vec::new();
    loop {
        let t = lexer.next_token().expect("scan error");
        if t.ttype == TokenType::Empty {
            return out;
        }
        out.push((t.ttype, t.literal));
    }
}

fn error_kind(src: &str) -> ErrorKind {
    let mut lexer = Lexer::new(src.to_string());
    loop {
        match lexer.next_token() {
            Ok(t) if t.ttype == TokenType::Empty => panic!("no error in {src:?}"),
            Ok(_) => {}
            Err(e) => return e.kind,
        }
    }
}

#[test]
fn decimal_literal_has_its_value() {
    for (src, v) in [("0", 0), ("7", 7), ("12345", 12345), ("007", 7), ("2147483647", i32::MAX)] {
        let t = first_token(src).unwrap();
        assert_eq!(t.ttype, TokenType::Integer(v));
        assert_eq!(t.literal, src);
    }
}

#[test]
fn decimal_literal_too_large_is_rejected() {
    assert_eq!(error_kind("2147483648"), ErrorKind::InvalidNumericLiteral);
    assert_eq!(error_kind("99999999999999999999"), ErrorKind::InvalidNumericLiteral);
}

#[test]
fn hex_literal_has_its_value() {
    assert_eq!(first_token("0x1A").unwrap().ttype, TokenType::Integer(26));
    assert_eq!(first_token("0x1a").unwrap().ttype, TokenType::Integer(26));
    assert_eq!(first_token("0xff").unwrap().ttype, TokenType::Integer(255));
    assert_eq!(first_token("0x").unwrap().ttype, TokenType::Integer(0));
}

#[test]
fn hex_literal_keeps_low_32_bits() {
    assert_eq!(first_token("0xFFFFFFFF").unwrap().ttype, TokenType::Integer(-1));
    assert_eq!(first_token("0x80000000").unwrap().ttype, TokenType::Integer(i32::MIN));
    assert_eq!(first_token("0x100000005").unwrap().ttype, TokenType::Integer(5));
}

#[test]
fn binary_literal_has_its_value() {
    assert_eq!(first_token("0b101").unwrap().ttype, TokenType::Integer(5));
    assert_eq!(first_token("0b0").unwrap().ttype, TokenType::Integer(0));
}

#[test]
fn float_literal_is_a_number_token() {
    let t = first_token("3.14").unwrap();
    assert_eq!(t.ttype, TokenType::Number);
    assert_eq!(t.literal, "3.14");
    let v: f64 = t.literal.parse().unwrap();
    assert!((v - 3.14).abs() < 1e-12);
    assert_eq!(first_token("1.5e3").unwrap().ttype, TokenType::Number);
    assert_eq!(first_token("2.").unwrap().ttype, TokenType::Number);
}

#[test]
fn malformed_numerals_are_rejected() {
    for src in ["12x", "0x1G", "0b102", "1b1", "12a", "1.2.3", "1.5e", "1e5"] {
        assert_eq!(error_kind(src), ErrorKind::InvalidNumericLiteral, "{src}");
    }
}

#[test]
fn string_escapes_are_decoded() {
    let t = first_token("\"hello\\nworld\"").unwrap();
    assert_eq!(t.ttype, TokenType::String);
    assert_eq!(t.literal, "hello\nworld");
    assert_eq!(t.literal.chars().filter(|c| *c == '\n').count(), 1);
    let t = first_token("\"a\\\"b\\tc\\rd\\0e\\\\f\"").unwrap();
    assert_eq!(t.literal, "a\"b\tc\rd\0e\\f");
}

#[test]
fn unknown_escape_is_rejected() {
    assert_eq!(error_kind("\"a\\qb\""), ErrorKind::InvalidEscapeSequence('q'));
}

#[test]
fn string_cannot_span_lines() {
    assert_eq!(error_kind("\"abc\ndef\""), ErrorKind::UnterminatedString);
}

#[test]
fn unclosed_string_is_rejected() {
    assert_eq!(error_kind("\"abc"), ErrorKind::UnterminatedString);
    assert_eq!(error_kind("\"abc\\"), ErrorKind::UnterminatedString);
}

#[test]
fn double_char_operator_is_one_token() {
    assert_eq!(all_tokens(">="), vec![(TokenType::BiggerEq, ">=".to_string())]);
    assert_eq!(all_tokens("> "), vec![(TokenType::Bigger, ">".to_string())]);
    let kinds: Vec<TokenType> = all_tokens("== := :: != <= << >> || &&").into_iter().map(|t| t.0).collect();
    assert_eq!(
        kinds,
        vec![
            TokenType::DoubleEq,
            TokenType::ColonEq,
            TokenType::DoubleColon,
            TokenType::NotEq,
            TokenType::SmallerEq,
            TokenType::Lsh,
            TokenType::Rsh,
            TokenType::DoubleOr,
            TokenType::DoubleAnd,
        ]
    );
}

#[test]
fn adjacent_single_chars_stay_apart() {
    let kinds: Vec<TokenType> = all_tokens("=!(),").into_iter().map(|t| t.0).collect();
    assert_eq!(
        kinds,
        vec![TokenType::Eq, TokenType::Not, TokenType::OParen, TokenType::CParen, TokenType::Comma]
    );
}

#[test]
fn keywords_and_identifiers() {
    let toks = all_tokens("package Package packages in out _x1 if else elif proc loop log");
    let kinds: Vec<TokenType> = toks.iter().map(|t| t.0).collect();
    assert_eq!(
        kinds,
        vec![
            TokenType::Package,
            TokenType::Ident,
            TokenType::Ident,
            TokenType::In,
            TokenType::Out,
            TokenType::Ident,
            TokenType::If,
            TokenType::Else,
            TokenType::Elif,
            TokenType::Proc,
            TokenType::Loop,
            TokenType::Log,
        ]
    );
    assert_eq!(toks[5].1, "_x1");
}

#[test]
fn comments_and_whitespace_are_skipped() {
    assert_eq!(all_tokens("~ note\n  ~ more\n\tfoo ~ tail"), vec![(TokenType::Ident, "foo".to_string())]);
    assert!(all_tokens("~ only a comment").is_empty());
    assert!(all_tokens("").is_empty());
    assert!(all_tokens(" \u{3000}\u{A0}\n").is_empty());
}

#[test]
fn unexpected_character_reports_line_and_column() {
    let mut lexer = Lexer::new("a\n  #".to_string());
    assert_eq!(lexer.next_token().unwrap().ttype, TokenType::Ident);
    let e = lexer.next_token().unwrap_err();
    assert_eq!(e.kind, ErrorKind::UnexpectedCharacter('#'));
    assert_eq!(e.line, 1);
    assert_eq!(e.column, 2);
}

#[test]
fn tokenizing_twice_gives_the_same_tokens() {
    let src = "package AND(in a: logic, out y: logic) ~ c\n 0x1A \"s\\n\" 3.14 >=";
    let first = all_tokens(src);
    let second = all_tokens(src);
    assert_eq!(first, second);
    assert_eq!(first.len(), 17);
}

#[test]
fn match_token_advances_or_fails() {
    let mut lexer = Lexer::new("in a".to_string());
    lexer.next_token().unwrap();
    assert!(lexer.match_token(TokenType::In).is_ok());
    assert_eq!(lexer.token.ttype, TokenType::Ident);
    let e = lexer.match_token(TokenType::Colon).unwrap_err();
    assert_eq!(e.kind, ErrorKind::UnexpectedToken { expected: TokenType::Colon, found: TokenType::Ident });
}

#[test]
fn token_constructors() {
    let t = Token::new(TokenType::Ident, "x".to_string());
    assert_eq!(t.ttype, TokenType::Ident);
    assert_eq!(t.literal, "x");
    let e = Token::empty();
    assert_eq!(e.ttype, TokenType::Empty);
    assert!(e.literal.is_empty());
}
