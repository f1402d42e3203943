use r9cc::errors::{CompileError, CompileErrorType, TokenizeError};
use r9cc::tokenizer::{literals_in_range, RawStream, Separator, Token, TokenKind};

fn number(text: &str, value: i64, start: usize, end: usize) -> Option<Result<Token<'_>, CompileError>> {
    Some(Ok(Token { text, kind: TokenKind::Number(value), span: start..end }))
}

#[test]
fn main_test_tokens_iterator() {
    let code = "5+20-4";
    let mut tokens = RawStream::new(code);
    assert_eq!(
        tokens.next(),
        Some(Ok(Token {
            text: "5",
            kind: TokenKind::Number(5),
            span: 0..1
        }))
    );
    assert_eq!(
        tokens.next(),
        Some(Ok(Token {
            text: "+",
            kind: TokenKind::Add,
            span: 1..2
        }))
    );
    assert_eq!(
        tokens.next(),
        Some(Ok(Token {
            text: "20",
            kind: TokenKind::Number(20),
            span: 2..4
        }))
    );
}

#[test]
fn tokenizer_test_tokens_iterator() {
    let code = "5+20-4";
    let mut tokens = RawStream::new(code);
    assert_eq!(
        tokens.next(),
        Some(Ok(Token {
            text: "5",
            kind: TokenKind::Number(5),
            span: 0..1
        }))
    );
    assert_eq!(
        tokens.next(),
        Some(Ok(Token {
            text: "+",
            kind: TokenKind::Add,
            span: 1..2
        }))
    );
    assert_eq!(
        tokens.next(),
        Some(Ok(Token {
            text: "20",
            kind: TokenKind::Number(20),
            span: 2..4
        }))
    );
}

fn check_whitespace() {
    let code = "  3  -1  +20  ";
    let mut tokens = RawStream::new(code);
    assert_eq!(
        tokens.next(),
        Some(Ok(Token {
            text: "3",
            kind: TokenKind::Number(3),
            span: 2..3
        }))
    );
    assert_eq!(
        tokens.next(),
        Some(Ok(Token {
            text: "-",
            kind: TokenKind::Sub,
            span: 5..6
        }))
    );
    assert_eq!(
        tokens.next(),
        Some(Ok(Token {
            text: "1",
            kind: TokenKind::Number(1),
            span: 6..7
        }))
    );
    assert_eq!(
        tokens.next(),
        Some(Ok(Token {
            text: "+",
            kind: TokenKind::Add,
            span: 9..10
        }))
    );
    assert_eq!(
        tokens.next(),
        Some(Ok(Token {
            text: "20",
            kind: TokenKind::Number(20),
            span: 10..12
        }))
    );
    assert_eq!(tokens.next(), None);
}

#[test]
fn main_test_whitespace() {
    check_whitespace();
}

#[test]
fn tokenizer_test_whitespace() {
    check_whitespace();
}

#[test]
fn test_ident() {
    let code = "a + b - c";
    let mut tokens = RawStream::new(code);
    assert_eq!(
        tokens.next(),
        Some(Ok(Token {
            text: "a",
            kind: TokenKind::Ident,
            span: 0..1
        }))
    );
    tokens.next(); // Add
    assert_eq!(
        tokens.next(),
        Some(Ok(Token {
            text: "b",
            kind: TokenKind::Ident,
            span: 4..5
        }))
    );
    tokens.next(); // Sub
    assert_eq!(
        tokens.next(),
        Some(Ok(Token {
            text: "c",
            kind: TokenKind::Ident,
            span: 8..9
        }))
    );
}

#[test]
fn test_semicolon() {
    let code = "a + b; c";
    let mut tokens = RawStream::new(code);
    assert_eq!(
        tokens.next(),
        Some(Ok(Token {
            text: "a",
            kind: TokenKind::Ident,
            span: 0..1
        }))
    );
    tokens.next(); // Add
    assert_eq!(
        tokens.next(),
        Some(Ok(Token {
            text: "b",
            kind: TokenKind::Ident,
            span: 4..5
        }))
    );
    assert_eq!(
        tokens.next(),
        Some(Ok(Token {
            text: ";",
            kind: TokenKind::Sep(Separator::SemiColon),
            span: 5..6
        }))
    );
}

#[test]
fn two_byte_operators_take_precedence() {
    let code = "a<=b>=c==d!=e<f>g=h";
    let mut tokens = RawStream::new(code);
    let mut kinds = Vec::new();
    while let Some(Ok(t)) = tokens.next() {
        kinds.push(t.kind);
    }
    assert_eq!(
        kinds,
        vec![
            TokenKind::Ident,
            TokenKind::LessEq,
            TokenKind::Ident,
            TokenKind::GreaterEq,
            TokenKind::Ident,
            TokenKind::Eq,
            TokenKind::Ident,
            TokenKind::NotEq,
            TokenKind::Ident,
            TokenKind::Less,
            TokenKind::Ident,
            TokenKind::Greater,
            TokenKind::Ident,
            TokenKind::Assign,
            TokenKind::Ident,
        ]
    );
}

#[test]
fn unscannable_runs_are_reported_and_scanning_goes_on() {
    let code = "1 $x+2 # 3";
    let mut tokens = RawStream::new(code);
    assert_eq!(tokens.next(), number("1", 1, 0, 1));
    assert_eq!(
        tokens.next(),
        Some(Err(CompileError {
            error_type: CompileErrorType::Tokenizing(TokenizeError("$x+2".to_string())),
            pos: Some(2..6)
        }))
    );
    assert_eq!(
        tokens.next(),
        Some(Err(CompileError {
            error_type: CompileErrorType::Tokenizing(TokenizeError("#".to_string())),
            pos: Some(7..8)
        }))
    );
    assert_eq!(tokens.next(), number("3", 3, 9, 10));
    assert_eq!(tokens.next(), None);
}

#[test]
fn check_collects_every_unscannable_run() {
    let code = "1 + @ + 2 ! 3 é4";
    let mut stream = RawStream::new(code);
    let errors = stream.check().err().unwrap();
    assert_eq!(
        errors,
        vec![
            CompileError {
                error_type: CompileErrorType::Tokenizing(TokenizeError("@".to_string())),
                pos: Some(4..5)
            },
            CompileError {
                error_type: CompileErrorType::Tokenizing(TokenizeError("!".to_string())),
                pos: Some(10..11)
            },
            CompileError {
                error_type: CompileErrorType::Tokenizing(TokenizeError("é4".to_string())),
                pos: Some(14..17)
            },
        ]
    );
}

#[test]
fn check_succeeds_without_unscannable_runs() {
    let mut stream = RawStream::new(" a = 1 ; ");
    assert!(stream.check().is_ok());
}

#[test]
fn digit_run_is_one_literal_with_its_span() {
    let code = "   9223372036854775807 ";
    let mut tokens = RawStream::new(code);
    assert_eq!(
        tokens.next(),
        number("9223372036854775807", i64::MAX, 3, 22)
    );
    assert_eq!(tokens.next(), None);
}

#[test]
fn retokenizing_a_span_gives_the_same_kind() {
    let code = "ab<=12;(>=";
    let mut tokens = RawStream::new(code);
    while let Some(Ok(t)) = tokens.next() {
        let mut again = RawStream::new(&code[t.span.clone()]);
        let first = again.next().unwrap().unwrap();
        assert_eq!(first.kind, t.kind);
        assert_eq!(first.text, t.text);
        assert_eq!(again.next(), None);
    }
}

#[test]
fn literal_range_is_checked() {
    assert!(literals_in_range("x = 9223372036854775807;"));
    assert!(!literals_in_range("x = 9223372036854775808;"));
    assert!(literals_in_range("007 + 1"));
    assert!(literals_in_range(""));
    assert!(literals_in_range("#99999999999999999999;"));
    assert!(literals_in_range("1@99999999999999999999"));
    assert!(!literals_in_range("a@b 99999999999999999999"));
    assert!(!literals_in_range("x=(99999999999999999999)"));
}

#[test]
fn test_error_tokenize() {
    // Each lowercase letter is an identifier of its own, so `foo` and `bar`
    // are three identifiers each, not unscannable runs.
    let code = "1+22 + foo + 123 + bar";
    let mut tokens = RawStream::new(code);
    tokens.next(); // Number(1)
    tokens.next(); // Add
    tokens.next(); // Number(22)
    tokens.next(); // Add
    assert_eq!(
        tokens.next(),
        Some(Ok(Token {
            text: "f",
            kind: TokenKind::Ident,
            span: 7..8
        }))
    );
    tokens.next(); // Ident `o`
    tokens.next(); // Ident `o`
    tokens.next(); // Add
    assert_eq!(
        tokens.next(),
        Some(Ok(Token {
            text: "123",
            kind: TokenKind::Number(123),
            span: 13..16
        }))
    );
    let mut stream = RawStream::new(code);
    assert!(stream.check().is_ok());
}
