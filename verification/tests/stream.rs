use ccompiler::lexer::tokenize;
use ccompiler::result::CompileError;
use ccompiler::stream::TokenStream;
use ccompiler::token::{Token, TokenKind};

fn stream(source: &str) -> TokenStream {
    tokenize(vec![source.to_string()]).unwrap().0
}

fn variable(symbol: &str, offset: u32) -> TokenKind {
    TokenKind::LocalVar {
        symbol: symbol.to_string(),
        offset,
    }
}

#[test]
fn peek_leaves_the_token() {
    let mut tokens = stream("1 +");
    assert_eq!(tokens.peek(), Some(&Token::new(0, 0, TokenKind::Num(1))));
    assert_eq!(tokens.peek(), Some(&Token::new(0, 0, TokenKind::Num(1))));
    assert!(!tokens.is_empty());
    assert_eq!(tokens.next(), Some(Token::new(0, 0, TokenKind::Num(1))));
    assert_eq!(tokens.peek(), Some(&Token::new(2, 0, TokenKind::Add)));
    assert_eq!(tokens.next(), Some(Token::new(2, 0, TokenKind::Add)));
    assert_eq!(tokens.peek(), None);
    assert_eq!(tokens.next(), None);
    assert!(tokens.is_empty());
}

#[test]
fn a_stream_of_no_tokens_is_empty() {
    let mut tokens = TokenStream::new(vec![]);
    assert!(tokens.is_empty());
    assert_eq!(tokens.peek(), None);
    assert!(!tokens.consume(TokenKind::Add));
    assert_eq!(
        tokens.expect(TokenKind::Add),
        Err(CompileError::Expected {
            row: 0,
            col: 0,
            expect: TokenKind::Add
        })
    );
    assert_eq!(
        tokens.expect_number(),
        Err(CompileError::Expected {
            row: 0,
            col: 0,
            expect: TokenKind::Num(0)
        })
    );
}

#[test]
fn consume_takes_a_token_of_the_kind_only() {
    let mut tokens = stream("12 abc ;");
    assert!(!tokens.consume(TokenKind::Semicolon));
    assert!(!tokens.consume(variable("abc", 8)));
    assert!(tokens.consume(TokenKind::Num(0)));
    assert!(!tokens.consume(TokenKind::Num(0)));
    assert!(tokens.consume(variable("", 0)));
    assert!(tokens.consume(TokenKind::Semicolon));
    assert!(!tokens.consume(TokenKind::Semicolon));
    assert!(tokens.is_empty());
}

#[test]
fn expect_returns_the_kind_or_the_mismatch() {
    let mut tokens = stream("return 12 abc");
    assert_eq!(
        tokens.expect(TokenKind::If),
        Err(CompileError::Unexpected {
            row: 0,
            col: 6,
            expect: TokenKind::If,
            result: TokenKind::Return
        })
    );
    assert_eq!(tokens.expect(TokenKind::Return), Ok(TokenKind::Return));
    assert_eq!(
        tokens.expect_local_variable(),
        Err(CompileError::Unexpected {
            row: 0,
            col: 6,
            expect: variable("", 0),
            result: TokenKind::Num(12)
        })
    );
    assert_eq!(tokens.expect(TokenKind::Num(0)), Ok(TokenKind::Num(12)));
    assert_eq!(
        tokens.expect_number(),
        Err(CompileError::Unexpected {
            row: 0,
            col: 9,
            expect: TokenKind::Num(0),
            result: variable("abc", 8)
        })
    );
    assert_eq!(
        tokens.mismatch(TokenKind::Semicolon),
        CompileError::Unexpected {
            row: 0,
            col: 9,
            expect: TokenKind::Semicolon,
            result: variable("abc", 8)
        }
    );
    assert_eq!(tokens.expect_local_variable(), Ok(variable("abc", 8)));
    assert_eq!(
        tokens.expect(TokenKind::Semicolon),
        Err(CompileError::Expected {
            row: 0,
            col: 13,
            expect: TokenKind::Semicolon
        })
    );
    assert_eq!(
        tokens.expect_local_variable(),
        Err(CompileError::Expected {
            row: 0,
            col: 13,
            expect: variable("", 0)
        })
    );
    assert!(tokens.is_empty());
}

#[test]
fn expect_number_returns_the_value() {
    let mut tokens = stream("4294967295 0");
    assert_eq!(tokens.expect_number(), Ok(4294967295));
    assert_eq!(tokens.expect_number(), Ok(0));
    assert_eq!(
        tokens.expect_number(),
        Err(CompileError::Expected {
            row: 0,
            col: 12,
            expect: TokenKind::Num(0)
        })
    );
}

#[test]
fn an_error_behind_zero_is_reported_behind_it() {
    let mut tokens = stream("(0");
    assert!(tokens.consume(TokenKind::LRoundBracket));
    assert_eq!(tokens.expect_number(), Ok(0));
    assert_eq!(
        tokens.expect(TokenKind::RRoundBracket),
        Err(CompileError::Expected {
            row: 0,
            col: 2,
            expect: TokenKind::RRoundBracket
        })
    );
    let mut tokens = TokenStream::new(vec![Token::new(3, 0, TokenKind::Num(2))]);
    assert_eq!(tokens.expect_number(), Ok(2));
    let error = tokens.expect(TokenKind::RRoundBracket).unwrap_err();
    assert_eq!(
        error,
        CompileError::Expected {
            row: 0,
            col: 4,
            expect: TokenKind::RRoundBracket
        }
    );
    assert_eq!(error.to_string(), "0:4 expect Operation: )");
}

#[test]
fn the_place_of_an_error_is_behind_the_last_token_taken() {
    let mut tokens = TokenStream::new(vec![
        Token::new(3, 1, TokenKind::Return),
        Token::new(0, 2, variable("name", 8)),
        Token::new(4294967295, 7, TokenKind::Else),
    ]);
    assert_eq!(
        tokens.mismatch(TokenKind::If),
        CompileError::Unexpected {
            row: 1,
            col: 9,
            expect: TokenKind::If,
            result: TokenKind::Return
        }
    );
    tokens.next();
    assert_eq!(
        tokens.mismatch(TokenKind::If),
        CompileError::Unexpected {
            row: 1,
            col: 9,
            expect: TokenKind::If,
            result: variable("name", 8)
        }
    );
    tokens.next();
    assert_eq!(
        tokens.mismatch(TokenKind::If),
        CompileError::Unexpected {
            row: 2,
            col: 4,
            expect: TokenKind::If,
            result: TokenKind::Else
        }
    );
    tokens.next();
    assert_eq!(
        tokens.mismatch(TokenKind::If),
        CompileError::Expected {
            row: 7,
            col: 3,
            expect: TokenKind::If
        }
    );
}
