use ccompiler::lexer::{
    four_word_token, one_word_token, other_word_token, six_word_token, tokenize, two_word_token,
};
use ccompiler::result::CompileError;
use ccompiler::token::{Token, TokenKind};

fn lex(lines: &[&str]) -> Result<(Vec<Token>, u32), CompileError> {
    let (mut tokenstream, count) = tokenize(lines.iter().map(|line| line.to_string()).collect())?;
    let mut tokens = Vec::new();
    while let Some(token) = tokenstream.next() {
        tokens.push(token);
    }
    Ok((tokens, count))
}

fn variable(symbol: &str, offset: u32) -> TokenKind {
    TokenKind::LocalVar {
        symbol: symbol.to_string(),
        offset,
    }
}

#[test]
fn a_source_without_lines_is_empty() {
    assert_eq!(lex(&[]), Err(CompileError::Empty));
    assert_eq!(lex(&[""]), Ok((vec![], 0)));
    assert_eq!(lex(&["", " \t\r ", ""]), Ok((vec![], 0)));
}

#[test]
fn every_mark_is_a_token() {
    let (tokens, count) = lex(&["+-*/()<>;= == != <= >="]).unwrap();
    assert_eq!(count, 0);
    assert_eq!(
        tokens,
        vec![
            Token::new(0, 0, TokenKind::Add),
            Token::new(1, 0, TokenKind::Sub),
            Token::new(2, 0, TokenKind::Mul),
            Token::new(3, 0, TokenKind::Div),
            Token::new(4, 0, TokenKind::LRoundBracket),
            Token::new(5, 0, TokenKind::RRoundBracket),
            Token::new(6, 0, TokenKind::Less),
            Token::new(7, 0, TokenKind::Greater),
            Token::new(8, 0, TokenKind::Semicolon),
            Token::new(9, 0, TokenKind::Assign),
            Token::new(11, 0, TokenKind::Equal),
            Token::new(14, 0, TokenKind::NEqual),
            Token::new(17, 0, TokenKind::LessOrEqual),
            Token::new(20, 0, TokenKind::GreaterOrEqual),
        ]
    );
}

#[test]
fn long_marks_come_before_short_ones() {
    let kinds = |line: &str| -> Vec<TokenKind> {
        lex(&[line]).unwrap().0.iter().map(|token| token.kind()).collect()
    };
    assert_eq!(kinds("==="), vec![TokenKind::Equal, TokenKind::Assign]);
    assert_eq!(kinds("<=="), vec![TokenKind::LessOrEqual, TokenKind::Assign]);
    assert_eq!(kinds("=<"), vec![TokenKind::Assign, TokenKind::Less]);
    assert_eq!(kinds("> ="), vec![TokenKind::Greater, TokenKind::Assign]);
    assert_eq!(kinds("<>"), vec![TokenKind::Less, TokenKind::Greater]);
}

#[test]
fn keywords_end_where_names_end() {
    let kinds = |line: &str| -> Vec<TokenKind> {
        lex(&[line]).unwrap().0.iter().map(|token| token.kind()).collect()
    };
    assert_eq!(kinds("if"), vec![TokenKind::If]);
    assert_eq!(kinds("else"), vec![TokenKind::Else]);
    assert_eq!(kinds("return"), vec![TokenKind::Return]);
    assert_eq!(kinds("if("), vec![TokenKind::If, TokenKind::LRoundBracket]);
    assert_eq!(kinds("return;"), vec![TokenKind::Return, TokenKind::Semicolon]);
    assert_eq!(kinds("else+"), vec![TokenKind::Else, TokenKind::Add]);
    assert_eq!(kinds("iff"), vec![variable("iff", 8)]);
    assert_eq!(kinds("if_"), vec![variable("if_", 8)]);
    assert_eq!(kinds("if0"), vec![variable("if0", 8)]);
    assert_eq!(kinds("elsewhere"), vec![variable("elsewhere", 8)]);
    assert_eq!(kinds("return1"), vec![variable("return1", 8)]);
    assert_eq!(kinds("xif"), vec![variable("xif", 8)]);
    assert_eq!(kinds("_return"), vec![variable("_return", 8)]);
    assert_eq!(kinds("If"), vec![variable("If", 8)]);
    assert_eq!(kinds("retur"), vec![variable("retur", 8)]);
    assert_eq!(kinds("1if"), vec![TokenKind::Num(1), TokenKind::If]);
}

#[test]
fn names_get_offsets_in_the_order_seen() {
    let (tokens, count) = lex(&["a = 1; bb = a;", "a_1 = bb + a; _ = a_1;"]).unwrap();
    assert_eq!(count, 4);
    let variables: Vec<Token> = tokens
        .into_iter()
        .filter(|token| token.kind().same_kind(&variable("", 0)))
        .collect();
    assert_eq!(
        variables,
        vec![
            Token::new(0, 0, variable("a", 8)),
            Token::new(7, 0, variable("bb", 16)),
            Token::new(12, 0, variable("a", 8)),
            Token::new(0, 1, variable("a_1", 24)),
            Token::new(6, 1, variable("bb", 16)),
            Token::new(11, 1, variable("a", 8)),
            Token::new(14, 1, variable("_", 32)),
            Token::new(18, 1, variable("a_1", 24)),
        ]
    );
}

#[test]
fn names_differ_by_case() {
    let (tokens, count) = lex(&["a A a"]).unwrap();
    assert_eq!(count, 2);
    assert_eq!(tokens[0].kind(), variable("a", 8));
    assert_eq!(tokens[1].kind(), variable("A", 16));
    assert_eq!(tokens[2].kind(), variable("a", 8));
}

#[test]
fn numbers_are_read_in_32_bits() {
    let value = |line: &str| -> TokenKind { lex(&[line]).unwrap().0[0].kind() };
    assert_eq!(value("0"), TokenKind::Num(0));
    assert_eq!(value("007"), TokenKind::Num(7));
    assert_eq!(value("1234567890"), TokenKind::Num(1234567890));
    assert_eq!(value("4294967295"), TokenKind::Num(4294967295));
    assert_eq!(value("4294967296"), TokenKind::Num(0));
    assert_eq!(value("4294967297"), TokenKind::Num(1));
    assert_eq!(value("99999999999"), TokenKind::Num(1215752191));
    assert_eq!(lex(&["12ab"]).unwrap().0, vec![
        Token::new(0, 0, TokenKind::Num(12)),
        Token::new(2, 0, variable("ab", 8)),
    ]);
}

#[test]
fn rows_and_columns_start_at_zero() {
    let (tokens, _) = lex(&["", "  1", "\t\tx ;"]).unwrap();
    assert_eq!(
        tokens,
        vec![
            Token::new(2, 1, TokenKind::Num(1)),
            Token::new(2, 2, variable("x", 8)),
            Token::new(4, 2, TokenKind::Semicolon),
        ]
    );
}

#[test]
fn the_same_text_gives_the_same_tokens() {
    let lines = ["a = 3;", "if (a == 3) return a; else return 0;"];
    let first = lex(&lines).unwrap();
    let second = lex(&lines).unwrap();
    assert_eq!(first, second);
    assert_eq!(first.0.len(), 17);
    assert_eq!(first.0[16], Token::new(35, 1, TokenKind::Semicolon));
}

#[test]
fn a_character_that_starts_no_token_is_an_error() {
    assert_eq!(
        lex(&["1 + $"]),
        Err(CompileError::InvalidCharacter { row: 0, col: 4 })
    );
    assert_eq!(
        lex(&["a = 1;", "b = a ! 2;"]),
        Err(CompileError::InvalidCharacter { row: 1, col: 6 })
    );
    assert_eq!(
        lex(&["é"]),
        Err(CompileError::InvalidCharacter { row: 0, col: 0 })
    );
    assert_eq!(
        lex(&["aé"]),
        Err(CompileError::InvalidCharacter { row: 0, col: 1 })
    );
    assert_eq!(
        lex(&["ééé 1 #"]),
        Err(CompileError::InvalidCharacter { row: 0, col: 0 })
    );
    assert_eq!(
        lex(&["1\n2"]),
        Err(CompileError::InvalidCharacter { row: 0, col: 1 })
    );
    assert_eq!(
        lex(&["x = 1 & 2"]),
        Err(CompileError::InvalidCharacter { row: 0, col: 6 })
    );
}

#[test]
fn fixed_words_are_tried_from_the_longest() {
    let line = "return else if == <".to_string();
    let mut tokens = Vec::new();
    let mut col = 0;
    assert!(six_word_token(&mut tokens, &line, 4, &mut col));
    assert_eq!(col, 6);
    assert!(six_word_token(&mut tokens, &line, 4, &mut col));
    assert_eq!(col, 7);
    assert_eq!(tokens, vec![Token::new(0, 4, TokenKind::Return)]);

    let mut col = 0;
    assert!(!four_word_token(&mut tokens, &line, 4, &mut col));
    assert!(!two_word_token(&mut tokens, &line, 4, &mut col));
    assert!(!one_word_token(&mut tokens, &line, 4, &mut col));
    assert_eq!(col, 0);
    assert_eq!(tokens.len(), 1);

    let mut col = 7;
    assert!(six_word_token(&mut tokens, &line, 4, &mut col));
    assert_eq!(col, 11);
    let mut col = 12;
    assert!(four_word_token(&mut tokens, &line, 4, &mut col));
    assert_eq!(col, 14);
    let mut col = 15;
    assert!(two_word_token(&mut tokens, &line, 4, &mut col));
    assert_eq!(col, 17);
    let mut col = 18;
    assert!(one_word_token(&mut tokens, &line, 4, &mut col));
    assert_eq!(col, 19);
    assert!(!six_word_token(&mut tokens, &line, 4, &mut col));
    assert_eq!(col, 19);
    let mut col = 25;
    assert!(!six_word_token(&mut tokens, &line, 4, &mut col));
    assert_eq!(col, 25);
    assert_eq!(
        tokens,
        vec![
            Token::new(0, 4, TokenKind::Return),
            Token::new(7, 4, TokenKind::Else),
            Token::new(12, 4, TokenKind::If),
            Token::new(15, 4, TokenKind::Equal),
            Token::new(18, 4, TokenKind::Less),
        ]
    );
}

#[test]
fn short_words_do_not_take_long_ones() {
    let line = "==;".to_string();
    let mut tokens = Vec::new();
    let mut col = 0;
    assert!(one_word_token(&mut tokens, &line, 0, &mut col));
    assert_eq!(col, 1);
    assert_eq!(tokens, vec![Token::new(0, 0, TokenKind::Assign)]);
    let line = "else".to_string();
    let mut col = 0;
    assert!(!two_word_token(&mut tokens, &line, 0, &mut col));
    assert!(four_word_token(&mut tokens, &line, 0, &mut col));
    assert_eq!(col, 4);
}

#[test]
fn other_words_are_names_and_numbers() {
    let line = "ab1 20 ab1 c ?".to_string();
    let mut tokens = Vec::new();
    let mut variables = vec!["z".to_string()];
    let mut col = 0;
    assert_eq!(
        other_word_token(&mut tokens, &line, &mut variables, 2, &mut col),
        Ok(())
    );
    assert_eq!(col, 3);
    assert_eq!(
        other_word_token(&mut tokens, &line, &mut variables, 2, &mut col),
        Err(CompileError::InvalidCharacter { row: 2, col: 3 })
    );
    assert_eq!(col, 3);
    col = 4;
    assert_eq!(
        other_word_token(&mut tokens, &line, &mut variables, 2, &mut col),
        Ok(())
    );
    assert_eq!(col, 6);
    col = 7;
    assert_eq!(
        other_word_token(&mut tokens, &line, &mut variables, 2, &mut col),
        Ok(())
    );
    assert_eq!(col, 10);
    col = 11;
    assert_eq!(
        other_word_token(&mut tokens, &line, &mut variables, 2, &mut col),
        Ok(())
    );
    assert_eq!(col, 12);
    col = 13;
    assert_eq!(
        other_word_token(&mut tokens, &line, &mut variables, 2, &mut col),
        Err(CompileError::InvalidCharacter { row: 2, col: 13 })
    );
    col = 14;
    assert_eq!(
        other_word_token(&mut tokens, &line, &mut variables, 2, &mut col),
        Err(CompileError::InvalidCharacter { row: 2, col: 14 })
    );
    assert_eq!(variables, vec!["z", "ab1", "c"]);
    assert_eq!(
        tokens,
        vec![
            Token::new(0, 2, variable("ab1", 16)),
            Token::new(4, 2, TokenKind::Num(20)),
            Token::new(7, 2, variable("ab1", 16)),
            Token::new(11, 2, variable("c", 24)),
        ]
    );
}
