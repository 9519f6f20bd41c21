use ccompiler::lexer::tokenize;
use ccompiler::token::{digits, is_alnum, Token, TokenKind};

#[test]
fn test_digits() {
    assert_eq!(digits(32), 2);
    assert_eq!(digits(10923480), 8);
    assert_eq!(digits(0), 0);
}

#[test]
fn test_match_word() {
    let a = "Hello1 = 3;";
    assert_eq!(a.split_once(|c| !is_alnum(c)).unwrap().0, "Hello1");
}

#[test]
fn testrunner_tokenize() {
    let test_tokenize = |source: &str, expect: Vec<Token>| {
        let (mut tokenstream, _) = tokenize(vec![source.to_string()]).unwrap();

        for (expect, result) in expect
            .into_iter()
            .zip(std::iter::from_fn(|| tokenstream.next()))
        {
            assert_eq!(result, expect, "{}", source);
        }
    };
    let expect = vec![
        Token::new(0, 0, TokenKind::Num(1)),
        Token::new(1, 0, TokenKind::Add),
        Token::new(2, 0, TokenKind::Num(4)),
    ];
    test_tokenize("1+4", expect);

    let expect = vec![
        Token::new(0, 0, TokenKind::Sub),
        Token::new(1, 0, TokenKind::Num(23)),
        Token::new(3, 0, TokenKind::Add),
    ];
    test_tokenize("-23+", expect);

    let expect = vec![
        Token::new(0, 0, TokenKind::Num(7)),
        Token::new(1, 0, TokenKind::Add),
        Token::new(2, 0, TokenKind::Num(3)),
        Token::new(3, 0, TokenKind::Sub),
        Token::new(4, 0, TokenKind::Num(4)),
    ];
    test_tokenize("7+3-4", expect);

    let expect = vec![
        Token::new(
            0,
            0,
            TokenKind::LocalVar {
                symbol: String::from("a"),
                offset: 8,
            },
        ),
        Token::new(2, 0, TokenKind::Assign),
        Token::new(4, 0, TokenKind::Num(3)),
    ];
    test_tokenize("a = 3", expect);

    let expect = vec![
        Token::new(
            0,
            0,
            TokenKind::LocalVar {
                symbol: "hello1".into(),
                offset: 8,
            },
        ),
        Token::new(7, 0, TokenKind::Assign),
        Token::new(9, 0, TokenKind::Num(3)),
        Token::new(10, 0, TokenKind::Semicolon),
    ];
    test_tokenize("hello1 = 3;", expect);

    let expect = vec![
        Token::new(0, 0, TokenKind::Return),
        Token::new(7, 0, TokenKind::Num(8)),
        Token::new(8, 0, TokenKind::Semicolon),
    ];
    test_tokenize("return 8;", expect);

    let expect = vec![Token::new(
        0,
        0,
        TokenKind::LocalVar {
            symbol: "returned".into(),
            offset: 8,
        },
    )];
    test_tokenize("returned;", expect);

    let expect = vec![
        Token::new(0, 0, TokenKind::If),
        Token::new(3, 0, TokenKind::LRoundBracket),
        Token::new(4, 0, TokenKind::Num(1)),
        Token::new(5, 0, TokenKind::RRoundBracket),
        Token::new(
            7,
            0,
            TokenKind::LocalVar {
                symbol: "b".into(),
                offset: 8,
            },
        ),
        Token::new(9, 0, TokenKind::Assign),
        Token::new(11, 0, TokenKind::Num(20)),
        Token::new(13, 0, TokenKind::Semicolon),
    ];
    test_tokenize("if (1) b = 20;", expect);

    let expect = vec![
        Token::new(0, 0, TokenKind::If),
        Token::new(3, 0, TokenKind::LRoundBracket),
        Token::new(4, 0, TokenKind::Num(1)),
        Token::new(5, 0, TokenKind::RRoundBracket),
        Token::new(7, 0, TokenKind::Num(4)),
        Token::new(8, 0, TokenKind::Semicolon),
        Token::new(10, 0, TokenKind::Else),
        Token::new(15, 0, TokenKind::Num(5)),
        Token::new(16, 0, TokenKind::Semicolon),
    ];
    test_tokenize("if (1) 4; else 5;", expect);
}

#[test]
fn kinds_have_their_length() {
    for kind in [
        TokenKind::Add,
        TokenKind::Sub,
        TokenKind::Mul,
        TokenKind::Div,
        TokenKind::LRoundBracket,
        TokenKind::RRoundBracket,
        TokenKind::Less,
        TokenKind::Greater,
        TokenKind::Semicolon,
        TokenKind::Assign,
    ] {
        assert_eq!(kind.len(), 1, "{:?}", kind);
    }
    for kind in [
        TokenKind::Equal,
        TokenKind::NEqual,
        TokenKind::LessOrEqual,
        TokenKind::GreaterOrEqual,
        TokenKind::If,
    ] {
        assert_eq!(kind.len(), 2, "{:?}", kind);
    }
    assert_eq!(TokenKind::Else.len(), 4);
    assert_eq!(TokenKind::Return.len(), 6);
    assert_eq!(TokenKind::Num(0).len(), 1);
    assert_eq!(TokenKind::Num(9).len(), 1);
    assert_eq!(TokenKind::Num(10).len(), 2);
    assert_eq!(TokenKind::Num(7).len(), 1);
    assert_eq!(TokenKind::Num(4294967295).len(), 10);
    let variable = |symbol: &str| TokenKind::LocalVar {
        symbol: symbol.to_string(),
        offset: 8,
    };
    assert_eq!(variable("").len(), 0);
    assert_eq!(variable("hello1").len(), 6);
    assert_eq!(variable("héllo").len(), 5);
}

#[test]
fn digits_of_the_powers_of_ten() {
    assert_eq!(digits(9), 1);
    assert_eq!(digits(10), 2);
    assert_eq!(digits(99), 2);
    assert_eq!(digits(100), 3);
    assert_eq!(digits(999999999), 9);
    assert_eq!(digits(1000000000), 10);
    assert_eq!(digits(u32::MAX), 10);
}

#[test]
fn kinds_are_the_same_whatever_they_carry() {
    assert!(TokenKind::Num(1).same_kind(&TokenKind::Num(2)));
    let variable = |symbol: &str, offset: u32| TokenKind::LocalVar {
        symbol: symbol.to_string(),
        offset,
    };
    assert!(variable("a", 8).same_kind(&variable("b", 16)));
    assert!(!variable("a", 8).same_kind(&TokenKind::Num(8)));
    assert!(TokenKind::Add.same_kind(&TokenKind::Add));
    assert!(!TokenKind::Add.same_kind(&TokenKind::Sub));
    assert!(!TokenKind::Less.same_kind(&TokenKind::LessOrEqual));
    assert!(!TokenKind::If.same_kind(&TokenKind::Else));
}

#[test]
fn kinds_have_their_name() {
    assert_eq!(TokenKind::Num(5).to_string(), "Number");
    assert_eq!(TokenKind::Add.to_string(), "Operation: +");
    assert_eq!(TokenKind::Sub.to_string(), "Operation: -");
    assert_eq!(TokenKind::Mul.to_string(), "Operation: *");
    assert_eq!(TokenKind::Div.to_string(), "Operation: /");
    assert_eq!(TokenKind::LRoundBracket.to_string(), "Operation: (");
    assert_eq!(TokenKind::RRoundBracket.to_string(), "Operation: )");
    assert_eq!(TokenKind::Equal.to_string(), "Operation: ==");
    assert_eq!(TokenKind::NEqual.to_string(), "Operation: !=");
    assert_eq!(TokenKind::Less.to_string(), "Operation: <");
    assert_eq!(TokenKind::Greater.to_string(), "Operation: >");
    assert_eq!(TokenKind::LessOrEqual.to_string(), "Operation: <=");
    assert_eq!(TokenKind::GreaterOrEqual.to_string(), "Operation: >=");
    assert_eq!(
        TokenKind::LocalVar {
            symbol: "a".to_string(),
            offset: 8
        }
        .to_string(),
        "Variable"
    );
    assert_eq!(TokenKind::Semicolon.to_string(), "Semicolon: ;");
    assert_eq!(TokenKind::Assign.to_string(), "Assign: =");
    assert_eq!(TokenKind::If.to_string(), "If");
    assert_eq!(TokenKind::Return.to_string(), "Return");
    assert_eq!(TokenKind::Else.to_string(), "Else");
}

#[test]
fn tokens_keep_what_they_are_made_of() {
    let token = Token::new(7, 3, TokenKind::Return);
    assert_eq!(token.col(), 7);
    assert_eq!(token.row(), 3);
    assert_eq!(token.kind(), TokenKind::Return);
    assert_eq!(token.end_col(), 13);
    assert_eq!(token.clone(), token);
    assert_eq!(Token::new(u32::MAX, 0, TokenKind::If).end_col(), 1);
    assert_eq!(Token::new(5, 0, TokenKind::Num(0)).end_col(), 6);
    let kind = TokenKind::LocalVar {
        symbol: "name".to_string(),
        offset: 16,
    };
    assert_eq!(kind.clone(), kind);
    assert_eq!(Token::new(2, 0, kind).end_col(), 6);
}

#[test]
fn letters_digits_and_underscore_make_names() {
    for c in ['a', 'z', 'A', 'Z', '_', 'm'] {
        assert!(ccompiler::token::is_var_first(c), "{}", c);
        assert!(is_alnum(c), "{}", c);
    }
    for c in ['0', '9', '5'] {
        assert!(!ccompiler::token::is_var_first(c), "{}", c);
        assert!(is_alnum(c), "{}", c);
    }
    for c in [' ', '+', '`', '{', '@', '[', '/', ':', 'é', '\n'] {
        assert!(!ccompiler::token::is_var_first(c), "{}", c);
        assert!(!is_alnum(c), "{}", c);
    }
}
