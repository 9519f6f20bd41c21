use ccompiler::lexer::tokenize;
use ccompiler::node::{
    add, assign, equality, expr, mul, primary, program, relational, stmt, unary, Node,
};
use ccompiler::result::CompileError;
use ccompiler::token::{Token, TokenKind};

#[test]
fn testrunner_node() {
    let test_node = |source: &str, expect: Box<Node>| {
        let (mut tokenstream, _) = tokenize(vec![source.to_string()]).unwrap();
        let stmt = stmt(&mut tokenstream).unwrap().unwrap();

        assert_eq!(stmt, expect, "{}", source);
    };

    let expect = Box::new(Node {
        kind: TokenKind::Add,
        lhs: Some(Box::new(Node {
            kind: TokenKind::Num(1),
            lhs: None,
            rhs: None,
        })),
        rhs: Some(Box::new(Node {
            kind: TokenKind::Num(2),
            lhs: None,
            rhs: None,
        })),
    });
    test_node("1+2;", expect);

    let expect = Box::new(Node {
        kind: TokenKind::Assign,
        lhs: Some(Box::new(Node {
            kind: TokenKind::LocalVar {
                symbol: "a".to_string(),
                offset: 8,
            },
            lhs: None,
            rhs: None,
        })),
        rhs: Some(Box::new(Node {
            kind: TokenKind::Num(3),
            lhs: None,
            rhs: None,
        })),
    });
    test_node("a = 3;", expect);

    let expect = Box::new(Node {
        kind: TokenKind::If,
        lhs: Some(Box::new(Node {
            kind: TokenKind::Num(1),
            lhs: None,
            rhs: None,
        })),
        rhs: Some(Box::new(Node {
            kind: TokenKind::Num(4),
            lhs: None,
            rhs: None,
        })),
    });
    test_node("if (1) 4;", expect);
}

fn parse(source: &str) -> Result<Vec<Box<Node>>, CompileError> {
    let (mut tokenstream, _) = tokenize(vec![source.to_string()]).unwrap();
    program(&mut tokenstream)
}

fn num(value: u32) -> Box<Node> {
    Node::num_node(value)
}

fn op(kind: TokenKind, lhs: Box<Node>, rhs: Box<Node>) -> Box<Node> {
    Node::op_node(kind, lhs, rhs)
}

fn var(symbol: &str, offset: u32) -> Box<Node> {
    Node::variable_node(symbol.to_string(), offset)
}

#[test]
fn builders_make_the_nodes() {
    assert_eq!(
        num(7),
        Box::new(Node {
            kind: TokenKind::Num(7),
            lhs: None,
            rhs: None
        })
    );
    assert_eq!(
        var("x", 16),
        Box::new(Node {
            kind: TokenKind::LocalVar {
                symbol: "x".to_string(),
                offset: 16
            },
            lhs: None,
            rhs: None
        })
    );
    let node = op(TokenKind::Mul, num(2), var("x", 16));
    assert_eq!(node.kind(), TokenKind::Mul);
    assert_eq!(node.lhs(), Some(&num(2)));
    assert_eq!(node.rhs(), Some(&var("x", 16)));
    assert_eq!(num(1).lhs(), None);
    assert_eq!(num(1).rhs(), None);
}

#[test]
fn products_bind_before_sums() {
    assert_eq!(
        parse("1+2*3;").unwrap(),
        vec![op(TokenKind::Add, num(1), op(TokenKind::Mul, num(2), num(3)))]
    );
    assert_eq!(
        parse("1*2+3;").unwrap(),
        vec![op(TokenKind::Add, op(TokenKind::Mul, num(1), num(2)), num(3))]
    );
    assert_eq!(
        parse("(1+2)*3;").unwrap(),
        vec![op(TokenKind::Mul, op(TokenKind::Add, num(1), num(2)), num(3))]
    );
    assert_eq!(
        parse("1+2<3*4==5;").unwrap(),
        vec![op(
            TokenKind::Equal,
            op(
                TokenKind::Less,
                op(TokenKind::Add, num(1), num(2)),
                op(TokenKind::Mul, num(3), num(4))
            ),
            num(5)
        )]
    );
}

#[test]
fn operators_group_to_the_left_and_assignment_to_the_right() {
    assert_eq!(
        parse("1-2-3;").unwrap(),
        vec![op(TokenKind::Sub, op(TokenKind::Sub, num(1), num(2)), num(3))]
    );
    assert_eq!(
        parse("8/4/2;").unwrap(),
        vec![op(TokenKind::Div, op(TokenKind::Div, num(8), num(4)), num(2))]
    );
    assert_eq!(
        parse("1==2!=3;").unwrap(),
        vec![op(TokenKind::NEqual, op(TokenKind::Equal, num(1), num(2)), num(3))]
    );
    assert_eq!(
        parse("a=b=3;").unwrap(),
        vec![op(
            TokenKind::Assign,
            var("a", 8),
            op(TokenKind::Assign, var("b", 16), num(3))
        )]
    );
}

#[test]
fn greater_becomes_less_with_the_operands_swapped() {
    assert_eq!(parse("1<2;").unwrap(), vec![op(TokenKind::Less, num(1), num(2))]);
    assert_eq!(parse("1>2;").unwrap(), vec![op(TokenKind::Less, num(2), num(1))]);
    assert_eq!(
        parse("1<=2;").unwrap(),
        vec![op(TokenKind::LessOrEqual, num(1), num(2))]
    );
    assert_eq!(
        parse("1>=2;").unwrap(),
        vec![op(TokenKind::LessOrEqual, num(2), num(1))]
    );
    assert_eq!(
        parse("1>2>3;").unwrap(),
        vec![op(TokenKind::Less, num(3), op(TokenKind::Less, num(2), num(1)))]
    );
}

#[test]
fn minus_becomes_a_difference_from_zero() {
    assert_eq!(parse("-5;").unwrap(), vec![op(TokenKind::Sub, num(0), num(5))]);
    assert_eq!(parse("+5;").unwrap(), vec![num(5)]);
    assert_eq!(
        parse("-(1+2)*3;").unwrap(),
        vec![op(
            TokenKind::Mul,
            op(TokenKind::Sub, num(0), op(TokenKind::Add, num(1), num(2))),
            num(3)
        )]
    );
    assert_eq!(
        parse("1 - -2;").unwrap(),
        vec![op(TokenKind::Sub, num(1), op(TokenKind::Sub, num(0), num(2)))]
    );
}

#[test]
fn statements_have_their_shape() {
    assert_eq!(parse("").unwrap(), vec![]);
    assert_eq!(parse("1; 2;").unwrap(), vec![num(1), num(2)]);
    assert_eq!(
        parse("return 1+2;").unwrap(),
        vec![Box::new(Node {
            kind: TokenKind::Return,
            lhs: Some(op(TokenKind::Add, num(1), num(2))),
            rhs: None
        })]
    );
    assert_eq!(
        parse("if (a) 1; else 2; 3;").unwrap(),
        vec![
            op(
                TokenKind::If,
                var("a", 8),
                op(TokenKind::Else, num(1), num(2))
            ),
            num(3)
        ]
    );
    assert_eq!(
        parse("if (1) if (2) 3; else 4;").unwrap(),
        vec![op(
            TokenKind::If,
            num(1),
            op(
                TokenKind::If,
                num(2),
                op(TokenKind::Else, num(3), num(4))
            )
        )]
    );
}

#[test]
fn statements_on_two_lines_come_in_order() {
    let lines = vec!["a = 1;".to_string(), String::new(), "return a;".to_string()];
    let (mut tokenstream, count) = tokenize(lines).unwrap();
    assert_eq!(count, 1);
    assert_eq!(
        program(&mut tokenstream),
        Ok(vec![
            op(TokenKind::Assign, var("a", 8), num(1)),
            Box::new(Node {
                kind: TokenKind::Return,
                lhs: Some(var("a", 8)),
                rhs: None
            }),
        ])
    );
    assert!(tokenstream.is_empty());
}

#[test]
fn stmt_ends_where_the_source_ends() {
    let (mut tokenstream, _) = tokenize(vec!["1;".to_string()]).unwrap();
    assert_eq!(stmt(&mut tokenstream), Ok(Some(num(1))));
    assert_eq!(stmt(&mut tokenstream), Ok(None));
    assert_eq!(stmt(&mut tokenstream), Ok(None));
}

#[test]
fn every_tier_reads_its_own() {
    let source = "a = 1 == 2 < 3 + 4 * -5";
    let tokens = || tokenize(vec![source.to_string()]).unwrap().0;
    let mut tokenstream = tokens();
    assert_eq!(primary(&mut tokenstream), Ok(var("a", 8)));
    assert_eq!(
        tokenstream.peek().map(|token| token.kind()),
        Some(TokenKind::Assign)
    );
    let mut tokenstream = tokens();
    assert_eq!(equality(&mut tokenstream), Ok(var("a", 8)));
    let whole = op(
        TokenKind::Assign,
        var("a", 8),
        op(
            TokenKind::Equal,
            num(1),
            op(
                TokenKind::Less,
                num(2),
                op(
                    TokenKind::Add,
                    num(3),
                    op(TokenKind::Mul, num(4), op(TokenKind::Sub, num(0), num(5))),
                ),
            ),
        ),
    );
    let mut tokenstream = tokens();
    assert_eq!(assign(&mut tokenstream).as_ref(), Ok(&whole));
    assert!(tokenstream.is_empty());
    let mut tokenstream = tokens();
    assert_eq!(expr(&mut tokenstream), Ok(whole));

    let mut tokenstream = tokenize(vec!["-5 * 2 + 3 < 4 == 5".to_string()]).unwrap().0;
    assert_eq!(unary(&mut tokenstream), Ok(op(TokenKind::Sub, num(0), num(5))));
    assert_eq!(tokenstream.next(), Some(Token::new(3, 0, TokenKind::Mul)));
    assert_eq!(mul(&mut tokenstream), Ok(num(2)));
    assert_eq!(tokenstream.next(), Some(Token::new(7, 0, TokenKind::Add)));
    assert_eq!(add(&mut tokenstream), Ok(num(3)));
    assert_eq!(tokenstream.next(), Some(Token::new(11, 0, TokenKind::Less)));
    assert_eq!(relational(&mut tokenstream), Ok(num(4)));
    assert_eq!(tokenstream.next(), Some(Token::new(15, 0, TokenKind::Equal)));
    assert_eq!(equality(&mut tokenstream), Ok(num(5)));
}

#[test]
fn syntax_errors_name_what_is_missing() {
    let expected = |col: u32, expect: TokenKind| CompileError::Expected { row: 0, col, expect };
    let unexpected = |col: u32, expect: TokenKind, result: TokenKind| CompileError::Unexpected {
        row: 0,
        col,
        expect,
        result,
    };
    assert_eq!(parse("1"), Err(expected(1, TokenKind::Semicolon)));
    assert_eq!(parse("return 1"), Err(expected(8, TokenKind::Semicolon)));
    assert_eq!(parse("return"), Err(expected(6, TokenKind::Num(0))));
    assert_eq!(parse("1 +"), Err(expected(3, TokenKind::Num(0))));
    assert_eq!(parse("(1"), Err(expected(2, TokenKind::RRoundBracket)));
    assert_eq!(parse("if"), Err(expected(2, TokenKind::LRoundBracket)));
    assert_eq!(parse("if (1"), Err(expected(5, TokenKind::RRoundBracket)));
    assert_eq!(parse("if (1)"), Err(expected(6, TokenKind::Num(0))));
    assert_eq!(parse("if (1) 2; else"), Err(expected(14, TokenKind::Num(0))));
    assert_eq!(
        parse("1 2;"),
        Err(unexpected(1, TokenKind::Semicolon, TokenKind::Num(2)))
    );
    assert_eq!(
        parse("if 1"),
        Err(unexpected(2, TokenKind::LRoundBracket, TokenKind::Num(1)))
    );
    assert_eq!(
        parse("1 + ;"),
        Err(unexpected(3, TokenKind::Num(0), TokenKind::Semicolon))
    );
    assert_eq!(
        parse(")"),
        Err(unexpected(1, TokenKind::Num(0), TokenKind::RRoundBracket))
    );
    assert_eq!(
        parse("else 1;"),
        Err(unexpected(4, TokenKind::Num(0), TokenKind::Else))
    );
    assert_eq!(
        parse("1; return return;"),
        Err(unexpected(9, TokenKind::Num(0), TokenKind::Return))
    );
}
