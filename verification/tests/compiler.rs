use ccompiler::gen::{compile_from_source, gen, gen_lval};
use ccompiler::node::Node;
use ccompiler::result::CompileError;
use ccompiler::token::TokenKind;
use std::collections::HashMap;

/// Runs assembly text as the machine would: registers of 64 bits, a stack
/// that grows downwards and shares its memory with the frame. Returns what
/// `main` leaves in `rax`, and checks that it leaves the stack as it found
/// it.
fn execute(text: &str) -> i64 {
    let lines: Vec<&str> = text.lines().map(|line| line.trim()).collect();
    let mut labels = HashMap::new();
    for (index, line) in lines.iter().enumerate() {
        if let Some(name) = line.strip_suffix(':') {
            assert!(
                labels.insert(name.to_string(), index).is_none(),
                "label {} stands twice",
                name
            );
        }
    }
    let start: i64 = 1 << 20;
    let mut memory: HashMap<i64, i64> = HashMap::new();
    let (mut rax, mut rdi, mut rbp, mut rsp): (i64, i64, i64, i64) = (-1, -2, -3, start);
    let mut rdx: i64 = -4;
    let mut flags: (i64, i64) = (0, 0);
    let mut al: i64 = 0;
    let mut pc = labels["main"];
    let mut steps = 0;
    loop {
        steps += 1;
        assert!(steps < 1_000_000, "the program does not end");
        assert!(pc < lines.len(), "ran past the end of the text");
        let line = lines[pc];
        pc += 1;
        let (name, operands) = match line.split_once(' ') {
            Some((name, operands)) => (name, operands.trim()),
            None => (line, ""),
        };
        let operands: Vec<&str> = operands.split(',').map(|operand| operand.trim()).collect();
        match (name, operands.as_slice()) {
            (".intel_syntax", _) | (".globl", _) => {}
            (label, _) if label.ends_with(':') => {}
            ("push", [source]) => {
                let value = match *source {
                    "rax" => rax,
                    "rdi" => rdi,
                    "rbp" => rbp,
                    number => number.parse::<u32>().unwrap() as i32 as i64,
                };
                rsp -= 8;
                memory.insert(rsp, value);
            }
            ("pop", [target]) => {
                assert!(rsp < start, "pop from an empty stack");
                let value = memory[&rsp];
                rsp += 8;
                match *target {
                    "rax" => rax = value,
                    "rdi" => rdi = value,
                    "rbp" => rbp = value,
                    other => panic!("pop {}", other),
                }
            }
            ("mov", ["rbp", "rsp"]) => rbp = rsp,
            ("mov", ["rsp", "rbp"]) => rsp = rbp,
            ("mov", ["rax", "rbp"]) => rax = rbp,
            ("mov", ["rax", "[rax]"]) => rax = *memory.get(&rax).unwrap_or(&0),
            ("mov", ["rax", number]) => rax = number.parse::<i64>().unwrap(),
            ("mov", ["[rax]", "rdi"]) => {
                memory.insert(rax, rdi);
            }
            ("add", ["rax", "rdi"]) => rax = rax.wrapping_add(rdi),
            ("sub", ["rax", "rdi"]) => rax = rax.wrapping_sub(rdi),
            ("sub", ["rax", number]) => rax = rax.wrapping_sub(number.parse::<i64>().unwrap()),
            ("sub", ["rsp", number]) => rsp -= number.parse::<i64>().unwrap(),
            ("imul", ["rax", "rdi"]) => rax = rax.wrapping_mul(rdi),
            ("cqo", _) => rdx = if rax < 0 { -1 } else { 0 },
            ("idiv", ["rdi"]) => {
                assert_eq!(rdx, if rax < 0 { -1 } else { 0 });
                let (quotient, remainder) = (rax / rdi, rax % rdi);
                rax = quotient;
                rdx = remainder;
            }
            ("cmp", ["rax", "rdi"]) => flags = (rax, rdi),
            ("cmp", ["rax", "0"]) => flags = (rax, 0),
            ("sete", ["al"]) => al = (flags.0 == flags.1) as i64,
            ("setne", ["al"]) => al = (flags.0 != flags.1) as i64,
            ("setl", ["al"]) => al = (flags.0 < flags.1) as i64,
            ("setle", ["al"]) => al = (flags.0 <= flags.1) as i64,
            ("movzb", ["rax", "al"]) => rax = al,
            ("je", [label]) => {
                if flags.0 == flags.1 {
                    pc = labels[*label];
                }
            }
            ("jmp", [label]) => pc = labels[*label],
            ("ret", _) => {
                assert_eq!(rsp, start, "the stack is not as main found it");
                assert_eq!(rbp, -3, "rbp is not as main found it");
                return rax;
            }
            _ => panic!("unknown line: {}", line),
        }
    }
}

fn compile(source: &str) -> Result<String, CompileError> {
    compile_from_source(source.lines().map(|line| line.to_string()).collect())
}

fn result_of(source: &str) -> i64 {
    execute(&compile(source).unwrap())
}

fn num(value: u32) -> Box<Node> {
    Node::num_node(value)
}

#[test]
fn arithmetic_yields_the_value_of_the_expression() {
    assert_eq!(result_of("0;"), 0);
    assert_eq!(result_of("42;"), 42);
    assert_eq!(result_of("5+20-4;"), 21);
    assert_eq!(result_of("12 + 34 - 5;"), 41);
    assert_eq!(result_of("5+6*7;"), 47);
    assert_eq!(result_of("5*(9-6);"), 15);
    assert_eq!(result_of("(3+5)/2;"), 4);
    assert_eq!(result_of("+10/(-2+7);"), 2);
}

#[test]
fn operators_group_to_the_left() {
    assert_eq!(result_of("2-3-4;"), -5);
    assert_eq!(result_of("100/10/5;"), 2);
    assert_eq!(result_of("2*3+4*5;"), 26);
    assert_eq!(result_of("2+3*4-5;"), 9);
}

#[test]
fn division_rounds_towards_zero() {
    assert_eq!(result_of("7/2;"), 3);
    assert_eq!(result_of("-7/2;"), -3);
    assert_eq!(result_of("7/(0-2);"), -3);
    assert_eq!(result_of("-7/(0-2);"), 3);
}

#[test]
fn comparisons_yield_zero_or_one() {
    assert_eq!(result_of("(2+1)==3;"), 1);
    assert_eq!(result_of("(2+1)==4;"), 0);
    assert_eq!(result_of("(2+1)!=4;"), 1);
    assert_eq!(result_of("(2+1)!=3;"), 0);
    assert_eq!(result_of("(4*7)>(3*8);"), 1);
    assert_eq!(result_of("(4*7)>38;"), 0);
    assert_eq!(result_of("4<5;"), 1);
    assert_eq!(result_of("12<5;"), 0);
    assert_eq!(result_of("1<=3;"), 1);
    assert_eq!(result_of("2<=2;"), 1);
    assert_eq!(result_of("3<=1;"), 0);
    assert_eq!(result_of("1>=3;"), 0);
    assert_eq!(result_of("2>=2;"), 1);
    assert_eq!(result_of("3>=1;"), 1);
    assert_eq!(result_of("1<2==1;"), 1);
}

#[test]
fn assignment_round_trip() {
    assert_eq!(result_of("a = 3; a;"), 3);
    assert_eq!(result_of("a = 3; b = 4; a + b;"), 7);
    assert_eq!(result_of("a = b = 5; a + b;"), 10);
    assert_eq!(result_of("a = 3;\nb = a * 2;\na = a + b;\na;"), 9);
    assert_eq!(result_of("x = 1; (x = 7) + x;"), 14);
}

#[test]
fn untaken_if_does_not_run_its_statement() {
    assert_eq!(result_of("if (0) 9; 5;"), 5);
    assert_eq!(result_of("a = 1; if (0) a = 9; a;"), 1);
    assert_eq!(result_of("if (0) 9;"), 0);
    assert_eq!(result_of("if (0) return 9; 5;"), 5);
}

#[test]
fn taken_if_runs_its_statement() {
    assert_eq!(result_of("if (1) 9;"), 9);
    assert_eq!(result_of("a = 1; if (2) a = 9; a;"), 9);
    assert_eq!(result_of("if (1) return 9; 5;"), 9);
}

#[test]
fn if_else_runs_one_branch() {
    assert_eq!(result_of("if (0) 1; else 2;"), 2);
    assert_eq!(result_of("if (1) 1; else 2;"), 1);
    assert_eq!(result_of("a = 5; if (a < 3) a = 1; else a = 2; a;"), 2);
    assert_eq!(result_of("a = 2; if (a < 3) a = 1; else a = 2; a;"), 1);
    assert_eq!(result_of("if (0) 1; else if (0) 2; else 3;"), 3);
    assert_eq!(result_of("if (0) 1; else if (1) 2; else 3;"), 2);
    assert_eq!(result_of("if (1) if (0) 1; else 2; else 3;"), 2);
}

#[test]
fn two_ifs_do_not_share_a_label() {
    assert_eq!(result_of("if (1) 1; if (0) 9; return 7;"), 7);
    assert_eq!(result_of("a = 0; if (1) a = 1; if (0) a = 9; return a;"), 1);
    assert_eq!(result_of("a = 0; if (0) a = 1; if (1) a = 9; return a;"), 9);
    let text = compile("if (1) 1; if (0) 9; if (1) 2; else 3;").unwrap();
    for label in [".L0:", ".L1:", ".L2:", ".L3:"] {
        assert_eq!(text.lines().filter(|line| *line == label).count(), 1, "{}", label);
    }
    assert_eq!(text.lines().filter(|line| line.ends_with(':')).count(), 5);
}

#[test]
fn return_leaves_the_program() {
    assert_eq!(result_of("return 1; 2;"), 1);
    assert_eq!(result_of("a = 4; return a * a; a = 0; a;"), 16);
    assert_eq!(result_of("if (0) return 1; else return 2; 3;"), 2);
}

#[test]
fn a_program_without_statements_has_prologue_and_epilogue() {
    let expect = "\
.intel_syntax noprefix
.globl main
main:
  push rbp
  mov rbp, rsp
  sub rsp, 208
  mov rsp, rbp
  pop rbp
  ret
";
    assert_eq!(compile("").unwrap_err(), CompileError::Empty);
    assert_eq!(compile_from_source(vec![String::new()]).unwrap(), expect);
    assert_eq!(compile_from_source(vec!["  ".to_string(), "\t".to_string()]).unwrap(), expect);
}

#[test]
fn text_of_a_sum() {
    let expect = "\
.intel_syntax noprefix
.globl main
main:
  push rbp
  mov rbp, rsp
  sub rsp, 208
  push 1
  push 2
  pop rdi
  pop rax
  add rax, rdi
  push rax
  pop rax
  mov rsp, rbp
  pop rbp
  ret
";
    assert_eq!(compile("1+2;").unwrap(), expect);
}

#[test]
fn text_of_every_operation() {
    let body = |source: &str| -> String {
        let text = compile(source).unwrap();
        let lines: Vec<&str> = text.lines().collect();
        lines[10..lines.len() - 5].join("\n")
    };
    assert_eq!(body("1+2;"), "  add rax, rdi");
    assert_eq!(body("1-2;"), "  sub rax, rdi");
    assert_eq!(body("1*2;"), "  imul rax, rdi");
    assert_eq!(body("1/2;"), "  cqo\n  idiv rdi");
    assert_eq!(body("1==2;"), "  cmp rax, rdi\n  sete al\n  movzb rax, al");
    assert_eq!(body("1!=2;"), "  cmp rax, rdi\n  setne al\n  movzb rax, al");
    assert_eq!(body("1<2;"), "  cmp rax, rdi\n  setl al\n  movzb rax, al");
    assert_eq!(body("1<=2;"), "  cmp rax, rdi\n  setle al\n  movzb rax, al");
    assert_eq!(body("2>1;"), "  cmp rax, rdi\n  setl al\n  movzb rax, al");
    assert_eq!(body("2>=1;"), "  cmp rax, rdi\n  setle al\n  movzb rax, al");
}

#[test]
fn text_of_assignment_and_variable() {
    let expect = "\
.intel_syntax noprefix
.globl main
main:
  push rbp
  mov rbp, rsp
  sub rsp, 208
  mov rax, rbp
  sub rax, 16
  push rax
  push 3
  pop rdi
  pop rax
  mov [rax], rdi
  push rdi
  pop rax
  mov rax, rbp
  sub rax, 16
  push rax
  pop rax
  mov rax, [rax]
  push rax
  pop rax
  mov rsp, rbp
  pop rbp
  ret
";
    assert_eq!(compile("a; b = 3; b;").unwrap().replace(
        "  mov rax, rbp\n  sub rax, 8\n  push rax\n  pop rax\n  mov rax, [rax]\n  push rax\n  pop rax\n",
        ""
    ), expect);
}

#[test]
fn text_of_if_and_if_else() {
    let mut output = String::new();
    let mut labels: u64 = 4;
    let node = Node::op_node(TokenKind::If, num(1), num(2));
    gen(&node, &mut output, &mut labels).unwrap();
    assert_eq!(
        output,
        "  push 1\n  pop rax\n  cmp rax, 0\n  je .L4\n  push 2\n  pop rax\n.L4:\n  push rax\n"
    );
    assert_eq!(labels, 5);

    let mut output = String::from("; ");
    let node = Node::op_node(
        TokenKind::If,
        num(1),
        Node::op_node(TokenKind::Else, num(2), num(3)),
    );
    gen(&node, &mut output, &mut labels).unwrap();
    assert_eq!(
        output,
        ";   push 1\n  pop rax\n  cmp rax, 0\n  je .L6\n  push 2\n  jmp .L5\n.L6:\n  push 3\n.L5:\n"
    );
    assert_eq!(labels, 7);
}

#[test]
fn text_of_return() {
    let mut output = String::new();
    let mut labels: u64 = 0;
    let node = Box::new(Node {
        kind: TokenKind::Return,
        lhs: Some(num(4294967295)),
        rhs: None,
    });
    gen(&node, &mut output, &mut labels).unwrap();
    assert_eq!(
        output,
        "  mov rax, 4294967295\n  push rax\n  pop rax\n  mov rsp, rbp\n  pop rbp\n  ret\n"
    );
    assert_eq!(labels, 0);
}

#[test]
fn gen_lval_takes_variables_only() {
    let mut output = String::from("x");
    let variable = Node::variable_node("a".to_string(), 24);
    assert_eq!(gen_lval(&variable, &mut output), Ok(()));
    assert_eq!(output, "x  mov rax, rbp\n  sub rax, 24\n  push rax\n");
    assert_eq!(
        gen_lval(&num(1), &mut output),
        Err(CompileError::InvalidAssignmentTarget)
    );
    assert_eq!(output, "x  mov rax, rbp\n  sub rax, 24\n  push rax\n");
}

#[test]
fn assignment_to_a_value_is_an_error() {
    assert_eq!(compile("1 = 2;"), Err(CompileError::InvalidAssignmentTarget));
    assert_eq!(compile("a = 1; (a + 1) = 2;"), Err(CompileError::InvalidAssignmentTarget));
    assert_eq!(compile("if (1) 3 = a;"), Err(CompileError::InvalidAssignmentTarget));
    let mut output = String::from("kept");
    let mut labels: u64 = 3;
    let node = Node::op_node(
        TokenKind::Add,
        num(1),
        Node::op_node(TokenKind::Assign, num(2), num(3)),
    );
    assert_eq!(
        gen(&node, &mut output, &mut labels),
        Err(CompileError::InvalidAssignmentTarget)
    );
    assert_eq!(output, "kept");
    assert_eq!(labels, 3);
}

#[test]
fn labels_that_do_not_fit_are_an_error() {
    let mut output = String::from("kept");
    let mut labels: u64 = u64::MAX;
    let node = Node::op_node(TokenKind::If, num(1), num(2));
    assert_eq!(gen(&node, &mut output, &mut labels), Err(CompileError::FmtError));
    assert_eq!(output, "kept");
    assert_eq!(labels, u64::MAX);
    let mut labels: u64 = u64::MAX - 1;
    assert_eq!(gen(&node, &mut output, &mut labels), Ok(()));
    assert_eq!(labels, u64::MAX);
    let mut labels: u64 = u64::MAX;
    assert_eq!(gen(&num(1), &mut output, &mut labels), Ok(()));
}

#[test]
fn numbers_from_two_to_the_31_go_through_a_register() {
    let body = |source: &str| -> String {
        let text = compile(source).unwrap();
        let lines: Vec<&str> = text.lines().collect();
        lines[6..lines.len() - 4].join("\n")
    };
    assert_eq!(body("2147483647;"), "  push 2147483647");
    assert_eq!(body("2147483648;"), "  mov rax, 2147483648\n  push rax");
    assert_eq!(body("4294967295;"), "  mov rax, 4294967295\n  push rax");
    assert_eq!(result_of("2147483647;"), 2147483647);
    assert_eq!(result_of("2147483648;"), 2147483648);
    assert_eq!(result_of("4294967295;"), 4294967295);
    assert_eq!(result_of("4294967295 + 1;"), 4294967296);
    assert_eq!(result_of("4294967295 * 4294967295;"), 18446744065119617025u64 as i64);
    assert_eq!(result_of("a = 3000000000; a / 3;"), 1000000000);
}

#[test]
fn a_tree_that_is_no_statement_is_an_error() {
    let trees = vec![
        Box::new(Node { kind: TokenKind::If, lhs: None, rhs: Some(num(1)) }),
        Box::new(Node { kind: TokenKind::If, lhs: Some(num(1)), rhs: None }),
        Box::new(Node { kind: TokenKind::Return, lhs: None, rhs: None }),
        Box::new(Node { kind: TokenKind::Return, lhs: Some(num(1)), rhs: Some(num(2)) }),
        Box::new(Node { kind: TokenKind::Assign, lhs: None, rhs: Some(num(1)) }),
        Box::new(Node { kind: TokenKind::Add, lhs: Some(num(1)), rhs: None }),
        Box::new(Node { kind: TokenKind::Num(1), lhs: Some(num(1)), rhs: None }),
        Node::op_node(TokenKind::Greater, num(1), num(2)),
        Node::op_node(TokenKind::Else, num(1), num(2)),
        Node::op_node(TokenKind::Semicolon, num(1), num(2)),
        Node::op_node(
            TokenKind::Add,
            num(1),
            Box::new(Node { kind: TokenKind::Return, lhs: Some(num(1)), rhs: None }),
        ),
        Node::op_node(
            TokenKind::If,
            Node::op_node(TokenKind::If, num(1), num(2)),
            num(3),
        ),
    ];
    for tree in trees {
        assert!(!tree.is_statement(), "{:?}", tree);
        let mut output = String::from("kept");
        let mut labels: u64 = 3;
        assert_eq!(gen(&tree, &mut output, &mut labels), Err(CompileError::FmtError));
        assert_eq!(output, "kept");
        assert_eq!(labels, 3);
    }
}

#[test]
fn statements_are_told_from_other_trees() {
    let ret = |value: Box<Node>| Box::new(Node { kind: TokenKind::Return, lhs: Some(value), rhs: None });
    assert!(num(1).is_expression());
    assert!(num(1).is_statement());
    assert!(Node::variable_node("a".to_string(), 8).is_expression());
    assert!(Node::op_node(TokenKind::Assign, num(1), num(2)).is_expression());
    assert!(Node::op_node(TokenKind::LessOrEqual, num(1), num(2)).is_expression());
    assert!(!ret(num(1)).is_expression());
    assert!(ret(num(1)).is_statement());
    assert!(!ret(ret(num(1))).is_statement());
    let conditional = Node::op_node(TokenKind::If, num(1), ret(num(2)));
    assert!(!conditional.is_expression());
    assert!(conditional.is_statement());
    let both = Node::op_node(
        TokenKind::If,
        num(1),
        Node::op_node(TokenKind::Else, ret(num(2)), conditional),
    );
    assert!(both.is_statement());
    assert!(!Node::op_node(TokenKind::Else, num(1), num(2)).is_statement());
}

#[test]
fn the_frame_holds_the_variables() {
    let names: Vec<String> = (0..26).map(|index| format!("v{};", index)).collect();
    assert!(compile(&names.join(" ")).unwrap().contains("  sub rsp, 208\n"));
    let names: Vec<String> = (0..27).map(|index| format!("v{};", index)).collect();
    let text = compile(&names.join(" ")).unwrap();
    assert!(text.contains("  sub rsp, 216\n"));
    assert!(text.contains("  sub rax, 216\n"));
    let names: Vec<String> = (0..100).map(|index| format!("v{} = {};", index, index)).collect();
    let text = compile(&(names.join("\n") + "\nv0 + v99;")).unwrap();
    assert!(text.contains("  sub rsp, 800\n"));
    assert_eq!(execute(&text), 99);
}

#[test]
fn errors_of_the_lexer_come_first() {
    assert_eq!(
        compile("1 = 2; (3"),
        Err(CompileError::Expected {
            row: 0,
            col: 9,
            expect: TokenKind::RRoundBracket
        })
    );
    assert_eq!(
        compile("1 = 2; (3 $"),
        Err(CompileError::InvalidCharacter { row: 0, col: 10 })
    );
}

#[test]
fn missing_bracket_is_reported_behind_the_last_token() {
    assert_eq!(
        compile("(1+2"),
        Err(CompileError::Expected {
            row: 0,
            col: 4,
            expect: TokenKind::RRoundBracket
        })
    );
    assert_eq!(
        compile("a = 1;\nreturn (a + 20"),
        Err(CompileError::Expected {
            row: 1,
            col: 14,
            expect: TokenKind::RRoundBracket
        })
    );
    assert_eq!(
        compile("(1+2;"),
        Err(CompileError::Unexpected {
            row: 0,
            col: 4,
            expect: TokenKind::RRoundBracket,
            result: TokenKind::Semicolon
        })
    );
}

#[test]
fn messages() {
    assert_eq!(CompileError::Empty.to_string(), "Empty");
    assert_eq!(
        CompileError::InvalidCharacter { row: 3, col: 14 }.to_string(),
        "3:14 invalid character"
    );
    assert_eq!(CompileError::TooManyVariables.to_string(), "too many variables");
    assert_eq!(
        compile("(1+2;").unwrap_err().to_string(),
        "0:4 expect: Operation: ), find: Semicolon: ;"
    );
    assert_eq!(
        compile("\n\nreturn 10").unwrap_err().to_string(),
        "2:9 expect Semicolon: ;"
    );
    assert_eq!(
        compile("1 +").unwrap_err().to_string(),
        "0:3 expect Number"
    );
    assert_eq!(
        CompileError::Expected {
            row: 4294967295,
            col: 0,
            expect: TokenKind::LocalVar {
                symbol: String::new(),
                offset: 0
            }
        }
        .to_string(),
        "4294967295:0 expect Variable"
    );
    assert_eq!(
        CompileError::InvalidAssignmentTarget.to_string(),
        "parse error None"
    );
    assert_eq!(
        CompileError::FmtError.to_string(),
        "an error occurred when formatting an argument"
    );
}
