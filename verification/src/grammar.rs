//! The grammar, as functions from a token sequence and a place in it to the
//! tree that starts there.
//!
//! ```text
//! program        := statement*
//! statement      := "if" "(" expr ")" statement ("else" statement)?
//!                 | "return" expr ";"
//!                 | expr ";"
//! expr           := assign
//! assign         := equality ("=" assign)?
//! equality       := relational (("==" | "!=") relational)*
//! relational     := additive (("<" | "<=" | ">" | ">=") additive)*
//! additive       := multiplicative (("+" | "-") multiplicative)*
//! multiplicative := unary (("*" | "/") unary)*
//! unary          := ("+" | "-")? primary
//! primary        := "(" expr ")" | variable | number
//! ```
//!
//! Every function that reads operands in a row goes on only behind an
//! operand that took at least one token. Each operand does, so the test
//! never fails; it is there to show that the functions end.

use crate::result::SpecError;
use crate::stream::{
    any_number, any_variable, expect_at, mismatch, next_is, stop_place, Parsed,
};
use crate::token::{SpecKind, SpecToken};
use vstd::prelude::*;

verus! {

/// The mathematical value of a syntax tree.
pub struct SpecNode {
    pub kind: SpecKind,
    pub lhs: Option<Box<SpecNode>>,
    pub rhs: Option<Box<SpecNode>>,
}

impl SpecNode {
    /// A node without operands.
    pub open spec fn leaf(kind: SpecKind) -> SpecNode {
        SpecNode { kind, lhs: None, rhs: None }
    }

    /// A node with one operand, on the left.
    pub open spec fn unary(kind: SpecKind, lhs: SpecNode) -> SpecNode {
        SpecNode { kind, lhs: Some(Box::new(lhs)), rhs: None }
    }

    /// A node with two operands.
    pub open spec fn op(kind: SpecKind, lhs: SpecNode, rhs: SpecNode) -> SpecNode {
        SpecNode { kind, lhs: Some(Box::new(lhs)), rhs: Some(Box::new(rhs)) }
    }
}

/// Whether `kind` is an operation on two values that gives a value.
pub open spec fn is_binary(kind: SpecKind) -> bool {
    kind is Add || kind is Sub || kind is Mul || kind is Div || kind is Equal || kind is NEqual
        || kind is Less || kind is LessOrEqual
}

/// Whether `node` is the tree of an expression: a number or a variable
/// without operands, or an operation or assignment on two expressions.
pub open spec fn is_expr(node: SpecNode) -> bool
    decreases node,
{
    if node.kind is Num || node.kind is LocalVar {
        node.lhs is None && node.rhs is None
    } else if is_binary(node.kind) || node.kind is Assign {
        match (node.lhs, node.rhs) {
            (Some(lhs), Some(rhs)) => is_expr(*lhs) && is_expr(*rhs),
            _ => false,
        }
    } else {
        false
    }
}

/// Whether `node` is an `If` node with an `Else` node for its right
/// operand: a conditional with both branches.
pub open spec fn has_else(node: SpecNode) -> bool {
    node.kind is If && node.rhs is Some && node.rhs->0.kind is Else
}

/// Whether `node` is the tree of a statement: an expression, a `Return` of
/// an expression, or an `If` over a condition and one or two statements.
pub open spec fn is_stmt(node: SpecNode) -> bool
    decreases node,
{
    if node.kind is If {
        match (node.lhs, node.rhs) {
            (Some(cond), Some(rhs)) => is_expr(*cond) && if rhs.kind is Else {
                match (rhs.lhs, rhs.rhs) {
                    (Some(then), Some(other)) => is_stmt(*then) && is_stmt(*other),
                    _ => false,
                }
            } else {
                is_stmt(*rhs)
            },
            _ => false,
        }
    } else if node.kind is Return {
        match (node.lhs, node.rhs) {
            (Some(value), None) => is_expr(*value),
            _ => false,
        }
    } else {
        is_expr(node)
    }
}

/// Whether the left operand of every assignment in `node` is a variable.
pub open spec fn targets_valid(node: SpecNode) -> bool
    decreases node,
{
    &&& node.kind is Assign ==> node.lhs is Some && node.lhs->0.kind is LocalVar
    &&& match node.lhs {
        Some(lhs) => targets_valid(*lhs),
        None => true,
    }
    &&& match node.rhs {
        Some(rhs) => targets_valid(*rhs),
        None => true,
    }
}

/// How many labels the code of `node` itself takes: an `if` takes one for
/// its end, and one more for its `else`.
pub open spec fn own_labels(node: SpecNode) -> nat {
    if has_else(node) {
        2
    } else if node.kind is If {
        1
    } else {
        0
    }
}

/// How many labels the code of the whole tree takes.
pub open spec fn labels_in(node: SpecNode) -> nat
    decreases node,
{
    own_labels(node) + match node.lhs {
        Some(lhs) => labels_in(*lhs),
        None => 0,
    } + match node.rhs {
        Some(rhs) => labels_in(*rhs),
        None => 0,
    }
}

/// How many labels the code of the statements takes.
pub open spec fn labels_of(statements: Seq<SpecNode>) -> nat
    decreases statements.len(),
{
    if statements.len() == 0 {
        0
    } else {
        labels_of(statements.drop_last()) + labels_in(statements.last())
    }
}

/// Whether the place `behind` lies behind `pos` and inside `tokens`.
pub open spec fn advanced(tokens: Seq<SpecToken>, pos: nat, behind: nat) -> bool {
    pos < behind <= tokens.len()
}

/// `primary := "(" expr ")" | variable | number`
#[verifier::opaque]
pub open spec fn parse_primary(tokens: Seq<SpecToken>, pos: nat) -> Parsed<SpecNode>
    decreases tokens.len() - pos, 0nat,
{
    if next_is(tokens, pos, SpecKind::LRoundBracket) {
        match parse_expr(tokens, pos + 1) {
            Parsed::Done { value, pos: behind } => match expect_at(
                tokens,
                behind,
                SpecKind::RRoundBracket,
            ) {
                Parsed::Done { pos: end, .. } => Parsed::Done { value, pos: end },
                Parsed::Fail { error, pos: at } => Parsed::Fail { error, pos: at },
            },
            Parsed::Fail { error, pos: at } => Parsed::Fail { error, pos: at },
        }
    } else if next_is(tokens, pos, any_variable()) {
        Parsed::Done { value: SpecNode::leaf(tokens[pos as int].kind), pos: pos + 1 }
    } else {
        match expect_at(tokens, pos, any_number()) {
            Parsed::Done { value, pos: behind } => Parsed::Done {
                value: SpecNode::leaf(value),
                pos: behind,
            },
            Parsed::Fail { error, pos: at } => Parsed::Fail { error, pos: at },
        }
    }
}

/// `unary := ("+" | "-")? primary`, where `-x` stands for `0 - x`.
#[verifier::opaque]
pub open spec fn parse_unary(tokens: Seq<SpecToken>, pos: nat) -> Parsed<SpecNode>
    decreases tokens.len() - pos, 1nat,
{
    if next_is(tokens, pos, SpecKind::Add) {
        parse_primary(tokens, pos + 1)
    } else if next_is(tokens, pos, SpecKind::Sub) {
        match parse_primary(tokens, pos + 1) {
            Parsed::Done { value, pos: behind } => Parsed::Done {
                value: SpecNode::op(SpecKind::Sub, SpecNode::leaf(SpecKind::Num(0)), value),
                pos: behind,
            },
            Parsed::Fail { error, pos: at } => Parsed::Fail { error, pos: at },
        }
    } else {
        parse_primary(tokens, pos)
    }
}

/// `(("*" | "/") unary)*` behind the operand `lhs`, to the left.
#[verifier::opaque]
pub open spec fn parse_mul_rest(tokens: Seq<SpecToken>, pos: nat, lhs: SpecNode) -> Parsed<
    SpecNode,
>
    decreases tokens.len() - pos, 2nat,
{
    if next_is(tokens, pos, SpecKind::Mul) || next_is(tokens, pos, SpecKind::Div) {
        match parse_unary(tokens, pos + 1) {
            Parsed::Done { value, pos: behind } => {
                let node = SpecNode::op(tokens[pos as int].kind, lhs, value);
                if advanced(tokens, pos, behind) {
                    parse_mul_rest(tokens, behind, node)
                } else {
                    Parsed::Done { value: node, pos: behind }
                }
            },
            Parsed::Fail { error, pos: at } => Parsed::Fail { error, pos: at },
        }
    } else {
        Parsed::Done { value: lhs, pos }
    }
}

/// `multiplicative := unary (("*" | "/") unary)*`
#[verifier::opaque]
pub open spec fn parse_mul(tokens: Seq<SpecToken>, pos: nat) -> Parsed<SpecNode>
    decreases tokens.len() - pos, 3nat,
{
    match parse_unary(tokens, pos) {
        Parsed::Done { value, pos: behind } => if advanced(tokens, pos, behind) {
            parse_mul_rest(tokens, behind, value)
        } else {
            Parsed::Done { value, pos: behind }
        },
        Parsed::Fail { error, pos: at } => Parsed::Fail { error, pos: at },
    }
}

/// `(("+" | "-") multiplicative)*` behind the operand `lhs`, to the left.
#[verifier::opaque]
pub open spec fn parse_add_rest(tokens: Seq<SpecToken>, pos: nat, lhs: SpecNode) -> Parsed<
    SpecNode,
>
    decreases tokens.len() - pos, 4nat,
{
    if next_is(tokens, pos, SpecKind::Add) || next_is(tokens, pos, SpecKind::Sub) {
        match parse_mul(tokens, pos + 1) {
            Parsed::Done { value, pos: behind } => {
                let node = SpecNode::op(tokens[pos as int].kind, lhs, value);
                if advanced(tokens, pos, behind) {
                    parse_add_rest(tokens, behind, node)
                } else {
                    Parsed::Done { value: node, pos: behind }
                }
            },
            Parsed::Fail { error, pos: at } => Parsed::Fail { error, pos: at },
        }
    } else {
        Parsed::Done { value: lhs, pos }
    }
}

/// `additive := multiplicative (("+" | "-") multiplicative)*`
#[verifier::opaque]
pub open spec fn parse_add(tokens: Seq<SpecToken>, pos: nat) -> Parsed<SpecNode>
    decreases tokens.len() - pos, 5nat,
{
    match parse_mul(tokens, pos) {
        Parsed::Done { value, pos: behind } => if advanced(tokens, pos, behind) {
            parse_add_rest(tokens, behind, value)
        } else {
            Parsed::Done { value, pos: behind }
        },
        Parsed::Fail { error, pos: at } => Parsed::Fail { error, pos: at },
    }
}

/// The node of a comparison: `a > b` is kept as `b < a`, and `a >= b` as
/// `b <= a`, so that a tree holds `<` and `<=` only.
pub open spec fn comparison(kind: SpecKind, lhs: SpecNode, rhs: SpecNode) -> SpecNode {
    match kind {
        SpecKind::Greater => SpecNode::op(SpecKind::Less, rhs, lhs),
        SpecKind::GreaterOrEqual => SpecNode::op(SpecKind::LessOrEqual, rhs, lhs),
        _ => SpecNode::op(kind, lhs, rhs),
    }
}

/// `(("<" | "<=" | ">" | ">=") additive)*` behind the operand `lhs`, to the
/// left.
#[verifier::opaque]
pub open spec fn parse_relational_rest(
    tokens: Seq<SpecToken>,
    pos: nat,
    lhs: SpecNode,
) -> Parsed<SpecNode>
    decreases tokens.len() - pos, 6nat,
{
    if next_is(tokens, pos, SpecKind::Less) || next_is(tokens, pos, SpecKind::Greater) || next_is(
        tokens,
        pos,
        SpecKind::LessOrEqual,
    ) || next_is(tokens, pos, SpecKind::GreaterOrEqual) {
        match parse_add(tokens, pos + 1) {
            Parsed::Done { value, pos: behind } => {
                let node = comparison(tokens[pos as int].kind, lhs, value);
                if advanced(tokens, pos, behind) {
                    parse_relational_rest(tokens, behind, node)
                } else {
                    Parsed::Done { value: node, pos: behind }
                }
            },
            Parsed::Fail { error, pos: at } => Parsed::Fail { error, pos: at },
        }
    } else {
        Parsed::Done { value: lhs, pos }
    }
}

/// `relational := additive (("<" | "<=" | ">" | ">=") additive)*`
#[verifier::opaque]
pub open spec fn parse_relational(tokens: Seq<SpecToken>, pos: nat) -> Parsed<SpecNode>
    decreases tokens.len() - pos, 7nat,
{
    match parse_add(tokens, pos) {
        Parsed::Done { value, pos: behind } => if advanced(tokens, pos, behind) {
            parse_relational_rest(tokens, behind, value)
        } else {
            Parsed::Done { value, pos: behind }
        },
        Parsed::Fail { error, pos: at } => Parsed::Fail { error, pos: at },
    }
}

/// `(("==" | "!=") relational)*` behind the operand `lhs`, to the left.
#[verifier::opaque]
pub open spec fn parse_equality_rest(tokens: Seq<SpecToken>, pos: nat, lhs: SpecNode) -> Parsed<
    SpecNode,
>
    decreases tokens.len() - pos, 8nat,
{
    if next_is(tokens, pos, SpecKind::Equal) || next_is(tokens, pos, SpecKind::NEqual) {
        match parse_relational(tokens, pos + 1) {
            Parsed::Done { value, pos: behind } => {
                let node = SpecNode::op(tokens[pos as int].kind, lhs, value);
                if advanced(tokens, pos, behind) {
                    parse_equality_rest(tokens, behind, node)
                } else {
                    Parsed::Done { value: node, pos: behind }
                }
            },
            Parsed::Fail { error, pos: at } => Parsed::Fail { error, pos: at },
        }
    } else {
        Parsed::Done { value: lhs, pos }
    }
}

/// `equality := relational (("==" | "!=") relational)*`
#[verifier::opaque]
pub open spec fn parse_equality(tokens: Seq<SpecToken>, pos: nat) -> Parsed<SpecNode>
    decreases tokens.len() - pos, 9nat,
{
    match parse_relational(tokens, pos) {
        Parsed::Done { value, pos: behind } => if advanced(tokens, pos, behind) {
            parse_equality_rest(tokens, behind, value)
        } else {
            Parsed::Done { value, pos: behind }
        },
        Parsed::Fail { error, pos: at } => Parsed::Fail { error, pos: at },
    }
}

/// `assign := equality ("=" assign)?`, to the right.
#[verifier::opaque]
pub open spec fn parse_assign(tokens: Seq<SpecToken>, pos: nat) -> Parsed<SpecNode>
    decreases tokens.len() - pos, 10nat,
{
    match parse_equality(tokens, pos) {
        Parsed::Done { value, pos: behind } => if advanced(tokens, pos, behind) && next_is(
            tokens,
            behind,
            SpecKind::Assign,
        ) {
            match parse_assign(tokens, behind + 1) {
                Parsed::Done { value: rhs, pos: end } => Parsed::Done {
                    value: SpecNode::op(SpecKind::Assign, value, rhs),
                    pos: end,
                },
                Parsed::Fail { error, pos: at } => Parsed::Fail { error, pos: at },
            }
        } else {
            Parsed::Done { value, pos: behind }
        },
        Parsed::Fail { error, pos: at } => Parsed::Fail { error, pos: at },
    }
}

/// `expr := assign`
#[verifier::opaque]
pub open spec fn parse_expr(tokens: Seq<SpecToken>, pos: nat) -> Parsed<SpecNode>
    decreases tokens.len() - pos, 11nat,
{
    parse_assign(tokens, pos)
}

/// The statement that an `if` or an `else` requires at `pos`: at the end of
/// the source it is missing, which is reported as a missing number.
#[verifier::opaque]
pub open spec fn parse_branch(tokens: Seq<SpecToken>, pos: nat) -> Parsed<SpecNode>
    decreases tokens.len() - pos, 14nat,
{
    if pos < tokens.len() {
        parse_stmt_here(tokens, pos)
    } else {
        Parsed::Fail { error: mismatch(tokens, pos, any_number()), pos }
    }
}

/// The node of a conditional. Without an `else` the right operand is the
/// statement itself; with one it is an `Else` node over both statements.
pub open spec fn conditional(cond: SpecNode, then: SpecNode, other: Option<SpecNode>) -> SpecNode {
    match other {
        Some(other) => SpecNode::op(SpecKind::If, cond, SpecNode::op(SpecKind::Else, then, other)),
        None => SpecNode::op(SpecKind::If, cond, then),
    }
}

/// `("else" statement)?` behind the branch `then` of the condition `cond`.
#[verifier::opaque]
pub open spec fn parse_else(tokens: Seq<SpecToken>, pos: nat, cond: SpecNode, then: SpecNode)
    -> Parsed<SpecNode>
    decreases tokens.len() - pos, 15nat,
{
    if next_is(tokens, pos, SpecKind::Else) {
        match parse_branch(tokens, pos + 1) {
            Parsed::Done { value, pos: end } => Parsed::Done {
                value: conditional(cond, then, Some(value)),
                pos: end,
            },
            Parsed::Fail { error, pos: at } => Parsed::Fail { error, pos: at },
        }
    } else {
        Parsed::Done { value: conditional(cond, then, None), pos }
    }
}

/// `"(" expr ")" statement ("else" statement)?` behind an `if`.
#[verifier::opaque]
pub open spec fn parse_if(tokens: Seq<SpecToken>, pos: nat) -> Parsed<SpecNode>
    decreases tokens.len() - pos, 16nat,
{
    match expect_at(tokens, pos, SpecKind::LRoundBracket) {
        Parsed::Done { pos: open, .. } => match parse_expr(tokens, open) {
            Parsed::Done { value: cond, pos: behind } => match expect_at(
                tokens,
                behind,
                SpecKind::RRoundBracket,
            ) {
                Parsed::Done { pos: close, .. } => if advanced(tokens, pos, close) {
                    match parse_branch(tokens, close) {
                        Parsed::Done { value: then, pos: end } => if advanced(tokens, pos, end) {
                            parse_else(tokens, end, cond, then)
                        } else {
                            Parsed::Done { value: conditional(cond, then, None), pos: end }
                        },
                        Parsed::Fail { error, pos: at } => Parsed::Fail { error, pos: at },
                    }
                } else {
                    Parsed::Fail { error: mismatch(tokens, close, any_number()), pos: close }
                },
                Parsed::Fail { error, pos: at } => Parsed::Fail { error, pos: at },
            },
            Parsed::Fail { error, pos: at } => Parsed::Fail { error, pos: at },
        },
        Parsed::Fail { error, pos: at } => Parsed::Fail { error, pos: at },
    }
}

/// `expr ";"`, which gives the tree of the expression.
#[verifier::opaque]
pub open spec fn parse_terminated(tokens: Seq<SpecToken>, pos: nat) -> Parsed<SpecNode>
    decreases tokens.len() - pos, 12nat,
{
    match parse_expr(tokens, pos) {
        Parsed::Done { value, pos: behind } => match expect_at(
            tokens,
            behind,
            SpecKind::Semicolon,
        ) {
            Parsed::Done { pos: end, .. } => Parsed::Done { value, pos: end },
            Parsed::Fail { error, pos: at } => Parsed::Fail { error, pos: at },
        },
        Parsed::Fail { error, pos: at } => Parsed::Fail { error, pos: at },
    }
}

/// A statement at `pos`, where a token stands:
/// `"if" ... | "return" expr ";" | expr ";"`.
#[verifier::opaque]
pub open spec fn parse_stmt_here(tokens: Seq<SpecToken>, pos: nat) -> Parsed<SpecNode>
    decreases tokens.len() - pos, 13nat,
{
    if next_is(tokens, pos, SpecKind::If) {
        parse_if(tokens, pos + 1)
    } else if next_is(tokens, pos, SpecKind::Return) {
        match parse_terminated(tokens, pos + 1) {
            Parsed::Done { value, pos: end } => Parsed::Done {
                value: SpecNode::unary(SpecKind::Return, value),
                pos: end,
            },
            Parsed::Fail { error, pos: at } => Parsed::Fail { error, pos: at },
        }
    } else {
        parse_terminated(tokens, pos)
    }
}

/// The next statement, or none where the source has ended.
#[verifier::opaque]
pub open spec fn parse_stmt(tokens: Seq<SpecToken>, pos: nat) -> Parsed<Option<SpecNode>> {
    if pos >= tokens.len() {
        Parsed::Done { value: None, pos }
    } else {
        match parse_stmt_here(tokens, pos) {
            Parsed::Done { value, pos: end } => Parsed::Done { value: Some(value), pos: end },
            Parsed::Fail { error, pos: at } => Parsed::Fail { error, pos: at },
        }
    }
}

/// `statement*` from `pos` to the end of the source, behind the statements
/// `done`.
#[verifier::opaque]
pub open spec fn parse_program_rest(tokens: Seq<SpecToken>, pos: nat, done: Seq<SpecNode>)
    -> Parsed<Seq<SpecNode>>
    decreases tokens.len() - pos,
{
    if pos >= tokens.len() {
        Parsed::Done { value: done, pos }
    } else {
        match parse_stmt_here(tokens, pos) {
            Parsed::Done { value, pos: end } => if advanced(tokens, pos, end) {
                parse_program_rest(tokens, end, done.push(value))
            } else {
                Parsed::Done { value: done.push(value), pos: end }
            },
            Parsed::Fail { error, pos: at } => Parsed::Fail { error, pos: at },
        }
    }
}

/// `program := statement*`
#[verifier::opaque]
pub open spec fn parse_program(tokens: Seq<SpecToken>, pos: nat) -> Parsed<Seq<SpecNode>> {
    parse_program_rest(tokens, pos, Seq::empty())
}

/// Whether `error` is the report of a token that is missing at `at`: it
/// names the place just behind the token before `at`, and with it either
/// the kind of the token that stands at `at` instead, or, as `Expected`,
/// that the source ends there.
pub open spec fn reported(error: SpecError, tokens: Seq<SpecToken>, at: nat) -> bool {
    match error {
        SpecError::Unexpected { row, col, result, .. } => at < tokens.len() && (row, col)
            == stop_place(tokens, at) && result == tokens[at as int].kind,
        SpecError::Expected { row, col, .. } => at == tokens.len() && (row, col) == stop_place(
            tokens,
            at,
        ),
        _ => false,
    }
}

/// Whether `outcome`, of reading from `pos` on, stays in place: a value
/// ends at or behind `pos` and inside `tokens`; an error was met at or
/// behind `pos`, and reports the place where it was met.
pub open spec fn in_place<T>(outcome: Parsed<T>, tokens: Seq<SpecToken>, pos: nat) -> bool {
    match outcome {
        Parsed::Done { pos: behind, .. } => pos <= behind <= tokens.len(),
        Parsed::Fail { error, pos: at } => pos <= at <= tokens.len() && reported(
            error,
            tokens,
            at,
        ),
    }
}

/// Whether the tree of `outcome`, if it has one, is an expression.
pub open spec fn gives_expr(outcome: Parsed<SpecNode>) -> bool {
    outcome is Done ==> is_expr(outcome->value)
}

/// Whether the tree of `outcome`, read from `pos` on, if it has one, is a
/// statement whose code takes no more labels than `spare` and the tokens
/// that were read: every label has a token of its own, an `if` or an
/// `else`.
pub open spec fn gives_stmt(outcome: Parsed<SpecNode>, pos: nat, spare: nat) -> bool {
    outcome is Done ==> is_stmt(outcome->value) && labels_in(outcome->value) <= spare
        + outcome->Done_pos - pos
}

/// The code of an expression takes no label.
pub proof fn lemma_expr_no_labels(node: SpecNode)
    requires
        is_expr(node),
    ensures
        labels_in(node) == 0,
    decreases node,
{
    if !(node.kind is Num || node.kind is LocalVar) {
        lemma_expr_no_labels(*node.lhs->0);
        lemma_expr_no_labels(*node.rhs->0);
    }
}

/// A required token that is missing is reported where it is missing.
proof fn lemma_expect_in_place(tokens: Seq<SpecToken>, pos: nat, want: SpecKind)
    requires
        pos <= tokens.len(),
    ensures
        in_place(expect_at(tokens, pos, want), tokens, pos),
        reported(mismatch(tokens, pos, want), tokens, pos),
{
    reveal(mismatch);
}

/// What `parse_primary` reads stays in place, and the tree that it gives is
/// an expression.
proof fn lemma_primary_in_place(tokens: Seq<SpecToken>, pos: nat)
    requires
        pos <= tokens.len(),
    ensures
        in_place(parse_primary(tokens, pos), tokens, pos),
        gives_expr(parse_primary(tokens, pos)),
    decreases tokens.len() - pos, 0nat,
{
    reveal(parse_primary);
    reveal(parse_expr);
    lemma_expect_in_place(tokens, pos, any_number());
    if next_is(tokens, pos, SpecKind::LRoundBracket) {
        lemma_expr_in_place(tokens, pos + 1);
        match parse_expr(tokens, pos + 1) {
            Parsed::Done { pos: behind, .. } => {
                lemma_expect_in_place(tokens, behind, SpecKind::RRoundBracket);
            },
            Parsed::Fail { .. } => {},
        }
    }
}

/// What `parse_unary` reads stays in place, and the tree that it gives is
/// an expression.
proof fn lemma_unary_in_place(tokens: Seq<SpecToken>, pos: nat)
    requires
        pos <= tokens.len(),
    ensures
        in_place(parse_unary(tokens, pos), tokens, pos),
        gives_expr(parse_unary(tokens, pos)),
    decreases tokens.len() - pos, 1nat,
{
    reveal(parse_unary);
    reveal(parse_primary);
    assert(is_expr(SpecNode::leaf(SpecKind::Num(0))));
    if next_is(tokens, pos, SpecKind::Add) || next_is(tokens, pos, SpecKind::Sub) {
        lemma_primary_in_place(tokens, pos + 1);
    } else {
        lemma_primary_in_place(tokens, pos);
    }
}

/// What `parse_mul_rest` reads stays in place, and the tree that it gives is
/// an expression.
proof fn lemma_mul_rest_in_place(tokens: Seq<SpecToken>, pos: nat, lhs: SpecNode)
    requires
        pos <= tokens.len(),
        is_expr(lhs),
    ensures
        in_place(parse_mul_rest(tokens, pos, lhs), tokens, pos),
        gives_expr(parse_mul_rest(tokens, pos, lhs)),
    decreases tokens.len() - pos, 2nat,
{
    reveal(parse_mul_rest);
    reveal(parse_unary);
    if next_is(tokens, pos, SpecKind::Mul) || next_is(tokens, pos, SpecKind::Div) {
        lemma_unary_in_place(tokens, pos + 1);
        match parse_unary(tokens, pos + 1) {
            Parsed::Done { value, pos: behind } => {
                let node = SpecNode::op(tokens[pos as int].kind, lhs, value);
                assert(is_expr(node));
                if advanced(tokens, pos, behind) {
                    lemma_mul_rest_in_place(tokens, behind, node);
                }
            },
            Parsed::Fail { .. } => {},
        }
    }
}

/// What `parse_mul` reads stays in place, and the tree that it gives is
/// an expression.
proof fn lemma_mul_in_place(tokens: Seq<SpecToken>, pos: nat)
    requires
        pos <= tokens.len(),
    ensures
        in_place(parse_mul(tokens, pos), tokens, pos),
        gives_expr(parse_mul(tokens, pos)),
    decreases tokens.len() - pos, 3nat,
{
    reveal(parse_mul);
    reveal(parse_unary);
    reveal(parse_mul_rest);
    lemma_unary_in_place(tokens, pos);
    match parse_unary(tokens, pos) {
        Parsed::Done { value, pos: behind } => {
            if advanced(tokens, pos, behind) {
                lemma_mul_rest_in_place(tokens, behind, value);
            }
        },
        Parsed::Fail { .. } => {},
    }
}

/// What `parse_add_rest` reads stays in place, and the tree that it gives is
/// an expression.
proof fn lemma_add_rest_in_place(tokens: Seq<SpecToken>, pos: nat, lhs: SpecNode)
    requires
        pos <= tokens.len(),
        is_expr(lhs),
    ensures
        in_place(parse_add_rest(tokens, pos, lhs), tokens, pos),
        gives_expr(parse_add_rest(tokens, pos, lhs)),
    decreases tokens.len() - pos, 4nat,
{
    reveal(parse_add_rest);
    reveal(parse_mul);
    if next_is(tokens, pos, SpecKind::Add) || next_is(tokens, pos, SpecKind::Sub) {
        lemma_mul_in_place(tokens, pos + 1);
        match parse_mul(tokens, pos + 1) {
            Parsed::Done { value, pos: behind } => {
                let node = SpecNode::op(tokens[pos as int].kind, lhs, value);
                assert(is_expr(node));
                if advanced(tokens, pos, behind) {
                    lemma_add_rest_in_place(tokens, behind, node);
                }
            },
            Parsed::Fail { .. } => {},
        }
    }
}

/// What `parse_add` reads stays in place, and the tree that it gives is
/// an expression.
proof fn lemma_add_in_place(tokens: Seq<SpecToken>, pos: nat)
    requires
        pos <= tokens.len(),
    ensures
        in_place(parse_add(tokens, pos), tokens, pos),
        gives_expr(parse_add(tokens, pos)),
    decreases tokens.len() - pos, 5nat,
{
    reveal(parse_add);
    reveal(parse_mul);
    reveal(parse_add_rest);
    lemma_mul_in_place(tokens, pos);
    match parse_mul(tokens, pos) {
        Parsed::Done { value, pos: behind } => {
            if advanced(tokens, pos, behind) {
                lemma_add_rest_in_place(tokens, behind, value);
            }
        },
        Parsed::Fail { .. } => {},
    }
}

/// What `parse_relational_rest` reads stays in place, and the tree that it gives is
/// an expression.
proof fn lemma_relational_rest_in_place(tokens: Seq<SpecToken>, pos: nat, lhs: SpecNode)
    requires
        pos <= tokens.len(),
        is_expr(lhs),
    ensures
        in_place(parse_relational_rest(tokens, pos, lhs), tokens, pos),
        gives_expr(parse_relational_rest(tokens, pos, lhs)),
    decreases tokens.len() - pos, 6nat,
{
    reveal(parse_relational_rest);
    reveal(parse_add);
    if next_is(tokens, pos, SpecKind::Less) || next_is(tokens, pos, SpecKind::Greater)
        || next_is(tokens, pos, SpecKind::LessOrEqual) || next_is(
        tokens,
        pos,
        SpecKind::GreaterOrEqual,
    ) {
        lemma_add_in_place(tokens, pos + 1);
        match parse_add(tokens, pos + 1) {
            Parsed::Done { value, pos: behind } => {
                let node = comparison(tokens[pos as int].kind, lhs, value);
                assert(is_expr(node));
                if advanced(tokens, pos, behind) {
                    lemma_relational_rest_in_place(tokens, behind, node);
                }
            },
            Parsed::Fail { .. } => {},
        }
    }
}

/// What `parse_relational` reads stays in place, and the tree that it gives is
/// an expression.
proof fn lemma_relational_in_place(tokens: Seq<SpecToken>, pos: nat)
    requires
        pos <= tokens.len(),
    ensures
        in_place(parse_relational(tokens, pos), tokens, pos),
        gives_expr(parse_relational(tokens, pos)),
    decreases tokens.len() - pos, 7nat,
{
    reveal(parse_relational);
    reveal(parse_add);
    reveal(parse_relational_rest);
    lemma_add_in_place(tokens, pos);
    match parse_add(tokens, pos) {
        Parsed::Done { value, pos: behind } => {
            if advanced(tokens, pos, behind) {
                lemma_relational_rest_in_place(tokens, behind, value);
            }
        },
        Parsed::Fail { .. } => {},
    }
}

/// What `parse_equality_rest` reads stays in place, and the tree that it gives is
/// an expression.
proof fn lemma_equality_rest_in_place(tokens: Seq<SpecToken>, pos: nat, lhs: SpecNode)
    requires
        pos <= tokens.len(),
        is_expr(lhs),
    ensures
        in_place(parse_equality_rest(tokens, pos, lhs), tokens, pos),
        gives_expr(parse_equality_rest(tokens, pos, lhs)),
    decreases tokens.len() - pos, 8nat,
{
    reveal(parse_equality_rest);
    reveal(parse_relational);
    if next_is(tokens, pos, SpecKind::Equal) || next_is(tokens, pos, SpecKind::NEqual) {
        lemma_relational_in_place(tokens, pos + 1);
        match parse_relational(tokens, pos + 1) {
            Parsed::Done { value, pos: behind } => {
                let node = SpecNode::op(tokens[pos as int].kind, lhs, value);
                assert(is_expr(node));
                if advanced(tokens, pos, behind) {
                    lemma_equality_rest_in_place(tokens, behind, node);
                }
            },
            Parsed::Fail { .. } => {},
        }
    }
}

/// What `parse_equality` reads stays in place, and the tree that it gives is
/// an expression.
proof fn lemma_equality_in_place(tokens: Seq<SpecToken>, pos: nat)
    requires
        pos <= tokens.len(),
    ensures
        in_place(parse_equality(tokens, pos), tokens, pos),
        gives_expr(parse_equality(tokens, pos)),
    decreases tokens.len() - pos, 9nat,
{
    reveal(parse_equality);
    reveal(parse_relational);
    reveal(parse_equality_rest);
    lemma_relational_in_place(tokens, pos);
    match parse_relational(tokens, pos) {
        Parsed::Done { value, pos: behind } => {
            if advanced(tokens, pos, behind) {
                lemma_equality_rest_in_place(tokens, behind, value);
            }
        },
        Parsed::Fail { .. } => {},
    }
}

/// What `parse_assign` reads stays in place, and the tree that it gives is
/// an expression.
proof fn lemma_assign_in_place(tokens: Seq<SpecToken>, pos: nat)
    requires
        pos <= tokens.len(),
    ensures
        in_place(parse_assign(tokens, pos), tokens, pos),
        gives_expr(parse_assign(tokens, pos)),
    decreases tokens.len() - pos, 10nat,
{
    reveal(parse_assign);
    reveal(parse_equality);
    lemma_equality_in_place(tokens, pos);
    match parse_equality(tokens, pos) {
        Parsed::Done { pos: behind, .. } => {
            if advanced(tokens, pos, behind) && next_is(tokens, behind, SpecKind::Assign) {
                lemma_assign_in_place(tokens, behind + 1);
            }
        },
        Parsed::Fail { .. } => {},
    }
}

/// What `parse_expr` reads stays in place, and the tree that it gives is
/// an expression.
proof fn lemma_expr_in_place(tokens: Seq<SpecToken>, pos: nat)
    requires
        pos <= tokens.len(),
    ensures
        in_place(parse_expr(tokens, pos), tokens, pos),
        gives_expr(parse_expr(tokens, pos)),
    decreases tokens.len() - pos, 11nat,
{
    reveal(parse_expr);
    reveal(parse_assign);
    lemma_assign_in_place(tokens, pos);
}

/// What `parse_terminated` reads stays in place, and the tree that it gives is
/// an expression.
proof fn lemma_terminated_in_place(tokens: Seq<SpecToken>, pos: nat)
    requires
        pos <= tokens.len(),
    ensures
        in_place(parse_terminated(tokens, pos), tokens, pos),
        gives_expr(parse_terminated(tokens, pos)),
    decreases tokens.len() - pos, 12nat,
{
    reveal(parse_terminated);
    reveal(parse_expr);
    lemma_expr_in_place(tokens, pos);
    match parse_expr(tokens, pos) {
        Parsed::Done { pos: behind, .. } => {
            lemma_expect_in_place(tokens, behind, SpecKind::Semicolon);
        },
        Parsed::Fail { .. } => {},
    }
}

/// What `parse_stmt_here` reads stays in place, and the tree that it gives is
/// a statement with a token for each label.
proof fn lemma_stmt_here_in_place(tokens: Seq<SpecToken>, pos: nat)
    requires
        pos <= tokens.len(),
    ensures
        in_place(parse_stmt_here(tokens, pos), tokens, pos),
        gives_stmt(parse_stmt_here(tokens, pos), pos, 0),
    decreases tokens.len() - pos, 13nat,
{
    reveal(parse_stmt_here);
    reveal(parse_if);
    reveal(parse_terminated);
    if next_is(tokens, pos, SpecKind::If) {
        lemma_if_in_place(tokens, pos + 1);
    } else if next_is(tokens, pos, SpecKind::Return) {
        lemma_terminated_in_place(tokens, pos + 1);
        match parse_terminated(tokens, pos + 1) {
            Parsed::Done { value, .. } => {
                lemma_expr_no_labels(value);
                assert(labels_in(SpecNode::unary(SpecKind::Return, value)) == labels_in(value));
            },
            Parsed::Fail { .. } => {},
        }
    } else {
        lemma_terminated_in_place(tokens, pos);
        match parse_terminated(tokens, pos) {
            Parsed::Done { value, .. } => {
                lemma_expr_no_labels(value);
            },
            Parsed::Fail { .. } => {},
        }
    }
}

/// What `parse_branch` reads stays in place, and the tree that it gives is
/// a statement with a token for each label.
proof fn lemma_branch_in_place(tokens: Seq<SpecToken>, pos: nat)
    requires
        pos <= tokens.len(),
    ensures
        in_place(parse_branch(tokens, pos), tokens, pos),
        gives_stmt(parse_branch(tokens, pos), pos, 0),
    decreases tokens.len() - pos, 14nat,
{
    reveal(parse_branch);
    reveal(parse_stmt_here);
    lemma_expect_in_place(tokens, pos, any_number());
    if pos < tokens.len() {
        lemma_stmt_here_in_place(tokens, pos);
    }
}

/// What `parse_else` reads stays in place, and the tree that it gives is
/// a statement with a token for each label.
proof fn lemma_else_in_place(tokens: Seq<SpecToken>, pos: nat, cond: SpecNode, then: SpecNode)
    requires
        pos <= tokens.len(),
        is_expr(cond),
        is_stmt(then),
    ensures
        in_place(parse_else(tokens, pos, cond, then), tokens, pos),
        gives_stmt(parse_else(tokens, pos, cond, then), pos, 1 + labels_in(then)),
    decreases tokens.len() - pos, 15nat,
{
    reveal(parse_else);
    reveal(parse_branch);
    lemma_expr_no_labels(cond);
    reveal_with_fuel(labels_in, 2);
    if next_is(tokens, pos, SpecKind::Else) {
        lemma_branch_in_place(tokens, pos + 1);
    }
}

/// What `parse_if` reads stays in place, and the tree that it gives is
/// a statement with a token for each label.
proof fn lemma_if_in_place(tokens: Seq<SpecToken>, pos: nat)
    requires
        pos <= tokens.len(),
    ensures
        in_place(parse_if(tokens, pos), tokens, pos),
        gives_stmt(parse_if(tokens, pos), pos, 1),
    decreases tokens.len() - pos, 16nat,
{
    reveal(parse_if);
    reveal(parse_expr);
    reveal(parse_branch);
    reveal(parse_else);
    lemma_expect_in_place(tokens, pos, SpecKind::LRoundBracket);
    match expect_at(tokens, pos, SpecKind::LRoundBracket) {
        Parsed::Done { pos: open, .. } => {
            lemma_expr_in_place(tokens, open);
            match parse_expr(tokens, open) {
                Parsed::Done { value: cond, pos: behind } => {
                    lemma_expect_in_place(tokens, behind, SpecKind::RRoundBracket);
                    match expect_at(tokens, behind, SpecKind::RRoundBracket) {
                        Parsed::Done { pos: close, .. } => {
                            lemma_expect_in_place(tokens, close, any_number());
                            if advanced(tokens, pos, close) {
                                lemma_branch_in_place(tokens, close);
                                match parse_branch(tokens, close) {
                                    Parsed::Done { value: then, pos: end } => {
                                        if advanced(tokens, pos, end) {
                                            lemma_else_in_place(tokens, end, cond, then);
                                        }
                                    },
                                    Parsed::Fail { .. } => {},
                                }
                            }
                        },
                        Parsed::Fail { .. } => {},
                    }
                },
                Parsed::Fail { .. } => {},
            }
        },
        Parsed::Fail { .. } => {},
    }
}

/// Whether every tree of `statements` is a statement.
pub open spec fn are_statements(statements: Seq<SpecNode>) -> bool {
    forall|i: int| 0 <= i < statements.len() ==> is_stmt(#[trigger] statements[i])
}

/// What `parse_program_rest` reads stays in place, and the trees that it
/// gives are statements with a token for each label.
proof fn lemma_program_rest_in_place(tokens: Seq<SpecToken>, pos: nat, done: Seq<SpecNode>)
    requires
        pos <= tokens.len(),
        are_statements(done),
    ensures
        in_place(parse_program_rest(tokens, pos, done), tokens, pos),
        parse_program_rest(tokens, pos, done) is Done ==> are_statements(
            parse_program_rest(tokens, pos, done)->value,
        ) && labels_of(parse_program_rest(tokens, pos, done)->value) <= labels_of(done)
            + tokens.len() - pos,
    decreases tokens.len() - pos,
{
    reveal(parse_program_rest);
    if pos < tokens.len() {
        lemma_stmt_here_in_place(tokens, pos);
        match parse_stmt_here(tokens, pos) {
            Parsed::Done { value, pos: end } => {
                assert(done.push(value).drop_last() =~= done);
                assert forall|i: int| 0 <= i < done.push(value).len() implies is_stmt(
                    #[trigger] done.push(value)[i],
                ) by {
                    if i < done.len() {
                        assert(done.push(value)[i] == done[i]);
                    }
                }
                if advanced(tokens, pos, end) {
                    lemma_program_rest_in_place(tokens, end, done.push(value));
                }
            },
            Parsed::Fail { .. } => {},
        }
    }
}

/// A syntax error is reported where it is met. Where parsing a program
/// fails, the error is an `Unexpected` or an `Expected`; it was met at or
/// behind the start, and it names the row and the column just behind the
/// last token before the place where it was met. An `Expected` is met at
/// the end of the source: it names the place just behind the last token.
/// Where parsing succeeds, every tree is a statement, and the code of the
/// statements takes no more labels than there are tokens.
pub proof fn lemma_program_in_place(tokens: Seq<SpecToken>, pos: nat)
    requires
        pos <= tokens.len(),
    ensures
        in_place(parse_program(tokens, pos), tokens, pos),
        parse_program(tokens, pos) is Fail && parse_program(tokens, pos)->error is Expected
            && tokens.len() > 0 ==> {
            let error = parse_program(tokens, pos)->error;
            error->Expected_row == tokens.last().row && error->Expected_col
                == tokens.last().end_col()
        },
        parse_program(tokens, pos) is Done ==> are_statements(parse_program(tokens, pos)->value)
            && labels_of(parse_program(tokens, pos)->value) <= tokens.len() - pos,
{
    reveal(parse_program);
    lemma_program_rest_in_place(tokens, pos, Seq::empty());
}

/// A syntax error in a statement is reported where it is met, as
/// [`lemma_program_in_place`] says of a program.
pub proof fn lemma_stmt_in_place(tokens: Seq<SpecToken>, pos: nat)
    requires
        pos <= tokens.len(),
    ensures
        in_place(parse_stmt(tokens, pos), tokens, pos),
{
    reveal(parse_stmt);
    if pos < tokens.len() {
        lemma_stmt_here_in_place(tokens, pos);
    }
}

} // verus!
