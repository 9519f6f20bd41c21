//! Syntax trees and the recursive-descent parser that builds them.

use crate::grammar::{
    advanced, is_binary, is_expr, is_stmt, parse_add, parse_add_rest, parse_assign, parse_branch,
    parse_else, parse_equality, parse_equality_rest, parse_expr, parse_if, parse_mul,
    parse_mul_rest, parse_primary, parse_program, parse_program_rest, parse_relational,
    parse_relational_rest, parse_stmt, parse_stmt_here, parse_terminated, parse_unary, SpecNode,
};
use crate::result::CompileError;
use crate::stream::{agrees, TokenStream};
use crate::token::{SpecKind, TokenKind};
use vstd::prelude::*;

verus! {

/// A node of a syntax tree: an operation and up to two operands, each a tree
/// that the node owns. Numbers and variables are leaves.
#[derive(Debug, PartialEq)]
pub struct Node {
    pub kind: TokenKind,
    pub lhs: Option<Box<Node>>,
    pub rhs: Option<Box<Node>>,
}

impl View for Node {
    type V = SpecNode;

    open spec fn view(&self) -> SpecNode {
        self.tree()
    }
}

impl DeepView for Node {
    type V = SpecNode;

    open spec fn deep_view(&self) -> SpecNode {
        self@
    }
}

impl Node {
    /// The mathematical value of the tree under the node.
    pub open spec fn tree(self) -> SpecNode
        decreases self,
    {
        SpecNode {
            kind: self.kind@,
            lhs: match self.lhs {
                Some(node) => Some(Box::new((*node).tree())),
                None => None,
            },
            rhs: match self.rhs {
                Some(node) => Some(Box::new((*node).tree())),
                None => None,
            },
        }
    }

    /// A copy of the node's kind.
    pub fn kind(&self) -> (kind: TokenKind)
        ensures
            kind@ == self@.kind,
    {
        self.kind.clone()
    }

    /// The left operand, if there is one.
    pub fn lhs(&self) -> (lhs: Option<&Box<Node>>)
        ensures
            match lhs {
                Some(node) => self.lhs == Some(*node) && self@.lhs == Some(Box::new(node@)),
                None => self.lhs is None && self@.lhs is None,
            },
    {
        self.lhs.as_ref()
    }

    /// The right operand, if there is one.
    pub fn rhs(&self) -> (rhs: Option<&Box<Node>>)
        ensures
            match rhs {
                Some(node) => self.rhs == Some(*node) && self@.rhs == Some(Box::new(node@)),
                None => self.rhs is None && self@.rhs is None,
            },
    {
        self.rhs.as_ref()
    }

    /// Whether the node is the tree of an expression: a number or a
    /// variable without operands, or an operation or assignment on two
    /// expressions.
    pub fn is_expression(&self) -> (b: bool)
        ensures
            b == is_expr(self@),
        decreases self,
    {
        match &self.kind {
            TokenKind::Num(_) | TokenKind::LocalVar { .. } => self.lhs.is_none()
                && self.rhs.is_none(),
            TokenKind::Add
            | TokenKind::Sub
            | TokenKind::Mul
            | TokenKind::Div
            | TokenKind::Equal
            | TokenKind::NEqual
            | TokenKind::Less
            | TokenKind::LessOrEqual
            | TokenKind::Assign => match (&self.lhs, &self.rhs) {
                (Some(lhs), Some(rhs)) => lhs.is_expression() && rhs.is_expression(),
                _ => false,
            },
            _ => false,
        }
    }

    /// Whether the node is the tree of a statement, which is what the
    /// generator has code for: an expression, a `Return` of an expression,
    /// or an `If` over a condition and one statement, or an `Else` node
    /// over two.
    pub fn is_statement(&self) -> (b: bool)
        ensures
            b == is_stmt(self@),
        decreases self,
    {
        reveal_with_fuel(Node::tree, 3);
        match &self.kind {
            TokenKind::If => match (&self.lhs, &self.rhs) {
                (Some(cond), Some(rhs)) => {
                    if !cond.is_expression() {
                        return false;
                    }
                    if let TokenKind::Else = rhs.kind {
                        match (&rhs.lhs, &rhs.rhs) {
                            (Some(then), Some(other)) => then.is_statement()
                                && other.is_statement(),
                            _ => false,
                        }
                    } else {
                        rhs.is_statement()
                    }
                },
                _ => false,
            },
            TokenKind::Return => match (&self.lhs, &self.rhs) {
                (Some(value), None) => value.is_expression(),
                _ => false,
            },
            _ => self.is_expression(),
        }
    }

    /// The node of the operation `kind` on `lhs` and `rhs`.
    pub fn op_node(kind: TokenKind, lhs: Box<Node>, rhs: Box<Node>) -> (node: Box<Node>)
        ensures
            node@ == SpecNode::op(kind@, lhs@, rhs@),
            (is_binary(kind@) || kind@ is Assign) && is_expr(lhs@) && is_expr(rhs@) ==> is_expr(
                node@,
            ),
    {
        Box::new(Self { kind, lhs: Some(lhs), rhs: Some(rhs) })
    }

    /// The leaf of the number `val`.
    pub fn num_node(val: u32) -> (node: Box<Node>)
        ensures
            node@ == SpecNode::leaf(SpecKind::Num(val)),
            is_expr(node@),
    {
        Box::new(Self { kind: TokenKind::Num(val), lhs: None, rhs: None })
    }

    /// The leaf of the variable `symbol`, which lives `offset` bytes below
    /// the frame base.
    pub fn variable_node(symbol: String, offset: u32) -> (node: Box<Node>)
        ensures
            node@ == SpecNode::leaf(SpecKind::LocalVar { symbol: symbol@, offset }),
            is_expr(node@),
    {
        Box::new(Self { kind: TokenKind::LocalVar { symbol, offset }, lhs: None, rhs: None })
    }
}

/// `primary := "(" expr ")" | variable | number`
pub fn primary(tokenstream: &mut TokenStream) -> (result: Result<Box<Node>, CompileError>)
    ensures
        final(tokenstream).tokens() == old(tokenstream).tokens(),
        agrees(
            result,
            final(tokenstream).pos(),
            parse_primary(old(tokenstream).tokens(), old(tokenstream).pos()),
        ),
        result is Ok ==> advanced(
            old(tokenstream).tokens(),
            old(tokenstream).pos(),
            final(tokenstream).pos(),
        ),
        result is Ok ==> is_expr(result->Ok_0@),
    decreases old(tokenstream).tokens().len() - old(tokenstream).pos(), 0nat,
{
    reveal(parse_primary);
    reveal(parse_expr);
    proof {
        tokenstream.lemma_in_range();
    }
    if tokenstream.consume(TokenKind::LRoundBracket) {
        let node = match expr(tokenstream) {
            Ok(node) => node,
            Err(error) => return Err(error),
        };
        return match tokenstream.expect(TokenKind::RRoundBracket) {
            Ok(_) => Ok(node),
            Err(error) => Err(error),
        };
    }
    match tokenstream.expect_local_variable() {
        Ok(TokenKind::LocalVar { symbol, offset }) => Ok(Node::variable_node(symbol, offset)),
        _ => match tokenstream.expect_number() {
            Ok(num) => Ok(Node::num_node(num)),
            Err(error) => Err(error),
        },
    }
}

/// `unary := ("+" | "-")? primary`, where `-x` becomes `0 - x`.
pub fn unary(tokenstream: &mut TokenStream) -> (result: Result<Box<Node>, CompileError>)
    ensures
        final(tokenstream).tokens() == old(tokenstream).tokens(),
        agrees(
            result,
            final(tokenstream).pos(),
            parse_unary(old(tokenstream).tokens(), old(tokenstream).pos()),
        ),
        result is Ok ==> advanced(
            old(tokenstream).tokens(),
            old(tokenstream).pos(),
            final(tokenstream).pos(),
        ),
        result is Ok ==> is_expr(result->Ok_0@),
    decreases old(tokenstream).tokens().len() - old(tokenstream).pos(), 1nat,
{
    reveal(parse_unary);
    reveal(parse_primary);
    proof {
        tokenstream.lemma_in_range();
    }
    if tokenstream.consume(TokenKind::Add) {
        return primary(tokenstream);
    }
    if tokenstream.consume(TokenKind::Sub) {
        return match primary(tokenstream) {
            Ok(node) => Ok(Node::op_node(TokenKind::Sub, Node::num_node(0), node)),
            Err(error) => Err(error),
        };
    }
    primary(tokenstream)
}

/// `multiplicative := unary (("*" | "/") unary)*`, to the left.
pub fn mul(tokenstream: &mut TokenStream) -> (result: Result<Box<Node>, CompileError>)
    ensures
        final(tokenstream).tokens() == old(tokenstream).tokens(),
        agrees(
            result,
            final(tokenstream).pos(),
            parse_mul(old(tokenstream).tokens(), old(tokenstream).pos()),
        ),
        result is Ok ==> advanced(
            old(tokenstream).tokens(),
            old(tokenstream).pos(),
            final(tokenstream).pos(),
        ),
        result is Ok ==> is_expr(result->Ok_0@),
    decreases old(tokenstream).tokens().len() - old(tokenstream).pos(), 3nat,
{
    reveal(parse_mul);
    reveal(parse_unary);
    reveal(parse_mul_rest);
    let ghost tokens = tokenstream.tokens();
    let ghost start = tokenstream.pos();
    let mut node = match unary(tokenstream) {
        Ok(node) => node,
        Err(error) => return Err(error),
    };
    loop
        invariant
            tokens == old(tokenstream).tokens(),
            start == old(tokenstream).pos(),
            tokenstream.tokens() == tokens,
            advanced(tokens, start, tokenstream.pos()),
            is_expr(node@),
            parse_mul_rest(tokens, tokenstream.pos(), node@) == parse_mul(tokens, start),
        decreases tokens.len() - tokenstream.pos(),
    {
        reveal(parse_mul_rest);
        reveal(parse_unary);
        proof {
            tokenstream.lemma_in_range();
        }
        let kind = if tokenstream.consume(TokenKind::Mul) {
            TokenKind::Mul
        } else if tokenstream.consume(TokenKind::Div) {
            TokenKind::Div
        } else {
            return Ok(node);
        };
        let rhs = match unary(tokenstream) {
            Ok(rhs) => rhs,
            Err(error) => return Err(error),
        };
        node = Node::op_node(kind, node, rhs);
    }
}

/// `additive := multiplicative (("+" | "-") multiplicative)*`, to the left.
pub fn add(tokenstream: &mut TokenStream) -> (result: Result<Box<Node>, CompileError>)
    ensures
        final(tokenstream).tokens() == old(tokenstream).tokens(),
        agrees(
            result,
            final(tokenstream).pos(),
            parse_add(old(tokenstream).tokens(), old(tokenstream).pos()),
        ),
        result is Ok ==> advanced(
            old(tokenstream).tokens(),
            old(tokenstream).pos(),
            final(tokenstream).pos(),
        ),
        result is Ok ==> is_expr(result->Ok_0@),
    decreases old(tokenstream).tokens().len() - old(tokenstream).pos(), 5nat,
{
    reveal(parse_add);
    reveal(parse_mul);
    reveal(parse_add_rest);
    let ghost tokens = tokenstream.tokens();
    let ghost start = tokenstream.pos();
    let mut node = match self::mul(tokenstream) {
        Ok(node) => node,
        Err(error) => return Err(error),
    };
    loop
        invariant
            tokens == old(tokenstream).tokens(),
            start == old(tokenstream).pos(),
            tokenstream.tokens() == tokens,
            advanced(tokens, start, tokenstream.pos()),
            is_expr(node@),
            parse_add_rest(tokens, tokenstream.pos(), node@) == parse_add(tokens, start),
        decreases tokens.len() - tokenstream.pos(),
    {
        reveal(parse_add_rest);
        reveal(parse_mul);
        proof {
            tokenstream.lemma_in_range();
        }
        let kind = if tokenstream.consume(TokenKind::Add) {
            TokenKind::Add
        } else if tokenstream.consume(TokenKind::Sub) {
            TokenKind::Sub
        } else {
            return Ok(node);
        };
        let rhs = match self::mul(tokenstream) {
            Ok(rhs) => rhs,
            Err(error) => return Err(error),
        };
        node = Node::op_node(kind, node, rhs);
    }
}

/// `relational := additive (("<" | "<=" | ">" | ">=") additive)*`, to the
/// left. `a > b` becomes `b < a` and `a >= b` becomes `b <= a`.
pub fn relational(tokenstream: &mut TokenStream) -> (result: Result<Box<Node>, CompileError>)
    ensures
        final(tokenstream).tokens() == old(tokenstream).tokens(),
        agrees(
            result,
            final(tokenstream).pos(),
            parse_relational(old(tokenstream).tokens(), old(tokenstream).pos()),
        ),
        result is Ok ==> advanced(
            old(tokenstream).tokens(),
            old(tokenstream).pos(),
            final(tokenstream).pos(),
        ),
        result is Ok ==> is_expr(result->Ok_0@),
    decreases old(tokenstream).tokens().len() - old(tokenstream).pos(), 7nat,
{
    reveal(parse_relational);
    reveal(parse_add);
    reveal(parse_relational_rest);
    let ghost tokens = tokenstream.tokens();
    let ghost start = tokenstream.pos();
    let mut node = match self::add(tokenstream) {
        Ok(node) => node,
        Err(error) => return Err(error),
    };
    loop
        invariant
            tokens == old(tokenstream).tokens(),
            start == old(tokenstream).pos(),
            tokenstream.tokens() == tokens,
            advanced(tokens, start, tokenstream.pos()),
            is_expr(node@),
            parse_relational_rest(tokens, tokenstream.pos(), node@) == parse_relational(
                tokens,
                start,
            ),
        decreases tokens.len() - tokenstream.pos(),
    {
        reveal(parse_relational_rest);
        reveal(parse_add);
        proof {
            tokenstream.lemma_in_range();
        }
        if tokenstream.consume(TokenKind::Less) {
            let rhs = match self::add(tokenstream) {
                Ok(rhs) => rhs,
                Err(error) => return Err(error),
            };
            node = Node::op_node(TokenKind::Less, node, rhs);
        } else if tokenstream.consume(TokenKind::Greater) {
            let rhs = match self::add(tokenstream) {
                Ok(rhs) => rhs,
                Err(error) => return Err(error),
            };
            node = Node::op_node(TokenKind::Less, rhs, node);
        } else if tokenstream.consume(TokenKind::LessOrEqual) {
            let rhs = match self::add(tokenstream) {
                Ok(rhs) => rhs,
                Err(error) => return Err(error),
            };
            node = Node::op_node(TokenKind::LessOrEqual, node, rhs);
        } else if tokenstream.consume(TokenKind::GreaterOrEqual) {
            let rhs = match self::add(tokenstream) {
                Ok(rhs) => rhs,
                Err(error) => return Err(error),
            };
            node = Node::op_node(TokenKind::LessOrEqual, rhs, node);
        } else {
            return Ok(node);
        }
    }
}

/// `equality := relational (("==" | "!=") relational)*`, to the left.
pub fn equality(tokenstream: &mut TokenStream) -> (result: Result<Box<Node>, CompileError>)
    ensures
        final(tokenstream).tokens() == old(tokenstream).tokens(),
        agrees(
            result,
            final(tokenstream).pos(),
            parse_equality(old(tokenstream).tokens(), old(tokenstream).pos()),
        ),
        result is Ok ==> advanced(
            old(tokenstream).tokens(),
            old(tokenstream).pos(),
            final(tokenstream).pos(),
        ),
        result is Ok ==> is_expr(result->Ok_0@),
    decreases old(tokenstream).tokens().len() - old(tokenstream).pos(), 9nat,
{
    reveal(parse_equality);
    reveal(parse_relational);
    reveal(parse_equality_rest);
    let ghost tokens = tokenstream.tokens();
    let ghost start = tokenstream.pos();
    let mut node = match relational(tokenstream) {
        Ok(node) => node,
        Err(error) => return Err(error),
    };
    loop
        invariant
            tokens == old(tokenstream).tokens(),
            start == old(tokenstream).pos(),
            tokenstream.tokens() == tokens,
            advanced(tokens, start, tokenstream.pos()),
            is_expr(node@),
            parse_equality_rest(tokens, tokenstream.pos(), node@) == parse_equality(tokens, start),
        decreases tokens.len() - tokenstream.pos(),
    {
        reveal(parse_equality_rest);
        reveal(parse_relational);
        proof {
            tokenstream.lemma_in_range();
        }
        let kind = if tokenstream.consume(TokenKind::Equal) {
            TokenKind::Equal
        } else if tokenstream.consume(TokenKind::NEqual) {
            TokenKind::NEqual
        } else {
            return Ok(node);
        };
        let rhs = match relational(tokenstream) {
            Ok(rhs) => rhs,
            Err(error) => return Err(error),
        };
        node = Node::op_node(kind, node, rhs);
    }
}

/// `assign := equality ("=" assign)?`, to the right.
pub fn assign(tokenstream: &mut TokenStream) -> (result: Result<Box<Node>, CompileError>)
    ensures
        final(tokenstream).tokens() == old(tokenstream).tokens(),
        agrees(
            result,
            final(tokenstream).pos(),
            parse_assign(old(tokenstream).tokens(), old(tokenstream).pos()),
        ),
        result is Ok ==> advanced(
            old(tokenstream).tokens(),
            old(tokenstream).pos(),
            final(tokenstream).pos(),
        ),
        result is Ok ==> is_expr(result->Ok_0@),
    decreases old(tokenstream).tokens().len() - old(tokenstream).pos(), 10nat,
{
    reveal(parse_assign);
    reveal(parse_equality);
    let node = match equality(tokenstream) {
        Ok(node) => node,
        Err(error) => return Err(error),
    };
    if tokenstream.consume(TokenKind::Assign) {
        return match assign(tokenstream) {
            Ok(rhs) => Ok(Node::op_node(TokenKind::Assign, node, rhs)),
            Err(error) => Err(error),
        };
    }
    Ok(node)
}

/// `expr := assign`
pub fn expr(tokenstream: &mut TokenStream) -> (result: Result<Box<Node>, CompileError>)
    ensures
        final(tokenstream).tokens() == old(tokenstream).tokens(),
        agrees(
            result,
            final(tokenstream).pos(),
            parse_expr(old(tokenstream).tokens(), old(tokenstream).pos()),
        ),
        result is Ok ==> advanced(
            old(tokenstream).tokens(),
            old(tokenstream).pos(),
            final(tokenstream).pos(),
        ),
        result is Ok ==> is_expr(result->Ok_0@),
    decreases old(tokenstream).tokens().len() - old(tokenstream).pos(), 11nat,
{
    reveal(parse_expr);
    reveal(parse_assign);
    assign(tokenstream)
}

/// The statement that an `if` or an `else` requires: where the source has
/// ended it is missing, which is reported as a missing number.
fn branch(tokenstream: &mut TokenStream) -> (result: Result<Box<Node>, CompileError>)
    ensures
        final(tokenstream).tokens() == old(tokenstream).tokens(),
        agrees(
            result,
            final(tokenstream).pos(),
            parse_branch(old(tokenstream).tokens(), old(tokenstream).pos()),
        ),
        result is Ok ==> advanced(
            old(tokenstream).tokens(),
            old(tokenstream).pos(),
            final(tokenstream).pos(),
        ),
        result is Ok ==> is_stmt(result->Ok_0@),
    decreases old(tokenstream).tokens().len() - old(tokenstream).pos(), 14nat,
{
    reveal(parse_branch);
    reveal(parse_stmt_here);
    reveal(parse_stmt);
    proof {
        tokenstream.lemma_in_range();
    }
    match stmt(tokenstream) {
        Ok(Some(node)) => Ok(node),
        Ok(None) => Err(tokenstream.mismatch(TokenKind::Num(0))),
        Err(error) => Err(error),
    }
}

/// `expr ";"`
fn terminated(tokenstream: &mut TokenStream) -> (result: Result<Box<Node>, CompileError>)
    ensures
        final(tokenstream).tokens() == old(tokenstream).tokens(),
        agrees(
            result,
            final(tokenstream).pos(),
            parse_terminated(old(tokenstream).tokens(), old(tokenstream).pos()),
        ),
        result is Ok ==> advanced(
            old(tokenstream).tokens(),
            old(tokenstream).pos(),
            final(tokenstream).pos(),
        ),
        result is Ok ==> is_expr(result->Ok_0@),
    decreases old(tokenstream).tokens().len() - old(tokenstream).pos(), 12nat,
{
    reveal(parse_terminated);
    reveal(parse_expr);
    let node = match expr(tokenstream) {
        Ok(node) => node,
        Err(error) => return Err(error),
    };
    match tokenstream.expect(TokenKind::Semicolon) {
        Ok(_) => Ok(node),
        Err(error) => Err(error),
    }
}

/// `("else" statement)?` behind the branch `then` of the condition `cond`:
/// the node of the whole conditional.
fn otherwise(tokenstream: &mut TokenStream, cond: Box<Node>, then: Box<Node>) -> (result: Result<
    Box<Node>,
    CompileError,
>)
    ensures
        final(tokenstream).tokens() == old(tokenstream).tokens(),
        agrees(
            result,
            final(tokenstream).pos(),
            parse_else(old(tokenstream).tokens(), old(tokenstream).pos(), cond@, then@),
        ),
        result is Ok ==> old(tokenstream).pos() <= final(tokenstream).pos()
            <= old(tokenstream).tokens().len(),
        is_expr(cond@) && is_stmt(then@) && result is Ok ==> is_stmt(result->Ok_0@),
    decreases old(tokenstream).tokens().len() - old(tokenstream).pos(), 15nat,
{
    reveal(parse_else);
    reveal(parse_branch);
    proof {
        tokenstream.lemma_in_range();
    }
    if tokenstream.consume(TokenKind::Else) {
        return match branch(tokenstream) {
            Ok(other) => Ok(
                Node::op_node(TokenKind::If, cond, Node::op_node(TokenKind::Else, then, other)),
            ),
            Err(error) => Err(error),
        };
    }
    Ok(Node::op_node(TokenKind::If, cond, then))
}

/// `"(" expr ")" statement ("else" statement)?` behind an `if`.
fn conditional_stmt(tokenstream: &mut TokenStream) -> (result: Result<Box<Node>, CompileError>)
    ensures
        final(tokenstream).tokens() == old(tokenstream).tokens(),
        agrees(
            result,
            final(tokenstream).pos(),
            parse_if(old(tokenstream).tokens(), old(tokenstream).pos()),
        ),
        result is Ok ==> advanced(
            old(tokenstream).tokens(),
            old(tokenstream).pos(),
            final(tokenstream).pos(),
        ),
        result is Ok ==> is_stmt(result->Ok_0@),
    decreases old(tokenstream).tokens().len() - old(tokenstream).pos(), 16nat,
{
    reveal(parse_if);
    reveal(parse_expr);
    reveal(parse_branch);
    reveal(parse_else);
    proof {
        tokenstream.lemma_in_range();
    }
    match tokenstream.expect(TokenKind::LRoundBracket) {
        Ok(_) => {},
        Err(error) => return Err(error),
    }
    let cond = match expr(tokenstream) {
        Ok(node) => node,
        Err(error) => return Err(error),
    };
    match tokenstream.expect(TokenKind::RRoundBracket) {
        Ok(_) => {},
        Err(error) => return Err(error),
    }
    let then = match branch(tokenstream) {
        Ok(node) => node,
        Err(error) => return Err(error),
    };
    proof {
        tokenstream.lemma_in_range();
    }
    otherwise(tokenstream, cond, then)
}

/// The next statement, or `None` where the source has ended.
///
/// `statement := "if" "(" expr ")" statement ("else" statement)?
///             | "return" expr ";" | expr ";"`
///
/// An `if` becomes a node whose left operand is the condition. Its right
/// operand is the statement, or, with an `else`, an `Else` node over the two
/// statements.
pub fn stmt(tokenstream: &mut TokenStream) -> (result: Result<Option<Box<Node>>, CompileError>)
    ensures
        final(tokenstream).tokens() == old(tokenstream).tokens(),
        agrees(
            result,
            final(tokenstream).pos(),
            parse_stmt(old(tokenstream).tokens(), old(tokenstream).pos()),
        ),
        result is Ok && result->Ok_0 is Some ==> advanced(
            old(tokenstream).tokens(),
            old(tokenstream).pos(),
            final(tokenstream).pos(),
        ),
        result is Ok && result->Ok_0 is Some ==> is_stmt(result->Ok_0->0@),
    decreases old(tokenstream).tokens().len() - old(tokenstream).pos(), 13nat,
{
    reveal(parse_stmt);
    reveal(parse_stmt_here);
    reveal(parse_if);
    reveal(parse_terminated);
    proof {
        tokenstream.lemma_in_range();
    }
    if tokenstream.is_empty() {
        return Ok(None);
    }
    if tokenstream.consume(TokenKind::If) {
        return match conditional_stmt(tokenstream) {
            Ok(node) => Ok(Some(node)),
            Err(error) => Err(error),
        };
    }
    if tokenstream.consume(TokenKind::Return) {
        return match terminated(tokenstream) {
            Ok(node) => Ok(
                Some(Box::new(Node { kind: TokenKind::Return, lhs: Some(node), rhs: None })),
            ),
            Err(error) => Err(error),
        };
    }
    match terminated(tokenstream) {
        Ok(node) => Ok(Some(node)),
        Err(error) => Err(error),
    }
}

/// `program := statement*`: the statements of the source, in order.
pub fn program(tokenstream: &mut TokenStream) -> (result: Result<Vec<Box<Node>>, CompileError>)
    ensures
        final(tokenstream).tokens() == old(tokenstream).tokens(),
        agrees(
            result,
            final(tokenstream).pos(),
            parse_program(old(tokenstream).tokens(), old(tokenstream).pos()),
        ),
        result is Ok ==> forall|i: int|
            0 <= i < result->Ok_0.len() ==> is_stmt(#[trigger] result->Ok_0[i]@),
{
    reveal(parse_program);
    let ghost tokens = tokenstream.tokens();
    let ghost start = tokenstream.pos();
    let mut nodes: Vec<Box<Node>> = Vec::new();
    assert(nodes.deep_view() =~= Seq::<SpecNode>::empty());
    loop
        invariant
            tokens == old(tokenstream).tokens(),
            start == old(tokenstream).pos(),
            tokenstream.tokens() == tokens,
            forall|i: int| 0 <= i < nodes.len() ==> is_stmt(#[trigger] nodes[i]@),
            parse_program_rest(tokens, tokenstream.pos(), nodes.deep_view()) == parse_program(
                tokens,
                start,
            ),
        decreases tokens.len() - tokenstream.pos(),
    {
        reveal(parse_program_rest);
        reveal(parse_stmt);
        proof {
            tokenstream.lemma_in_range();
        }
        let ghost done = nodes.deep_view();
        match stmt(tokenstream) {
            Ok(Some(node)) => {
                nodes.push(node);
                assert(nodes.deep_view() =~= done.push(node@));
            },
            Ok(None) => return Ok(nodes),
            Err(error) => return Err(error),
        }
    }
}

} // verus!
