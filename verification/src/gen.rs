//! The code generator: from syntax trees to assembly text.
//!
//! The code of a tree is a sequence of instructions that leaves the tree's
//! value on the stack: operands are pushed, an operation pops them and
//! pushes its result. Behind every statement the value is popped again, so
//! that the stack stays balanced.

use crate::grammar::{
    are_statements, has_else, is_binary, is_expr, is_stmt, labels_in, labels_of,
    lemma_program_in_place,
    parse_program, targets_valid, SpecNode,
};
use crate::lexer::{lemma_lex_errors, lex, tokenize, MAX_VARIABLES};
use crate::machine::{emit, labels_unique, lemma_render_concat, render, Instr};
use crate::node::{program, Node};
use crate::result::{CompileError, SpecError};
use crate::semantics::{labels_within, lands_in, lemma_code_jumps, lemma_code_labels};
use crate::stream::Parsed;
use crate::text::push_text;
use crate::token::{SpecKind, TokenKind};
use vstd::prelude::*;

verus! {

/// The label that lies `count` behind `label`.
pub open spec fn label_after(label: u64, count: nat) -> u64 {
    (label + count) as u64
}

/// The instruction of the operation `kind` on `rax` and `rdi`.
pub open spec fn operation(kind: SpecKind) -> Instr {
    match kind {
        SpecKind::Add => Instr::Add,
        SpecKind::Sub => Instr::Sub,
        SpecKind::Mul => Instr::Mul,
        SpecKind::Div => Instr::Div,
        SpecKind::Equal => Instr::SetEqual,
        SpecKind::NEqual => Instr::SetNotEqual,
        SpecKind::Less => Instr::SetLess,
        _ => Instr::SetLessOrEqual,
    }
}

/// The code that pushes the number `num`. A number from 2^31 on is no
/// operand that a push takes for what it is, and goes through `rax`.
pub open spec fn number_code(num: u32) -> Seq<Instr> {
    if num < 0x8000_0000 {
        seq![Instr::Push(num)]
    } else {
        seq![Instr::Number(num), Instr::PushRax]
    }
}

/// The code that pushes the address of the variable `node`.
pub open spec fn address_code(node: SpecNode) -> Seq<Instr> {
    seq![Instr::FrameAddress(node.kind->offset), Instr::PushRax]
}

/// The code of the tree `node`, whose labels are numbered from `label` on.
///
/// - A number is pushed, through `rax` where it is too large an operand.
/// - A variable's address is pushed, popped again, and the value found
///   there is pushed.
/// - An assignment pushes the address of its target, then the value;
///   stores the value at the address and pushes it.
/// - An operation pushes its left operand, then its right one; pops both,
///   combines them and pushes the result.
/// - `if` without `else` pops the condition into `rax` and jumps to its end
///   if that is zero. Else it runs the statement and pops its value into
///   `rax`. At the end it pushes `rax`: the statement's value if it ran,
///   and zero if not.
/// - `if` with `else` jumps to the second statement if the condition is
///   zero, and behind the first statement over the second.
/// - `return` pops the value into `rax` and returns.
pub open spec fn code_of(node: SpecNode, label: u64) -> Seq<Instr>
    decreases node,
{
    match (node.lhs, node.rhs) {
        (Some(lhs), Some(rhs)) => if node.kind is Assign {
            address_code(*lhs) + code_of(*rhs, label_after(label, labels_in(*lhs)))
                + seq![Instr::PopRdi, Instr::PopRax, Instr::Store, Instr::PushRdi]
        } else if is_binary(node.kind) {
            code_of(*lhs, label) + code_of(*rhs, label_after(label, labels_in(*lhs)))
                + seq![Instr::PopRdi, Instr::PopRax, operation(node.kind), Instr::PushRax]
        } else if node.kind is If {
            if rhs.kind is Else {
                match (rhs.lhs, rhs.rhs) {
                    (Some(then), Some(other)) => code_of(*lhs, label_after(label, 2))
                        + seq![Instr::PopRax, Instr::JumpIfZero(label_after(label, 1))] + code_of(
                        *then,
                        label_after(label, 2 + labels_in(*lhs)),
                    ) + seq![Instr::Jump(label), Instr::Label(label_after(label, 1))] + code_of(
                        *other,
                        label_after(label, 2 + labels_in(*lhs) + labels_in(*then)),
                    ) + seq![Instr::Label(label)],
                    _ => Seq::empty(),
                }
            } else {
                code_of(*lhs, label_after(label, 1))
                    + seq![Instr::PopRax, Instr::JumpIfZero(label)] + code_of(
                    *rhs,
                    label_after(label, 1 + labels_in(*lhs)),
                ) + seq![Instr::PopRax, Instr::Label(label), Instr::PushRax]
            }
        } else {
            Seq::empty()
        },
        (Some(lhs), None) => if node.kind is Return {
            code_of(*lhs, label) + seq![Instr::PopRax, Instr::Return]
        } else {
            Seq::empty()
        },
        _ => match node.kind {
            SpecKind::Num(num) => number_code(num),
            SpecKind::LocalVar { offset, .. } => seq![
                Instr::FrameAddress(offset),
                Instr::PushRax,
                Instr::PopRax,
                Instr::Load,
                Instr::PushRax,
            ],
            _ => Seq::empty(),
        },
    }
}

/// Why no code is generated for `node` with labels from `label` on, if so:
/// the tree is no statement; or, in a statement, an assignment to
/// something else than a variable; or, without such, more labels than 64
/// bits can number.
pub open spec fn gen_error(node: SpecNode, label: u64) -> Option<SpecError> {
    if !is_stmt(node) {
        Some(SpecError::FmtError)
    } else if !targets_valid(node) {
        Some(SpecError::InvalidAssignmentTarget)
    } else if label + labels_in(node) > u64::MAX {
        Some(SpecError::FmtError)
    } else {
        None
    }
}

/// Whether the left operand of every assignment in `node` is a variable.
fn has_valid_targets(node: &Node) -> (valid: bool)
    ensures
        valid == targets_valid(node@),
    decreases node,
{
    reveal_with_fuel(Node::tree, 2);
    if let TokenKind::Assign = node.kind {
        match &node.lhs {
            Some(lhs) => {
                if let TokenKind::LocalVar { .. } = lhs.kind {
                } else {
                    return false;
                }
            },
            None => {
                return false;
            },
        }
    }
    if let Some(lhs) = &node.lhs {
        if !has_valid_targets(lhs) {
            return false;
        }
    }
    if let Some(rhs) = &node.rhs {
        if !has_valid_targets(rhs) {
            return false;
        }
    }
    true
}

/// How many labels the code of `node` takes, if 64 bits hold the number.
fn count_labels(node: &Node) -> (count: Option<u64>)
    ensures
        match count {
            Some(count) => count == labels_in(node@),
            None => labels_in(node@) > u64::MAX,
        },
    decreases node,
{
    reveal_with_fuel(Node::tree, 2);
    let mut count: u64 = 0;
    if let TokenKind::If = node.kind {
        count = 1;
        if let Some(rhs) = &node.rhs {
            if let TokenKind::Else = rhs.kind {
                count = 2;
            }
        }
    }
    if let Some(lhs) = &node.lhs {
        count = match count_labels(lhs) {
            Some(inner) => match count.checked_add(inner) {
                Some(sum) => sum,
                None => return None,
            },
            None => return None,
        };
    }
    if let Some(rhs) = &node.rhs {
        count = match count_labels(rhs) {
            Some(inner) => match count.checked_add(inner) {
                Some(sum) => sum,
                None => return None,
            },
            None => return None,
        };
    }
    Some(count)
}

/// Pushes the address of the variable `node`. Fails, and appends nothing,
/// if `node` is no variable.
pub fn gen_lval(node: &Box<Node>, output: &mut String) -> (result: Result<(), CompileError>)
    ensures
        node@.kind is LocalVar ==> result is Ok && final(output)@ == old(output)@ + render(
            address_code(node@),
        ),
        !(node@.kind is LocalVar) ==> result is Err
            && result->Err_0@ == SpecError::InvalidAssignmentTarget && final(output)@ == old(output)@,
{
    if let TokenKind::LocalVar { offset, .. } = &node.kind {
        let ghost start = output@;
        emit(output, Instr::FrameAddress(*offset));
        emit(output, Instr::PushRax);
        proof {
            let code = address_code(node@);
            assert(code.drop_last() =~= seq![Instr::FrameAddress(*offset)]);
            assert(code.drop_last().drop_last() =~= Seq::<Instr>::empty());
            reveal_with_fuel(render, 3);
            assert(output@ =~= start + render(code));
        }
        Ok(())
    } else {
        Err(CompileError::InvalidAssignmentTarget)
    }
}

/// Appends `instr` behind the code `done`, whose text stands in `output`
/// behind `start`.
fn put(output: &mut String, instr: Instr, Ghost(start): Ghost<Seq<char>>, Ghost(done): Ghost<
    Seq<Instr>,
>)
    requires
        old(output)@ == start + render(done),
    ensures
        final(output)@ == start + render(done.push(instr)),
{
    emit(output, instr);
    proof {
        assert(done.push(instr).drop_last() =~= done);
        assert(output@ =~= start + render(done.push(instr)));
    }
}

/// Text that holds the code `done` and then the code `more` holds the code
/// of both in a row.
proof fn lemma_appended(start: Seq<char>, done: Seq<Instr>, more: Seq<Instr>, text: Seq<char>)
    requires
        text == start + render(done) + render(more),
    ensures
        text == start + render(done + more),
{
    lemma_render_concat(done, more);
    assert(start + render(done) + render(more) =~= start + (render(done) + render(more)));
}

/// A number or a variable has no operands, and its code no labels.
proof fn lemma_leaf(node: SpecNode)
    requires
        is_expr(node),
        node.kind is Num || node.kind is LocalVar,
    ensures
        node.lhs is None,
        node.rhs is None,
        labels_in(node) == 0,
{
}

/// The instruction of the operation `kind`.
fn operation_of(kind: &TokenKind) -> (instr: Instr)
    ensures
        instr == operation(kind@),
{
    match kind {
        TokenKind::Add => Instr::Add,
        TokenKind::Sub => Instr::Sub,
        TokenKind::Mul => Instr::Mul,
        TokenKind::Div => Instr::Div,
        TokenKind::Equal => Instr::SetEqual,
        TokenKind::NEqual => Instr::SetNotEqual,
        TokenKind::Less => Instr::SetLess,
        _ => Instr::SetLessOrEqual,
    }
}

/// Appends the code of the expression `node`, with labels from `*labels`
/// on, and moves `*labels` behind them.
fn gen_expr(node: &Node, output: &mut String, labels: &mut u64)
    requires
        is_expr(node@),
        targets_valid(node@),
        *old(labels) + labels_in(node@) <= u64::MAX,
    ensures
        final(output)@ == old(output)@ + render(code_of(node@, *old(labels))),
        *final(labels) == *old(labels) + labels_in(node@),
    decreases node,
{
    reveal_with_fuel(Node::tree, 2);
    let ghost start = output@;
    let ghost first = *labels;
    let ghost mut done = Seq::<Instr>::empty();
    assert(output@ =~= start + render(done));
    match (&node.lhs, &node.rhs) {
        (Some(lhs), Some(rhs)) => {
            if let TokenKind::Assign = node.kind {
                match gen_lval(lhs, output) {
                    Ok(()) => {},
                    Err(_) => {},
                }
                proof {
                    lemma_appended(start, done, address_code(lhs@), output@);
                    done = done + address_code(lhs@);
                }
            } else {
                gen_expr(lhs, output, labels);
                proof {
                    lemma_appended(start, done, code_of(lhs@, first), output@);
                    done = done + code_of(lhs@, first);
                }
            }
            let ghost second = *labels;
            gen_expr(rhs, output, labels);
            proof {
                lemma_appended(start, done, code_of(rhs@, second), output@);
                done = done + code_of(rhs@, second);
            }
            put(output, Instr::PopRdi, Ghost(start), Ghost(done));
            proof {
                done = done.push(Instr::PopRdi);
            }
            put(output, Instr::PopRax, Ghost(start), Ghost(done));
            proof {
                done = done.push(Instr::PopRax);
            }
            if let TokenKind::Assign = node.kind {
                put(output, Instr::Store, Ghost(start), Ghost(done));
                proof {
                    done = done.push(Instr::Store);
                }
                put(output, Instr::PushRdi, Ghost(start), Ghost(done));
                proof {
                    done = done.push(Instr::PushRdi);
                    lemma_leaf(lhs@);
                    assert(second == first);
                    assert(done =~= address_code(lhs@) + code_of(rhs@, second)
                        + seq![Instr::PopRdi, Instr::PopRax, Instr::Store, Instr::PushRdi]);
                    assert(done =~= code_of(node@, first));
                }
            } else {
                let instr = operation_of(&node.kind);
                put(output, instr, Ghost(start), Ghost(done));
                proof {
                    done = done.push(instr);
                }
                put(output, Instr::PushRax, Ghost(start), Ghost(done));
                proof {
                    done = done.push(Instr::PushRax);
                    assert(second == label_after(first, labels_in(lhs@)));
                    assert(done =~= code_of(lhs@, first) + code_of(rhs@, second)
                        + seq![Instr::PopRdi, Instr::PopRax, operation(node@.kind), Instr::PushRax]);
                    assert(done =~= code_of(node@, first));
                }
            }
        },
        _ => {
            match &node.kind {
                TokenKind::Num(num) => {
                    if *num < 0x8000_0000 {
                        put(output, Instr::Push(*num), Ghost(start), Ghost(done));
                        proof {
                            done = done.push(Instr::Push(*num));
                        }
                    } else {
                        put(output, Instr::Number(*num), Ghost(start), Ghost(done));
                        proof {
                            done = done.push(Instr::Number(*num));
                        }
                        put(output, Instr::PushRax, Ghost(start), Ghost(done));
                        proof {
                            done = done.push(Instr::PushRax);
                        }
                    }
                    proof {
                        assert(done =~= number_code(*num));
                        assert(done =~= code_of(node@, first));
                    }
                },
                TokenKind::LocalVar { offset, .. } => {
                    put(output, Instr::FrameAddress(*offset), Ghost(start), Ghost(done));
                    proof {
                        done = done.push(Instr::FrameAddress(*offset));
                    }
                    put(output, Instr::PushRax, Ghost(start), Ghost(done));
                    proof {
                        done = done.push(Instr::PushRax);
                    }
                    put(output, Instr::PopRax, Ghost(start), Ghost(done));
                    proof {
                        done = done.push(Instr::PopRax);
                    }
                    put(output, Instr::Load, Ghost(start), Ghost(done));
                    proof {
                        done = done.push(Instr::Load);
                    }
                    put(output, Instr::PushRax, Ghost(start), Ghost(done));
                    proof {
                        done = done.push(Instr::PushRax);
                        assert(done =~= code_of(node@, first));
                    }
                },
                _ => {},
            }
        },
    }
    assert(done =~= code_of(node@, first));
}

/// Appends the code of a conditional with both branches: the condition
/// `cond`, the statement `then` and the other statement `other` of `node`.
fn gen_if_else(
    node: &Node,
    cond: &Node,
    then: &Node,
    other: &Node,
    output: &mut String,
    labels: &mut u64,
)
    requires
        is_stmt(node@),
        has_else(node@),
        *node@.lhs->0 == cond@,
        *node@.rhs->0.lhs->0 == then@,
        *node@.rhs->0.rhs->0 == other@,
        targets_valid(node@),
        *old(labels) + labels_in(node@) <= u64::MAX,
    ensures
        final(output)@ == old(output)@ + render(code_of(node@, *old(labels))),
        *final(labels) == *old(labels) + labels_in(node@),
    decreases node@, 0nat,
{
    reveal_with_fuel(targets_valid, 2);
    reveal_with_fuel(labels_in, 2);
    reveal_with_fuel(is_stmt, 2);
    let ghost start = output@;
    let ghost first = *labels;
    let ghost mut done = Seq::<Instr>::empty();
    assert(output@ =~= start + render(done));
    let end_label: u64 = *labels;
    let other_label: u64 = end_label + 1;
    *labels = end_label + 2;
    let ghost cond_label = *labels;
    gen_expr(cond, output, labels);
    proof {
        lemma_appended(start, done, code_of(cond@, cond_label), output@);
        done = done + code_of(cond@, cond_label);
    }
    put(output, Instr::PopRax, Ghost(start), Ghost(done));
    proof {
        done = done.push(Instr::PopRax);
    }
    put(output, Instr::JumpIfZero(other_label), Ghost(start), Ghost(done));
    proof {
        done = done.push(Instr::JumpIfZero(other_label));
    }
    let ghost then_label = *labels;
    gen_stmt(then, output, labels);
    proof {
        lemma_appended(start, done, code_of(then@, then_label), output@);
        done = done + code_of(then@, then_label);
    }
    put(output, Instr::Jump(end_label), Ghost(start), Ghost(done));
    proof {
        done = done.push(Instr::Jump(end_label));
    }
    put(output, Instr::Label(other_label), Ghost(start), Ghost(done));
    proof {
        done = done.push(Instr::Label(other_label));
    }
    let ghost last_label = *labels;
    gen_stmt(other, output, labels);
    proof {
        lemma_appended(start, done, code_of(other@, last_label), output@);
        done = done + code_of(other@, last_label);
    }
    put(output, Instr::Label(end_label), Ghost(start), Ghost(done));
    proof {
        done = done.push(Instr::Label(end_label));
        assert(done =~= code_of(cond@, cond_label)
            + seq![Instr::PopRax, Instr::JumpIfZero(other_label)] + code_of(then@, then_label)
            + seq![Instr::Jump(end_label), Instr::Label(other_label)] + code_of(
            other@,
            last_label,
        ) + seq![Instr::Label(end_label)]);
        assert(done =~= code_of(node@, first));
    }
}

/// Appends the code of a conditional without `else`: the condition `cond`
/// and the statement `then` of `node`.
fn gen_if(node: &Node, cond: &Node, then: &Node, output: &mut String, labels: &mut u64)
    requires
        is_stmt(node@),
        node@.kind is If,
        !has_else(node@),
        *node@.lhs->0 == cond@,
        *node@.rhs->0 == then@,
        targets_valid(node@),
        *old(labels) + labels_in(node@) <= u64::MAX,
    ensures
        final(output)@ == old(output)@ + render(code_of(node@, *old(labels))),
        *final(labels) == *old(labels) + labels_in(node@),
    decreases node@, 0nat,
{
    let ghost start = output@;
    let ghost first = *labels;
    let ghost mut done = Seq::<Instr>::empty();
    assert(output@ =~= start + render(done));
    let end_label: u64 = *labels;
    *labels = end_label + 1;
    let ghost cond_label = *labels;
    gen_expr(cond, output, labels);
    proof {
        lemma_appended(start, done, code_of(cond@, cond_label), output@);
        done = done + code_of(cond@, cond_label);
    }
    put(output, Instr::PopRax, Ghost(start), Ghost(done));
    proof {
        done = done.push(Instr::PopRax);
    }
    put(output, Instr::JumpIfZero(end_label), Ghost(start), Ghost(done));
    proof {
        done = done.push(Instr::JumpIfZero(end_label));
    }
    let ghost then_label = *labels;
    gen_stmt(then, output, labels);
    proof {
        lemma_appended(start, done, code_of(then@, then_label), output@);
        done = done + code_of(then@, then_label);
    }
    put(output, Instr::PopRax, Ghost(start), Ghost(done));
    proof {
        done = done.push(Instr::PopRax);
    }
    put(output, Instr::Label(end_label), Ghost(start), Ghost(done));
    proof {
        done = done.push(Instr::Label(end_label));
    }
    put(output, Instr::PushRax, Ghost(start), Ghost(done));
    proof {
        done = done.push(Instr::PushRax);
        assert(done =~= code_of(cond@, cond_label)
            + seq![Instr::PopRax, Instr::JumpIfZero(end_label)] + code_of(then@, then_label)
            + seq![Instr::PopRax, Instr::Label(end_label), Instr::PushRax]);
        assert(done =~= code_of(node@, first));
    }
}

/// Appends the code of the statement `node`, with labels from `*labels`
/// on, and moves `*labels` behind them.
fn gen_stmt(node: &Node, output: &mut String, labels: &mut u64)
    requires
        is_stmt(node@),
        targets_valid(node@),
        *old(labels) + labels_in(node@) <= u64::MAX,
    ensures
        final(output)@ == old(output)@ + render(code_of(node@, *old(labels))),
        *final(labels) == *old(labels) + labels_in(node@),
    decreases node@, 1nat,
{
    reveal_with_fuel(Node::tree, 3);
    match (&node.kind, &node.lhs, &node.rhs) {
        (TokenKind::If, Some(cond), Some(rhs)) => {
            match (&rhs.kind, &rhs.lhs, &rhs.rhs) {
                (TokenKind::Else, Some(then), Some(other)) => {
                    gen_if_else(node, cond, then, other, output, labels);
                },
                _ => {
                    gen_if(node, cond, rhs, output, labels);
                },
            }
        },
        (TokenKind::Return, Some(value), None) => {
            let ghost start = output@;
            let ghost first = *labels;
            gen_expr(value, output, labels);
            let ghost done = code_of(value@, first);
            put(output, Instr::PopRax, Ghost(start), Ghost(done));
            put(output, Instr::Return, Ghost(start), Ghost(done.push(Instr::PopRax)));
            proof {
                assert(done.push(Instr::PopRax).push(Instr::Return) =~= code_of(node@, first));
            }
        },
        _ => {
            gen_expr(node, output, labels);
        },
    }
}

/// Appends the assembly text of the statement `node` to `output`. Its
/// labels are numbered from `*labels` on, and `*labels` is moved behind
/// them, so that no two conditionals of a program share a label.
///
/// Fails, and changes nothing, if the tree is no statement (see
/// [`Node::is_statement`]), if it assigns to something else than a
/// variable, or if 64 bits do not hold its labels.
///
/// No label stands twice in the new code, its labels are those from the
/// old counter up to the new one, and every jump in it goes to one of
/// them. So code that is appended call by call, with one counter that
/// starts at zero, never has a label twice: see
/// [`crate::semantics::lemma_gen_labels_apart`].
pub fn gen(node: &Box<Node>, output: &mut String, labels: &mut u64) -> (result: Result<
    (),
    CompileError,
>)
    ensures
        match gen_error(node@, *old(labels)) {
            Some(error) => result is Err && result->Err_0@ == error
                && final(output)@ == old(output)@ && *final(labels) == *old(labels),
            None => result is Ok && final(output)@ == old(output)@ + render(
                code_of(node@, *old(labels)),
            ) && *final(labels) == *old(labels) + labels_in(node@),
        },
        result is Ok ==> labels_unique(code_of(node@, *old(labels))) && labels_within(
            code_of(node@, *old(labels)),
            *old(labels) as int,
            *final(labels) as int,
        ) && lands_in(code_of(node@, *old(labels)), code_of(node@, *old(labels))),
{
    proof {
        if gen_error(node@, *labels) is None {
            lemma_code_labels(node@, *labels);
            lemma_code_jumps(node@, *labels);
        }
    }
    if !node.is_statement() {
        return Err(CompileError::FmtError);
    }
    if !has_valid_targets(node) {
        return Err(CompileError::InvalidAssignmentTarget);
    }
    let fits = match count_labels(node) {
        Some(count) => count <= u64::MAX - *labels,
        None => false,
    };
    if !fits {
        return Err(CompileError::FmtError);
    }
    gen_stmt(node, output, labels);
    Ok(())
}

/// The lines that open every program.
pub open spec fn header() -> Seq<char> {
    ".intel_syntax noprefix\n.globl main\nmain:\n"@
}

/// The bytes reserved for a frame of `variables` variables: eight for each,
/// and 208 at least.
pub open spec fn frame_size(variables: nat) -> u64 {
    if variables <= 26 {
        208
    } else {
        (8 * variables) as u64
    }
}

/// The frame holds every variable, and its size is an operand of 32 bits
/// that the machine takes for what it is: the largest offset, eight times the
/// number of variables, lies inside it.
pub proof fn lemma_frame_holds_variables(variables: nat)
    requires
        variables <= MAX_VARIABLES,
    ensures
        8 * variables <= frame_size(variables) < 0x8000_0000,
{
}

/// The code of the statements in a row, each followed by a pop of its
/// value. No label occurs twice: each statement takes its labels behind
/// those of the statements before it.
pub open spec fn statements_code(statements: Seq<SpecNode>) -> Seq<Instr>
    decreases statements.len(),
{
    if statements.len() == 0 {
        Seq::empty()
    } else {
        statements_code(statements.drop_last()) + code_of(
            statements.last(),
            label_after(0, labels_of(statements.drop_last())),
        ) + seq![Instr::PopRax]
    }
}

/// Why no code is generated for the statements, if so: the error of the
/// first one that has one.
pub open spec fn statements_error(statements: Seq<SpecNode>) -> Option<SpecError>
    decreases statements.len(),
{
    if statements.len() == 0 {
        None
    } else {
        match statements_error(statements.drop_last()) {
            Some(error) => Some(error),
            None => gen_error(
                statements.last(),
                label_after(0, labels_of(statements.drop_last())),
            ),
        }
    }
}

/// Statements whose labels 64 bits can number are not refused by the
/// generator but for an assignment.
pub proof fn lemma_labels_fit(statements: Seq<SpecNode>)
    requires
        are_statements(statements),
        labels_of(statements) <= u64::MAX,
    ensures
        statements_error(statements) != Some(SpecError::FmtError),
    decreases statements.len(),
{
    if statements.len() > 0 {
        assert forall|i: int| 0 <= i < statements.len() - 1 implies is_stmt(
            #[trigger] statements.drop_last()[i],
        ) by {
            assert(statements.drop_last()[i] == statements[i]);
        }
        assert(is_stmt(statements[statements.len() - 1]));
        lemma_labels_fit(statements.drop_last());
    }
}

/// The code of a whole program with `variables` variables: the frame is
/// set up, the statements run, and the value that the last one left in
/// `rax` is returned.
pub open spec fn program_code(statements: Seq<SpecNode>, variables: nat) -> Seq<Instr> {
    seq![Instr::Enter(frame_size(variables))] + statements_code(statements) + seq![Instr::Return]
}

/// The assembly text of the source `lines`, or the first error in it: of
/// the lexer, else of the parser, else of the generator.
pub open spec fn compile(lines: Seq<Seq<char>>) -> Result<Seq<char>, SpecError> {
    match lex(lines) {
        Err(error) => Err(error),
        Ok(state) => match parse_program(state.tokens, 0) {
            Parsed::Fail { error, .. } => Err(error),
            Parsed::Done { value: statements, .. } => match statements_error(statements) {
                Some(error) => Err(error),
                None => Ok(header() + render(program_code(statements, state.names.len()))),
            },
        },
    }
}

/// The bytes to reserve for a frame of `variables` variables.
fn frame_size_of(variables: u32) -> (size: u64)
    ensures
        size == frame_size(variables as nat),
{
    if variables <= 26 {
        208
    } else {
        8 * (variables as u64)
    }
}

/// Compiles the source `source`, given line by line, to assembly text.
///
/// The text declares and defines `main`: it sets up a frame for the
/// variables, runs the statements in order and returns the value of the
/// last one, or that of the first `return` that is reached.
///
/// Fails with the first error of the lexer, else of the parser, else with
/// an assignment to something else than a variable. It never fails for the
/// labels: a source has a token for each.
pub fn compile_from_source(source: Vec<String>) -> (result: Result<String, CompileError>)
    ensures
        match compile(source.deep_view()) {
            Ok(text) => result is Ok && result->Ok_0@ == text,
            Err(error) => result is Err && result->Err_0@ == error,
        },
        result is Err ==> !(result->Err_0@ is FmtError),
{
    let ghost lines = source.deep_view();
    proof {
        lemma_lex_errors(lines);
    }
    let (mut tokenstream, variables) = match tokenize(source) {
        Ok(lexed) => lexed,
        Err(error) => return Err(error),
    };
    proof {
        tokenstream.lemma_in_range();
        lemma_program_in_place(tokenstream.tokens(), 0);
    }
    let nodes = match program(&mut tokenstream) {
        Ok(nodes) => nodes,
        Err(error) => return Err(error),
    };
    let ghost statements = nodes.deep_view();
    proof {
        lemma_labels_fit(statements);
    }
    let mut output = String::new();
    push_text(&mut output, ".intel_syntax noprefix\n.globl main\nmain:\n");
    let ghost mut done = Seq::<Instr>::empty();
    assert(output@ =~= header() + render(done));
    put(&mut output, Instr::Enter(frame_size_of(variables)), Ghost(header()), Ghost(done));
    proof {
        done = done.push(Instr::Enter(frame_size(variables as nat)));
        assert(statements.take(0) =~= Seq::<SpecNode>::empty());
        assert(done =~= seq![Instr::Enter(frame_size(variables as nat))] + statements_code(
            statements.take(0),
        ));
    }
    let mut labels: u64 = 0;
    let mut i: usize = 0;
    let ghost whole = match statements_error(statements) {
        Some(error) => Err(error),
        None => Ok(header() + render(program_code(statements, variables as nat))),
    };
    assert(compile(lines) == whole);
    while i < nodes.len()
        invariant
            i <= nodes.len(),
            lines == source.deep_view(),
            compile(lines) == whole,
            statements_error(statements) != Some(SpecError::FmtError),
            whole == match statements_error(statements) {
                Some(error) => Err::<Seq<char>, SpecError>(error),
                None => Ok(header() + render(program_code(statements, variables as nat))),
            },
            statements == nodes.deep_view(),
            forall|k: int| 0 <= k < nodes.len() ==> is_stmt(#[trigger] nodes[k]@),
            statements_error(statements.take(i as int)) is None,
            labels == labels_of(statements.take(i as int)),
            output@ == header() + render(done),
            done == seq![Instr::Enter(frame_size(variables as nat))] + statements_code(
                statements.take(i as int),
            ),
        decreases nodes.len() - i,
    {
        let ghost before = statements.take(i as int);
        let ghost upto = statements.take(i + 1);
        proof {
            assert(upto.drop_last() =~= before);
            assert(upto.last() == nodes[i as int]@);
        }
        match gen(&nodes[i], &mut output, &mut labels) {
            Ok(()) => {},
            Err(error) => {
                proof {
                    lemma_error_stays(statements, (i + 1) as nat);
                }
                return Err(error);
            },
        }
        proof {
            lemma_appended(header(), done, code_of(nodes[i as int]@, labels_of(before) as u64), output@);
            done = done + code_of(nodes[i as int]@, labels_of(before) as u64);
        }
        put(&mut output, Instr::PopRax, Ghost(header()), Ghost(done));
        proof {
            done = done.push(Instr::PopRax);
            assert(done =~= seq![Instr::Enter(frame_size(variables as nat))] + statements_code(
                upto,
            ));
        }
        i += 1;
    }
    proof {
        assert(statements.take(nodes.len() as int) =~= statements);
    }
    put(&mut output, Instr::Return, Ghost(header()), Ghost(done));
    proof {
        done = done.push(Instr::Return);
        assert(done =~= program_code(statements, variables as nat));
    }
    Ok(output)
}

/// An error among the first statements is the error of the whole program.
proof fn lemma_error_stays(statements: Seq<SpecNode>, count: nat)
    requires
        count <= statements.len(),
        statements_error(statements.take(count as int)) is Some,
    ensures
        statements_error(statements) == statements_error(statements.take(count as int)),
    decreases statements.len() - count,
{
    if count < statements.len() {
        let more = statements.take(count + 1 as int);
        assert(more.drop_last() =~= statements.take(count as int));
        lemma_error_stays(statements, count + 1);
    } else {
        assert(statements.take(count as int) =~= statements);
    }
}

} // verus!
