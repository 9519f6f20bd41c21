//! What a program means, and that its code computes it.
//!
//! The meaning of a tree is given directly: a value and the memory behind
//! it, or a return from the program. The code of the tree is run on the
//! abstract machine. The two agree: running the code of a tree pushes the
//! tree's value and leaves the tree's memory, or returns the value that the
//! tree returns.

use crate::gen::{
    address_code, code_of, compile, frame_size, gen_error, header, label_after, operation,
    program_code, statements_code, statements_error,
};
use crate::grammar::{
    are_statements, has_else, is_binary, is_expr, is_stmt, labels_in, labels_of,
    lemma_program_in_place, parse_program, targets_valid, SpecNode,
};
use crate::lexer::lex;
use crate::machine::{
    compute, holds_at, labels_unique, lemma_jump, lemma_run_add, quotient, render, run,
    signed32, step, wrap, Config, Instr, Machine,
};
use crate::token::SpecKind;
use vstd::prelude::*;

verus! {

/// What evaluating a tree comes to.
pub enum Flow {
    /// The tree has the value `value`, and leaves the memory `memory`.
    Value { value: int, memory: Map<int, int> },
    /// The program returns `value`.
    Return { value: int },
    /// The program traps in a division, or the tree is none that a
    /// statement can have.
    Fault,
}

/// Where the variable of the offset `offset` lives in a frame at `base`:
/// so many bytes below the base. (An offset from 2^31 on, which no source
/// gives a variable, is one that the machine takes for the offset less
/// 2^32.)
pub open spec fn address(base: int, offset: u32) -> int {
    base - signed32(offset)
}

/// The meaning of the tree `node` in a frame at `base` over `memory`.
///
/// - A number is its value.
/// - A variable is what the memory holds at its offset below the base.
/// - An assignment is the value of its right operand, which it stores in
///   the variable on the left.
/// - An operation takes its left operand first, then its right one.
/// - `if` takes the statement if the condition is not zero, and the other
///   statement if it is. Without another statement it is zero then, and
///   nothing of the statement happens.
/// - `return` returns the value of its operand from the program.
pub open spec fn eval(node: SpecNode, base: int, memory: Map<int, int>) -> Flow
    decreases node,
{
    match (node.lhs, node.rhs) {
        (Some(lhs), Some(rhs)) => if node.kind is Assign {
            match eval(*rhs, base, memory) {
                Flow::Value { value, memory: after } => Flow::Value {
                    value,
                    memory: after.insert(address(base, lhs.kind->offset), value),
                },
                other => other,
            }
        } else if is_binary(node.kind) {
            match eval(*lhs, base, memory) {
                Flow::Value { value: a, memory: first } => match eval(*rhs, base, first) {
                    Flow::Value { value: b, memory: second } => match compute(
                        operation(node.kind),
                        a,
                        b,
                    ) {
                        Some(value) => Flow::Value { value, memory: second },
                        None => Flow::Fault,
                    },
                    other => other,
                },
                other => other,
            }
        } else if node.kind is If {
            match eval(*lhs, base, memory) {
                Flow::Value { value: cond, memory: first } => if rhs.kind is Else {
                    match (rhs.lhs, rhs.rhs) {
                        (Some(then), Some(other)) => if cond != 0 {
                            eval(*then, base, first)
                        } else {
                            eval(*other, base, first)
                        },
                        _ => Flow::Fault,
                    }
                } else if cond != 0 {
                    eval(*rhs, base, first)
                } else {
                    Flow::Value { value: 0, memory: first }
                },
                other => other,
            }
        } else {
            Flow::Fault
        },
        (Some(lhs), None) => if node.kind is Return {
            match eval(*lhs, base, memory) {
                Flow::Value { value, .. } => Flow::Return { value },
                other => other,
            }
        } else {
            Flow::Fault
        },
        _ => match node.kind {
            SpecKind::Num(num) => Flow::Value { value: num as int, memory },
            SpecKind::LocalVar { offset, .. } => Flow::Value {
                value: memory[address(base, offset)],
                memory,
            },
            _ => Flow::Fault,
        },
    }
}

/// Whether `config` is where code that starts on `machine` and ends at
/// `end` must stand for the meaning `flow`: behind the code, with the value
/// pushed and the memory as the meaning leaves it; or returned with the
/// value. Nothing is asked where the meaning is a fault.
pub open spec fn finished(config: Config, end: nat, machine: Machine, flow: Flow) -> bool {
    match flow {
        Flow::Value { value, memory } => config is Running && config->pc == end
            && config->machine.stack == machine.stack.push(value) && config->machine.memory
            == memory && config->machine.base == machine.base,
        Flow::Return { value } => config == (Config::Halted { value }),
        Flow::Fault => true,
    }
}

/// One more step from where `steps` steps have led.
proof fn lemma_run_step(code: Seq<Instr>, start: Config, steps: nat, pc: nat, machine: Machine)
    requires
        run(code, start, steps) == (Config::Running { pc, machine }),
    ensures
        run(code, start, steps + 1) == step(code, pc, machine),
{
    lemma_run_add(code, start, steps, 1);
    reveal_with_fuel(run, 2);
}

/// A part of a part of the code stands in the code.
proof fn lemma_holds_inner(
    code: Seq<Instr>,
    at: nat,
    part: Seq<Instr>,
    offset: nat,
    inner: Seq<Instr>,
)
    requires
        holds_at(code, at, part),
        offset + inner.len() <= part.len(),
        forall|k: int| 0 <= k < inner.len() ==> part[offset + k] == #[trigger] inner[k],
    ensures
        holds_at(code, at + offset, inner),
{
    assert forall|k: int| 0 <= k < inner.len() implies code[at + offset + k] == #[trigger] inner[k] by {
        assert(part[offset + k] == inner[k]);
    }
}

/// An expression is a statement.
proof fn lemma_expr_is_stmt(node: SpecNode)
    requires
        is_expr(node),
    ensures
        is_stmt(node),
{
}

/// The code of a number or a variable pushes its value.
proof fn lemma_leaf_runs(code: Seq<Instr>, at: nat, node: SpecNode, label: u64, machine: Machine)
    -> (steps: nat)
    requires
        is_expr(node),
        node.kind is Num || node.kind is LocalVar,
        holds_at(code, at, code_of(node, label)),
    ensures
        finished(
            run(code, Config::Running { pc: at, machine }, steps),
            at + code_of(node, label).len(),
            machine,
            eval(node, machine.base, machine.memory),
        ),
{
    let part = code_of(node, label);
    let start = Config::Running { pc: at, machine };
    assert(run(code, start, 0) == start);
    match node.kind {
        SpecKind::Num(num) => {
            if num < 0x8000_0000 {
                assert(part[0] == Instr::Push(num));
                lemma_run_step(code, start, 0, at, machine);
                1
            } else {
                assert(part[0] == Instr::Number(num));
                assert(part[1] == Instr::PushRax);
                lemma_run_step(code, start, 0, at, machine);
                let c1 = step(code, at, machine);
                lemma_run_step(code, start, 1, at + 1, c1->machine);
                2
            }
        },
        SpecKind::LocalVar { offset, .. } => {
            assert(part[0] == Instr::FrameAddress(offset));
            assert(part[1] == Instr::PushRax);
            assert(part[2] == Instr::PopRax);
            assert(part[3] == Instr::Load);
            assert(part[4] == Instr::PushRax);
            lemma_run_step(code, start, 0, at, machine);
            let c1 = step(code, at, machine);
            lemma_run_step(code, start, 1, at + 1, c1->machine);
            let c2 = step(code, at + 1, c1->machine);
            lemma_run_step(code, start, 2, at + 2, c2->machine);
            let c3 = step(code, at + 2, c2->machine);
            assert(c3->machine.stack =~= machine.stack);
            lemma_run_step(code, start, 3, at + 3, c3->machine);
            let c4 = step(code, at + 3, c3->machine);
            lemma_run_step(code, start, 4, at + 4, c4->machine);
            5
        },
        _ => 0,
    }
}

/// The code of an operation pushes what the operation makes of its
/// operands.
proof fn lemma_binary_runs(code: Seq<Instr>, at: nat, node: SpecNode, label: u64, machine: Machine)
    -> (steps: nat)
    requires
        is_expr(node),
        is_binary(node.kind),
        targets_valid(node),
        label + labels_in(node) <= u64::MAX,
        holds_at(code, at, code_of(node, label)),
        labels_unique(code),
    ensures
        finished(
            run(code, Config::Running { pc: at, machine }, steps),
            at + code_of(node, label).len(),
            machine,
            eval(node, machine.base, machine.memory),
        ),
    decreases node, 0nat,
{
    let lhs = *node.lhs->0;
    let rhs = *node.rhs->0;
    let part = code_of(node, label);
    let second = label_after(label, labels_in(lhs));
    let left = code_of(lhs, label);
    let right = code_of(rhs, second);
    let instr = operation(node.kind);
    let tail = seq![Instr::PopRdi, Instr::PopRax, instr, Instr::PushRax];
    assert(part == left + right + tail);
    let start = Config::Running { pc: at, machine };
    lemma_expr_is_stmt(lhs);
    lemma_expr_is_stmt(rhs);
    lemma_holds_inner(code, at, part, 0, left);
    let n1 = lemma_code_runs(code, at, lhs, label, machine);
    let c1 = run(code, start, n1);
    match eval(lhs, machine.base, machine.memory) {
        Flow::Value { value: a, memory: first } => {
            let at2 = at + left.len();
            lemma_holds_inner(code, at, part, left.len(), right);
            let n2 = lemma_code_runs(code, at2, rhs, second, c1->machine);
            lemma_run_add(code, start, n1, n2);
            let c2 = run(code, start, n1 + n2);
            match eval(rhs, machine.base, first) {
                Flow::Value { value: b, memory: after } => {
                    let at3 = at2 + right.len();
                    let offset: int = (left.len() + right.len()) as int;
                    assert(part[offset] == tail[0]);
                    assert(part[offset + 1] == tail[1]);
                    assert(part[offset + 2] == tail[2]);
                    assert(part[offset + 3] == tail[3]);
                    lemma_run_step(code, start, n1 + n2, at3, c2->machine);
                    let c3 = step(code, at3, c2->machine);
                    assert(c3->machine.stack =~= machine.stack.push(a));
                    lemma_run_step(code, start, n1 + n2 + 1, at3 + 1, c3->machine);
                    let c4 = step(code, at3 + 1, c3->machine);
                    assert(c4->machine.stack =~= machine.stack);
                    assert(c4->machine.rax == a && c4->machine.rdi == b);
                    match compute(instr, a, b) {
                        Some(value) => {
                            lemma_run_step(code, start, n1 + n2 + 2, at3 + 2, c4->machine);
                            let c5 = step(code, at3 + 2, c4->machine);
                            assert(c5->machine.rax == value);
                            lemma_run_step(code, start, n1 + n2 + 3, at3 + 3, c5->machine);
                            n1 + n2 + 4
                        },
                        None => 0,
                    }
                },
                _ => n1 + n2,
            }
        },
        _ => n1,
    }
}

/// The code of an assignment stores the value in the variable and pushes
/// it.
proof fn lemma_assign_runs(code: Seq<Instr>, at: nat, node: SpecNode, label: u64, machine: Machine)
    -> (steps: nat)
    requires
        is_expr(node),
        node.kind is Assign,
        targets_valid(node),
        label + labels_in(node) <= u64::MAX,
        holds_at(code, at, code_of(node, label)),
        labels_unique(code),
    ensures
        finished(
            run(code, Config::Running { pc: at, machine }, steps),
            at + code_of(node, label).len(),
            machine,
            eval(node, machine.base, machine.memory),
        ),
    decreases node, 0nat,
{
    let lhs = *node.lhs->0;
    let rhs = *node.rhs->0;
    let part = code_of(node, label);
    let second = label_after(label, labels_in(lhs));
    let right = code_of(rhs, second);
    let address = address(machine.base, lhs.kind->offset);
    let tail = seq![Instr::PopRdi, Instr::PopRax, Instr::Store, Instr::PushRdi];
    assert(part == address_code(lhs) + right + tail);
    let start = Config::Running { pc: at, machine };
    lemma_expr_is_stmt(rhs);
    assert(run(code, start, 0) == start);
    assert(part[0] == address_code(lhs)[0]);
    assert(part[1] == address_code(lhs)[1]);
    lemma_run_step(code, start, 0, at, machine);
    let c1 = step(code, at, machine);
    lemma_run_step(code, start, 1, at + 1, c1->machine);
    let c2 = step(code, at + 1, c1->machine);
    lemma_holds_inner(code, at, part, 2, right);
    let n = lemma_code_runs(code, at + 2, rhs, second, c2->machine);
    lemma_run_add(code, start, 2, n);
    let c3 = run(code, start, 2 + n);
    match eval(rhs, machine.base, machine.memory) {
        Flow::Value { value, memory: after } => {
            let at3 = at + 2 + right.len();
            let offset: int = (2 + right.len()) as int;
            assert(part[offset] == tail[0]);
            assert(part[offset + 1] == tail[1]);
            assert(part[offset + 2] == tail[2]);
            assert(part[offset + 3] == tail[3]);
            lemma_run_step(code, start, 2 + n, at3, c3->machine);
            let c4 = step(code, at3, c3->machine);
            assert(c4->machine.stack =~= machine.stack.push(address));
            lemma_run_step(code, start, 2 + n + 1, at3 + 1, c4->machine);
            let c5 = step(code, at3 + 1, c4->machine);
            assert(c5->machine.stack =~= machine.stack);
            lemma_run_step(code, start, 2 + n + 2, at3 + 2, c5->machine);
            let c6 = step(code, at3 + 2, c5->machine);
            lemma_run_step(code, start, 2 + n + 3, at3 + 3, c6->machine);
            2 + n + 4
        },
        _ => 2 + n,
    }
}

/// The code of `return` returns the value of its operand.
proof fn lemma_return_runs(code: Seq<Instr>, at: nat, node: SpecNode, label: u64, machine: Machine)
    -> (steps: nat)
    requires
        is_stmt(node),
        node.kind is Return,
        targets_valid(node),
        label + labels_in(node) <= u64::MAX,
        holds_at(code, at, code_of(node, label)),
        labels_unique(code),
    ensures
        finished(
            run(code, Config::Running { pc: at, machine }, steps),
            at + code_of(node, label).len(),
            machine,
            eval(node, machine.base, machine.memory),
        ),
    decreases node, 0nat,
{
    let value = *node.lhs->0;
    let part = code_of(node, label);
    let inner = code_of(value, label);
    let tail = seq![Instr::PopRax, Instr::Return];
    assert(part == inner + tail);
    let start = Config::Running { pc: at, machine };
    lemma_expr_is_stmt(value);
    lemma_holds_inner(code, at, part, 0, inner);
    let n = lemma_code_runs(code, at, value, label, machine);
    let c1 = run(code, start, n);
    match eval(value, machine.base, machine.memory) {
        Flow::Value { value: result, memory: after } => {
            let at2 = at + inner.len();
            let offset: int = inner.len() as int;
            assert(part[offset] == tail[0]);
            assert(part[offset + 1] == tail[1]);
            lemma_run_step(code, start, n, at2, c1->machine);
            let c2 = step(code, at2, c1->machine);
            lemma_run_step(code, start, n + 1, at2 + 1, c2->machine);
            n + 2
        },
        _ => n,
    }
}

/// The code of `if` without `else` runs the statement where the condition
/// is not zero, and pushes its value; else it skips the statement and
/// pushes zero.
proof fn lemma_if_runs(code: Seq<Instr>, at: nat, node: SpecNode, label: u64, machine: Machine)
    -> (steps: nat)
    requires
        is_stmt(node),
        node.kind is If,
        !has_else(node),
        targets_valid(node),
        label + labels_in(node) <= u64::MAX,
        holds_at(code, at, code_of(node, label)),
        labels_unique(code),
    ensures
        finished(
            run(code, Config::Running { pc: at, machine }, steps),
            at + code_of(node, label).len(),
            machine,
            eval(node, machine.base, machine.memory),
        ),
    decreases node, 0nat,
{
    let cond = *node.lhs->0;
    let then = *node.rhs->0;
    let part = code_of(node, label);
    let cond_label = label_after(label, 1);
    let then_label = label_after(label, 1 + labels_in(cond));
    let test = code_of(cond, cond_label);
    let body = code_of(then, then_label);
    let branch = seq![Instr::PopRax, Instr::JumpIfZero(label)];
    let tail = seq![Instr::PopRax, Instr::Label(label), Instr::PushRax];
    assert(part == test + branch + body + tail);
    let start = Config::Running { pc: at, machine };
    lemma_expr_is_stmt(cond);
    lemma_holds_inner(code, at, part, 0, test);
    let n1 = lemma_code_runs(code, at, cond, cond_label, machine);
    let c1 = run(code, start, n1);
    match eval(cond, machine.base, machine.memory) {
        Flow::Value { value: flag, memory: first } => {
            let at2 = at + test.len();
            let o2: int = test.len() as int;
            let o3: int = o2 + 2;
            let o4: int = o3 + body.len();
            assert(part[o2] == branch[0]);
            assert(part[o2 + 1] == branch[1]);
            assert(part[o4] == tail[0]);
            assert(part[o4 + 1] == tail[1]);
            assert(part[o4 + 2] == tail[2]);
            lemma_run_step(code, start, n1, at2, c1->machine);
            let c2 = step(code, at2, c1->machine);
            assert(c2->machine.stack =~= machine.stack);
            assert(c2->machine.rax == flag);
            lemma_run_step(code, start, n1 + 1, at2 + 1, c2->machine);
            let c3 = step(code, at2 + 1, c2->machine);
            if flag == 0 {
                let target = (at + o4 + 1) as nat;
                lemma_jump(code, target, label, c2->machine);
                assert(c3 == (Config::Running { pc: target, machine: c2->machine }));
                lemma_run_step(code, start, n1 + 2, target, c3->machine);
                let c4 = step(code, target, c3->machine);
                lemma_run_step(code, start, n1 + 3, target + 1, c4->machine);
                n1 + 4
            } else {
                let at3 = at2 + 2;
                assert(c3 == (Config::Running { pc: at3, machine: c2->machine }));
                lemma_holds_inner(code, at, part, o3 as nat, body);
                let n2 = lemma_code_runs(code, at3, then, then_label, c3->machine);
                lemma_run_add(code, start, n1 + 2, n2);
                let c4 = run(code, start, n1 + 2 + n2);
                match eval(then, machine.base, first) {
                    Flow::Value { value, memory: after } => {
                        let at4 = at3 + body.len();
                        lemma_run_step(code, start, n1 + 2 + n2, at4, c4->machine);
                        let c5 = step(code, at4, c4->machine);
                        assert(c5->machine.stack =~= machine.stack);
                        lemma_run_step(code, start, n1 + 2 + n2 + 1, at4 + 1, c5->machine);
                        let c6 = step(code, at4 + 1, c5->machine);
                        lemma_run_step(code, start, n1 + 2 + n2 + 2, at4 + 2, c6->machine);
                        n1 + 2 + n2 + 3
                    },
                    _ => n1 + 2 + n2,
                }
            }
        },
        _ => n1,
    }
}

/// The code of `if` with `else` runs the first statement where the
/// condition is not zero and the second where it is, and pushes the value
/// of the one that ran.
proof fn lemma_if_else_runs(
    code: Seq<Instr>,
    at: nat,
    node: SpecNode,
    label: u64,
    machine: Machine,
) -> (steps: nat)
    requires
        is_stmt(node),
        has_else(node),
        targets_valid(node),
        label + labels_in(node) <= u64::MAX,
        holds_at(code, at, code_of(node, label)),
        labels_unique(code),
    ensures
        finished(
            run(code, Config::Running { pc: at, machine }, steps),
            at + code_of(node, label).len(),
            machine,
            eval(node, machine.base, machine.memory),
        ),
    decreases node, 0nat,
{
    reveal_with_fuel(targets_valid, 2);
    reveal_with_fuel(labels_in, 2);
    let cond = *node.lhs->0;
    let then = *node.rhs->0.lhs->0;
    let other = *node.rhs->0.rhs->0;
    let part = code_of(node, label);
    let else_label = label_after(label, 1);
    let cond_label = label_after(label, 2);
    let then_label = label_after(label, 2 + labels_in(cond));
    let other_label = label_after(label, 2 + labels_in(cond) + labels_in(then));
    let test = code_of(cond, cond_label);
    let body = code_of(then, then_label);
    let rest = code_of(other, other_label);
    let branch = seq![Instr::PopRax, Instr::JumpIfZero(else_label)];
    let middle = seq![Instr::Jump(label), Instr::Label(else_label)];
    let tail = seq![Instr::Label(label)];
    assert(part == test + branch + body + middle + rest + tail);
    let start = Config::Running { pc: at, machine };
    lemma_expr_is_stmt(cond);
    lemma_holds_inner(code, at, part, 0, test);
    let n1 = lemma_code_runs(code, at, cond, cond_label, machine);
    let c1 = run(code, start, n1);
    match eval(cond, machine.base, machine.memory) {
        Flow::Value { value: flag, memory: first } => {
            let at2 = at + test.len();
            let o2: int = test.len() as int;
            let o3: int = o2 + 2;
            let o4: int = o3 + body.len();
            let o5: int = o4 + 2;
            let o6: int = o5 + rest.len();
            assert(part[o2] == branch[0]);
            assert(part[o2 + 1] == branch[1]);
            assert(part[o4] == middle[0]);
            assert(part[o4 + 1] == middle[1]);
            assert(part[o6] == tail[0]);
            lemma_run_step(code, start, n1, at2, c1->machine);
            let c2 = step(code, at2, c1->machine);
            assert(c2->machine.stack =~= machine.stack);
            assert(c2->machine.rax == flag);
            lemma_run_step(code, start, n1 + 1, at2 + 1, c2->machine);
            let c3 = step(code, at2 + 1, c2->machine);
            if flag == 0 {
                let target = (at + o4 + 1) as nat;
                lemma_jump(code, target, else_label, c2->machine);
                assert(c3 == (Config::Running { pc: target, machine: c2->machine }));
                lemma_run_step(code, start, n1 + 2, target, c3->machine);
                let c4 = step(code, target, c3->machine);
                let at5 = (at + o5) as nat;
                lemma_holds_inner(code, at, part, o5 as nat, rest);
                let n2 = lemma_code_runs(code, at5, other, other_label, c4->machine);
                lemma_run_add(code, start, n1 + 3, n2);
                let c5 = run(code, start, n1 + 3 + n2);
                match eval(other, machine.base, first) {
                    Flow::Value { value, memory: after } => {
                        let at6 = (at + o6) as nat;
                        lemma_run_step(code, start, n1 + 3 + n2, at6, c5->machine);
                        n1 + 3 + n2 + 1
                    },
                    _ => n1 + 3 + n2,
                }
            } else {
                let at3 = at2 + 2;
                assert(c3 == (Config::Running { pc: at3, machine: c2->machine }));
                lemma_holds_inner(code, at, part, o3 as nat, body);
                let n2 = lemma_code_runs(code, at3, then, then_label, c3->machine);
                lemma_run_add(code, start, n1 + 2, n2);
                let c4 = run(code, start, n1 + 2 + n2);
                match eval(then, machine.base, first) {
                    Flow::Value { value, memory: after } => {
                        let at4 = at3 + body.len();
                        let target = (at + o6) as nat;
                        lemma_jump(code, target, label, c4->machine);
                        lemma_run_step(code, start, n1 + 2 + n2, at4, c4->machine);
                        let c5 = step(code, at4, c4->machine);
                        assert(c5 == (Config::Running { pc: target, machine: c4->machine }));
                        lemma_run_step(code, start, n1 + 2 + n2 + 1, target, c5->machine);
                        n1 + 2 + n2 + 2
                    },
                    _ => n1 + 2 + n2,
                }
            }
        },
        _ => n1,
    }
}

/// The code of a tree computes what the tree means. Let `code` hold the
/// code of the statement `node` from `at` on, with no label twice. Then the
/// machine that starts there comes, after some steps, to stand behind that
/// code with the value of `node` pushed and the memory as `node` leaves
/// it; or, where `node` returns, it has returned that value.
pub proof fn lemma_code_runs(code: Seq<Instr>, at: nat, node: SpecNode, label: u64, machine: Machine)
    -> (steps: nat)
    requires
        is_stmt(node),
        targets_valid(node),
        label + labels_in(node) <= u64::MAX,
        holds_at(code, at, code_of(node, label)),
        labels_unique(code),
    ensures
        finished(
            run(code, Config::Running { pc: at, machine }, steps),
            at + code_of(node, label).len(),
            machine,
            eval(node, machine.base, machine.memory),
        ),
    decreases node, 1nat,
{
    if node.kind is Num || node.kind is LocalVar {
        lemma_leaf_runs(code, at, node, label, machine)
    } else if node.kind is Assign {
        lemma_assign_runs(code, at, node, label, machine)
    } else if is_binary(node.kind) {
        lemma_binary_runs(code, at, node, label, machine)
    } else if node.kind is Return {
        lemma_return_runs(code, at, node, label, machine)
    } else if has_else(node) {
        lemma_if_else_runs(code, at, node, label, machine)
    } else {
        lemma_if_runs(code, at, node, label, machine)
    }
}

/// Whether the label `label` stands in `code`.
pub open spec fn has_label(code: Seq<Instr>, label: u64) -> bool {
    code.contains(Instr::Label(label))
}

/// Whether every label of `code` has a number from `low` up to, and
/// without, `high`.
pub open spec fn labels_within(code: Seq<Instr>, low: int, high: int) -> bool {
    forall|label: u64| #[trigger] has_label(code, label) ==> low <= label < high
}

/// Two codes without a label twice, whose labels lie in ranges apart from
/// each other, have no label twice when put in a row; the labels lie in
/// the range over both.
proof fn lemma_concat_labels(
    first: Seq<Instr>,
    low: int,
    middle: int,
    second: Seq<Instr>,
    from: int,
    high: int,
)
    requires
        labels_unique(first),
        labels_within(first, low, middle),
        labels_unique(second),
        labels_within(second, from, high),
        middle <= from || high <= low,
    ensures
        labels_unique(first + second),
        labels_within(
            first + second,
            if low <= from {
                low
            } else {
                from
            },
            if middle <= high {
                high
            } else {
                middle
            },
        ),
{
    let both = first + second;
    assert forall|i: int, j: int|
        0 <= i < both.len() && 0 <= j < both.len() && both[i] is Label && #[trigger] both[i]
            == #[trigger] both[j] implies i == j by {
        let label = both[i]->Label_0;
        if i < first.len() {
            assert(first[i] == Instr::Label(label));
            assert(has_label(first, label));
            if j >= first.len() {
                assert(second[j - first.len()] == Instr::Label(label));
                assert(has_label(second, label));
            }
        } else {
            assert(second[i - first.len()] == Instr::Label(label));
            assert(has_label(second, label));
            if j < first.len() {
                assert(first[j] == Instr::Label(label));
                assert(has_label(first, label));
            }
        }
    }
    assert forall|label: u64| #[trigger] has_label(both, label) implies has_label(first, label)
        || has_label(second, label) by {
        let k = choose|k: int| 0 <= k < both.len() && both[k] == Instr::Label(label);
        if k < first.len() {
            assert(first[k] == Instr::Label(label));
        } else {
            assert(second[k - first.len()] == Instr::Label(label));
        }
    }
}

/// Code without a label has no label twice, and its labels lie in every
/// range.
proof fn lemma_no_labels(code: Seq<Instr>, low: int, high: int)
    requires
        forall|k: int| 0 <= k < code.len() ==> !((#[trigger] code[k]) is Label),
    ensures
        labels_unique(code),
        labels_within(code, low, high),
{
}

/// Code with the one label `label`, between instructions that are none,
/// has no label twice, and its labels lie in the range of that one.
proof fn lemma_one_label(label: u64, before: Seq<Instr>, behind: Seq<Instr>)
    requires
        forall|k: int| 0 <= k < before.len() ==> !((#[trigger] before[k]) is Label),
        forall|k: int| 0 <= k < behind.len() ==> !((#[trigger] behind[k]) is Label),
    ensures
        labels_unique(before + seq![Instr::Label(label)] + behind),
        labels_within(before + seq![Instr::Label(label)] + behind, label as int, label + 1),
{
    let code = before + seq![Instr::Label(label)] + behind;
    assert forall|k: int| 0 <= k < code.len() && (#[trigger] code[k]) is Label implies k
        == before.len() by {
        if k < before.len() {
            assert(code[k] == before[k]);
        } else if k > before.len() {
            assert(code[k] == behind[k - before.len() - 1]);
        }
    }
    assert forall|other: u64| #[trigger] has_label(code, other) implies other == label by {
        let k = choose|k: int| 0 <= k < code.len() && code[k] == Instr::Label(other);
        assert(code[k] is Label);
    }
}

/// The labels of an operation, an assignment or a `return`: those of the
/// operands.
proof fn lemma_expr_labels(node: SpecNode, label: u64)
    requires
        is_stmt(node),
        !(node.kind is If),
        label + labels_in(node) <= u64::MAX,
    ensures
        labels_unique(code_of(node, label)),
        labels_within(code_of(node, label), label as int, label + labels_in(node)),
    decreases node, 0nat,
{
    let part = code_of(node, label);
    let high = label + labels_in(node);
    if node.kind is Num || node.kind is LocalVar {
        lemma_no_labels(part, label as int, high);
    } else if node.kind is Assign {
        let lhs = *node.lhs->0;
        let rhs = *node.rhs->0;
        let second = label_after(label, labels_in(lhs));
        let right = code_of(rhs, second);
        let tail = seq![Instr::PopRdi, Instr::PopRax, Instr::Store, Instr::PushRdi];
        lemma_expr_is_stmt(rhs);
        lemma_code_labels(rhs, second);
        lemma_no_labels(address_code(lhs), label as int, second as int);
        lemma_no_labels(tail, high, high);
        lemma_concat_labels(address_code(lhs), label as int, second as int, right, second as int, high);
        lemma_concat_labels(address_code(lhs) + right, label as int, high, tail, high, high);
    } else if is_binary(node.kind) {
        let lhs = *node.lhs->0;
        let rhs = *node.rhs->0;
        let second = label_after(label, labels_in(lhs));
        let left = code_of(lhs, label);
        let right = code_of(rhs, second);
        let tail = seq![Instr::PopRdi, Instr::PopRax, operation(node.kind), Instr::PushRax];
        lemma_expr_is_stmt(lhs);
        lemma_expr_is_stmt(rhs);
        lemma_code_labels(lhs, label);
        lemma_code_labels(rhs, second);
        lemma_no_labels(tail, high, high);
        lemma_concat_labels(left, label as int, second as int, right, second as int, high);
        lemma_concat_labels(left + right, label as int, high, tail, high, high);
    } else {
        let value = *node.lhs->0;
        let inner = code_of(value, label);
        let tail = seq![Instr::PopRax, Instr::Return];
        lemma_expr_is_stmt(value);
        lemma_code_labels(value, label);
        lemma_no_labels(tail, high, high);
        lemma_concat_labels(inner, label as int, high, tail, high, high);
    }
}

/// The labels of `if` without `else`: its own at the end, and those of the
/// condition and the statement.
proof fn lemma_if_labels(node: SpecNode, label: u64)
    requires
        is_stmt(node),
        node.kind is If,
        !has_else(node),
        label + labels_in(node) <= u64::MAX,
    ensures
        labels_unique(code_of(node, label)),
        labels_within(code_of(node, label), label as int, label + labels_in(node)),
    decreases node, 0nat,
{
    let high = label + labels_in(node);
    let cond = *node.lhs->0;
    let then = *node.rhs->0;
    let cond_label = label_after(label, 1);
    let then_label = label_after(label, 1 + labels_in(cond));
    let test = code_of(cond, cond_label);
    let body = code_of(then, then_label);
    let branch = seq![Instr::PopRax, Instr::JumpIfZero(label)];
    let tail = seq![Instr::PopRax, Instr::Label(label), Instr::PushRax];
    lemma_expr_is_stmt(cond);
    lemma_code_labels(cond, cond_label);
    lemma_code_labels(then, then_label);
    lemma_no_labels(branch, then_label as int, then_label as int);
    lemma_one_label(label, seq![Instr::PopRax], seq![Instr::PushRax]);
    assert(seq![Instr::PopRax] + seq![Instr::Label(label)] + seq![Instr::PushRax] =~= tail);
    lemma_concat_labels(
        test,
        cond_label as int,
        then_label as int,
        branch,
        then_label as int,
        then_label as int,
    );
    lemma_concat_labels(
        test + branch,
        cond_label as int,
        then_label as int,
        body,
        then_label as int,
        high,
    );
    lemma_concat_labels(test + branch + body, cond_label as int, high, tail, label as int, label + 1);
}

/// The labels of `if` with `else`: its own two, and those of the condition
/// and the two statements.
proof fn lemma_if_else_labels(node: SpecNode, label: u64)
    requires
        is_stmt(node),
        has_else(node),
        label + labels_in(node) <= u64::MAX,
    ensures
        labels_unique(code_of(node, label)),
        labels_within(code_of(node, label), label as int, label + labels_in(node)),
    decreases node, 0nat,
{
    reveal_with_fuel(labels_in, 2);
    let high = label + labels_in(node);
    let cond = *node.lhs->0;
    let then = *node.rhs->0.lhs->0;
    let other = *node.rhs->0.rhs->0;
    let else_label = label_after(label, 1);
    let cond_label = label_after(label, 2);
    let then_label = label_after(label, 2 + labels_in(cond));
    let other_label = label_after(label, 2 + labels_in(cond) + labels_in(then));
    let test = code_of(cond, cond_label);
    let body = code_of(then, then_label);
    let rest = code_of(other, other_label);
    let branch = seq![Instr::PopRax, Instr::JumpIfZero(else_label)];
    let middle = seq![Instr::Jump(label), Instr::Label(else_label)];
    let tail = seq![Instr::Label(label)];
    lemma_expr_is_stmt(cond);
    lemma_code_labels(cond, cond_label);
    lemma_code_labels(then, then_label);
    lemma_code_labels(other, other_label);
    lemma_no_labels(branch, then_label as int, then_label as int);
    lemma_one_label(else_label, seq![Instr::Jump(label)], Seq::empty());
    assert(seq![Instr::Jump(label)] + seq![Instr::Label(else_label)] + Seq::<Instr>::empty()
        =~= middle);
    lemma_one_label(label, Seq::empty(), Seq::empty());
    assert(Seq::<Instr>::empty() + seq![Instr::Label(label)] + Seq::<Instr>::empty() =~= tail);
    lemma_concat_labels(
        test,
        cond_label as int,
        then_label as int,
        branch,
        then_label as int,
        then_label as int,
    );
    lemma_concat_labels(
        test + branch,
        cond_label as int,
        then_label as int,
        body,
        then_label as int,
        other_label as int,
    );
    lemma_concat_labels(
        test + branch + body,
        cond_label as int,
        other_label as int,
        middle,
        else_label as int,
        else_label + 1,
    );
    lemma_concat_labels(
        test + branch + body + middle,
        else_label as int,
        other_label as int,
        rest,
        other_label as int,
        high,
    );
    lemma_concat_labels(
        test + branch + body + middle + rest,
        else_label as int,
        high,
        tail,
        label as int,
        label + 1,
    );
}

/// No label stands twice in the code of a tree, and its labels are those
/// from `label` on that the tree takes: no two conditionals share one.
pub proof fn lemma_code_labels(node: SpecNode, label: u64)
    requires
        is_stmt(node),
        label + labels_in(node) <= u64::MAX,
    ensures
        labels_unique(code_of(node, label)),
        labels_within(code_of(node, label), label as int, label + labels_in(node)),
    decreases node, 1nat,
{
    if has_else(node) {
        lemma_if_else_labels(node, label);
    } else if node.kind is If {
        lemma_if_labels(node, label);
    } else {
        lemma_expr_labels(node, label);
    }
}

/// The meaning of statements in a row, in a frame at `base` over `memory`,
/// with `rax` in the register of that name: the value of the last one and
/// the memory behind it, or the first return. Without statements the value
/// is what the register held.
pub open spec fn eval_statements(
    statements: Seq<SpecNode>,
    base: int,
    memory: Map<int, int>,
    rax: int,
) -> Flow
    decreases statements.len(),
{
    if statements.len() == 0 {
        Flow::Value { value: rax, memory }
    } else {
        match eval_statements(statements.drop_last(), base, memory, rax) {
            Flow::Value { memory: before, .. } => eval(statements.last(), base, before),
            other => other,
        }
    }
}

/// Whether `config` is where the code of statements that starts on
/// `machine` and ends at `end` must stand for the meaning `flow`: behind
/// the code, with the stack as it was, the value in `rax` and the memory as
/// the meaning leaves it; or returned with the value.
pub open spec fn settled(config: Config, end: nat, machine: Machine, flow: Flow) -> bool {
    match flow {
        Flow::Value { value, memory } => config is Running && config->pc == end
            && config->machine.stack == machine.stack && config->machine.rax == value
            && config->machine.memory == memory && config->machine.base == machine.base,
        Flow::Return { value } => config == (Config::Halted { value }),
        Flow::Fault => true,
    }
}

/// Trees for which code is generated are statements that assign to
/// variables only, and 64 bits hold their labels.
pub proof fn lemma_statements_valid(statements: Seq<SpecNode>)
    requires
        statements_error(statements) is None,
    ensures
        are_statements(statements),
        labels_of(statements) <= u64::MAX,
        forall|i: int| 0 <= i < statements.len() ==> targets_valid(#[trigger] statements[i]),
    decreases statements.len(),
{
    if statements.len() > 0 {
        lemma_statements_valid(statements.drop_last());
        assert forall|i: int| 0 <= i < statements.len() implies targets_valid(
            #[trigger] statements[i],
        ) && is_stmt(statements[i]) by {
            if i < statements.len() - 1 {
                assert(statements.drop_last()[i] == statements[i]);
            }
        }
    }
}

/// No label stands twice in the code of statements in a row.
pub proof fn lemma_statements_labels(statements: Seq<SpecNode>)
    requires
        statements_error(statements) is None,
    ensures
        labels_unique(statements_code(statements)),
        labels_within(statements_code(statements), 0, labels_of(statements) as int),
    decreases statements.len(),
{
    lemma_statements_valid(statements);
    if statements.len() == 0 {
        lemma_no_labels(statements_code(statements), 0, 0);
    } else {
        let before = statements.drop_last();
        let last = statements.last();
        assert forall|i: int| 0 <= i < before.len() implies is_stmt(#[trigger] before[i]) by {
            assert(before[i] == statements[i]);
        }
        lemma_statements_valid(before);
        lemma_statements_labels(before);
        let label = label_after(0, labels_of(before));
        let high = labels_of(statements) as int;
        lemma_code_labels(last, label);
        lemma_no_labels(seq![Instr::PopRax], high, high);
        lemma_concat_labels(
            statements_code(before),
            0,
            label as int,
            code_of(last, label),
            label as int,
            high,
        );
        lemma_concat_labels(
            statements_code(before) + code_of(last, label),
            0,
            high,
            seq![Instr::PopRax],
            high,
            high,
        );
    }
}

/// The code of statements in a row computes what they mean, and leaves the
/// stack as it found it: every statement pushes one value, which is popped
/// behind it.
pub proof fn lemma_statements_run(
    code: Seq<Instr>,
    at: nat,
    statements: Seq<SpecNode>,
    machine: Machine,
) -> (steps: nat)
    requires
        statements_error(statements) is None,
        holds_at(code, at, statements_code(statements)),
        labels_unique(code),
    ensures
        settled(
            run(code, Config::Running { pc: at, machine }, steps),
            at + statements_code(statements).len(),
            machine,
            eval_statements(statements, machine.base, machine.memory, machine.rax),
        ),
    decreases statements.len(),
{
    lemma_statements_valid(statements);
    let start = Config::Running { pc: at, machine };
    if statements.len() == 0 {
        assert(run(code, start, 0) == start);
        0
    } else {
        let before = statements.drop_last();
        let last = statements.last();
        let label = label_after(0, labels_of(before));
        let part = statements_code(statements);
        let first = statements_code(before);
        let inner = code_of(last, label);
        assert(part == first + inner + seq![Instr::PopRax]);
        assert forall|i: int| 0 <= i < before.len() implies is_stmt(#[trigger] before[i]) by {
            assert(before[i] == statements[i]);
        }
        lemma_statements_valid(before);
        lemma_holds_inner(code, at, part, 0, first);
        let n1 = lemma_statements_run(code, at, before, machine);
        let c1 = run(code, start, n1);
        match eval_statements(before, machine.base, machine.memory, machine.rax) {
            Flow::Value { value: _, memory: middle } => {
                let at2 = at + first.len();
                lemma_holds_inner(code, at, part, first.len(), inner);
                let n2 = lemma_code_runs(code, at2, last, label, c1->machine);
                lemma_run_add(code, start, n1, n2);
                let c2 = run(code, start, n1 + n2);
                match eval(last, machine.base, middle) {
                    Flow::Value { value, memory: after } => {
                        let at3 = at2 + inner.len();
                        let offset: int = (first.len() + inner.len()) as int;
                        assert(part[offset] == Instr::PopRax);
                        lemma_run_step(code, start, n1 + n2, at3, c2->machine);
                        let c3 = step(code, at3, c2->machine);
                        assert(c3->machine.stack =~= machine.stack);
                        n1 + n2 + 1
                    },
                    _ => n1 + n2,
                }
            },
            _ => n1,
        }
    }
}

/// What a program gives back: the value of its last statement, or the one
/// that it returns. A fault gives nothing.
pub open spec fn outcome(flow: Flow) -> Option<int> {
    match flow {
        Flow::Value { value, .. } => Some(value),
        Flow::Return { value } => Some(value),
        Flow::Fault => None,
    }
}

/// No label stands twice in the code of a program: conditionals, however
/// many a program has, do not share their labels.
pub proof fn lemma_program_labels(statements: Seq<SpecNode>, variables: nat)
    requires
        statements_error(statements) is None,
    ensures
        labels_unique(program_code(statements, variables)),
{
    lemma_statements_valid(statements);
    let high = labels_of(statements) as int;
    let enter = seq![Instr::Enter(frame_size(variables))];
    lemma_statements_labels(statements);
    lemma_no_labels(enter, 0, 0);
    lemma_no_labels(seq![Instr::Return], high, high);
    lemma_concat_labels(enter, 0, 0, statements_code(statements), 0, high);
    lemma_concat_labels(enter + statements_code(statements), 0, high, seq![Instr::Return], high, high);
}

/// The code of a program computes what the program means: run from its
/// first instruction, it returns the value of the last statement, or the
/// value of the first `return` that is reached. This holds of every machine
/// to start from, and of every program whose meaning is no fault.
pub proof fn lemma_program_runs(statements: Seq<SpecNode>, variables: nat, machine: Machine)
    -> (steps: nat)
    requires
        statements_error(statements) is None,
        outcome(eval_statements(statements, machine.base, machine.memory, machine.rax)) is Some,
    ensures
        run(program_code(statements, variables), Config::Running { pc: 0, machine }, steps) == (
        Config::Halted {
            value: outcome(
                eval_statements(statements, machine.base, machine.memory, machine.rax),
            )->0,
        }),
{
    lemma_statements_valid(statements);
    let code = program_code(statements, variables);
    let inner = statements_code(statements);
    let start = Config::Running { pc: 0, machine };
    lemma_program_labels(statements, variables);
    assert(run(code, start, 0) == start);
    assert(code[0] == Instr::Enter(frame_size(variables)));
    lemma_run_step(code, start, 0, 0, machine);
    assert forall|k: int| 0 <= k < inner.len() implies code[1 + k] == #[trigger] inner[k] by {}
    assert(holds_at(code, 1, inner));
    let n = lemma_statements_run(code, 1, statements, machine);
    lemma_run_add(code, start, 1, n);
    let c = run(code, start, 1 + n);
    match eval_statements(statements, machine.base, machine.memory, machine.rax) {
        Flow::Value { value, memory } => {
            assert(code[(1 + inner.len()) as int] == Instr::Return);
            lemma_run_step(code, start, 1 + n, 1 + inner.len(), c->machine);
            1 + n + 1
        },
        _ => 1 + n,
    }
}

/// Whether `node` is made of numbers and `+ - * /` alone.
pub open spec fn is_arithmetic(node: SpecNode) -> bool
    decreases node,
{
    if node.kind is Num {
        node.lhs is None && node.rhs is None
    } else if node.kind is Add || node.kind is Sub || node.kind is Mul || node.kind is Div {
        match (node.lhs, node.rhs) {
            (Some(lhs), Some(rhs)) => is_arithmetic(*lhs) && is_arithmetic(*rhs),
            _ => false,
        }
    } else {
        false
    }
}

/// Whether 64 bits hold `value` as a signed integer.
pub open spec fn fits(value: int) -> bool {
    -0x8000_0000_0000_0000 <= value < 0x8000_0000_0000_0000
}

/// The value of an expression of numbers and `+ - * /` in the arithmetic
/// of the integers, where a quotient is rounded towards zero. There is
/// none where the expression divides by zero, or where 64 bits do not hold
/// the value of a part of it.
pub open spec fn arithmetic_value(node: SpecNode) -> Option<int>
    decreases node,
{
    match (node.kind, node.lhs, node.rhs) {
        (SpecKind::Num(num), _, _) => Some(num as int),
        (kind, Some(lhs), Some(rhs)) => match (arithmetic_value(*lhs), arithmetic_value(*rhs)) {
            (Some(a), Some(b)) => {
                let value = match kind {
                    SpecKind::Add => a + b,
                    SpecKind::Sub => a - b,
                    SpecKind::Mul => a * b,
                    _ => quotient(a, b),
                };
                if (kind is Div && b == 0) || !fits(value) {
                    None
                } else {
                    Some(value)
                }
            },
            _ => None,
        },
        _ => None,
    }
}

/// An expression of numbers and `+ - * /` means its value in the
/// arithmetic of the integers, and leaves the memory as it is.
pub proof fn lemma_arithmetic_means(node: SpecNode, base: int, memory: Map<int, int>)
    requires
        is_arithmetic(node),
        arithmetic_value(node) is Some,
    ensures
        is_expr(node),
        targets_valid(node),
        labels_in(node) == 0,
        fits(arithmetic_value(node)->0),
        eval(node, base, memory) == (Flow::Value { value: arithmetic_value(node)->0, memory }),
    decreases node,
{
    if !(node.kind is Num) {
        let lhs = *node.lhs->0;
        let rhs = *node.rhs->0;
        lemma_arithmetic_means(lhs, base, memory);
        lemma_arithmetic_means(rhs, base, memory);
        let a = arithmetic_value(lhs)->0;
        let b = arithmetic_value(rhs)->0;
        let value = arithmetic_value(node)->0;
        assert(wrap(value) == value);
        if node.kind is Div {
            assert(!(a == -0x8000_0000_0000_0000 && b == -1)) by {
                if a == -0x8000_0000_0000_0000 && b == -1 {
                    vstd::arithmetic::div_mod::lemma_div_basics_2(-a);
                    assert(quotient(a, b) == 0x8000_0000_0000_0000);
                }
            }
        }
    }
}

/// A program that is one expression of numbers and `+ - * /` returns the
/// value that the expression has in the arithmetic of the integers, with
/// quotients rounded towards zero: operators bind and group as the tree
/// says, and operands are taken from left to right.
pub proof fn lemma_arithmetic_runs(node: SpecNode, variables: nat, machine: Machine) -> (steps:
    nat)
    requires
        is_arithmetic(node),
        arithmetic_value(node) is Some,
    ensures
        run(program_code(seq![node], variables), Config::Running { pc: 0, machine }, steps) == (
        Config::Halted { value: arithmetic_value(node)->0 }),
{
    let statements = seq![node];
    lemma_arithmetic_means(node, machine.base, machine.memory);
    lemma_expr_is_stmt(node);
    assert(statements.drop_last() =~= Seq::<SpecNode>::empty());
    assert(statements.last() == node);
    reveal_with_fuel(statements_error, 2);
    reveal_with_fuel(labels_of, 2);
    reveal_with_fuel(eval_statements, 2);
    assert(statements_error(statements) is None);
    lemma_program_runs(statements, variables, machine)
}

/// What is assigned to a variable is what the variable then holds: the
/// statements `x = e; x;` have the value of `e`.
pub proof fn lemma_assignment_round_trip(
    variable: SpecNode,
    value: SpecNode,
    base: int,
    memory: Map<int, int>,
    rax: int,
)
    requires
        variable.kind is LocalVar,
        variable.lhs is None,
        variable.rhs is None,
        eval(value, base, memory) is Value,
    ensures
        outcome(
            eval_statements(
                seq![SpecNode::op(SpecKind::Assign, variable, value), variable],
                base,
                memory,
                rax,
            ),
        ) == Some(eval(value, base, memory)->Value_value),
{
    let assignment = SpecNode::op(SpecKind::Assign, variable, value);
    let statements = seq![assignment, variable];
    let first = statements.drop_last();
    assert(first =~= seq![assignment]);
    assert(first.drop_last() =~= Seq::<SpecNode>::empty());
    assert(first.last() == assignment);
    assert(statements.last() == variable);
    reveal_with_fuel(eval_statements, 3);
    let stored = eval(value, base, memory);
    assert(eval(assignment, base, memory) == (Flow::Value {
        value: stored->Value_value,
        memory: stored->Value_memory.insert(
            address(base, variable.kind->offset),
            stored->Value_value,
        ),
    }));
}

/// Whether `kind` compares two values.
pub open spec fn is_comparison(kind: SpecKind) -> bool {
    kind is Equal || kind is NEqual || kind is Less || kind is LessOrEqual
}

/// The code of a comparison pushes one or zero, and nothing else.
pub proof fn lemma_comparison_runs(
    code: Seq<Instr>,
    at: nat,
    node: SpecNode,
    label: u64,
    machine: Machine,
) -> (steps: nat)
    requires
        is_expr(node),
        is_comparison(node.kind),
        targets_valid(node),
        label + labels_in(node) <= u64::MAX,
        holds_at(code, at, code_of(node, label)),
        labels_unique(code),
        eval(node, machine.base, machine.memory) is Value,
    ensures
        ({
            let config = run(code, Config::Running { pc: at, machine }, steps);
            &&& config is Running
            &&& config->pc == at + code_of(node, label).len()
            &&& config->machine.stack == machine.stack.push(0) || config->machine.stack
                == machine.stack.push(1)
        }),
{
    lemma_expr_is_stmt(node);
    lemma_code_runs(code, at, node, label, machine)
}

/// The code of `if` without `else`, where the condition is zero, does
/// nothing of the statement: it pushes zero, and leaves the memory as the
/// condition left it.
pub proof fn lemma_untaken_if_runs(
    code: Seq<Instr>,
    at: nat,
    node: SpecNode,
    label: u64,
    machine: Machine,
) -> (steps: nat)
    requires
        is_stmt(node),
        node.kind is If,
        !has_else(node),
        targets_valid(node),
        label + labels_in(node) <= u64::MAX,
        holds_at(code, at, code_of(node, label)),
        labels_unique(code),
        eval(*node.lhs->0, machine.base, machine.memory) is Value,
        eval(*node.lhs->0, machine.base, machine.memory)->Value_value == 0,
    ensures
        ({
            let config = run(code, Config::Running { pc: at, machine }, steps);
            &&& config is Running
            &&& config->pc == at + code_of(node, label).len()
            &&& config->machine.stack == machine.stack.push(0)
            &&& config->machine.memory == eval(
                *node.lhs->0,
                machine.base,
                machine.memory,
            )->Value_memory
        }),
{
    lemma_code_runs(code, at, node, label, machine)
}

/// The statements of the source `lines`, where it has a text.
pub open spec fn statements_of(lines: Seq<Seq<char>>) -> Seq<SpecNode>
    recommends
        compile(lines) is Ok,
{
    parse_program(lex(lines)->Ok_0.tokens, 0)->value
}

/// The text of a compiled source is the text of code that computes what the
/// source means. Where `lines` has a text, that text is the opening lines
/// and then the code of its statements; and that code, run from its first
/// instruction on any machine, returns the value of the last statement, or
/// of the first `return` that is reached, unless the program traps in a
/// division.
pub proof fn lemma_compiled_runs(lines: Seq<Seq<char>>, machine: Machine) -> (steps: nat)
    requires
        compile(lines) is Ok,
        outcome(eval_statements(statements_of(lines), machine.base, machine.memory, machine.rax))
            is Some,
    ensures
        ({
            let code = program_code(statements_of(lines), lex(lines)->Ok_0.names.len());
            &&& compile(lines)->Ok_0 == header() + render(code)
            &&& labels_unique(code)
            &&& run(code, Config::Running { pc: 0, machine }, steps) == (Config::Halted {
                value: outcome(
                    eval_statements(
                        statements_of(lines),
                        machine.base,
                        machine.memory,
                        machine.rax,
                    ),
                )->0,
            })
        }),
{
    let state = lex(lines)->Ok_0;
    lemma_program_in_place(state.tokens, 0);
    lemma_program_labels(statements_of(lines), state.names.len());
    lemma_program_runs(statements_of(lines), state.names.len(), machine)
}

/// The label that `instr` jumps to, if it is a jump.
pub open spec fn jump_target(instr: Instr) -> Option<u64> {
    match instr {
        Instr::Jump(label) => Some(label),
        Instr::JumpIfZero(label) => Some(label),
        _ => None,
    }
}

/// Whether every jump of `part` goes to a label that stands in `whole`.
pub open spec fn lands_in(part: Seq<Instr>, whole: Seq<Instr>) -> bool {
    forall|k: int|
        0 <= k < part.len() && jump_target(#[trigger] part[k]) is Some ==> has_label(
            whole,
            jump_target(part[k])->0,
        )
}

/// Jumps that land in a piece of code land in the code around it.
proof fn lemma_lands_piece(
    whole: Seq<Instr>,
    before: Seq<Instr>,
    inner: Seq<Instr>,
    behind: Seq<Instr>,
)
    requires
        whole =~= before + inner + behind,
        lands_in(inner, inner),
    ensures
        lands_in(inner, whole),
{
    assert forall|k: int|
        0 <= k < inner.len() && jump_target(#[trigger] inner[k]) is Some implies has_label(
        whole,
        jump_target(inner[k])->0,
    ) by {
        let label = jump_target(inner[k])->0;
        assert(has_label(inner, label));
        let at = choose|at: int| 0 <= at < inner.len() && inner[at] == Instr::Label(label);
        assert(whole[before.len() + at] == Instr::Label(label));
    }
}

/// Two pieces whose jumps land in `whole` make a piece whose jumps do.
proof fn lemma_lands_concat(first: Seq<Instr>, second: Seq<Instr>, whole: Seq<Instr>)
    requires
        lands_in(first, whole),
        lands_in(second, whole),
    ensures
        lands_in(first + second, whole),
{
    let both = first + second;
    assert forall|k: int|
        0 <= k < both.len() && jump_target(#[trigger] both[k]) is Some implies has_label(
        whole,
        jump_target(both[k])->0,
    ) by {
        if k < first.len() {
            assert(both[k] == first[k]);
        } else {
            assert(both[k] == second[k - first.len()]);
        }
    }
}

/// The jumps of an operation, an assignment or a `return` are those of the
/// operands.
proof fn lemma_expr_jumps(node: SpecNode, label: u64)
    requires
        is_stmt(node),
        !(node.kind is If),
    ensures
        lands_in(code_of(node, label), code_of(node, label)),
    decreases node, 0nat,
{
    let whole = code_of(node, label);
    if node.kind is Num || node.kind is LocalVar {
    } else if node.kind is Assign {
        let lhs = *node.lhs->0;
        let rhs = *node.rhs->0;
        let right = code_of(rhs, label_after(label, labels_in(lhs)));
        let tail = seq![Instr::PopRdi, Instr::PopRax, Instr::Store, Instr::PushRdi];
        lemma_expr_is_stmt(rhs);
        lemma_code_jumps(rhs, label_after(label, labels_in(lhs)));
        lemma_lands_piece(whole, address_code(lhs), right, tail);
        lemma_lands_concat(address_code(lhs), right, whole);
        lemma_lands_concat(address_code(lhs) + right, tail, whole);
    } else if is_binary(node.kind) {
        let lhs = *node.lhs->0;
        let rhs = *node.rhs->0;
        let left = code_of(lhs, label);
        let right = code_of(rhs, label_after(label, labels_in(lhs)));
        let tail = seq![Instr::PopRdi, Instr::PopRax, operation(node.kind), Instr::PushRax];
        lemma_expr_is_stmt(lhs);
        lemma_expr_is_stmt(rhs);
        lemma_code_jumps(lhs, label);
        lemma_code_jumps(rhs, label_after(label, labels_in(lhs)));
        lemma_lands_piece(whole, Seq::empty(), left, right + tail);
        lemma_lands_piece(whole, left, right, tail);
        lemma_lands_concat(left, right, whole);
        lemma_lands_concat(left + right, tail, whole);
    } else {
        let value = *node.lhs->0;
        let inner = code_of(value, label);
        let tail = seq![Instr::PopRax, Instr::Return];
        lemma_expr_is_stmt(value);
        lemma_code_jumps(value, label);
        lemma_lands_piece(whole, Seq::empty(), inner, tail);
        lemma_lands_concat(inner, tail, whole);
    }
}

/// The jump of `if` without `else` goes to the label at its end.
proof fn lemma_if_jumps(node: SpecNode, label: u64)
    requires
        is_stmt(node),
        node.kind is If,
        !has_else(node),
    ensures
        lands_in(code_of(node, label), code_of(node, label)),
    decreases node, 0nat,
{
    let whole = code_of(node, label);
    let cond = *node.lhs->0;
    let then = *node.rhs->0;
    let cond_label = label_after(label, 1);
    let then_label = label_after(label, 1 + labels_in(cond));
    let test = code_of(cond, cond_label);
    let body = code_of(then, then_label);
    let branch = seq![Instr::PopRax, Instr::JumpIfZero(label)];
    let tail = seq![Instr::PopRax, Instr::Label(label), Instr::PushRax];
    lemma_expr_is_stmt(cond);
    lemma_code_jumps(cond, cond_label);
    lemma_code_jumps(then, then_label);
    lemma_lands_piece(whole, Seq::empty(), test, branch + body + tail);
    lemma_lands_piece(whole, test + branch, body, tail);
    assert(whole[(test.len() + 2 + body.len() + 1) as int] == Instr::Label(label));
    assert(has_label(whole, label));
    lemma_lands_concat(test, branch, whole);
    lemma_lands_concat(test + branch, body, whole);
    lemma_lands_concat(test + branch + body, tail, whole);
}

/// The jumps of `if` with `else` go to the label before the second
/// statement and to the label at the end.
proof fn lemma_if_else_jumps(node: SpecNode, label: u64)
    requires
        is_stmt(node),
        has_else(node),
    ensures
        lands_in(code_of(node, label), code_of(node, label)),
    decreases node, 0nat,
{
    let whole = code_of(node, label);
    let cond = *node.lhs->0;
    let then = *node.rhs->0.lhs->0;
    let other = *node.rhs->0.rhs->0;
    let else_label = label_after(label, 1);
    let cond_label = label_after(label, 2);
    let then_label = label_after(label, 2 + labels_in(cond));
    let other_label = label_after(label, 2 + labels_in(cond) + labels_in(then));
    let test = code_of(cond, cond_label);
    let body = code_of(then, then_label);
    let rest = code_of(other, other_label);
    let branch = seq![Instr::PopRax, Instr::JumpIfZero(else_label)];
    let middle = seq![Instr::Jump(label), Instr::Label(else_label)];
    let tail = seq![Instr::Label(label)];
    assert(whole == test + branch + body + middle + rest + tail);
    assert(is_stmt(then) && is_stmt(other)) by {
        reveal_with_fuel(is_stmt, 2);
    }
    lemma_expr_is_stmt(cond);
    lemma_code_jumps(cond, cond_label);
    lemma_code_jumps(then, then_label);
    lemma_code_jumps(other, other_label);
    assert(whole =~= Seq::<Instr>::empty() + test + (branch + body + middle + rest + tail));
    lemma_lands_piece(whole, Seq::empty(), test, branch + body + middle + rest + tail);
    assert(whole =~= (test + branch) + body + (middle + rest + tail));
    lemma_lands_piece(whole, test + branch, body, middle + rest + tail);
    lemma_lands_piece(whole, test + branch + body + middle, rest, tail);
    assert(whole[(test.len() + 2 + body.len() + 1) as int] == middle[1]);
    assert(has_label(whole, else_label));
    assert(whole[(test.len() + 2 + body.len() + 2 + rest.len()) as int] == tail[0]);
    assert(has_label(whole, label));
    assert(lands_in(branch, whole));
    assert(lands_in(middle, whole));
    assert(lands_in(tail, whole));
    lemma_lands_concat(test, branch, whole);
    lemma_lands_concat(test + branch, body, whole);
    lemma_lands_concat(test + branch + body, middle, whole);
    lemma_lands_concat(test + branch + body + middle, rest, whole);
    lemma_lands_concat(test + branch + body + middle + rest, tail, whole);
}

/// Every jump in the code of a tree goes to a label in that code: a
/// conditional jumps to its own labels, never into other code.
pub proof fn lemma_code_jumps(node: SpecNode, label: u64)
    requires
        is_stmt(node),
    ensures
        lands_in(code_of(node, label), code_of(node, label)),
    decreases node, 1nat,
{
    if has_else(node) {
        lemma_if_else_jumps(node, label);
    } else if node.kind is If {
        lemma_if_jumps(node, label);
    } else {
        lemma_expr_jumps(node, label);
    }
}

/// What [`crate::gen::gen`] appends shares no label with what stands
/// before it. Let `before` be code without a label twice, all of whose
/// labels lie below the counter `label`, as the code does that `gen` has
/// appended since the counter was zero. Where `gen` has code for `node`,
/// the labels of that code lie from `label` on, below the counter that
/// `gen` leaves; so they are none of those of `before`, no label stands
/// twice in both together, and the labels of both lie below the new
/// counter. Every jump of the new code goes to a label of the new code.
pub proof fn lemma_gen_labels_apart(before: Seq<Instr>, node: SpecNode, label: u64)
    requires
        labels_unique(before),
        labels_within(before, 0, label as int),
        gen_error(node, label) is None,
    ensures
        labels_within(code_of(node, label), label as int, label + labels_in(node)),
        labels_unique(before + code_of(node, label)),
        labels_within(before + code_of(node, label), 0, label + labels_in(node)),
        lands_in(code_of(node, label), code_of(node, label)),
{
    lemma_code_labels(node, label);
    lemma_code_jumps(node, label);
    lemma_concat_labels(
        before,
        0,
        label as int,
        code_of(node, label),
        label as int,
        label + labels_in(node),
    );
}

} // verus!
