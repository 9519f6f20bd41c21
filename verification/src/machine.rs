//! The instructions that the generator emits: their text, and what they do.
//!
//! The target is a stack machine on one register architecture: every value
//! is computed in `rax`, with `rdi` for the second operand, and kept on the
//! stack between instructions. Variables live in the frame below `rbp`.
//!
//! What the instructions do is given on an abstract machine, which the
//! proofs about generated code run. The machine has the two registers, an
//! operand stack and a memory of 64-bit signed integers. It leaves out what
//! the generated code does not depend on: that stack and frame share one
//! memory, and the registers that the code never reads.

use crate::text::{decimal32, decimal64, push_decimal, push_decimal32, push_text};
use vstd::prelude::*;

verus! {

/// One step of the emitted program. Some stand for a fixed group of
/// assembly lines.
#[derive(Clone, Copy, Debug, PartialEq, Eq)]
pub enum Instr {
    /// Sets up the frame: saves `rbp`, lets it point at the frame base and
    /// reserves this many bytes below it.
    Enter(u64),
    /// Pushes a number as an operand of 32 bits, which the machine takes
    /// as signed: from 2^31 on it pushes the number less 2^32.
    Push(u32),
    /// `rax =` a number, as the value from 0 to 2^32 - 1 that it is.
    Number(u32),
    /// Pushes `rax`.
    PushRax,
    /// Pushes `rdi`.
    PushRdi,
    /// Pops into `rax`.
    PopRax,
    /// Pops into `rdi`.
    PopRdi,
    /// `rax = rax + rdi`
    Add,
    /// `rax = rax - rdi`
    Sub,
    /// `rax = rax * rdi`
    Mul,
    /// `rax = rax / rdi`, signed, towards zero.
    Div,
    /// `rax = 1` if `rax == rdi`, else `0`.
    SetEqual,
    /// `rax = 1` if `rax != rdi`, else `0`.
    SetNotEqual,
    /// `rax = 1` if `rax < rdi`, signed, else `0`.
    SetLess,
    /// `rax = 1` if `rax <= rdi`, signed, else `0`.
    SetLessOrEqual,
    /// `rax =` the address of the variable this many bytes below the frame
    /// base. The number is an operand of 32 bits, which the machine takes
    /// as signed.
    FrameAddress(u32),
    /// `rax =` the value at the address in `rax`.
    Load,
    /// Stores `rdi` at the address in `rax`.
    Store,
    /// Goes to the label of this number if `rax` is zero.
    JumpIfZero(u64),
    /// Goes to the label of this number.
    Jump(u64),
    /// The label of this number.
    Label(u64),
    /// Gives the frame up and returns `rax` to the caller.
    Return,
}

/// The assembly lines of one instruction.
pub open spec fn render_instr(instr: Instr) -> Seq<char> {
    match instr {
        Instr::Enter(frame) => "  push rbp\n  mov rbp, rsp\n  sub rsp, "@ + decimal64(frame)
            + "\n"@,
        Instr::Push(num) => "  push "@ + decimal32(num) + "\n"@,
        Instr::Number(num) => "  mov rax, "@ + decimal32(num) + "\n"@,
        Instr::PushRax => "  push rax\n"@,
        Instr::PushRdi => "  push rdi\n"@,
        Instr::PopRax => "  pop rax\n"@,
        Instr::PopRdi => "  pop rdi\n"@,
        Instr::Add => "  add rax, rdi\n"@,
        Instr::Sub => "  sub rax, rdi\n"@,
        Instr::Mul => "  imul rax, rdi\n"@,
        Instr::Div => "  cqo\n  idiv rdi\n"@,
        Instr::SetEqual => "  cmp rax, rdi\n  sete al\n  movzb rax, al\n"@,
        Instr::SetNotEqual => "  cmp rax, rdi\n  setne al\n  movzb rax, al\n"@,
        Instr::SetLess => "  cmp rax, rdi\n  setl al\n  movzb rax, al\n"@,
        Instr::SetLessOrEqual => "  cmp rax, rdi\n  setle al\n  movzb rax, al\n"@,
        Instr::FrameAddress(offset) => "  mov rax, rbp\n  sub rax, "@ + decimal32(offset) + "\n"@,
        Instr::Load => "  mov rax, [rax]\n"@,
        Instr::Store => "  mov [rax], rdi\n"@,
        Instr::JumpIfZero(label) => "  cmp rax, 0\n  je .L"@ + decimal64(label) + "\n"@,
        Instr::Jump(label) => "  jmp .L"@ + decimal64(label) + "\n"@,
        Instr::Label(label) => ".L"@ + decimal64(label) + ":\n"@,
        Instr::Return => "  mov rsp, rbp\n  pop rbp\n  ret\n"@,
    }
}

/// The assembly text of a sequence of instructions, one after the other.
pub open spec fn render(code: Seq<Instr>) -> Seq<char>
    decreases code.len(),
{
    if code.len() == 0 {
        Seq::empty()
    } else {
        render(code.drop_last()) + render_instr(code.last())
    }
}

/// The text of two sequences in a row is the text of the first and then
/// that of the second.
pub proof fn lemma_render_concat(first: Seq<Instr>, second: Seq<Instr>)
    ensures
        render(first + second) == render(first) + render(second),
    decreases second.len(),
{
    if second.len() == 0 {
        assert(first + second =~= first);
        assert(render(first) + render(second) =~= render(first));
    } else {
        lemma_render_concat(first, second.drop_last());
        assert((first + second).drop_last() =~= first + second.drop_last());
        assert((first + second).last() == second.last());
        assert(render(first) + (render(second.drop_last()) + render_instr(second.last()))
            =~= (render(first) + render(second.drop_last())) + render_instr(second.last()));
    }
}

/// Appends the assembly lines of `instr` to `output`.
pub fn emit(output: &mut String, instr: Instr)
    ensures
        final(output)@ == old(output)@ + render_instr(instr),
{
    match instr {
        Instr::Enter(frame) => {
            push_text(output, "  push rbp\n  mov rbp, rsp\n  sub rsp, ");
            push_decimal(output, frame);
            push_text(output, "\n");
        },
        Instr::Push(num) => {
            push_text(output, "  push ");
            push_decimal32(output, num);
            push_text(output, "\n");
        },
        Instr::Number(num) => {
            push_text(output, "  mov rax, ");
            push_decimal32(output, num);
            push_text(output, "\n");
        },
        Instr::PushRax => push_text(output, "  push rax\n"),
        Instr::PushRdi => push_text(output, "  push rdi\n"),
        Instr::PopRax => push_text(output, "  pop rax\n"),
        Instr::PopRdi => push_text(output, "  pop rdi\n"),
        Instr::Add => push_text(output, "  add rax, rdi\n"),
        Instr::Sub => push_text(output, "  sub rax, rdi\n"),
        Instr::Mul => push_text(output, "  imul rax, rdi\n"),
        Instr::Div => push_text(output, "  cqo\n  idiv rdi\n"),
        Instr::SetEqual => push_text(output, "  cmp rax, rdi\n  sete al\n  movzb rax, al\n"),
        Instr::SetNotEqual => push_text(output, "  cmp rax, rdi\n  setne al\n  movzb rax, al\n"),
        Instr::SetLess => push_text(output, "  cmp rax, rdi\n  setl al\n  movzb rax, al\n"),
        Instr::SetLessOrEqual => push_text(
            output,
            "  cmp rax, rdi\n  setle al\n  movzb rax, al\n",
        ),
        Instr::FrameAddress(offset) => {
            push_text(output, "  mov rax, rbp\n  sub rax, ");
            push_decimal32(output, offset);
            push_text(output, "\n");
        },
        Instr::Load => push_text(output, "  mov rax, [rax]\n"),
        Instr::Store => push_text(output, "  mov [rax], rdi\n"),
        Instr::JumpIfZero(label) => {
            push_text(output, "  cmp rax, 0\n  je .L");
            push_decimal(output, label);
            push_text(output, "\n");
        },
        Instr::Jump(label) => {
            push_text(output, "  jmp .L");
            push_decimal(output, label);
            push_text(output, "\n");
        },
        Instr::Label(label) => {
            push_text(output, ".L");
            push_decimal(output, label);
            push_text(output, ":\n");
        },
        Instr::Return => push_text(output, "  mov rsp, rbp\n  pop rbp\n  ret\n"),
    }
    assert(output@ =~= old(output)@ + render_instr(instr));
}

/// The state of the abstract machine on which the instructions are given
/// their meaning. Registers and stack slots hold 64-bit signed integers.
/// The operand stack and the frame are kept apart: the model leaves out
/// that both lie in one memory, which a frame large enough for the
/// variables makes harmless.
pub struct Machine {
    /// The register in which values are computed.
    pub rax: int,
    /// The register of the second operand.
    pub rdi: int,
    /// The operand stack; its top is the last element.
    pub stack: Seq<int>,
    /// What the memory holds, by address.
    pub memory: Map<int, int>,
    /// The frame base, `rbp`.
    pub base: int,
}

/// Where a run of the machine stands.
pub enum Config {
    /// About to run the instruction at `pc`.
    Running { pc: nat, machine: Machine },
    /// Returned to the caller with `value` in `rax`.
    Halted { value: int },
    /// Cannot go on: a pop from the empty stack, a division that traps, a
    /// jump to a label that is missing, or the end of the code.
    Stuck,
}

/// `value` as a 64-bit signed integer: what the low 64 bits of it stand for.
pub open spec fn wrap(value: int) -> int {
    let low = value % 0x1_0000_0000_0000_0000;
    if low >= 0x8000_0000_0000_0000 {
        low - 0x1_0000_0000_0000_0000
    } else {
        low
    }
}

/// What the machine takes an operand of 32 bits for: the number itself
/// below 2^31, and the number less 2^32 from there on.
pub open spec fn signed32(num: u32) -> int {
    if num < 0x8000_0000 {
        num as int
    } else {
        num - 0x1_0000_0000
    }
}

/// The quotient of `a` by `b`, rounded towards zero.
pub open spec fn quotient(a: int, b: int) -> int
    recommends
        b != 0,
{
    if a >= 0 && b > 0 {
        a / b
    } else if a >= 0 {
        -(a / (-b))
    } else if b > 0 {
        -((-a) / b)
    } else {
        (-a) / (-b)
    }
}

/// What the operation `instr` leaves in `rax`, for `a` in `rax` and `b` in
/// `rdi`; `None` where the machine traps: a division by zero, or the one
/// quotient that 64 bits do not hold. Sums, differences and products wrap
/// round. A comparison gives 1 or 0.
pub open spec fn compute(instr: Instr, a: int, b: int) -> Option<int> {
    match instr {
        Instr::Add => Some(wrap(a + b)),
        Instr::Sub => Some(wrap(a - b)),
        Instr::Mul => Some(wrap(a * b)),
        Instr::Div => if b == 0 || (a == -0x8000_0000_0000_0000 && b == -1) {
            None
        } else {
            Some(quotient(a, b))
        },
        Instr::SetEqual => Some(if a == b { 1int } else { 0int }),
        Instr::SetNotEqual => Some(if a != b { 1int } else { 0int }),
        Instr::SetLess => Some(if a < b { 1int } else { 0int }),
        Instr::SetLessOrEqual => Some(if a <= b { 1int } else { 0int }),
        _ => None,
    }
}

/// The machine at the label `label`, or stuck where `code` has none.
pub open spec fn jump(code: Seq<Instr>, label: u64, machine: Machine) -> Config {
    match code.index_of_first(Instr::Label(label)) {
        Some(at) => Config::Running { pc: at as nat, machine },
        None => Config::Stuck,
    }
}

/// What the instruction at `pc` makes of `machine`.
pub open spec fn step(code: Seq<Instr>, pc: nat, machine: Machine) -> Config {
    if pc >= code.len() {
        Config::Stuck
    } else {
        let next = pc + 1;
        match code[pc as int] {
            Instr::Enter(_) => Config::Running { pc: next, machine },
            Instr::Push(num) => Config::Running {
                pc: next,
                machine: Machine { stack: machine.stack.push(signed32(num)), ..machine },
            },
            Instr::Number(num) => Config::Running {
                pc: next,
                machine: Machine { rax: num as int, ..machine },
            },
            Instr::PushRax => Config::Running {
                pc: next,
                machine: Machine { stack: machine.stack.push(machine.rax), ..machine },
            },
            Instr::PushRdi => Config::Running {
                pc: next,
                machine: Machine { stack: machine.stack.push(machine.rdi), ..machine },
            },
            Instr::PopRax => if machine.stack.len() == 0 {
                Config::Stuck
            } else {
                Config::Running {
                    pc: next,
                    machine: Machine {
                        rax: machine.stack.last(),
                        stack: machine.stack.drop_last(),
                        ..machine
                    },
                }
            },
            Instr::PopRdi => if machine.stack.len() == 0 {
                Config::Stuck
            } else {
                Config::Running {
                    pc: next,
                    machine: Machine {
                        rdi: machine.stack.last(),
                        stack: machine.stack.drop_last(),
                        ..machine
                    },
                }
            },
            Instr::FrameAddress(offset) => Config::Running {
                pc: next,
                machine: Machine { rax: machine.base - signed32(offset), ..machine },
            },
            Instr::Load => Config::Running {
                pc: next,
                machine: Machine { rax: machine.memory[machine.rax], ..machine },
            },
            Instr::Store => Config::Running {
                pc: next,
                machine: Machine {
                    memory: machine.memory.insert(machine.rax, machine.rdi),
                    ..machine
                },
            },
            Instr::JumpIfZero(label) => if machine.rax == 0 {
                jump(code, label, machine)
            } else {
                Config::Running { pc: next, machine }
            },
            Instr::Jump(label) => jump(code, label, machine),
            Instr::Label(_) => Config::Running { pc: next, machine },
            Instr::Return => Config::Halted { value: machine.rax },
            operation => match compute(operation, machine.rax, machine.rdi) {
                Some(value) => Config::Running {
                    pc: next,
                    machine: Machine { rax: value, ..machine },
                },
                None => Config::Stuck,
            },
        }
    }
}

/// Where the machine stands after `steps` steps from `config`, or where it
/// came to rest before.
pub open spec fn run(code: Seq<Instr>, config: Config, steps: nat) -> Config
    decreases steps,
{
    if steps == 0 {
        config
    } else {
        match config {
            Config::Running { pc, machine } => run(
                code,
                step(code, pc, machine),
                (steps - 1) as nat,
            ),
            _ => config,
        }
    }
}

/// Whether the instructions `part` stand in `code` from `at` on.
pub open spec fn holds_at(code: Seq<Instr>, at: nat, part: Seq<Instr>) -> bool {
    at + part.len() <= code.len() && forall|k: int|
        0 <= k < part.len() ==> code[at + k] == #[trigger] part[k]
}

/// Whether no label stands twice in `code`.
pub open spec fn labels_unique(code: Seq<Instr>) -> bool {
    forall|i: int, j: int|
        0 <= i < code.len() && 0 <= j < code.len() && code[i] is Label && #[trigger] code[i]
            == #[trigger] code[j] ==> i == j
}

/// Running `first` steps and then `second` steps is running both in a row.
pub proof fn lemma_run_add(code: Seq<Instr>, config: Config, first: nat, second: nat)
    ensures
        run(code, config, first + second) == run(code, run(code, config, first), second),
    decreases first,
{
    if first > 0 {
        match config {
            Config::Running { pc, machine } => {
                lemma_run_add(code, step(code, pc, machine), (first - 1) as nat, second);
            },
            _ => {
                lemma_run_rest(code, config, second);
            },
        }
    }
}

/// A machine that has come to rest stays where it is.
pub proof fn lemma_run_rest(code: Seq<Instr>, config: Config, steps: nat)
    requires
        !(config is Running),
    ensures
        run(code, config, steps) == config,
{
}

/// Where no label stands twice, a jump to the label at `at` goes there.
pub proof fn lemma_jump(code: Seq<Instr>, at: nat, label: u64, machine: Machine)
    requires
        labels_unique(code),
        at < code.len(),
        code[at as int] == Instr::Label(label),
    ensures
        jump(code, label, machine) == (Config::Running { pc: at, machine }),
{
    code.index_of_first_ensures(Instr::Label(label));
    let found = code.index_of_first(Instr::Label(label));
    assert(code.contains(Instr::Label(label)));
    assert(code[found->0] == code[at as int]);
}

} // verus!
