//! The mathematical model of a machine: its state as plain values, and the
//! meaning of one instruction as a function from state to state.

use crate::intcode::decode::{decoded, Instruction, Mode, Opcode};
use crate::intcode::memory::{image, load, Cells};
use crate::intcode::word::{Fault, RunStatus, Word};
use vstd::prelude::*;

verus! {

/// Everything that determines how a machine behaves from here on.
pub struct MachineState {
    /// The memory, one word per non-negative address.
    pub cells: Cells,
    /// The address of the next instruction.
    pub ip: Word,
    /// The offset added to parameters in relative mode.
    pub rb: Word,
    /// Inputs not yet consumed, oldest first.
    pub input: Seq<Word>,
    /// Outputs not yet drained, oldest first.
    pub output: Seq<Word>,
    /// Where the machine stands in its life cycle.
    pub status: RunStatus,
}

impl MachineState {
    /// A fresh machine loaded with `program`.
    pub open spec fn initial(program: Seq<Word>) -> MachineState {
        MachineState {
            cells: image(program),
            ip: 0,
            rb: 0,
            input: Seq::empty(),
            output: Seq::empty(),
            status: RunStatus::Ready,
        }
    }

    /// The same machine in another status.
    pub open spec fn with_status(self, status: RunStatus) -> MachineState {
        MachineState { status, ..self }
    }

    /// The same machine with `values` appended to its input queue.
    pub open spec fn fed(self, values: Seq<Word>) -> MachineState {
        MachineState { input: self.input + values, ..self }
    }

    /// The same machine with its output queue emptied.
    pub open spec fn drained(self) -> MachineState {
        MachineState { output: Seq::empty(), ..self }
    }

    /// The same machine with `earlier` put back in front of its output queue.
    pub open spec fn undrained(self, earlier: Seq<Word>) -> MachineState {
        MachineState { output: earlier + self.output, ..self }
    }
}

/// The address of parameter `k` (counted from one) of the instruction at `ip`.
pub open spec fn slot(ip: Word, k: Word) -> Word {
    ip.wrapping_add(k)
}

/// An address is a word that is not negative.
pub open spec fn address(a: Word) -> Result<Word, Fault> {
    if a < 0 {
        Err(Fault::NegativeAddress)
    } else {
        Ok(a)
    }
}

/// The address that the parameter stored at `at` names in `mode`. It is not
/// dereferenced. An immediate parameter names no address.
pub open spec fn target(cells: Cells, at: Word, rb: Word, mode: Mode) -> Result<Word, Fault> {
    match load(cells, at) {
        Err(fault) => Err(fault),
        Ok(p) => match mode {
            Mode::Position => address(p),
            Mode::Immediate => Err(Fault::InvalidMode),
            Mode::Relative => address(p.wrapping_add(rb)),
        },
    }
}

/// The value that the parameter stored at `at` stands for in `mode`.
pub open spec fn operand(cells: Cells, at: Word, rb: Word, mode: Mode) -> Result<Word, Fault> {
    match load(cells, at) {
        Err(fault) => Err(fault),
        Ok(p) => match mode {
            Mode::Position => load(cells, p),
            Mode::Immediate => Ok(p),
            Mode::Relative => load(cells, p.wrapping_add(rb)),
        },
    }
}

/// The values of the parameters that `instruction`, located at `ip`, reads, in
/// order; or the fault of the first one that cannot be resolved.
pub open spec fn operands(cells: Cells, ip: Word, rb: Word, instruction: Instruction) -> Result<
    Seq<Word>,
    Fault,
> {
    let n = instruction.op.reads();
    if n == 0 {
        Ok(Seq::empty())
    } else {
        match operand(cells, slot(ip, 1), rb, instruction.first) {
            Err(fault) => Err(fault),
            Ok(a) => if n == 1 {
                Ok(seq![a])
            } else {
                match operand(cells, slot(ip, 2), rb, instruction.second) {
                    Err(fault) => Err(fault),
                    Ok(b) => Ok(seq![a, b]),
                }
            },
        }
    }
}

/// The cell that `instruction`, located at `ip`, writes, if it writes one.
pub open spec fn destination(cells: Cells, ip: Word, rb: Word, instruction: Instruction) -> Result<
    Option<Word>,
    Fault,
> {
    if instruction.op.writes() {
        let k = (instruction.op.reads() + 1) as Word;
        match target(cells, slot(ip, k), rb, instruction.mode(k as int)) {
            Err(fault) => Err(fault),
            Ok(addr) => Ok(Some(addr)),
        }
    } else {
        Ok(None)
    }
}

/// Where execution continues after an instruction of `op` at `ip` whose read
/// parameters have the values `args`.
pub open spec fn successor(ip: Word, op: Opcode, args: Seq<Word>) -> Result<Word, Fault> {
    let jumps = match op {
        Opcode::JumpIfTrue => args[0] != 0,
        Opcode::JumpIfFalse => args[0] == 0,
        _ => false,
    };
    if jumps {
        address(args[1])
    } else {
        address(ip.wrapping_add(op.length() as Word))
    }
}

/// The state after an instruction whose parameters all resolved.
pub open spec fn effect(
    s: MachineState,
    op: Opcode,
    args: Seq<Word>,
    dest: Option<Word>,
    next: Word,
) -> MachineState {
    let moved = MachineState { ip: next, ..s };
    match op {
        Opcode::Add => MachineState {
            cells: s.cells.insert(dest->0, args[0].wrapping_add(args[1])),
            ..moved
        },
        Opcode::Mul => MachineState {
            cells: s.cells.insert(dest->0, args[0].wrapping_mul(args[1])),
            ..moved
        },
        Opcode::Input => MachineState {
            cells: s.cells.insert(dest->0, s.input[0]),
            input: s.input.drop_first(),
            ..moved
        },
        Opcode::Output => MachineState { output: s.output.push(args[0]), ..moved },
        Opcode::JumpIfTrue | Opcode::JumpIfFalse => moved,
        Opcode::LessThan => MachineState {
            cells: s.cells.insert(
                dest->0,
                if args[0] < args[1] {
                    1
                } else {
                    0
                },
            ),
            ..moved
        },
        Opcode::Equals => MachineState {
            cells: s.cells.insert(
                dest->0,
                if args[0] == args[1] {
                    1
                } else {
                    0
                },
            ),
            ..moved
        },
        Opcode::AdjustRelativeBase => MachineState { rb: s.rb.wrapping_add(args[0]), ..moved },
        Opcode::Halt => s.with_status(RunStatus::Halted),
    }
}

/// What `instruction` does to `s`. A halt stops the machine where it stands. An
/// input with nothing to read suspends it where it stands. Anything else first
/// resolves its read parameters, its write address and the next instruction
/// pointer, and only then changes the state: a fault changes nothing.
pub open spec fn perform(s: MachineState, instruction: Instruction) -> Result<MachineState, Fault> {
    if instruction.op is Halt {
        Ok(s.with_status(RunStatus::Halted))
    } else if instruction.op is Input && s.input.len() == 0 {
        Ok(s.with_status(RunStatus::AwaitingInput))
    } else {
        match operands(s.cells, s.ip, s.rb, instruction) {
            Err(fault) => Err(fault),
            Ok(args) => match destination(s.cells, s.ip, s.rb, instruction) {
                Err(fault) => Err(fault),
                Ok(dest) => match successor(s.ip, instruction.op, args) {
                    Err(fault) => Err(fault),
                    Ok(next) => Ok(effect(s, instruction.op, args, dest, next)),
                },
            },
        }
    }
}

/// Fetch, decode and execute the instruction at the instruction pointer.
pub open spec fn execute(s: MachineState) -> Result<MachineState, Fault> {
    match load(s.cells, s.ip) {
        Err(fault) => Err(fault),
        Ok(word) => match decoded(word) {
            Err(fault) => Err(fault),
            Ok(instruction) => perform(s, instruction),
        },
    }
}

/// One step of a machine. Only a running machine moves; a fault stops it and
/// leaves everything but its status as it was.
pub open spec fn step(s: MachineState) -> MachineState {
    if s.status is Running {
        match execute(s) {
            Ok(next) => next,
            Err(fault) => s.with_status(RunStatus::Faulted(fault)),
        }
    } else {
        s
    }
}

/// The state after `n` steps.
pub open spec fn run_n(s: MachineState, n: nat) -> MachineState
    decreases n,
{
    if n == 0 {
        s
    } else {
        step(run_n(s, (n - 1) as nat))
    }
}

/// The state in which a resumed machine begins to execute: a machine that is
/// ready or was waiting for input runs; one that halted or faulted stays so.
pub open spec fn started(s: MachineState) -> MachineState {
    if s.status is Ready || s.status is AwaitingInput {
        s.with_status(RunStatus::Running)
    } else {
        s
    }
}

/// Whether the machine leaves the running status after finitely many steps.
pub open spec fn stops(s: MachineState) -> bool {
    exists|n: nat| !(#[trigger] run_n(s, n).status is Running)
}

/// The state in which the machine comes to rest, if it [`stops`].
pub open spec fn settled(s: MachineState) -> MachineState {
    run_n(s, choose|n: nat| !(#[trigger] run_n(s, n).status is Running))
}

/// The state in which a call of `resume` leaves the machine, if it returns.
pub open spec fn resumed(s: MachineState) -> MachineState {
    settled(started(s))
}

/// A machine that is not running does not move.
pub proof fn lemma_rest(s: MachineState, n: nat)
    requires
        !(s.status is Running),
    ensures
        run_n(s, n) == s,
    decreases n,
{
    if n > 0 {
        lemma_rest(s, (n - 1) as nat);
    }
}

/// No step makes a machine ready again.
pub proof fn lemma_never_ready(s: MachineState, n: nat)
    requires
        !(s.status is Ready),
    ensures
        !(run_n(s, n).status is Ready),
    decreases n,
{
    if n > 0 {
        lemma_never_ready(s, (n - 1) as nat);
    }
}

/// Running `a` steps and then `b` more is running `a + b` steps.
pub proof fn lemma_run_split(s: MachineState, a: nat, b: nat)
    ensures
        run_n(run_n(s, a), b) == run_n(s, a + b),
    decreases b,
{
    if b > 0 {
        lemma_run_split(s, a, (b - 1) as nat);
    }
}

/// Once a machine has left the running status, more steps change nothing: every
/// step count at which it rests gives the state in which it settles.
pub proof fn lemma_settled(s: MachineState, n: nat)
    requires
        !(run_n(s, n).status is Running),
    ensures
        stops(s),
        settled(s) == run_n(s, n),
        !(settled(s).status is Running),
{
    let m = choose|m: nat| !(#[trigger] run_n(s, m).status is Running);
    if m <= n {
        lemma_run_split(s, m, (n - m) as nat);
        lemma_rest(run_n(s, m), (n - m) as nat);
    } else {
        lemma_run_split(s, n, (m - n) as nat);
        lemma_rest(run_n(s, n), (m - n) as nat);
    }
}

} // verus!
