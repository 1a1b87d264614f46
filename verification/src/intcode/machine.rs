//! The machine: memory, instruction pointer, relative base, the two queues and
//! the run status, with the interpreter that drives them.

use crate::intcode::decode::{decode, Instruction, Mode, Opcode};
use crate::intcode::memory::Memory;
use crate::intcode::model::{
    lemma_rest, lemma_run_split, lemma_settled, operand, operands, perform, resumed, run_n,
    settled, started, step, stops, target, MachineState,
};
use crate::intcode::word::{Fault, RunStatus, Word};
use std::collections::VecDeque;
use vstd::prelude::*;

verus! {

/// Resolves a parameter that is read: the value that the parameter stored at
/// `at` stands for.
pub fn read_parameter(memory: &Memory, at: Word, relative_base: Word, mode: Mode) -> (r: Result<
    Word,
    Fault,
>)
    ensures
        r == operand(memory@, at, relative_base, mode),
{
    let p = memory.read(at)?;
    match mode {
        Mode::Position => memory.read(p),
        Mode::Immediate => Ok(p),
        Mode::Relative => memory.read(p.wrapping_add(relative_base)),
    }
}

/// Resolves a parameter that is written: the address that the parameter stored
/// at `position_r` names, without reading the cell it names.
pub fn position_result(memory: &Memory, position_r: Word, relative_base: Word, mode: Mode) -> (r:
    Result<Word, Fault>)
    ensures
        r == target(memory@, position_r, relative_base, mode),
{
    let p = memory.read(position_r)?;
    let addr = match mode {
        Mode::Position => p,
        Mode::Immediate => { return Err(Fault::InvalidMode); },
        Mode::Relative => p.wrapping_add(relative_base),
    };
    if addr < 0 {
        Err(Fault::NegativeAddress)
    } else {
        Ok(addr)
    }
}

/// Resolves the parameters that the instruction at `position` reads, in order.
pub fn collect_parameters(
    memory: &Memory,
    position: Word,
    relative_base: Word,
    instruction: &Instruction,
) -> (r: Result<Vec<Word>, Fault>)
    ensures
        match operands(memory@, position, relative_base, *instruction) {
            Ok(args) => r is Ok && r->Ok_0@ == args,
            Err(fault) => r == Err::<Vec<Word>, Fault>(fault),
        },
{
    let n = instruction.op.read_count();
    let mut parameters: Vec<Word> = Vec::new();
    if n >= 1 {
        let at = position.wrapping_add(1);
        let a = read_parameter(memory, at, relative_base, instruction.first)?;
        parameters.push(a);
    }
    if n >= 2 {
        let at = position.wrapping_add(2);
        let b = read_parameter(memory, at, relative_base, instruction.second)?;
        parameters.push(b);
    }
    assert(n == 0 ==> parameters@ =~= Seq::empty());
    assert(n == 1 ==> parameters@ =~= seq![parameters@[0]]);
    assert(n == 2 ==> parameters@ =~= seq![parameters@[0], parameters@[1]]);
    Ok(parameters)
}

/// An Intcode machine.
pub struct Machine {
    memory: Memory,
    ip: Word,
    rb: Word,
    input: VecDeque<Word>,
    output: Vec<Word>,
    status: RunStatus,
}

impl View for Machine {
    type V = MachineState;

    closed spec fn view(&self) -> MachineState {
        MachineState {
            cells: self.memory@,
            ip: self.ip,
            rb: self.rb,
            input: self.input@,
            output: self.output@,
            status: self.status,
        }
    }
}

impl Machine {
    /// A machine loaded with `program`: instruction pointer and relative base at
    /// zero, both queues empty, ready to be resumed.
    pub fn new(program: &[Word]) -> (m: Machine)
        ensures
            m@ == MachineState::initial(program@),
    {
        Machine {
            memory: Memory::from_program(program),
            ip: 0,
            rb: 0,
            input: VecDeque::new(),
            output: Vec::new(),
            status: RunStatus::Ready,
        }
    }

    /// Appends `value` to the input queue.
    pub fn push_input(&mut self, value: Word)
        ensures
            final(self)@ == old(self)@.fed(seq![value]),
    {
        self.input.push_back(value);
        assert(self.input@ =~= old(self).input@ + seq![value]);
    }

    /// Removes and returns the pending outputs, oldest first.
    pub fn drain_output(&mut self) -> (out: Vec<Word>)
        ensures
            out@ == old(self)@.output,
            final(self)@ == old(self)@.drained(),
    {
        let mut out: Vec<Word> = Vec::new();
        std::mem::swap(&mut self.output, &mut out);
        out
    }

    /// The run status.
    pub fn status(&self) -> (status: RunStatus)
        ensures
            status == self@.status,
    {
        self.status
    }

    /// The address of the next instruction.
    pub fn instruction_pointer(&self) -> (ip: Word)
        ensures
            ip == self@.ip,
    {
        self.ip
    }

    /// The relative base.
    pub fn relative_base(&self) -> (rb: Word)
        ensures
            rb == self@.rb,
    {
        self.rb
    }

    /// The number of inputs not yet consumed.
    pub fn pending_input(&self) -> (n: usize)
        ensures
            n == self@.input.len(),
    {
        self.input.len()
    }

    /// The number of outputs not yet drained.
    pub fn pending_output(&self) -> (n: usize)
        ensures
            n == self@.output.len(),
    {
        self.output.len()
    }

    /// Reads a memory cell without disturbing the machine.
    pub fn peek(&self, addr: Word) -> (r: Result<Word, Fault>)
        ensures
            r == crate::intcode::memory::load(self@.cells, addr),
    {
        self.memory.read(addr)
    }

    /// Carries out an instruction that is neither a halt nor a starved input.
    fn apply(&mut self, instruction: &Instruction) -> (r: Result<(), Fault>)
        requires
            !(instruction.op is Halt),
            !(instruction.op is Input && old(self)@.input.len() == 0),
        ensures
            match perform(old(self)@, *instruction) {
                Ok(next) => r is Ok && final(self)@ == next,
                Err(fault) => r == Err::<(), Fault>(fault) && final(self)@ == old(self)@,
            },
    {
        let args = collect_parameters(&self.memory, self.ip, self.rb, instruction)?;
        let op = instruction.op;
        let n = op.read_count();
        let mut dest: Word = 0;
        if op.has_target() {
            dest = position_result(
                &self.memory,
                self.ip.wrapping_add((n + 1) as i64),
                self.rb,
                instruction.mode_of(n + 1),
            )?;
        }
        let jumps = match op {
            Opcode::JumpIfTrue => args[0] != 0,
            Opcode::JumpIfFalse => args[0] == 0,
            _ => false,
        };
        let length: Word = if op.has_target() {
            n as i64 + 2
        } else {
            n as i64 + 1
        };
        let next = if jumps {
            args[1]
        } else {
            self.ip.wrapping_add(length)
        };
        if next < 0 {
            return Err(Fault::NegativeAddress);
        }
        match op {
            Opcode::Add => {
                let _ = self.memory.write(dest, args[0].wrapping_add(args[1]));
            },
            Opcode::Mul => {
                let _ = self.memory.write(dest, args[0].wrapping_mul(args[1]));
            },
            Opcode::Input => {
                match self.input.pop_front() {
                    Some(value) => {
                        let _ = self.memory.write(dest, value);
                    },
                    None => {},
                }
            },
            Opcode::Output => {
                self.output.push(args[0]);
            },
            Opcode::LessThan => {
                let flag: Word = if args[0] < args[1] {
                    1
                } else {
                    0
                };
                let _ = self.memory.write(dest, flag);
            },
            Opcode::Equals => {
                let flag: Word = if args[0] == args[1] {
                    1
                } else {
                    0
                };
                let _ = self.memory.write(dest, flag);
            },
            Opcode::AdjustRelativeBase => {
                self.rb = self.rb.wrapping_add(args[0]);
            },
            _ => {},
        }
        self.ip = next;
        Ok(())
    }

    /// Executes one instruction if the machine is running, and nothing otherwise.
    pub fn step(&mut self) -> (status: RunStatus)
        ensures
            final(self)@ == step(old(self)@),
            status == final(self)@.status,
    {
        match self.status {
            RunStatus::Running => {},
            _ => { return self.status; },
        }
        let outcome = match self.memory.read(self.ip) {
            Err(fault) => Err(fault),
            Ok(word) => match decode(word) {
                Err(fault) => Err(fault),
                Ok(instruction) => {
                    if let Opcode::Halt = instruction.op {
                        self.status = RunStatus::Halted;
                        Ok(())
                    } else if let (Opcode::Input, 0) = (instruction.op, self.input.len()) {
                        self.status = RunStatus::AwaitingInput;
                        Ok(())
                    } else {
                        self.apply(&instruction)
                    }
                },
            },
        };
        if let Err(fault) = outcome {
            self.status = RunStatus::Faulted(fault);
        }
        self.status
    }

    /// The interpreter loop: executes instructions until the machine halts,
    /// faults or starves on input. A call returns only if the machine stops, and
    /// the precondition asks for exactly that.
    pub fn run(&mut self) -> (status: RunStatus)
        requires
            stops(old(self)@),
        ensures
            final(self)@ == settled(old(self)@),
            status == final(self)@.status,
            !(status is Running),
    {
        let ghost start = self@;
        let ghost mut fuel: nat = choose|n: nat| !(#[trigger] run_n(start, n).status is Running);
        let ghost mut done: nat = 0;
        loop
            invariant
                self@ == run_n(start, done),
                !(run_n(self@, fuel).status is Running),
            ensures
                !(self@.status is Running),
            decreases fuel,
        {
            match self.status {
                RunStatus::Running => {},
                _ => { break ; },
            }
            proof {
                lemma_run_split(self@, 1, (fuel - 1) as nat);
                assert(run_n(self@, 1) == step(run_n(self@, 0)));
                fuel = (fuel - 1) as nat;
                done = done + 1;
            }
            self.step();
        }
        proof {
            lemma_settled(start, done);
        }
        self.status
    }

    /// Runs the machine until it halts, faults or starves on input, and returns
    /// the status in which it stopped. A machine that is ready or was waiting for
    /// input starts to run; one that halted or faulted is left as it is. Outputs
    /// stay queued until they are drained.
    pub fn resume(&mut self) -> (status: RunStatus)
        requires
            stops(started(old(self)@)),
        ensures
            final(self)@ == resumed(old(self)@),
            status == final(self)@.status,
            status is AwaitingInput || status is Halted || status is Faulted,
            (exists|n: nat| #[trigger] run_n(started(old(self)@), n).status is Halted)
                ==> status is Halted,
    {
        match self.status {
            RunStatus::Ready | RunStatus::AwaitingInput => {
                self.status = RunStatus::Running;
            },
            _ => {},
        }
        proof {
            let s = started(old(self)@);
            crate::intcode::model::lemma_never_ready(
                s,
                choose|n: nat| !(#[trigger] run_n(s, n).status is Running),
            );
            if exists|n: nat| #[trigger] run_n(s, n).status is Halted {
                let n = choose|n: nat| #[trigger] run_n(s, n).status is Halted;
                lemma_settled(s, n);
            }
        }
        self.run()
    }

    /// Like [`Machine::resume`], but gives up after `limit` instructions: the
    /// machine is then left running, and a later call carries on from there.
    pub fn resume_bounded(&mut self, limit: u64) -> (status: RunStatus)
        ensures
            final(self)@ == run_n(started(old(self)@), limit as nat),
            status == final(self)@.status,
    {
        match self.status {
            RunStatus::Ready | RunStatus::AwaitingInput => {
                self.status = RunStatus::Running;
            },
            _ => {},
        }
        let ghost start = self@;
        let mut done: u64 = 0;
        while done < limit
            invariant
                done <= limit,
                start == started(old(self)@),
                self@ == run_n(start, done as nat),
            decreases limit - done,
        {
            match self.status {
                RunStatus::Running => {},
                _ => {
                    proof {
                        lemma_rest(self@, (limit - done) as nat);
                        lemma_run_split(start, done as nat, (limit - done) as nat);
                    }
                    return self.status;
                },
            }
            self.step();
            done += 1;
        }
        self.status
    }
}

} // verus!
