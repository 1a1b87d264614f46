//! Instruction words: the operation in the two low decimal digits, one mode
//! digit for each of three parameters above them.

use crate::intcode::word::{Fault, Word};
use crate::text::{decimal, numerals};
use vstd::prelude::*;

verus! {

/// The ten operations of the instruction set.
#[derive(Clone, Copy, Debug, PartialEq, Eq, Structural)]
pub enum Opcode {
    /// 1: third := first + second.
    Add,
    /// 2: third := first * second.
    Mul,
    /// 3: first := next input.
    Input,
    /// 4: emit first.
    Output,
    /// 5: jump to second if first is non-zero.
    JumpIfTrue,
    /// 6: jump to second if first is zero.
    JumpIfFalse,
    /// 7: third := 1 if first < second, else 0.
    LessThan,
    /// 8: third := 1 if first == second, else 0.
    Equals,
    /// 9: relative base += first.
    AdjustRelativeBase,
    /// 99: stop.
    Halt,
}

/// How a parameter is turned into a value or an address.
#[derive(Clone, Copy, Debug, PartialEq, Eq, Structural)]
pub enum Mode {
    /// 0: the parameter is an address.
    Position,
    /// 1: the parameter is the value itself.
    Immediate,
    /// 2: the parameter plus the relative base is an address.
    Relative,
}

/// A decoded instruction word.
#[derive(Clone, Copy, Debug, PartialEq, Eq, Structural)]
pub struct Instruction {
    pub op: Opcode,
    pub first: Mode,
    pub second: Mode,
    pub third: Mode,
}

impl Opcode {
    /// The operation that a two-digit code names, if any.
    pub open spec fn of_code(code: int) -> Option<Opcode> {
        if code == 1 {
            Some(Opcode::Add)
        } else if code == 2 {
            Some(Opcode::Mul)
        } else if code == 3 {
            Some(Opcode::Input)
        } else if code == 4 {
            Some(Opcode::Output)
        } else if code == 5 {
            Some(Opcode::JumpIfTrue)
        } else if code == 6 {
            Some(Opcode::JumpIfFalse)
        } else if code == 7 {
            Some(Opcode::LessThan)
        } else if code == 8 {
            Some(Opcode::Equals)
        } else if code == 9 {
            Some(Opcode::AdjustRelativeBase)
        } else if code == 99 {
            Some(Opcode::Halt)
        } else {
            None
        }
    }

    /// How many leading parameters the operation reads.
    pub open spec fn reads(self) -> int {
        match self {
            Opcode::Add | Opcode::Mul | Opcode::LessThan | Opcode::Equals => 2,
            Opcode::JumpIfTrue | Opcode::JumpIfFalse => 2,
            Opcode::Output | Opcode::AdjustRelativeBase => 1,
            Opcode::Input | Opcode::Halt => 0,
        }
    }

    /// Whether the parameter after those it reads names a cell that it writes.
    pub open spec fn writes(self) -> bool {
        match self {
            Opcode::Add | Opcode::Mul | Opcode::LessThan | Opcode::Equals | Opcode::Input => true,
            _ => false,
        }
    }

    /// The number of words the instruction occupies: itself and its parameters.
    pub open spec fn length(self) -> int {
        if self is Halt {
            1
        } else {
            1 + self.reads() + if self.writes() {
                1int
            } else {
                0int
            }
        }
    }

    /// Exec counterpart of [`Opcode::reads`].
    pub fn read_count(&self) -> (n: u8)
        ensures
            n == self.reads(),
    {
        match self {
            Opcode::Add | Opcode::Mul | Opcode::LessThan | Opcode::Equals => 2,
            Opcode::JumpIfTrue | Opcode::JumpIfFalse => 2,
            Opcode::Output | Opcode::AdjustRelativeBase => 1,
            Opcode::Input | Opcode::Halt => 0,
        }
    }

    /// Exec counterpart of [`Opcode::writes`].
    pub fn has_target(&self) -> (b: bool)
        ensures
            b == self.writes(),
    {
        match self {
            Opcode::Add | Opcode::Mul | Opcode::LessThan | Opcode::Equals | Opcode::Input => true,
            _ => false,
        }
    }
}

impl Mode {
    /// The mode that a decimal digit names, if any.
    pub open spec fn of_digit(digit: int) -> Option<Mode> {
        if digit == 0 {
            Some(Mode::Position)
        } else if digit == 1 {
            Some(Mode::Immediate)
        } else if digit == 2 {
            Some(Mode::Relative)
        } else {
            None
        }
    }
}

impl Instruction {
    /// The mode of parameter `k`, counted from one. Parameters past the third
    /// have no digit of their own and are in position mode.
    pub open spec fn mode(self, k: int) -> Mode {
        if k == 1 {
            self.first
        } else if k == 2 {
            self.second
        } else if k == 3 {
            self.third
        } else {
            Mode::Position
        }
    }

    /// Exec counterpart of [`Instruction::mode`].
    pub fn mode_of(&self, k: u8) -> (m: Mode)
        ensures
            m == self.mode(k as int),
    {
        if k == 1 {
            self.first
        } else if k == 2 {
            self.second
        } else if k == 3 {
            self.third
        } else {
            Mode::Position
        }
    }
}

/// What an instruction word means. The word must not be negative, its two low
/// digits must name an operation, its next three digits must each be a mode, and
/// every digit above those must be zero.
pub open spec fn decoded(word: Word) -> Result<Instruction, Fault> {
    if word < 0 {
        Err(Fault::UnknownOpcode)
    } else {
        let w = word as int;
        match Opcode::of_code(w % 100) {
            None => Err(Fault::UnknownOpcode),
            Some(op) => match (
                Mode::of_digit((w / 100) % 10),
                Mode::of_digit((w / 1000) % 10),
                Mode::of_digit((w / 10000) % 10),
            ) {
                (Some(first), Some(second), Some(third)) => if w / 100000 != 0 {
                    Err(Fault::InvalidMode)
                } else {
                    Ok(Instruction { op, first, second, third })
                },
                _ => Err(Fault::InvalidMode),
            },
        }
    }
}

fn opcode_from(code: Word) -> (r: Option<Opcode>)
    ensures
        r == Opcode::of_code(code as int),
{
    if code == 1 {
        Some(Opcode::Add)
    } else if code == 2 {
        Some(Opcode::Mul)
    } else if code == 3 {
        Some(Opcode::Input)
    } else if code == 4 {
        Some(Opcode::Output)
    } else if code == 5 {
        Some(Opcode::JumpIfTrue)
    } else if code == 6 {
        Some(Opcode::JumpIfFalse)
    } else if code == 7 {
        Some(Opcode::LessThan)
    } else if code == 8 {
        Some(Opcode::Equals)
    } else if code == 9 {
        Some(Opcode::AdjustRelativeBase)
    } else if code == 99 {
        Some(Opcode::Halt)
    } else {
        None
    }
}

fn mode_from(digit: Word) -> (r: Option<Mode>)
    ensures
        r == Mode::of_digit(digit as int),
{
    if digit == 0 {
        Some(Mode::Position)
    } else if digit == 1 {
        Some(Mode::Immediate)
    } else if digit == 2 {
        Some(Mode::Relative)
    } else {
        None
    }
}

/// `text` with as many zeros put in front as it takes to make five digits.
pub open spec fn padded(text: Seq<u8>) -> Seq<u8> {
    if text.len() >= 5 {
        text
    } else {
        Seq::new((5 - text.len()) as nat, |i: int| 48u8) + text
    }
}

/// Makes the implicit leading zeros of an instruction word explicit: pads its
/// decimal text on the left to the five digits of the instruction format.
pub fn pad(s: Vec<u8>) -> (text: Vec<u8>)
    ensures
        text@ == padded(s@),
{
    let mut text = s;
    let ghost given = text@;
    assert(Seq::new(0, |i: int| 48u8) + given =~= given);
    while text.len() < 5
        invariant
            given.len() <= text.len() <= 5 || text@ == given,
            text@ == Seq::new((text.len() - given.len()) as nat, |i: int| 48u8) + given,
        decreases 5 - text.len(),
    {
        let ghost shorter = text@;
        text.insert(0, 48);
        assert(text@ =~= Seq::new((text.len() - given.len()) as nat, |i: int| 48u8) + given);
    }
    text
}

/// The padded text of an instruction word spells out the fields that
/// [`decoded`] takes from it: the last two digits are the operation code, the
/// three before them the modes of the third, second and first parameter, and
/// the text is longer than five digits just when a higher digit is not zero.
pub proof fn lemma_instruction_text(w: nat)
    ensures
        ({
            let text = padded(numerals(w));
            let n = text.len() as int;
            &&& n >= 5
            &&& n == 5 <==> w / 100000 == 0
            &&& text[n - 1] == 48 + w % 10
            &&& text[n - 2] == 48 + (w / 10) % 10
            &&& text[n - 3] == 48 + (w / 100) % 10
            &&& text[n - 4] == 48 + (w / 1000) % 10
            &&& text[n - 5] == 48 + (w / 10000) % 10
        }),
{
    reveal_with_fuel(numerals, 6);
    let a = w / 10;
    let b = a / 10;
    let c = b / 10;
    let d = c / 10;
    let e = d / 10;
    assert(b == w / 100 && c == w / 1000 && d == w / 10000 && e == w / 100000);
    assert(numerals(e).len() >= 1);
}

/// The fields of an instruction word, read off its padded decimal text: the
/// operation code, the mode digits of the first, second and third parameter,
/// and whether any digit above them is not zero.
fn split_word(word: Word) -> (r: (Word, Word, Word, Word, bool))
    requires
        word >= 0,
    ensures
        r.0 == (word as int) % 100,
        r.1 == ((word as int) / 100) % 10,
        r.2 == ((word as int) / 1000) % 10,
        r.3 == ((word as int) / 10000) % 10,
        r.4 == ((word as int) / 100000 != 0),
{
    let text = pad(decimal(word as u64));
    proof {
        lemma_instruction_text(word as nat);
    }
    let n = text.len();
    let ones: u8 = text[n - 1] - 48;
    let tens: u8 = text[n - 2] - 48;
    let first: u8 = text[n - 3] - 48;
    let second: u8 = text[n - 4] - 48;
    let third: u8 = text[n - 5] - 48;
    assert(tens * 10 + ones == (word as int) % 100);
    (tens as Word * 10 + ones as Word, first as Word, second as Word, third as Word, n != 5)
}

/// Splits an instruction word into its operation and the modes of its three
/// parameters.
pub fn decode(word: Word) -> (r: Result<Instruction, Fault>)
    ensures
        r == decoded(word),
{
    if word < 0 {
        return Err(Fault::UnknownOpcode);
    }
    let (code, first, second, third, wide) = split_word(word);
    let op = match opcode_from(code) {
        Some(op) => op,
        None => { return Err(Fault::UnknownOpcode); },
    };
    match (mode_from(first), mode_from(second), mode_from(third)) {
        (Some(first), Some(second), Some(third)) => {
            if wide {
                Err(Fault::InvalidMode)
            } else {
                Ok(Instruction { op, first, second, third })
            }
        },
        _ => Err(Fault::InvalidMode),
    }
}

} // verus!
