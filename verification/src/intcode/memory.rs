//! Sparse, zero-extending memory.

use crate::intcode::word::{Fault, Word};
use std::collections::HashMap;
use vstd::prelude::*;

verus! {

broadcast use vstd::std_specs::hash::group_hash_axioms;

/// The logical content of a memory: one word for every address from zero up.
pub type Cells = Map<Word, Word>;

/// The memory in which every cell is zero.
pub open spec fn blank() -> Cells {
    Map::new(|a: Word| a >= 0, |a: Word| 0)
}

/// The memory that holds `program` from address zero on, and zero everywhere else.
pub open spec fn image(program: Seq<Word>) -> Cells {
    Map::new(
        |a: Word| a >= 0,
        |a: Word|
            if a < program.len() {
                program[a as int]
            } else {
                0
            },
    )
}

/// What reading `addr` gives: negative addresses do not exist.
pub open spec fn load(cells: Cells, addr: Word) -> Result<Word, Fault> {
    if addr < 0 {
        Err(Fault::NegativeAddress)
    } else {
        Ok(cells[addr])
    }
}

/// What writing `value` to `addr` gives: the updated memory, or a fault that leaves
/// nothing to update.
pub open spec fn store(cells: Cells, addr: Word, value: Word) -> Result<Cells, Fault> {
    if addr < 0 {
        Err(Fault::NegativeAddress)
    } else {
        Ok(cells.insert(addr, value))
    }
}

/// An integer store indexed by the non-negative words. Cells that were never
/// written read as zero, and a write to any non-negative address succeeds.
pub struct Memory {
    written: HashMap<Word, Word>,
}

impl View for Memory {
    type V = Cells;

    closed spec fn view(&self) -> Cells {
        Map::new(
            |a: Word| a >= 0,
            |a: Word|
                if self.written@.contains_key(a) {
                    self.written@[a]
                } else {
                    0
                },
        )
    }
}

impl Memory {
    /// A memory of zeros.
    pub fn new() -> (m: Memory)
        ensures
            m@ == blank(),
    {
        let m = Memory { written: HashMap::new() };
        assert(m@ =~= blank());
        m
    }

    /// A memory initialised from a program image, one word per cell from address zero.
    pub fn from_program(program: &[Word]) -> (m: Memory)
        ensures
            m@ == image(program@),
    {
        let mut written: HashMap<Word, Word> = HashMap::new();
        let mut i: usize = 0;
        while i < program.len() && i as u64 <= i64::MAX as u64
            invariant
                i <= program.len(),
                i <= i64::MAX + 1,
                forall|a: Word|
                    0 <= a < i ==> #[trigger] written@.contains_key(a) && written@[a]
                        == program@[a as int],
                forall|a: Word| #[trigger] written@.contains_key(a) ==> 0 <= a < i,
            decreases program.len() - i,
        {
            let ghost before = written@;
            written.insert(i as i64, program[i]);
            assert(written@ == before.insert(i as i64, program@[i as int]));
            i += 1;
        }
        let m = Memory { written };
        assert(m@ =~= image(program@));
        m
    }

    /// Reads the cell at `addr`.
    pub fn read(&self, addr: Word) -> (r: Result<Word, Fault>)
        ensures
            r == load(self@, addr),
    {
        if addr < 0 {
            return Err(Fault::NegativeAddress);
        }
        match self.written.get(&addr) {
            Some(v) => Ok(*v),
            None => Ok(0),
        }
    }

    /// Writes `value` to the cell at `addr`. A negative address changes nothing.
    pub fn write(&mut self, addr: Word, value: Word) -> (r: Result<(), Fault>)
        ensures
            match store(old(self)@, addr, value) {
                Ok(cells) => r is Ok && final(self)@ == cells,
                Err(fault) => r == Err::<(), Fault>(fault) && final(self)@ == old(self)@,
            },
    {
        if addr < 0 {
            return Err(Fault::NegativeAddress);
        }
        self.written.insert(addr, value);
        assert(self@ =~= old(self)@.insert(addr, value));
        Ok(())
    }
}

} // verus!
