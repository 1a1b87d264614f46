//! Laws of the memory and of the machine, proved over the model.

use crate::intcode::decode::{decoded, Mode};
use crate::intcode::memory::{blank, image, load, store, Cells};
use crate::intcode::model::{
    destination, execute, lemma_rest, lemma_run_split, lemma_settled, operand, operands, resumed,
    run_n, settled, slot, started, step, stops, successor, target, MachineState,
};
use crate::intcode::word::{Fault, RunStatus, Word};
use vstd::prelude::*;

verus! {

/// The memory after a sequence of writes, each given as address and value, in
/// order. A write that faults changes nothing.
pub open spec fn stored(cells: Cells, writes: Seq<(Word, Word)>) -> Cells
    decreases writes.len(),
{
    if writes.len() == 0 {
        cells
    } else {
        let rest = stored(cells, writes.drop_last());
        match store(rest, writes.last().0, writes.last().1) {
            Ok(next) => next,
            Err(_) => rest,
        }
    }
}

/// A write to a non-negative address followed by a read of that address, with
/// any number of writes to other addresses in between, returns the written value.
pub proof fn lemma_read_after_write(
    cells: Cells,
    addr: Word,
    value: Word,
    others: Seq<(Word, Word)>,
)
    requires
        addr >= 0,
        forall|i: int| 0 <= i < others.len() ==> (#[trigger] others[i]).0 != addr,
    ensures
        store(cells, addr, value) is Ok,
        load(stored(store(cells, addr, value)->Ok_0, others), addr) == Ok::<Word, Fault>(value),
    decreases others.len(),
{
    if others.len() > 0 {
        lemma_read_after_write(cells, addr, value, others.drop_last());
    }
}

/// A read of a non-negative address that was never written returns zero: in a
/// blank memory, and beyond the end of a program image, whatever was written
/// to other addresses.
pub proof fn lemma_unwritten_reads_zero(program: Seq<Word>, addr: Word, writes: Seq<(Word, Word)>)
    requires
        addr >= 0,
        forall|i: int| 0 <= i < writes.len() ==> (#[trigger] writes[i]).0 != addr,
    ensures
        load(stored(blank(), writes), addr) == Ok::<Word, Fault>(0),
        addr >= program.len() ==> load(stored(image(program), writes), addr) == Ok::<Word, Fault>(
            0,
        ),
    decreases writes.len(),
{
    if writes.len() > 0 {
        lemma_unwritten_reads_zero(program, addr, writes.drop_last());
    }
}

/// A read or a write at a negative address faults, and the write leaves the
/// memory as it was.
pub proof fn lemma_negative_address_faults(cells: Cells, addr: Word, value: Word)
    requires
        addr < 0,
    ensures
        load(cells, addr) == Err::<Word, Fault>(Fault::NegativeAddress),
        store(cells, addr, value) == Err::<Cells, Fault>(Fault::NegativeAddress),
        stored(cells, seq![(addr, value)]) == cells,
{
    assert(seq![(addr, value)].drop_last() =~= Seq::empty());
    assert(stored(cells, Seq::empty()) == cells);
}

/// Whether the parameter stored at `at` names a negative address: its own
/// cell has one, or, in position or relative mode, the cell it points to.
pub open spec fn names_negative(cells: Cells, at: Word, rb: Word, mode: Mode) -> bool {
    ||| at < 0
    ||| mode is Position && cells[at] < 0
    ||| mode is Relative && cells[at].wrapping_add(rb) < 0
}

/// A parameter that names a negative address cannot be resolved, whether it is
/// read or written.
pub proof fn lemma_negative_parameter(cells: Cells, at: Word, rb: Word, mode: Mode)
    requires
        names_negative(cells, at, rb, mode),
    ensures
        operand(cells, at, rb, mode) == Err::<Word, Fault>(Fault::NegativeAddress),
        target(cells, at, rb, mode) == Err::<Word, Fault>(Fault::NegativeAddress),
{
}

/// A machine that halted or faulted stays as it is when it is resumed.
pub proof fn lemma_terminal_is_final(s: MachineState)
    requires
        s.status.is_terminal(),
    ensures
        stops(started(s)),
        resumed(s) == s,
{
    lemma_settled(s, 0);
}

/// A step that ends in a fault changes nothing but the status: not the memory,
/// not the registers, not the queues.
pub proof fn lemma_fault_changes_nothing(s: MachineState)
    requires
        s.status is Running,
        step(s).status is Faulted,
    ensures
        step(s) == s.with_status(step(s).status),
        step(s).cells == s.cells,
{
}

/// Negative addressing always faults and never changes the memory: a machine
/// whose instruction pointer is negative, or whose next instruction has, among
/// the parameters it uses, one that names a negative address, stops with a
/// fault, and nothing but its status changes.
pub proof fn lemma_negative_addressing_faults(s: MachineState, k: int)
    requires
        s.status is Running,
        s.ip < 0 || ({
            &&& decoded(s.cells[s.ip]) matches Ok(instruction)
            &&& !(instruction.op is Halt)
            &&& !(instruction.op is Input && s.input.len() == 0)
            &&& 1 <= k <= instruction.op.length() - 1
            &&& names_negative(s.cells, slot(s.ip, k as Word), s.rb, instruction.mode(k))
        }),
    ensures
        step(s).status is Faulted,
        s.ip < 0 ==> step(s).status == RunStatus::Faulted(Fault::NegativeAddress),
        step(s) == s.with_status(step(s).status),
        step(s).cells == s.cells,
{
}

/// A jump to a negative address faults, and the machine stays where it was.
pub proof fn lemma_negative_jump_faults(s: MachineState)
    requires
        s.status is Running,
        s.ip >= 0,
        decoded(s.cells[s.ip]) matches Ok(instruction) && (instruction.op is JumpIfTrue
            || instruction.op is JumpIfFalse) && (operands(s.cells, s.ip, s.rb, instruction)
            matches Ok(args) && args[1] < 0 && (args[0] != 0 <==> instruction.op is JumpIfTrue)),
    ensures
        step(s) == s.with_status(RunStatus::Faulted(Fault::NegativeAddress)),
{
}

/// The instruction pointer of a running machine is never negative after a step.
pub proof fn lemma_instruction_pointer_stays(s: MachineState, n: nat)
    requires
        s.ip >= 0,
    ensures
        run_n(s, n).ip >= 0,
    decreases n,
{
    if n > 0 {
        lemma_instruction_pointer_stays(s, (n - 1) as nat);
    }
}

/// A program that halts is reported as halted: if some number of steps takes the
/// started machine to a halt, `resume` may be called, and the state it leaves is
/// halted.
pub proof fn lemma_halting_program_halts(s: MachineState, n: nat)
    requires
        run_n(started(s), n).status is Halted,
    ensures
        stops(started(s)),
        resumed(s).status is Halted,
        resumed(s) == run_n(started(s), n),
{
    lemma_settled(started(s), n);
}

/// Whether the next step of `s` is an input instruction that stores a value.
pub open spec fn consumes(s: MachineState) -> bool {
    &&& s.status is Running
    &&& s.input.len() > 0
    &&& load(s.cells, s.ip) matches Ok(word)
    &&& decoded(word) matches Ok(instruction)
    &&& instruction.op is Input
    &&& execute(s) is Ok
}

/// An input instruction takes the value at the front of the queue, stores it in
/// the cell that its parameter names, and leaves the rest of the queue in order.
/// Values are appended at the back, so they are consumed first in, first out.
pub proof fn lemma_input_takes_front(s: MachineState)
    requires
        consumes(s),
    ensures
        ({
            let instruction = decoded(load(s.cells, s.ip)->Ok_0)->Ok_0;
            let dest = destination(s.cells, s.ip, s.rb, instruction)->Ok_0->0;
            &&& step(s).cells == s.cells.insert(dest, s.input[0])
            &&& step(s).input == s.input.drop_first()
        }),
{
}

/// Every step leaves the input queue as it was or removes its front, so what
/// remains after any number of steps is a suffix of the queue: the values taken
/// so far are a prefix of it, taken in order.
pub proof fn lemma_inputs_consumed_in_order(s: MachineState, n: nat)
    ensures
        run_n(s, n).input.len() <= s.input.len(),
        run_n(s, n).input == s.input.skip(s.input.len() - run_n(s, n).input.len()),
    decreases n,
{
    if n == 0 {
        assert(s.input.skip(0) =~= s.input);
    } else {
        let r = run_n(s, (n - 1) as nat);
        lemma_inputs_consumed_in_order(s, (n - 1) as nat);
        let k = s.input.len() - r.input.len();
        if step(r).input != r.input {
            assert(step(r).input == r.input.drop_first());
            assert(r.input.len() > 0);
            assert(s.input.skip(k).drop_first() =~= s.input.skip(k + 1));
        }
    }
}

/// The sum of `deltas` in word arithmetic.
pub open spec fn total(deltas: Seq<Word>) -> Word
    decreases deltas.len(),
{
    if deltas.len() == 0 {
        0
    } else {
        total(deltas.drop_last()).wrapping_add(deltas.last())
    }
}

/// The sum of `deltas` as a mathematical integer.
pub open spec fn plain_sum(deltas: Seq<Word>) -> int
    decreases deltas.len(),
{
    if deltas.len() == 0 {
        0
    } else {
        plain_sum(deltas.drop_last()) + deltas.last()
    }
}

/// Where no partial sum leaves the range of a word, word arithmetic gives the
/// plain sum.
pub proof fn lemma_total_is_sum(deltas: Seq<Word>)
    requires
        forall|k: int|
            0 <= k <= deltas.len() ==> i64::MIN <= #[trigger] plain_sum(deltas.take(k)) <= i64::MAX,
    ensures
        total(deltas) == plain_sum(deltas),
    decreases deltas.len(),
{
    if deltas.len() > 0 {
        let front = deltas.drop_last();
        assert forall|k: int| 0 <= k <= front.len() implies i64::MIN <= #[trigger] plain_sum(
            front.take(k),
        ) <= i64::MAX by {
            assert(front.take(k) =~= deltas.take(k));
        }
        lemma_total_is_sum(front);
        assert(deltas.take(deltas.len() as int) =~= deltas);
        assert(front =~= deltas.take(deltas.len() - 1));
    }
}

/// Whether the next step of `s` adjusts the relative base by `delta`.
pub open spec fn adjusts(s: MachineState, delta: Word) -> bool {
    &&& s.status is Running
    &&& load(s.cells, s.ip) matches Ok(word)
    &&& decoded(word) matches Ok(instruction)
    &&& instruction.op is AdjustRelativeBase
    &&& operands(s.cells, s.ip, s.rb, instruction) == Ok::<Seq<Word>, Fault>(seq![delta])
    &&& successor(s.ip, instruction.op, seq![delta]) is Ok
}

/// Word addition is associative.
pub proof fn lemma_wrapping_add_associative(a: Word, b: Word, c: Word)
    ensures
        a.wrapping_add(b).wrapping_add(c) == a.wrapping_add(b.wrapping_add(c)),
{
}

/// Shifts of the relative base accumulate: a run of adjustments by `deltas`
/// leaves the relative base where one adjustment by their sum would.
pub proof fn lemma_relative_base_accumulates(s: MachineState, deltas: Seq<Word>)
    requires
        forall|i: int| 0 <= i < deltas.len() ==> adjusts(#[trigger] run_n(s, i as nat), deltas[i]),
    ensures
        run_n(s, deltas.len()).rb == s.rb.wrapping_add(total(deltas)),
    decreases deltas.len(),
{
    if deltas.len() > 0 {
        let n = (deltas.len() - 1) as nat;
        let front = deltas.drop_last();
        assert forall|i: int| 0 <= i < front.len() implies adjusts(
            #[trigger] run_n(s, i as nat),
            front[i],
        ) by {
            assert(front[i] == deltas[i]);
        }
        lemma_relative_base_accumulates(s, front);
        let r = run_n(s, n);
        assert(adjusts(r, deltas[n as int]));
        assert(step(r).rb == r.rb.wrapping_add(deltas.last()));
        lemma_wrapping_add_associative(s.rb, total(front), deltas.last());
    }
}

/// A running machine settles where its next state settles.
pub proof fn lemma_settled_after_step(s: MachineState)
    requires
        stops(s) || stops(step(s)),
    ensures
        stops(s),
        stops(step(s)),
        settled(s) == settled(step(s)),
{
    if stops(s) {
        let n = choose|n: nat| !(#[trigger] run_n(s, n).status is Running);
        lemma_settled(s, n);
        lemma_run_split(s, 1, n);
        assert(run_n(s, 1) == step(run_n(s, 0)));
        lemma_run_split(s, n, 1);
        assert(run_n(run_n(s, n), 1) == step(run_n(run_n(s, n), 0)));
        lemma_settled(step(s), n);
        lemma_settled(s, n + 1);
    } else {
        let n = choose|n: nat| !(#[trigger] run_n(step(s), n).status is Running);
        lemma_settled(step(s), n);
        lemma_run_split(s, 1, n);
        assert(run_n(s, 1) == step(run_n(s, 0)));
        lemma_settled(s, 1 + n);
    }
}

/// What a machine does never depends on the outputs it has queued: putting
/// earlier outputs back in front of the queue commutes with running.
pub proof fn lemma_run_undrained(s: MachineState, earlier: Seq<Word>, n: nat)
    ensures
        run_n(s.undrained(earlier), n) == run_n(s, n).undrained(earlier),
    decreases n,
{
    if n > 0 {
        lemma_run_undrained(s, earlier, (n - 1) as nat);
        let r = run_n(s, (n - 1) as nat);
        assert(step(r.undrained(earlier)) == step(r).undrained(earlier)) by {
            assert(step(r.undrained(earlier)).output =~= step(r).undrained(earlier).output);
        }
    }
}

/// Putting earlier outputs back in front of the queue commutes with resuming.
pub proof fn lemma_resumed_undrained(s: MachineState, earlier: Seq<Word>)
    requires
        stops(started(s)),
    ensures
        stops(started(s.undrained(earlier))),
        resumed(s.undrained(earlier)) == resumed(s).undrained(earlier),
{
    let n = choose|n: nat| !(#[trigger] run_n(started(s), n).status is Running);
    lemma_settled(started(s), n);
    lemma_run_undrained(started(s), earlier, n);
    lemma_settled(started(s).undrained(earlier), n);
}

/// While a machine does not starve, inputs that arrive later make no difference
/// to a step: they wait at the back of the queue.
pub proof fn lemma_step_fed(s: MachineState, later: Seq<Word>)
    requires
        !(s.status is Running && step(s).status is AwaitingInput),
    ensures
        step(s.fed(later)) == step(s).fed(later),
{
    if s.status is Running {
        assert(step(s.fed(later)).input =~= step(s).fed(later).input) by {
            if s.input.len() > 0 {
                assert((s.input + later).drop_first() =~= s.input.drop_first() + later);
            }
        }
    }
}

/// Feeding a machine after it has come to rest, and resuming it, leads to the
/// state in which it would have come to rest had the values been queued from
/// the start.
pub proof fn lemma_feed_later(s: MachineState, later: Seq<Word>, n: nat)
    requires
        !(s.status is Ready) && !(s.status is AwaitingInput),
        !(run_n(s, n).status is Running),
        stops(started(settled(s).fed(later))),
    ensures
        stops(s.fed(later)),
        settled(s.fed(later)) == resumed(settled(s).fed(later)),
    decreases n,
{
    lemma_settled(s, n);
    if !(s.status is Running) {
        lemma_rest(s, n);
        lemma_settled(s.fed(later), 0);
    } else if step(s).status is AwaitingInput {
        assert(s.input.len() == 0);
        lemma_settled(s, 1);
        assert(run_n(s, 1) == step(run_n(s, 0)));
        assert(started(settled(s).fed(later)) == s.fed(later));
    } else {
        assert(n > 0);
        lemma_run_split(s, 1, (n - 1) as nat);
        assert(run_n(s, 1) == step(run_n(s, 0)));
        lemma_settled_after_step(s);
        lemma_step_fed(s, later);
        lemma_feed_later(step(s), later, (n - 1) as nat);
        lemma_settled_after_step(s.fed(later));
    }
}

/// Two calls of `resume`, the first after feeding `a`, the second after
/// draining and feeding `b`, emit between them what a single call after
/// feeding `a` and `b` emits, and leave the machine in the same state.
pub proof fn lemma_outputs_concatenate(m: MachineState, a: Seq<Word>, b: Seq<Word>)
    requires
        stops(started(m.fed(a))),
        stops(started(resumed(m.fed(a)).drained().fed(b))),
    ensures
        stops(started(m.fed(a + b))),
        resumed(m.fed(a + b)) == resumed(resumed(m.fed(a)).drained().fed(b)).undrained(
            resumed(m.fed(a)).output,
        ),
        resumed(m.fed(a + b)).output == resumed(m.fed(a)).output + resumed(
            resumed(m.fed(a)).drained().fed(b),
        ).output,
{
    let s = started(m.fed(a));
    let first = resumed(m.fed(a));
    let n = choose|n: nat| !(#[trigger] run_n(s, n).status is Running);
    lemma_settled(s, n);
    assert(first.drained().fed(b).undrained(first.output) == first.fed(b)) by {
        assert(first.output + Seq::<Word>::empty() =~= first.output);
    }
    lemma_resumed_undrained(first.drained().fed(b), first.output);
    lemma_feed_later(s, b, n);
    assert(s.fed(b) == started(m.fed(a + b))) by {
        assert((m.input + a) + b =~= m.input + (a + b));
    }
}

/// Whether every call of `resume` in a session returns: a session feeds one
/// batch of inputs, resumes, drains, and goes on to the next batch.
pub open spec fn session_stops(m: MachineState, batches: Seq<Seq<Word>>) -> bool
    decreases batches.len(),
{
    if batches.len() == 0 {
        true
    } else {
        &&& stops(started(m.fed(batches.first())))
        &&& session_stops(resumed(m.fed(batches.first())).drained(), batches.drop_first())
    }
}

/// The outputs drained over a session, concatenated in the order they were drained.
pub open spec fn transcript(m: MachineState, batches: Seq<Seq<Word>>) -> Seq<Word>
    decreases batches.len(),
{
    if batches.len() == 0 {
        Seq::empty()
    } else {
        let rested = resumed(m.fed(batches.first()));
        rested.output + transcript(rested.drained(), batches.drop_first())
    }
}

/// The outputs drained across successive calls of `resume` are, concatenated,
/// the outputs of one uninterrupted run that has all the inputs from the start.
pub proof fn lemma_session_matches_single_run(m: MachineState, batches: Seq<Seq<Word>>)
    requires
        batches.len() > 0,
        session_stops(m, batches),
    ensures
        stops(started(m.fed(batches.flatten()))),
        resumed(m.fed(batches.flatten())).output == transcript(m, batches),
    decreases batches.len(),
{
    let head = batches.first();
    let rest = batches.drop_first();
    let rested = resumed(m.fed(head));
    if rest.len() == 0 {
        assert(rest.flatten() =~= Seq::<Word>::empty());
        assert(batches.flatten() =~= head);
        assert(transcript(rested.drained(), rest) =~= Seq::<Word>::empty());
        assert(rested.output + Seq::<Word>::empty() =~= rested.output);
    } else {
        lemma_session_matches_single_run(rested.drained(), rest);
        lemma_outputs_concatenate(m, head, rest.flatten());
        assert(batches.flatten() =~= head + rest.flatten());
    }
}

} // verus!
