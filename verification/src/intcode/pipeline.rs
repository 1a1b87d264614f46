//! The pipeline driver: machines in a ring, each one's outputs feeding the next
//! one's inputs, resumed in turn until all of them have halted.

use crate::intcode::machine::Machine;
use crate::intcode::model::{lemma_settled, resumed, run_n, started, stops, MachineState};
use crate::intcode::word::{Fault, RunStatus, Word};
use vstd::pervasive::unreached;
use vstd::prelude::*;

verus! {

/// A pipeline between two turns.
pub struct PipelineState {
    /// The machines, in ring order.
    pub machines: Seq<MachineState>,
    /// The machine whose turn is next.
    pub cursor: int,
    /// How many turns in a row have made no progress.
    pub idle: int,
    /// The last value pushed into the first machine's input queue.
    pub signal: Word,
    /// How the run ended, once it has.
    pub outcome: Option<Result<Word, Fault>>,
}

/// The states of a row of machines.
pub open spec fn states(machines: Seq<Machine>) -> Seq<MachineState> {
    machines.map_values(|m: Machine| m@)
}

/// Whether every machine has halted.
pub open spec fn all_halted(machines: Seq<MachineState>) -> bool {
    forall|i: int| 0 <= i < machines.len() ==> (#[trigger] machines[i]).status is Halted
}

/// The pipeline as it starts: the initial signal is pushed into the first
/// machine's input queue. A pipeline of no machines passes the signal through.
pub open spec fn primed(machines: Seq<MachineState>, signal: Word) -> PipelineState {
    if machines.len() == 0 {
        PipelineState { machines, cursor: 0, idle: 0, signal, outcome: Some(Ok(signal)) }
    } else {
        PipelineState {
            machines: machines.update(0, machines[0].fed(seq![signal])),
            cursor: 0,
            idle: 0,
            signal,
            outcome: None,
        }
    }
}

/// One turn: the machine at the cursor is resumed, its outputs are drained and
/// pushed, in order, into the next machine's input queue, and the cursor moves
/// on. A turn makes progress if the machine's status changed or it produced
/// output. The run ends with the fault of a machine that faulted, with the
/// signal once all machines have halted, and with a deadlock once as many turns
/// as there are machines have passed without progress.
#[verifier::opaque]
pub open spec fn turn(p: PipelineState) -> PipelineState {
    if p.outcome is Some || !(0 <= p.cursor < p.machines.len()) {
        p
    } else {
        let n = p.machines.len() as int;
        let next = (p.cursor + 1) % n;
        let before = p.machines[p.cursor];
        let after = resumed(before);
        let emitted = after.output;
        let drained = p.machines.update(p.cursor, after.drained());
        let machines = drained.update(next, drained[next].fed(emitted));
        let idle = if after.status != before.status || emitted.len() > 0 {
            0
        } else {
            p.idle + 1
        };
        let signal = if next == 0 && emitted.len() > 0 {
            emitted.last()
        } else {
            p.signal
        };
        let outcome = if after.status is Faulted {
            Some(Err(after.status->0))
        } else if all_halted(machines) {
            Some(Ok(signal))
        } else if idle >= n {
            Some(Err(Fault::PipelineDeadlock))
        } else {
            None
        };
        PipelineState { machines, cursor: next, idle, signal, outcome }
    }
}

/// The pipeline after `k` turns.
pub open spec fn rounds(p: PipelineState, k: nat) -> PipelineState
    decreases k,
{
    if k == 0 {
        p
    } else {
        rounds(turn(p), (k - 1) as nat)
    }
}

/// Whether the run ends within `k` turns, each of them resuming a machine that stops.
pub open spec fn completes(p: PipelineState, k: nat) -> bool
    decreases k,
{
    p.outcome is Some || (k > 0 && 0 <= p.cursor < p.machines.len() && stops(
        started(p.machines[p.cursor]),
    ) && completes(turn(p), (k - 1) as nat))
}

/// Whether the run ends at all.
pub open spec fn finishes(p: PipelineState) -> bool {
    exists|k: nat| completes(p, k)
}

/// The pipeline as the run leaves it, if it [`finishes`].
pub open spec fn finished(p: PipelineState) -> PipelineState {
    rounds(p, choose|k: nat| completes(p, k))
}

/// A run that has ended stays as it is.
pub proof fn lemma_ended(p: PipelineState, k: nat)
    requires
        p.outcome is Some,
    ensures
        rounds(p, k) == p,
    decreases k,
{
    if k > 0 {
        reveal(turn);
        lemma_ended(p, (k - 1) as nat);
    }
}

/// However many turns are allowed beyond those that the run needs, it ends in
/// the same state.
pub proof fn lemma_completes_unique(p: PipelineState, a: nat, b: nat)
    requires
        completes(p, a),
        completes(p, b),
    ensures
        rounds(p, a) == rounds(p, b),
        rounds(p, a).outcome is Some,
    decreases a,
{
    if p.outcome is Some {
        lemma_ended(p, a);
        lemma_ended(p, b);
    } else {
        lemma_completes_unique(turn(p), (a - 1) as nat, (b - 1) as nat);
    }
}

/// A run that ends within `k` turns ends in the state that `finished` names.
pub proof fn lemma_finished(p: PipelineState, k: nat)
    requires
        completes(p, k),
    ensures
        finishes(p),
        finished(p) == rounds(p, k),
        finished(p).outcome is Some,
{
    lemma_completes_unique(p, k, choose|k: nat| completes(p, k));
}

/// A run that has not ended and ends within `k` turns has a turn to take: the
/// machine at the cursor stops, and after the turn the run ends within `k - 1`
/// turns, in the same state.
pub proof fn lemma_turn_due(p: PipelineState, k: nat)
    requires
        p.outcome is None,
        completes(p, k),
    ensures
        k > 0,
        0 <= p.cursor < p.machines.len(),
        stops(started(p.machines[p.cursor])),
        completes(turn(p), (k - 1) as nat),
        finished(turn(p)) == finished(p),
{
    lemma_finished(p, k);
    lemma_finished(turn(p), (k - 1) as nat);
}

/// Whether a call of `resume` lets the machine execute no more than `steps`
/// instructions.
#[verifier::opaque]
pub open spec fn stops_within(s: MachineState, steps: nat) -> bool {
    !(run_n(started(s), steps).status is Running)
}

/// Whether the run ends within `turns` turns, none of which takes the machine
/// it resumes more than `steps` instructions.
pub open spec fn completes_within(p: PipelineState, turns: nat, steps: nat) -> bool
    decreases turns,
{
    p.outcome is Some || (turns > 0 && 0 <= p.cursor < p.machines.len() && stops_within(
        p.machines[p.cursor],
        steps,
    ) && completes_within(turn(p), (turns - 1) as nat, steps))
}

/// A run that ends within a budget ends.
pub proof fn lemma_within_budget(p: PipelineState, turns: nat, steps: nat)
    requires
        completes_within(p, turns, steps),
    ensures
        completes(p, turns),
        finishes(p),
    decreases turns,
{
    if p.outcome is None {
        reveal(stops_within);
        lemma_settled(started(p.machines[p.cursor]), steps);
        lemma_within_budget(turn(p), (turns - 1) as nat, steps);
    }
    assert(completes(p, turns));
}

/// What a budget of at least one turn comes to: the machine at the cursor must
/// stop within its instructions, and the rest of the budget must do for the
/// rest of the run. A budget of no turns does only for a run that has ended.
pub proof fn lemma_budget(p: PipelineState, turns: nat, steps: nat)
    requires
        p.outcome is None,
        0 <= p.cursor < p.machines.len(),
    ensures
        !completes_within(p, 0, steps),
        turns > 0 ==> (completes_within(p, turns, steps) <==> stops_within(
            p.machines[p.cursor],
            steps,
        ) && completes_within(turn(p), (turns - 1) as nat, steps)),
{
}

/// If the run ends after a turn, it ends, and in the same state.
pub proof fn lemma_turn_taken(p: PipelineState)
    requires
        p.outcome is None,
        0 <= p.cursor < p.machines.len(),
        stops(started(p.machines[p.cursor])),
        finishes(turn(p)),
    ensures
        finishes(p),
        finished(p) == finished(turn(p)),
{
    let k = choose|k: nat| completes(turn(p), k);
    assert(completes(p, k + 1));
    lemma_finished(p, k + 1);
    lemma_finished(turn(p), k);
}

spec fn turns_of(budget: Option<(u64, u64)>) -> u64 {
    match budget {
        Some(b) => b.0,
        None => 0,
    }
}

spec fn steps_of(budget: Option<(u64, u64)>) -> u64 {
    match budget {
        Some(b) => b.1,
        None => 0,
    }
}

/// What the driver knows of the run so far: that the pipeline `now` lies on
/// the run from `start`, so that both end alike, and how much of the budget, or
/// of the turns still needed, is left.
#[verifier::opaque]
spec fn on_course(
    start: PipelineState,
    now: PipelineState,
    budget: Option<(u64, u64)>,
    left: u64,
    fuel: nat,
) -> bool {
    &&& budget matches Some(b) ==> fuel == left && (completes_within(start, b.0 as nat, b.1 as nat)
        <==> completes_within(now, left as nat, b.1 as nat))
    &&& budget is None ==> completes(now, fuel)
    &&& finishes(now) ==> finishes(start) && finished(start) == finished(now)
}

proof fn lemma_course_set(start: PipelineState, budget: Option<(u64, u64)>)
    requires
        budget is None ==> finishes(start),
    ensures
        on_course(
            start,
            start,
            budget,
            if budget is Some {
                turns_of(budget)
            } else {
                0
            },
            if budget is Some {
                turns_of(budget) as nat
            } else {
                choose|k: nat| completes(start, k)
            },
        ),
{
    reveal(on_course);
}

proof fn lemma_course_due(
    start: PipelineState,
    now: PipelineState,
    budget: Option<(u64, u64)>,
    left: u64,
    fuel: nat,
)
    requires
        on_course(start, now, budget, left, fuel),
        now.outcome is None,
        0 <= now.cursor < now.machines.len(),
    ensures
        budget is None ==> fuel > 0 && stops(started(now.machines[now.cursor])),
        budget is Some ==> fuel == left,
        budget matches Some(b) ==> left == 0 ==> !completes_within(start, b.0 as nat, b.1 as nat),
        budget matches Some(b) ==> !stops_within(now.machines[now.cursor], b.1 as nat)
            ==> !completes_within(start, b.0 as nat, b.1 as nat),
{
    reveal(on_course);
    if budget is None {
        lemma_turn_due(now, fuel);
    } else {
        lemma_budget(now, left as nat, steps_of(budget) as nat);
    }
}

proof fn lemma_course_kept(
    start: PipelineState,
    now: PipelineState,
    budget: Option<(u64, u64)>,
    left: u64,
    fuel: nat,
)
    requires
        on_course(start, now, budget, left, fuel),
        now.outcome is None,
        0 <= now.cursor < now.machines.len(),
        stops(started(now.machines[now.cursor])),
        budget matches Some(b) ==> left > 0 && stops_within(now.machines[now.cursor], b.1 as nat),
    ensures
        fuel > 0,
        on_course(
            start,
            turn(now),
            budget,
            if budget is Some {
                (left - 1) as u64
            } else {
                left
            },
            (fuel - 1) as nat,
        ),
{
    reveal(on_course);
    if budget is None {
        lemma_turn_due(now, fuel);
    } else {
        lemma_budget(now, left as nat, steps_of(budget) as nat);
    }
    if finishes(turn(now)) {
        lemma_turn_taken(now);
    }
}

proof fn lemma_course_run(
    start: PipelineState,
    then: PipelineState,
    budget: Option<(u64, u64)>,
    left: u64,
    fuel: nat,
)
    requires
        on_course(start, then, budget, left, fuel),
        then.outcome is Some,
    ensures
        finishes(start),
        finished(start) == then,
        budget matches Some(b) ==> completes_within(start, b.0 as nat, b.1 as nat),
{
    reveal(on_course);
    lemma_finished(then, 0);
}

/// Whether all of `machines` have halted.
pub fn every_machine_halted(machines: &Vec<Machine>) -> (b: bool)
    ensures
        b == all_halted(states(machines@)),
{
    let mut i: usize = 0;
    while i < machines.len()
        invariant
            i <= machines.len(),
            forall|k: int| 0 <= k < i ==> (#[trigger] states(machines@)[k]).status is Halted,
        decreases machines.len() - i,
    {
        match machines[i].status() {
            RunStatus::Halted => {},
            _ => {
                assert(!(states(machines@)[i as int].status is Halted));
                return false;
            },
        }
        i += 1;
    }
    true
}

/// Appends `values`, in order, to the input queue of the machine at `to`.
fn forward(machines: &mut Vec<Machine>, to: usize, values: &Vec<Word>)
    requires
        to < old(machines).len(),
    ensures
        final(machines).len() == old(machines).len(),
        states(final(machines)@) == states(old(machines)@).update(
            to as int,
            old(machines)@[to as int]@.fed(values@),
        ),
{
    let ghost base = machines@[to as int]@;
    let mut k: usize = 0;
    assert(states(machines@) =~= states(machines@).update(to as int, base.fed(values@.take(0))))
        by {
        assert(base.input + values@.take(0) =~= base.input);
    }
    while k < values.len()
        invariant
            k <= values.len(),
            to < machines.len(),
            machines.len() == old(machines).len(),
            base == old(machines)@[to as int]@,
            states(machines@) == states(old(machines)@).update(
                to as int,
                base.fed(values@.take(k as int)),
            ),
        decreases values.len() - k,
    {
        let ghost prior = machines@;
        machines[to].push_input(values[k]);
        proof {
            assert(states(prior)[to as int] == prior[to as int]@);
            assert((base.input + values@.take(k as int)) + seq![values@[k as int]] =~= base.input
                + values@.take(k + 1));
            assert(states(machines@) =~= states(prior).update(
                to as int,
                base.fed(values@.take(k + 1)),
            ));
        }
        k += 1;
    }
    assert(values@.take(values.len() as int) =~= values@);
}

/// The pipeline between two turns of a run that has not ended.
pub open spec fn between(
    machines: Seq<Machine>,
    cursor: int,
    idle: int,
    signal: Word,
) -> PipelineState {
    PipelineState { machines: states(machines), cursor, idle, signal, outcome: None }
}

/// Takes one turn and returns the new cursor, idle count and signal, and the
/// outcome if the run has ended. With a `limit`, the turn is given up, and
/// nothing is returned, if the machine is still running after that many
/// instructions.
fn take_turn(
    machines: &mut Vec<Machine>,
    cursor: usize,
    idle: usize,
    signal: Word,
    limit: Option<u64>,
) -> (r: Option<(usize, usize, Word, Option<Result<Word, Fault>>)>)
    requires
        cursor < old(machines).len(),
        idle < old(machines).len(),
        limit is None ==> stops(started(old(machines)@[cursor as int]@)),
    ensures
        final(machines).len() == old(machines).len(),
        r is None <==> limit is Some && !stops_within(
            old(machines)@[cursor as int]@,
            limit->0 as nat,
        ),
        r is Some ==> stops(started(old(machines)@[cursor as int]@)),
        r matches Some(t) ==> t.0 < old(machines).len() && (t.3 is None ==> t.1 < old(
            machines,
        ).len()),
        r matches Some(t) ==> ({
            let p = turn(between(old(machines)@, cursor as int, idle as int, signal));
            &&& states(final(machines)@) == p.machines
            &&& t.0 == p.cursor
            &&& t.1 == p.idle
            &&& t.2 == p.signal
            &&& t.3 == p.outcome
        }),
{
    reveal(turn);
    reveal(stops_within);
    let n = machines.len();
    let ghost p = between(machines@, cursor as int, idle as int, signal);
    assert(p.machines[cursor as int] == machines@[cursor as int]@);
    let before = machines[cursor].status();
    let after = match limit {
        None => machines[cursor].resume(),
        Some(steps) => {
            let status = machines[cursor].resume_bounded(steps);
            if let RunStatus::Running = status {
                return None;
            }
            proof {
                lemma_settled(started(p.machines[cursor as int]), steps as nat);
            }
            status
        },
    };
    let emitted = machines[cursor].drain_output();
    let ghost drained = machines@;
    assert(states(drained) =~= p.machines.update(
        cursor as int,
        resumed(p.machines[cursor as int]).drained(),
    ));
    let next = if cursor + 1 == n {
        0
    } else {
        cursor + 1
    };
    assert(next == (cursor + 1) % (n as int)) by {
        if cursor + 1 == n {
            assert((n as int) % (n as int) == 0) by (nonlinear_arith)
                requires
                    n > 0,
            ;
        } else {
            assert((cursor + 1) % (n as int) == cursor + 1) by (nonlinear_arith)
                requires
                    0 <= cursor + 1 < n,
            ;
        }
    }
    assert(states(drained)[next as int] == drained[next as int]@);
    forward(machines, next, &emitted);
    let count = emitted.len();
    let idle = if before != after || count > 0 {
        0
    } else {
        idle + 1
    };
    let signal = if next == 0 && count > 0 {
        emitted[count - 1]
    } else {
        signal
    };
    let outcome = match after {
        RunStatus::Faulted(fault) => Some(Err(fault)),
        _ => {
            if every_machine_halted(machines) {
                Some(Ok(signal))
            } else if idle >= n {
                Some(Err(Fault::PipelineDeadlock))
            } else {
                None
            }
        },
    };
    Some((next, idle, signal, outcome))
}

/// The driver loop, with or without a budget of turns and of instructions per
/// turn. Without one it returns only if the run ends; with one it gives up, and
/// returns nothing, as soon as the budget does not suffice.
fn drive(machines: &mut Vec<Machine>, signal: Word, budget: Option<(u64, u64)>) -> (r: Option<
    Result<Word, Fault>,
>)
    requires
        budget is None ==> finishes(primed(states(old(machines)@), signal)),
    ensures
        budget is None ==> r is Some,
        budget matches Some(b) ==> (r is Some <==> completes_within(
            primed(states(old(machines)@), signal),
            b.0 as nat,
            b.1 as nat,
        )),
        r matches Some(x) ==> {
            &&& finishes(primed(states(old(machines)@), signal))
            &&& finished(primed(states(old(machines)@), signal)).outcome == Some(x)
            &&& states(final(machines)@) == finished(
                primed(states(old(machines)@), signal),
            ).machines
        },
{
    let ghost start = primed(states(machines@), signal);
    if machines.len() == 0 {
        proof {
            lemma_finished(start, 0);
        }
        return Some(Ok(signal));
    }
    assert(states(machines@)[0] == machines@[0]@);
    machines[0].push_input(signal);
    assert(states(machines@) =~= start.machines);
    let mut cursor: usize = 0;
    let mut idle: usize = 0;
    let mut last = signal;
    let (mut left, limit) = match budget {
        Some((turns, steps)) => (turns, Some(steps)),
        None => (0, None),
    };
    let ghost mut fuel: nat = if budget is Some {
        left as nat
    } else {
        choose|k: nat| completes(start, k)
    };
    proof {
        lemma_course_set(start, budget);
        assert(between(machines@, 0, 0, signal) == start);
    }
    loop
        invariant
            cursor < machines.len(),
            idle < machines.len(),
            start == primed(states(old(machines)@), signal),
            budget is None <==> limit is None,
            budget matches Some(b) ==> limit == Some(b.1),
            on_course(
                start,
                between(machines@, cursor as int, idle as int, last),
                budget,
                left,
                fuel,
            ),
        decreases fuel,
    {
        let ghost now = between(machines@, cursor as int, idle as int, last);
        let ghost then = turn(now);
        assert(now.machines[cursor as int] == machines@[cursor as int]@);
        proof {
            lemma_course_due(start, now, budget, left, fuel);
        }
        if limit.is_some() && left == 0 {
            return None;
        }
        let (c, i, s, outcome) = match take_turn(machines, cursor, idle, last, limit) {
            Some(taken) => taken,
            None => {
                return None;
            },
        };
        proof {
            lemma_course_kept(start, now, budget, left, fuel);
            fuel = (fuel - 1) as nat;
        }
        if limit.is_some() {
            left = left - 1;
        }
        match outcome {
            Some(r) => {
                proof {
                    lemma_course_run(start, then, budget, left, fuel);
                }
                return Some(r);
            },
            None => {},
        }
        cursor = c;
        idle = i;
        last = s;
        assert(between(machines@, cursor as int, idle as int, last) == then);
    }
}

/// Runs `machines` as a ring. The initial `signal` is pushed into the first
/// machine's input queue; then the machines are resumed in turn, each one's
/// outputs going to the next one's inputs, until all have halted. The result is
/// the last value pushed into the first machine's input queue; the fault of the
/// first machine that faults; or a deadlock, when a full rotation passes in
/// which no machine changes status or produces output. A call returns only if
/// the run ends, and the precondition asks for exactly that.
pub fn run_pipeline(machines: &mut Vec<Machine>, signal: Word) -> (r: Result<Word, Fault>)
    requires
        finishes(primed(states(old(machines)@), signal)),
    ensures
        finished(primed(states(old(machines)@), signal)).outcome == Some(r),
        states(final(machines)@) == finished(primed(states(old(machines)@), signal)).machines,
{
    match drive(machines, signal, None) {
        Some(r) => r,
        None => unreached(),
    }
}

/// Like [`run_pipeline`], but gives up, and returns nothing, unless the run
/// ends within `turns` turns, none of which takes the machine it resumes more
/// than `steps` instructions.
pub fn run_pipeline_bounded(machines: Vec<Machine>, signal: Word, turns: u64, steps: u64) -> (r:
    Option<Result<Word, Fault>>)
    ensures
        r is Some <==> completes_within(
            primed(states(machines@), signal),
            turns as nat,
            steps as nat,
        ),
        r matches Some(x) ==> finishes(primed(states(machines@), signal)) && finished(
            primed(states(machines@), signal),
        ).outcome == Some(x),
{
    let mut machines = machines;
    drive(&mut machines, signal, Some((turns, steps)))
}

} // verus!
