//! The amplifier circuit: one machine per phase setting, all running the same
//! program, wired into a feedback ring; and the search for the order of phase
//! settings that gives the strongest signal.

use crate::intcode::machine::Machine;
use crate::intcode::model::MachineState;
use crate::intcode::permute::{
    arrangements, factorial, is_arrangement, lemma_arrangements_complete,
    lemma_arrangements_count, lemma_arrangements_sound, permutations, rows,
};
use crate::intcode::pipeline::{
    completes_within, finished, finishes, primed, run_pipeline, run_pipeline_bounded, states,
};
use crate::intcode::word::{Fault, Word};
use vstd::pervasive::unreached;
use vstd::prelude::*;

verus! {

/// One fresh machine per phase setting, each loaded with `program` and with its
/// phase setting as its first input.
pub open spec fn amplifiers(program: Seq<Word>, phases: Seq<Word>) -> Seq<MachineState> {
    Seq::new(phases.len(), |i: int| MachineState::initial(program).fed(seq![phases[i]]))
}

/// Whether the ring of amplifiers, started with signal zero, runs to an end.
pub open spec fn settles(program: Seq<Word>, phases: Seq<Word>) -> bool {
    finishes(primed(amplifiers(program, phases), 0))
}

/// Whether the ring of amplifiers, started with signal zero, runs to an end
/// within `turns` turns of no more than `steps` instructions each.
pub open spec fn settles_within(
    program: Seq<Word>,
    phases: Seq<Word>,
    turns: nat,
    steps: nat,
) -> bool {
    completes_within(primed(amplifiers(program, phases), 0), turns, steps)
}

/// What the ring of amplifiers, started with signal zero, ends with: the signal
/// that reaches the thrusters, or a fault.
pub open spec fn thrust(program: Seq<Word>, phases: Seq<Word>) -> Result<Word, Fault> {
    finished(primed(amplifiers(program, phases), 0)).outcome->0
}

/// Builds the amplifiers for one order of phase settings.
pub fn build_amplifiers(program: &[Word], phases: &[Word]) -> (machines: Vec<Machine>)
    ensures
        states(machines@) == amplifiers(program@, phases@),
{
    let mut machines: Vec<Machine> = Vec::new();
    let mut i: usize = 0;
    while i < phases.len()
        invariant
            i <= phases.len(),
            states(machines@) == amplifiers(program@, phases@.take(i as int)),
        decreases phases.len() - i,
    {
        let mut machine = Machine::new(program);
        machine.push_input(phases[i]);
        let ghost built = machines@;
        machines.push(machine);
        proof {
            assert(machine@.input =~= seq![phases@[i as int]]);
            assert(states(machines@) =~= states(built).push(machine@));
            assert(states(machines@) =~= amplifiers(program@, phases@.take(i + 1)));
        }
        i += 1;
    }
    assert(phases@.take(phases.len() as int) =~= phases@);
    machines
}

/// Builds the amplifiers for one order of phase settings and runs them as a
/// ring, with zero as the initial signal. A call returns only if the run ends,
/// and the precondition asks for exactly that.
pub fn amplify(program: &[Word], phases: &[Word]) -> (r: Result<Word, Fault>)
    requires
        settles(program@, phases@),
    ensures
        r == thrust(program@, phases@),
{
    let mut machines = build_amplifiers(program, phases);
    run_pipeline(&mut machines, 0)
}

/// Like [`amplify`], but gives up, and returns nothing, unless the run ends
/// within `turns` turns of no more than `steps` instructions each.
pub fn amplify_bounded(program: &[Word], phases: &[Word], turns: u64, steps: u64) -> (r: Option<
    Result<Word, Fault>,
>)
    ensures
        r is Some <==> settles_within(program@, phases@, turns as nat, steps as nat),
        r matches Some(x) ==> settles(program@, phases@) && x == thrust(program@, phases@),
{
    let machines = build_amplifiers(program, phases);
    run_pipeline_bounded(machines, 0, turns, steps)
}

/// Whether the budget, if there is one, does for the run with `phases`.
pub open spec fn affordable(
    program: Seq<Word>,
    phases: Seq<Word>,
    budget: Option<(u64, u64)>,
) -> bool {
    budget matches Some(b) ==> settles_within(program, phases, b.0 as nat, b.1 as nat)
}

/// Whether the runs with the `k` first arrangements of `settings` all end
/// within the budget, in a signal.
pub open spec fn all_pass(
    program: Seq<Word>,
    settings: Seq<Word>,
    budget: Option<(u64, u64)>,
    k: int,
) -> bool {
    forall|j: int|
        0 <= j < k ==> affordable(program, #[trigger] arrangements(settings)[j], budget) && thrust(
            program,
            arrangements(settings)[j],
        ) is Ok
}

/// Tries the orders of `settings` as they are listed, and stops at the first
/// whose run faults or does not end within the budget.
fn search(program: &[Word], settings: &Vec<Word>, budget: Option<(u64, u64)>) -> (r: Option<
    Result<Word, Fault>,
>)
    requires
        budget is None ==> forall|t: Seq<Word>|
            is_arrangement(t, settings@) ==> #[trigger] settles(program@, t),
    ensures
        match r {
            Some(Ok(best)) => {
                &&& all_pass(program@, settings@, budget, arrangements(settings@).len() as int)
                &&& forall|j: int|
                    0 <= j < arrangements(settings@).len() ==> (#[trigger] thrust(
                        program@,
                        arrangements(settings@)[j],
                    ))->Ok_0 <= best
                &&& exists|j: int|
                    0 <= j < arrangements(settings@).len() && #[trigger] thrust(
                        program@,
                        arrangements(settings@)[j],
                    ) == Ok::<Word, Fault>(best)
            },
            Some(Err(fault)) => exists|i: int|
                {
                    &&& 0 <= i < arrangements(settings@).len()
                    &&& all_pass(program@, settings@, budget, i)
                    &&& affordable(program@, arrangements(settings@)[i], budget)
                    &&& #[trigger] thrust(program@, arrangements(settings@)[i]) == Err::<
                        Word,
                        Fault,
                    >(fault)
                },
            None => exists|i: int|
                {
                    &&& 0 <= i < arrangements(settings@).len()
                    &&& all_pass(program@, settings@, budget, i)
                    &&& !affordable(program@, #[trigger] arrangements(settings@)[i], budget)
                },
        },
{
    let orders = permutations(settings);
    let ghost listed = arrangements(settings@);
    assert(orders.len() > 0) by {
        lemma_arrangements_count(settings@);
        lemma_factorial_positive(settings.len() as nat);
    }
    assert(rows(orders@).len() == orders.len());
    let mut best: Word = 0;
    let mut i: usize = 0;
    while i < orders.len()
        invariant
            i <= orders.len(),
            listed == arrangements(settings@),
            rows(orders@) == listed,
            listed.len() == orders.len(),
            budget is None ==> forall|t: Seq<Word>|
                is_arrangement(t, settings@) ==> #[trigger] settles(program@, t),
            all_pass(program@, settings@, budget, i as int),
            forall|j: int| 0 <= j < i ==> (#[trigger] thrust(program@, listed[j]))->Ok_0 <= best,
            i > 0 ==> exists|j: int|
                0 <= j < i && #[trigger] thrust(program@, listed[j]) == Ok::<Word, Fault>(best),
        decreases orders.len() - i,
    {
        proof {
            assert(rows(orders@)[i as int] == orders@[i as int]@);
            lemma_arrangements_sound(settings@, i as int);
        }
        let attempt = match budget {
            None => Some(amplify(program, orders[i].as_slice())),
            Some((turns, steps)) => amplify_bounded(program, orders[i].as_slice(), turns, steps),
        };
        let signal = match attempt {
            Some(Ok(signal)) => signal,
            Some(Err(fault)) => {
                return Some(Err(fault));
            },
            None => {
                return None;
            },
        };
        if i == 0 || signal > best {
            best = signal;
        }
        i += 1;
    }
    Some(Ok(best))
}

/// Tries every order of the phase `settings` and returns the strongest signal
/// that any of them sends to the thrusters. A fault in any run is returned as
/// it is: that of the first order, as [`arrangements`] lists them, whose run
/// faults. A call returns only if every run ends, and the precondition asks
/// for exactly that.
pub fn strongest_signal(program: &[Word], settings: &Vec<Word>) -> (r: Result<Word, Fault>)
    requires
        forall|t: Seq<Word>| is_arrangement(t, settings@) ==> #[trigger] settles(program@, t),
    ensures
        match r {
            Ok(best) => {
                &&& forall|t: Seq<Word>|
                    is_arrangement(t, settings@) ==> (#[trigger] thrust(program@, t)) is Ok
                        && thrust(program@, t)->Ok_0 <= best
                &&& exists|t: Seq<Word>|
                    is_arrangement(t, settings@) && #[trigger] thrust(program@, t) == Ok::<
                        Word,
                        Fault,
                    >(best)
            },
            Err(fault) => exists|i: int|
                {
                    &&& 0 <= i < arrangements(settings@).len()
                    &&& #[trigger] thrust(program@, arrangements(settings@)[i]) == Err::<
                        Word,
                        Fault,
                    >(fault)
                    &&& forall|j: int|
                        0 <= j < i ==> (#[trigger] thrust(program@, arrangements(settings@)[j]))
                            is Ok
                },
        },
{
    let found = search(program, settings, None);
    proof {
        lemma_search_covers(program@, settings@, None, found);
    }
    match found {
        Some(r) => r,
        None => unreached(),
    }
}

/// Like [`strongest_signal`], but every run has a budget of `turns` turns of
/// no more than `steps` instructions each. The search gives up, and returns
/// nothing, at the first order whose run does not end within it.
pub fn strongest_signal_bounded(
    program: &[Word],
    settings: &Vec<Word>,
    turns: u64,
    steps: u64,
) -> (r: Option<Result<Word, Fault>>)
    ensures
        match r {
            Some(Ok(best)) => {
                &&& forall|t: Seq<Word>|
                    is_arrangement(t, settings@) ==> #[trigger] settles_within(
                        program@,
                        t,
                        turns as nat,
                        steps as nat,
                    ) && thrust(program@, t) is Ok && thrust(program@, t)->Ok_0 <= best
                &&& exists|t: Seq<Word>|
                    is_arrangement(t, settings@) && #[trigger] thrust(program@, t) == Ok::<
                        Word,
                        Fault,
                    >(best)
            },
            Some(Err(fault)) => exists|i: int|
                {
                    &&& 0 <= i < arrangements(settings@).len()
                    &&& all_pass(program@, settings@, Some((turns, steps)), i)
                    &&& settles_within(
                        program@,
                        arrangements(settings@)[i],
                        turns as nat,
                        steps as nat,
                    )
                    &&& #[trigger] thrust(program@, arrangements(settings@)[i]) == Err::<
                        Word,
                        Fault,
                    >(fault)
                },
            None => exists|i: int|
                {
                    &&& 0 <= i < arrangements(settings@).len()
                    &&& all_pass(program@, settings@, Some((turns, steps)), i)
                    &&& !settles_within(
                        program@,
                        #[trigger] arrangements(settings@)[i],
                        turns as nat,
                        steps as nat,
                    )
                },
        },
{
    let found = search(program, settings, Some((turns, steps)));
    proof {
        lemma_search_covers(program@, settings@, Some((turns, steps)), found);
    }
    found
}

/// What holds of every listed arrangement holds of every arrangement.
proof fn lemma_search_covers(
    program: Seq<Word>,
    settings: Seq<Word>,
    budget: Option<(u64, u64)>,
    found: Option<Result<Word, Fault>>,
)
    requires
        found matches Some(Ok(best)) && all_pass(
            program,
            settings,
            budget,
            arrangements(settings).len() as int,
        ) && (forall|j: int|
            0 <= j < arrangements(settings).len() ==> (#[trigger] thrust(
                program,
                arrangements(settings)[j],
            ))->Ok_0 <= best) && (exists|j: int|
            0 <= j < arrangements(settings).len() && #[trigger] thrust(
                program,
                arrangements(settings)[j],
            ) == Ok::<Word, Fault>(best)) || !(found matches Some(Ok(_))),
    ensures
        found matches Some(Ok(best)) ==> {
            &&& forall|t: Seq<Word>|
                is_arrangement(t, settings) ==> affordable(program, t, budget) && (#[trigger] thrust(
                    program,
                    t,
                )) is Ok && thrust(program, t)->Ok_0 <= best
            &&& exists|t: Seq<Word>|
                is_arrangement(t, settings) && #[trigger] thrust(program, t) == Ok::<Word, Fault>(
                    best,
                )
        },
{
    if let Some(Ok(best)) = found {
        assert forall|t: Seq<Word>| is_arrangement(t, settings) implies affordable(
            program,
            t,
            budget,
        ) && (#[trigger] thrust(program, t)) is Ok && thrust(program, t)->Ok_0 <= best by {
            let k = lemma_arrangements_complete(settings, t);
            assert(affordable(program, arrangements(settings)[k], budget));
        }
        let j = choose|j: int|
            0 <= j < arrangements(settings).len() && #[trigger] thrust(
                program,
                arrangements(settings)[j],
            ) == Ok::<Word, Fault>(best);
        lemma_arrangements_sound(settings, j);
    }
}

proof fn lemma_factorial_positive(n: nat)
    ensures
        factorial(n) > 0,
    decreases n,
{
    if n > 0 {
        lemma_factorial_positive((n - 1) as nat);
        assert(n * factorial((n - 1) as nat) > 0) by (nonlinear_arith)
            requires
                n > 0,
                factorial((n - 1) as nat) > 0,
        ;
    }
}

} // verus!
