use advent2019::intcode::amplifier::{
    amplify, amplify_bounded, build_amplifiers, strongest_signal, strongest_signal_bounded,
};
use advent2019::intcode::machine::Machine;
use advent2019::intcode::pipeline::{every_machine_halted, run_pipeline, run_pipeline_bounded};
use advent2019::intcode::word::{Fault, RunStatus, Word};

const DOUBLER: [Word; 29] = [
    3, 26, 1001, 26, -4, 26, 3, 27, 1002, 27, 2, 27, 1, 27, 26, 27, 4, 27, 1001, 28, -1, 28, 1005,
    28, 6, 99, 0, 0, 5,
];

const LADDER: [Word; 57] = [
    3, 52, 1001, 52, -5, 52, 3, 53, 1, 52, 56, 54, 1007, 54, 5, 55, 1005, 55, 26, 1001, 54, -5, 54,
    1105, 1, 12, 1, 53, 54, 53, 1008, 54, 0, 55, 1001, 55, 1, 55, 2, 53, 55, 53, 4, 53, 1001, 56,
    -1, 56, 1005, 56, 6, 99, 0, 0, 0, 0, 10,
];

#[test]
fn feedback_loop_doubler() {
    assert_eq!(amplify(&DOUBLER, &[9, 8, 7, 6, 5]), Ok(139629729));
    assert_eq!(strongest_signal(&DOUBLER, &vec![5, 6, 7, 8, 9]), Ok(139629729));
}

#[test]
fn feedback_loop_ladder() {
    assert_eq!(amplify(&LADDER, &[9, 7, 8, 5, 6]), Ok(18216));
    assert_eq!(strongest_signal(&LADDER, &vec![5, 6, 7, 8, 9]), Ok(18216));
}

#[test]
fn straight_chain_examples() {
    let first = [3, 15, 3, 16, 1002, 16, 10, 16, 1, 16, 15, 15, 4, 15, 99, 0, 0];
    assert_eq!(amplify(&first, &[4, 3, 2, 1, 0]), Ok(43210));
    assert_eq!(strongest_signal(&first, &vec![0, 1, 2, 3, 4]), Ok(43210));
    let second = [
        3, 23, 3, 24, 1002, 24, 10, 24, 1002, 23, -1, 23, 101, 5, 23, 23, 1, 24, 23, 23, 4, 23, 99,
        0, 0,
    ];
    assert_eq!(amplify(&second, &[0, 1, 2, 3, 4]), Ok(54321));
    assert_eq!(strongest_signal(&second, &vec![0, 1, 2, 3, 4]), Ok(54321));
    let third = [
        3, 31, 3, 32, 1002, 32, 10, 32, 1001, 31, -2, 31, 1007, 31, 0, 33, 1002, 33, 7, 33, 1, 33,
        31, 31, 1, 32, 31, 31, 4, 31, 99, 0, 0, 0,
    ];
    assert_eq!(amplify(&third, &[1, 0, 4, 3, 2]), Ok(65210));
    assert_eq!(strongest_signal(&third, &vec![0, 1, 2, 3, 4]), Ok(65210));
}

#[test]
fn final_signal_may_be_zero() {
    // Each stage reads its phase and a signal, and emits zero.
    let program = [3, 9, 3, 9, 104, 0, 99, 0, 0, 0];
    assert_eq!(amplify(&program, &[1, 2, 3]), Ok(0));
    // Each stage emits signal minus phase: 0 - 1 - 2 + 3 is zero again.
    let minus = [3, 20, 3, 21, 1002, 20, -1, 20, 1, 20, 21, 21, 4, 21, 99];
    assert_eq!(amplify(&minus, &[1, 2, -3]), Ok(0));
    assert_eq!(amplify(&minus, &[1, 2, 3]), Ok(-6));
}

#[test]
fn empty_ring_passes_the_signal_through() {
    let mut none: Vec<Machine> = Vec::new();
    assert_eq!(run_pipeline(&mut none, 17), Ok(17));
    assert_eq!(amplify(&[99], &[]), Ok(0));
    assert_eq!(strongest_signal(&[99], &vec![]), Ok(0));
    assert!(every_machine_halted(&none));
}

#[test]
fn silent_ring_keeps_the_initial_signal() {
    let mut machines = vec![Machine::new(&[99]), Machine::new(&[99])];
    assert!(!every_machine_halted(&machines));
    assert_eq!(run_pipeline(&mut machines, 23), Ok(23));
    assert!(every_machine_halted(&machines));
    assert_eq!(machines[0].pending_input(), 1);
}

#[test]
fn single_machine_feeds_itself() {
    // Reads n, emits n - 1 until it reads zero... counts down from the signal.
    let program = [3, 20, 1005, 20, 6, 99, 1001, 20, -1, 20, 4, 20, 1105, 1, 0];
    let mut machines = vec![Machine::new(&program)];
    assert_eq!(run_pipeline(&mut machines, 5), Ok(0));
    assert_eq!(machines[0].status(), RunStatus::Halted);
}

#[test]
fn starved_ring_deadlocks() {
    // Reads the phase, the signal and a third value that never comes.
    let program = [3, 0, 3, 0, 3, 0, 99];
    assert_eq!(amplify(&program, &[1]), Err(Fault::PipelineDeadlock));
    assert_eq!(amplify(&program, &[1, 2, 3]), Err(Fault::PipelineDeadlock));
    assert_eq!(strongest_signal(&program, &vec![1, 2]), Err(Fault::PipelineDeadlock));
}

#[test]
fn machine_fault_surfaces_verbatim() {
    assert_eq!(amplify(&[3, 0, 55], &[1, 2]), Err(Fault::UnknownOpcode));
    assert_eq!(amplify(&[3, -1, 99], &[1, 2]), Err(Fault::NegativeAddress));
    assert_eq!(amplify(&[103, 0, 99], &[1, 2]), Err(Fault::InvalidMode));
    assert_eq!(strongest_signal(&[3, 0, 55], &vec![1, 2, 3]), Err(Fault::UnknownOpcode));
}

#[test]
fn outputs_reach_the_next_machine_in_order() {
    // First machine emits 1, 2, 3; second reads three values and emits the last two.
    let mut machines = vec![
        Machine::new(&[104, 1, 104, 2, 104, 3, 99]),
        Machine::new(&[3, 20, 3, 21, 3, 22, 4, 21, 4, 22, 99]),
    ];
    assert_eq!(run_pipeline(&mut machines, 0), Ok(3));
    assert_eq!(machines[1].peek(20), Ok(1));
    assert_eq!(machines[1].peek(21), Ok(2));
    assert_eq!(machines[1].peek(22), Ok(3));
    assert_eq!(machines[0].pending_input(), 3);
}

#[test]
fn bounded_ring_matches_unbounded() {
    assert_eq!(amplify_bounded(&DOUBLER, &[9, 8, 7, 6, 5], 1000, 1000), Some(Ok(139629729)));
    assert_eq!(amplify_bounded(&LADDER, &[9, 7, 8, 5, 6], 1000, 1000), Some(Ok(18216)));
    assert_eq!(strongest_signal_bounded(&DOUBLER, &vec![5, 6, 7, 8, 9], 1000, 1000), Some(Ok(139629729)));
    assert_eq!(strongest_signal_bounded(&LADDER, &vec![5, 6, 7, 8, 9], 1000, 1000), Some(Ok(18216)));
    let machines = build_amplifiers(&DOUBLER, &[9, 8, 7, 6, 5]);
    assert_eq!(machines.len(), 5);
    assert_eq!(machines[2].pending_input(), 1);
    assert_eq!(run_pipeline_bounded(machines, 0, 1000, 1000), Some(Ok(139629729)));
    assert_eq!(run_pipeline_bounded(Vec::new(), 4, 0, 0), Some(Ok(4)));
    assert_eq!(
        amplify_bounded(&[3, 0, 3, 0, 3, 0, 99], &[1, 2], 100, 100),
        Some(Err(Fault::PipelineDeadlock))
    );
    assert_eq!(amplify_bounded(&[3, 0, 55], &[1, 2], 100, 100), Some(Err(Fault::UnknownOpcode)));
}

#[test]
fn bounded_ring_gives_up() {
    // Too few turns: every amplifier needs a turn for each of its five rounds.
    let phases = [9, 8, 7, 6, 5];
    let enough = (0..200u64).find(|t| amplify_bounded(&DOUBLER, &phases, *t, 1000).is_some());
    let enough = enough.unwrap();
    assert!(enough >= 25);
    for turns in 0..enough {
        assert_eq!(amplify_bounded(&DOUBLER, &phases, turns, 1000), None);
    }
    for turns in enough..enough + 5 {
        assert_eq!(amplify_bounded(&DOUBLER, &phases, turns, 1000), Some(Ok(139629729)));
    }
    // Too few instructions per turn.
    assert_eq!(amplify_bounded(&DOUBLER, &[9, 8, 7, 6, 5], 1000, 3), None);
    // A machine that never stops.
    assert_eq!(amplify_bounded(&[1105, 1, 0], &[1], 10, 1000), None);
    assert_eq!(strongest_signal_bounded(&[1105, 1, 0], &vec![1, 2], 10, 1000), None);
    assert_eq!(strongest_signal_bounded(&DOUBLER, &vec![5, 6, 7, 8, 9], 24, 1000), None);
}
