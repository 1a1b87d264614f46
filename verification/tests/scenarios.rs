use advent2019::intcode::machine::Machine;
use advent2019::intcode::word::{Fault, RunStatus, Word};

fn run_with(program: &[Word], inputs: &[Word]) -> (Machine, RunStatus, Vec<Word>) {
    let mut machine = Machine::new(program);
    for v in inputs {
        machine.push_input(*v);
    }
    let status = machine.resume();
    let out = machine.drain_output();
    (machine, status, out)
}

#[test]
fn add_in_place_halts() {
    let (machine, status, out) = run_with(&[1, 0, 0, 0, 99], &[]);
    assert_eq!(status, RunStatus::Halted);
    assert_eq!(machine.peek(0), Ok(2));
    assert!(out.is_empty());
}

#[test]
fn multiply_immediate_writes_halt() {
    let (machine, status, _) = run_with(&[1002, 4, 3, 4, 33], &[]);
    assert_eq!(status, RunStatus::Halted);
    assert_eq!(machine.peek(4), Ok(99));
}

#[test]
fn equals_eight_position_mode() {
    let program = [3, 9, 8, 9, 10, 9, 4, 9, 99, -1, 8];
    let (_, status, out) = run_with(&program, &[8]);
    assert_eq!(status, RunStatus::Halted);
    assert_eq!(out, vec![1]);
    let (_, status, out) = run_with(&program, &[7]);
    assert_eq!(status, RunStatus::Halted);
    assert_eq!(out, vec![0]);
}

#[test]
fn quine_emits_itself() {
    let program = [109, 1, 204, -1, 1001, 100, 1, 100, 1008, 100, 16, 101, 1006, 101, 0, 99];
    let (_, status, out) = run_with(&program, &[]);
    assert_eq!(status, RunStatus::Halted);
    assert_eq!(out, program.to_vec());
}

#[test]
fn sixteen_digit_product() {
    let (_, status, out) = run_with(&[1102, 34915192, 34915192, 7, 4, 7, 99, 0], &[]);
    assert_eq!(status, RunStatus::Halted);
    assert_eq!(out, vec![1219070632396864]);
}

#[test]
fn large_literal_output() {
    let (_, status, out) = run_with(&[104, 1125899906842624, 99], &[]);
    assert_eq!(status, RunStatus::Halted);
    assert_eq!(out, vec![1125899906842624]);
}

#[test]
fn unknown_opcode_faults() {
    let (_, status, _) = run_with(&[42], &[]);
    assert_eq!(status, RunStatus::Faulted(Fault::UnknownOpcode));
}

#[test]
fn invalid_mode_digit_faults() {
    let (_, status, _) = run_with(&[304, 0, 99], &[]);
    assert_eq!(status, RunStatus::Faulted(Fault::InvalidMode));
}

#[test]
fn immediate_write_target_faults() {
    let (machine, status, _) = run_with(&[11101, 1, 1, 0, 99], &[]);
    assert_eq!(status, RunStatus::Faulted(Fault::InvalidMode));
    assert_eq!(machine.peek(0), Ok(11101));
    assert_eq!(machine.instruction_pointer(), 0);
}

#[test]
fn negative_address_faults_without_writing() {
    let program = [1, -1, 0, 0, 99];
    let (machine, status, _) = run_with(&program, &[]);
    assert_eq!(status, RunStatus::Faulted(Fault::NegativeAddress));
    for (k, w) in program.iter().enumerate() {
        assert_eq!(machine.peek(k as Word), Ok(*w));
    }
    assert_eq!(machine.peek(-1), Err(Fault::NegativeAddress));
}

#[test]
fn negative_jump_target_faults() {
    let (machine, status, _) = run_with(&[1105, 1, -7], &[]);
    assert_eq!(status, RunStatus::Faulted(Fault::NegativeAddress));
    assert_eq!(machine.instruction_pointer(), 0);
}

#[test]
fn negative_relative_write_faults() {
    let (_, status, _) = run_with(&[109, -5, 21101, 1, 1, 0, 99], &[]);
    assert_eq!(status, RunStatus::Faulted(Fault::NegativeAddress));
}

#[test]
fn resume_after_fault_changes_nothing() {
    let (mut machine, status, _) = run_with(&[4, 0, 42], &[]);
    assert_eq!(status, RunStatus::Faulted(Fault::UnknownOpcode));
    let ip = machine.instruction_pointer();
    assert_eq!(machine.resume(), RunStatus::Faulted(Fault::UnknownOpcode));
    assert_eq!(machine.instruction_pointer(), ip);
    assert!(machine.drain_output().is_empty());
}

#[test]
fn outputs_before_a_fault_can_be_drained() {
    let mut machine = Machine::new(&[104, 7, 42]);
    assert_eq!(machine.resume(), RunStatus::Faulted(Fault::UnknownOpcode));
    assert_eq!(machine.drain_output(), vec![7]);
}

#[test]
fn starved_input_suspends_in_place() {
    let mut machine = Machine::new(&[3, 5, 4, 5, 99, 0]);
    assert_eq!(machine.status(), RunStatus::Ready);
    assert_eq!(machine.resume(), RunStatus::AwaitingInput);
    assert_eq!(machine.instruction_pointer(), 0);
    assert_eq!(machine.resume(), RunStatus::AwaitingInput);
    assert_eq!(machine.instruction_pointer(), 0);
    machine.push_input(31);
    assert_eq!(machine.pending_input(), 1);
    assert_eq!(machine.resume(), RunStatus::Halted);
    assert_eq!(machine.pending_input(), 0);
    assert_eq!(machine.pending_output(), 1);
    assert_eq!(machine.drain_output(), vec![31]);
    assert_eq!(machine.pending_output(), 0);
    assert_eq!(machine.resume(), RunStatus::Halted);
}

#[test]
fn inputs_are_consumed_first_in_first_out() {
    let program = [3, 20, 3, 21, 3, 22, 4, 20, 4, 21, 4, 22, 99];
    let (machine, status, out) = run_with(&program, &[10, 20, 30]);
    assert_eq!(status, RunStatus::Halted);
    assert_eq!(out, vec![10, 20, 30]);
    assert_eq!(machine.peek(20), Ok(10));
    assert_eq!(machine.peek(22), Ok(30));
}

#[test]
fn drained_outputs_concatenate_to_the_single_run() {
    // Echoes three inputs, doubling each.
    let program = [3, 30, 1002, 30, 2, 30, 4, 30, 3, 30, 1002, 30, 2, 30, 4, 30, 3, 30, 1002, 30, 2, 30, 4, 30, 99];
    let (_, status, whole) = run_with(&program, &[1, 2, 3]);
    assert_eq!(status, RunStatus::Halted);
    assert_eq!(whole, vec![2, 4, 6]);

    let mut machine = Machine::new(&program);
    let mut pieces: Vec<Word> = Vec::new();
    machine.push_input(1);
    assert_eq!(machine.resume(), RunStatus::AwaitingInput);
    pieces.extend(machine.drain_output());
    assert_eq!(machine.resume(), RunStatus::AwaitingInput);
    pieces.extend(machine.drain_output());
    machine.push_input(2);
    machine.push_input(3);
    assert_eq!(machine.resume(), RunStatus::Halted);
    pieces.extend(machine.drain_output());
    assert_eq!(pieces, whole);
}

#[test]
fn relative_base_shifts_add_up() {
    let (stepwise, s1, _) = run_with(&[109, 19, 109, -34, 109, 2000, 99], &[]);
    let (at_once, s2, _) = run_with(&[109, 1985, 99], &[]);
    assert_eq!(s1, RunStatus::Halted);
    assert_eq!(s2, RunStatus::Halted);
    assert_eq!(stepwise.relative_base(), 1985);
    assert_eq!(at_once.relative_base(), 1985);
}

#[test]
fn relative_base_wraps() {
    let (machine, status, _) = run_with(&[109, i64::MAX, 109, 1, 99], &[]);
    assert_eq!(status, RunStatus::Halted);
    assert_eq!(machine.relative_base(), i64::MIN);
}

#[test]
fn relative_mode_reads_and_writes() {
    // rb = 10; write input to [rb + 2]; output [rb + 2] in relative mode.
    let (machine, status, out) = run_with(&[109, 10, 203, 2, 204, 2, 99], &[77]);
    assert_eq!(status, RunStatus::Halted);
    assert_eq!(out, vec![77]);
    assert_eq!(machine.peek(12), Ok(77));
}

#[test]
fn arithmetic_wraps() {
    let (machine, status, _) = run_with(&[1101, i64::MAX, 1, 0, 1102, i64::MAX, 2, 1, 99], &[]);
    assert_eq!(status, RunStatus::Halted);
    assert_eq!(machine.peek(0), Ok(i64::MIN));
    assert_eq!(machine.peek(1), Ok(-2));
}

#[test]
fn jumps_and_comparisons() {
    // Outputs 1 if the input is non-zero, else 0 (position mode jump).
    let program = [3, 12, 6, 12, 15, 1, 13, 14, 13, 4, 13, 99, -1, 0, 1, 9];
    let (_, _, out) = run_with(&program, &[0]);
    assert_eq!(out, vec![0]);
    let (_, _, out) = run_with(&program, &[5]);
    assert_eq!(out, vec![1]);
    // Less than 8, immediate mode.
    let (_, _, out) = run_with(&[3, 3, 1107, -1, 8, 3, 4, 3, 99], &[7]);
    assert_eq!(out, vec![1]);
    let (_, _, out) = run_with(&[3, 3, 1107, -1, 8, 3, 4, 3, 99], &[8]);
    assert_eq!(out, vec![0]);
}

#[test]
fn far_memory_reads_zero_and_accepts_writes() {
    let far: Word = 1 << 40;
    let (machine, status, out) = run_with(&[4, far, 4, 7, 99], &[]);
    assert_eq!(status, RunStatus::Halted);
    assert_eq!(out, vec![0, 0]);
    assert_eq!(machine.peek(far), Ok(0));
    let (machine, status, out) = run_with(&[1101, 1, 2, far, 4, far, 99], &[]);
    assert_eq!(status, RunStatus::Halted);
    assert_eq!(out, vec![3]);
    assert_eq!(machine.peek(far), Ok(3));
    assert_eq!(machine.peek(far - 1), Ok(0));
}

#[test]
fn step_executes_one_instruction() {
    let mut machine = Machine::new(&[1101, 2, 3, 0, 99]);
    assert_eq!(machine.step(), RunStatus::Ready);
    assert_eq!(machine.peek(0), Ok(1101));
    assert_eq!(machine.resume_bounded(0), RunStatus::Running);
    assert_eq!(machine.step(), RunStatus::Running);
    assert_eq!(machine.peek(0), Ok(5));
    assert_eq!(machine.instruction_pointer(), 4);
    assert_eq!(machine.step(), RunStatus::Halted);
    assert_eq!(machine.step(), RunStatus::Halted);
}

#[test]
fn bounded_resume_gives_up_and_carries_on() {
    let mut looping = Machine::new(&[1105, 1, 0]);
    assert_eq!(looping.resume_bounded(1000), RunStatus::Running);
    assert_eq!(looping.resume_bounded(1000), RunStatus::Running);
    let mut machine = Machine::new(&[104, 1, 104, 2, 104, 3, 99]);
    assert_eq!(machine.resume_bounded(2), RunStatus::Running);
    assert_eq!(machine.drain_output(), vec![1, 2]);
    assert_eq!(machine.resume_bounded(5), RunStatus::Halted);
    assert_eq!(machine.drain_output(), vec![3]);
}

#[test]
fn run_settles_a_running_machine() {
    let mut machine = Machine::new(&[104, 9, 99]);
    assert_eq!(machine.resume_bounded(0), RunStatus::Running);
    assert_eq!(machine.run(), RunStatus::Halted);
    assert_eq!(machine.drain_output(), vec![9]);
}

#[test]
fn terminal_statuses() {
    assert!(RunStatus::Halted.terminal());
    assert!(RunStatus::Faulted(Fault::InvalidMode).terminal());
    assert!(!RunStatus::Ready.terminal());
    assert!(!RunStatus::Running.terminal());
    assert!(!RunStatus::AwaitingInput.terminal());
}
