use advent2019::intcode::decode::{decode, pad, Instruction, Mode, Opcode};
use advent2019::text::decimal;
use advent2019::intcode::image::parse_program;
use advent2019::intcode::machine::{collect_parameters, position_result, read_parameter};
use advent2019::intcode::memory::Memory;
use advent2019::intcode::permute::permutations;
use advent2019::intcode::word::{Fault, Word};

#[test]
fn memory_write_then_read() {
    let mut memory = Memory::new();
    for addr in [0 as Word, 1, 77, 1 << 50, i64::MAX] {
        assert_eq!(memory.read(addr), Ok(0));
        assert_eq!(memory.write(addr, addr ^ 0x55), Ok(()));
        assert_eq!(memory.read(addr), Ok(addr ^ 0x55));
    }
    assert_eq!(memory.read(2), Ok(0));
    assert_eq!(memory.write(77, 0), Ok(()));
    assert_eq!(memory.read(77), Ok(0));
}

#[test]
fn memory_rejects_negative_addresses() {
    let mut memory = Memory::from_program(&[5, 6, 7]);
    assert_eq!(memory.read(-1), Err(Fault::NegativeAddress));
    assert_eq!(memory.write(-1, 9), Err(Fault::NegativeAddress));
    assert_eq!(memory.write(i64::MIN, 9), Err(Fault::NegativeAddress));
    assert_eq!(memory.read(0), Ok(5));
    assert_eq!(memory.read(1), Ok(6));
    assert_eq!(memory.read(2), Ok(7));
    assert_eq!(memory.read(3), Ok(0));
}

#[test]
fn decimal_text_and_padding() {
    assert_eq!(decimal(0), b"0".to_vec());
    assert_eq!(decimal(7), b"7".to_vec());
    assert_eq!(decimal(1002), b"1002".to_vec());
    assert_eq!(decimal(u64::MAX), b"18446744073709551615".to_vec());
    assert_eq!(pad(b"3".to_vec()), b"00003".to_vec());
    assert_eq!(pad(b"99".to_vec()), b"00099".to_vec());
    assert_eq!(pad(b"104".to_vec()), b"00104".to_vec());
    assert_eq!(pad(b"1002".to_vec()), b"01002".to_vec());
    assert_eq!(pad(b"21107".to_vec()), b"21107".to_vec());
    assert_eq!(pad(b"123456".to_vec()), b"123456".to_vec());
    assert_eq!(pad(Vec::new()), b"00000".to_vec());
}

#[test]
fn decode_splits_operation_and_modes() {
    assert_eq!(
        decode(1002),
        Ok(Instruction {
            op: Opcode::Mul,
            first: Mode::Position,
            second: Mode::Immediate,
            third: Mode::Position,
        })
    );
    assert_eq!(
        decode(21107),
        Ok(Instruction {
            op: Opcode::LessThan,
            first: Mode::Immediate,
            second: Mode::Immediate,
            third: Mode::Relative,
        })
    );
    assert_eq!(
        decode(204),
        Ok(Instruction {
            op: Opcode::Output,
            first: Mode::Relative,
            second: Mode::Position,
            third: Mode::Position,
        })
    );
    let codes = [
        (1, Opcode::Add),
        (2, Opcode::Mul),
        (3, Opcode::Input),
        (4, Opcode::Output),
        (5, Opcode::JumpIfTrue),
        (6, Opcode::JumpIfFalse),
        (7, Opcode::LessThan),
        (8, Opcode::Equals),
        (9, Opcode::AdjustRelativeBase),
        (99, Opcode::Halt),
    ];
    for (code, op) in codes {
        assert_eq!(decode(code).map(|i| i.op), Ok(op));
    }
}

#[test]
fn decode_rejects_what_is_no_instruction() {
    assert_eq!(decode(0), Err(Fault::UnknownOpcode));
    assert_eq!(decode(10), Err(Fault::UnknownOpcode));
    assert_eq!(decode(98), Err(Fault::UnknownOpcode));
    assert_eq!(decode(-1), Err(Fault::UnknownOpcode));
    assert_eq!(decode(i64::MIN), Err(Fault::UnknownOpcode));
    assert_eq!(decode(301), Err(Fault::InvalidMode));
    assert_eq!(decode(9001), Err(Fault::InvalidMode));
    assert_eq!(decode(30001), Err(Fault::InvalidMode));
    assert_eq!(decode(100001), Err(Fault::InvalidMode));
    assert_eq!(decode(i64::MAX), Err(Fault::InvalidMode));
    assert_eq!(decode(i64::MAX - 7), Err(Fault::UnknownOpcode));
    assert_eq!(decode(300000 + 42), Err(Fault::UnknownOpcode));
}

#[test]
fn operation_shapes() {
    assert_eq!(Opcode::Add.read_count(), 2);
    assert!(Opcode::Add.has_target());
    assert_eq!(Opcode::Input.read_count(), 0);
    assert!(Opcode::Input.has_target());
    assert_eq!(Opcode::Output.read_count(), 1);
    assert!(!Opcode::Output.has_target());
    assert_eq!(Opcode::JumpIfTrue.read_count(), 2);
    assert!(!Opcode::JumpIfFalse.has_target());
    assert_eq!(Opcode::Halt.read_count(), 0);
    assert!(!Opcode::Halt.has_target());
    let i = decode(21002).unwrap();
    assert_eq!(i.mode_of(1), Mode::Position);
    assert_eq!(i.mode_of(2), Mode::Immediate);
    assert_eq!(i.mode_of(3), Mode::Relative);
    assert_eq!(i.mode_of(4), Mode::Position);
}

#[test]
fn parameters_resolve_by_mode() {
    let memory = Memory::from_program(&[1201, 4, 30, 6, 50, 0, 60, 70]);
    assert_eq!(read_parameter(&memory, 1, 0, Mode::Position), Ok(50));
    assert_eq!(read_parameter(&memory, 1, 0, Mode::Immediate), Ok(4));
    assert_eq!(read_parameter(&memory, 1, 3, Mode::Relative), Ok(70));
    assert_eq!(read_parameter(&memory, 1, -5, Mode::Relative), Err(Fault::NegativeAddress));
    assert_eq!(read_parameter(&memory, -1, 0, Mode::Immediate), Err(Fault::NegativeAddress));
    assert_eq!(position_result(&memory, 3, 0, Mode::Position), Ok(6));
    assert_eq!(position_result(&memory, 3, 10, Mode::Relative), Ok(16));
    assert_eq!(position_result(&memory, 3, -7, Mode::Relative), Err(Fault::NegativeAddress));
    assert_eq!(position_result(&memory, 3, 0, Mode::Immediate), Err(Fault::InvalidMode));
    let instruction = decode(1201).unwrap();
    assert_eq!(collect_parameters(&memory, 0, 3, &instruction), Ok(vec![70, 30]));
    let output = decode(104).unwrap();
    assert_eq!(collect_parameters(&memory, 0, 0, &output), Ok(vec![4]));
    let halt = decode(99).unwrap();
    assert_eq!(collect_parameters(&memory, 0, 0, &halt), Ok(vec![]));
    let bad = Memory::from_program(&[1, -3, 0, 0]);
    let add = decode(1).unwrap();
    assert_eq!(collect_parameters(&bad, 0, 0, &add), Err(Fault::NegativeAddress));
}

#[test]
fn program_text_is_read_field_by_field() {
    assert_eq!(parse_program(b"1,0,0,0,99"), vec![1, 0, 0, 0, 99]);
    assert_eq!(parse_program(b"1,0,0,0,99\n"), vec![1, 0, 0, 0, 99]);
    assert_eq!(parse_program(b"3,9,8,9,10,9,4,9,99,-1,8\n"), vec![3, 9, 8, 9, 10, 9, 4, 9, 99, -1, 8]);
    assert_eq!(parse_program(b"104,1125899906842624,99"), vec![104, 1125899906842624, 99]);
    assert_eq!(
        parse_program(b"9223372036854775807,-9223372036854775808,007,-0"),
        vec![i64::MAX, i64::MIN, 7, 0]
    );
}

#[test]
fn malformed_fields_read_as_zero() {
    assert_eq!(parse_program(b""), vec![0]);
    assert_eq!(parse_program(b"\n"), vec![0]);
    assert_eq!(parse_program(b"1,,2"), vec![1, 0, 2]);
    assert_eq!(parse_program(b"1,2,"), vec![1, 2, 0]);
    assert_eq!(parse_program(b"1, 2,x,-,+5,4-,99"), vec![1, 0, 0, 0, 0, 0, 99]);
    assert_eq!(parse_program(b"9223372036854775808,-9223372036854775809,5"), vec![0, 0, 5]);
    assert_eq!(parse_program(b"99999999999999999999999999999999999999999999,1"), vec![0, 1]);
    assert_eq!(parse_program(b"1,2\n\n"), vec![1, 0]);
}

fn factorial(n: usize) -> usize {
    (1..=n).product()
}

#[test]
fn permutations_list_every_order_once() {
    for n in 0..=6usize {
        let numbers: Vec<Word> = (0..n as Word).map(|k| 5 + k).collect();
        let all = permutations(&numbers);
        assert_eq!(all.len(), factorial(n));
        let mut sorted = all.clone();
        sorted.sort();
        sorted.dedup();
        assert_eq!(sorted.len(), all.len());
        for p in &all {
            let mut q = p.clone();
            q.sort();
            assert_eq!(q, numbers);
        }
    }
}

#[test]
fn permutations_in_listing_order() {
    assert_eq!(permutations(&vec![]), vec![Vec::<Word>::new()]);
    assert_eq!(permutations(&vec![4]), vec![vec![4]]);
    assert_eq!(permutations(&vec![1, 2]), vec![vec![2, 1], vec![1, 2]]);
    assert_eq!(
        permutations(&vec![1, 2, 3]),
        vec![
            vec![3, 2, 1],
            vec![2, 3, 1],
            vec![2, 1, 3],
            vec![3, 1, 2],
            vec![1, 3, 2],
            vec![1, 2, 3],
        ]
    );
    assert_eq!(permutations(&vec![7, 7]), vec![vec![7, 7], vec![7, 7]]);
}
