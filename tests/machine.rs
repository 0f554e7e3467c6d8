use systemf::exec::{
    decode_syscall, Action, Machine, RuntimeError, SyscallArg, SyscallRequest, DATA_LENGTH,
};
use systemf::lexer::{tokenize, Token};

fn load(source: &str) -> Machine {
    Machine::new(tokenize(source).unwrap()).unwrap()
}

/// Runs to the end, feeding `input` to input instructions; stops at the
/// first system call or error.
fn run(m: &mut Machine, input: &[u8]) -> Result<(Vec<u8>, Option<SyscallRequest>), RuntimeError> {
    let mut out = Vec::new();
    let mut input = input.iter();
    loop {
        match m.step()? {
            Action::Halted => return Ok((out, None)),
            Action::Continue => {}
            Action::Output(b) => out.push(b),
            Action::Input => m.store_input(input.next().copied()),
            Action::Syscall(req) => return Ok((out, Some(req))),
        }
    }
}

#[test]
fn empty_program_halts_at_once() {
    let mut m = load("");
    assert_eq!(m.step(), Ok(Action::Halted));
    assert_eq!(m.instruction_pointer, 0);
    assert_eq!(m.data_pointer, 0);
    assert!(m.tape.iter().all(|&b| b == 0));
    assert_eq!(m.tape.len(), DATA_LENGTH);
}

#[test]
fn two_increments_output_two() {
    let mut m = load("++.");
    assert_eq!(run(&mut m, &[]), Ok((vec![2], None)));
}

#[test]
fn clearing_loop_terminates() {
    let mut m = load("+[-]");
    assert_eq!(run(&mut m, &[]), Ok((vec![], None)));
    assert_eq!(m.tape[0], 0);
    assert_eq!(m.data_pointer, 0);
    assert_eq!(m.instruction_pointer, 4);
}

#[test]
fn loop_skipped_when_cell_is_zero() {
    let mut m = load("[+.]-.");
    assert_eq!(run(&mut m, &[]), Ok((vec![255], None)));
}

#[test]
fn increment_wraps_to_zero() {
    let source = "+".repeat(256) + ".";
    let mut m = load(&source);
    assert_eq!(run(&mut m, &[]), Ok((vec![0], None)));
}

#[test]
fn input_is_stored_and_end_of_input_keeps_cell() {
    let mut m = load(",+.,.");
    assert_eq!(run(&mut m, &[41]), Ok((vec![42, 42], None)));
}

#[test]
fn moving_left_of_first_cell_fails() {
    let mut m = load("<");
    assert_eq!(m.step(), Err(RuntimeError::OutOfBounds));
}

#[test]
fn moving_right_of_last_cell_fails() {
    let mut m = load(&">".repeat(DATA_LENGTH));
    let r = run(&mut m, &[]);
    assert_eq!(r, Err(RuntimeError::OutOfBounds));
    assert_eq!(m.data_pointer, DATA_LENGTH - 1);
}

#[test]
fn pointer_moves_and_cells_are_separate() {
    let mut m = load("+>++>+++<.<.>>.");
    assert_eq!(run(&mut m, &[]), Ok((vec![2, 1, 3], None)));
}

#[test]
fn machine_refuses_jump_outside_program() {
    assert!(Machine::new(vec![Token::Jfw { instruction_ref: 1 }]).is_none());
    assert!(Machine::new(vec![Token::Jbw { instruction_ref: 0 }]).is_some());
}

#[test]
fn regular_descriptor_decodes_to_its_value() {
    let tape = vec![39, 1, 0, 1, 0x05];
    let req = decode_syscall(&tape, 0).unwrap();
    assert_eq!(req, SyscallRequest { number: 39, args: vec![SyscallArg::Value(5)] });
}

#[test]
fn regular_descriptor_is_big_endian() {
    let tape = vec![1, 1, 0, 3, 0x01, 0x02, 0x03];
    let req = decode_syscall(&tape, 0).unwrap();
    assert_eq!(req.args, vec![SyscallArg::Value(0x010203)]);
}

#[test]
fn regular_descriptor_of_a_full_word() {
    let tape = vec![1, 1, 0, 8, 0xff, 0, 0, 0, 0, 0, 0, 0x01];
    let req = decode_syscall(&tape, 0).unwrap();
    assert_eq!(req.args, vec![SyscallArg::Value(0xff00_0000_0000_0001)]);
}

#[test]
fn cell_pointer_descriptor_is_offset_into_tape() {
    let tape = vec![0, 1, 2, 1, 10];
    let req = decode_syscall(&tape, 0).unwrap();
    assert_eq!(req.args, vec![SyscallArg::TapeOffset(10)]);
}

#[test]
fn pointer_descriptor_points_at_its_payload() {
    let tape = vec![9, 9, 1, 2, 1, 3, b'h', b'i', b'!', 0, 1, 0x2a];
    let req = decode_syscall(&tape, 2).unwrap();
    assert_eq!(req.number, 1);
    assert_eq!(req.args, vec![SyscallArg::TapeOffset(6), SyscallArg::Value(42)]);
}

#[test]
fn unknown_descriptor_kind_fails() {
    let tape = vec![1, 1, 3, 1, 0];
    assert_eq!(decode_syscall(&tape, 0), Err(RuntimeError::InvalidSyscallArgumentType { arg_type: 3 }));
}

#[test]
fn unknown_kind_stops_the_run_before_any_call() {
    // cell 0: call 1, one operand of kind 3
    let mut m = load("+>+>+++<<%");
    assert_eq!(run(&mut m, &[]), Err(RuntimeError::InvalidSyscallArgumentType { arg_type: 3 }));
}

#[test]
fn too_many_operands_fail() {
    let tape = vec![1, 7, 0, 0];
    assert_eq!(decode_syscall(&tape, 0), Err(RuntimeError::TooManySyscallArguments { count: 7 }));
}

#[test]
fn numeric_payload_wider_than_a_word_fails() {
    let mut tape = vec![1, 1, 0, 9];
    tape.extend_from_slice(&[0; 9]);
    assert_eq!(decode_syscall(&tape, 0), Err(RuntimeError::SyscallArgumentTooLong { length: 9 }));
    let mut tape = vec![1, 1, 1, 9];
    tape.extend_from_slice(&[0; 9]);
    assert_eq!(decode_syscall(&tape, 0).unwrap().args, vec![SyscallArg::TapeOffset(4)]);
}

#[test]
fn descriptor_past_the_tape_fails() {
    assert_eq!(decode_syscall(&vec![1], 0), Err(RuntimeError::OutOfBounds));
    assert_eq!(decode_syscall(&vec![1, 1], 0), Err(RuntimeError::OutOfBounds));
    assert_eq!(decode_syscall(&vec![1, 1, 0], 0), Err(RuntimeError::OutOfBounds));
    assert_eq!(decode_syscall(&vec![1, 1, 0, 2, 5], 0), Err(RuntimeError::OutOfBounds));
}

#[test]
fn no_operands_decode_to_empty_list() {
    assert_eq!(decode_syscall(&vec![39, 0], 0), Ok(SyscallRequest { number: 39, args: vec![] }));
}

#[test]
fn syscall_request_and_result_write_back() {
    // cell 0: call 39, no operands
    let source = "+".repeat(39) + "%.";
    let mut m = load(&source);
    let (out, req) = run(&mut m, &[]).unwrap();
    assert!(out.is_empty());
    assert_eq!(req, Some(SyscallRequest { number: 39, args: vec![] }));
    m.store_syscall_result(0x1234);
    assert_eq!(m.tape[0], 0x34);
    assert_eq!(run(&mut m, &[]), Ok((vec![0x34], None)));
}

#[test]
fn failed_call_stores_low_byte_of_minus_one() {
    let mut m = load("");
    m.store_syscall_result(-1);
    assert_eq!(m.tape[0], 255);
}
