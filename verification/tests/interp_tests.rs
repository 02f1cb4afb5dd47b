use brainruck::interp::Interpreter;
use brainruck::machine::RunError;
use brainruck::tape::ByteStream;

const STEPS: u64 = 1_000_000;

fn run_program(code: &[u8], input: Vec<u8>) -> Result<Vec<u8>, RunError> {
    let mut interp = Interpreter::new(ByteStream::new(input), Vec::new());
    interp.run(code, STEPS)?;
    Ok(interp.into_output())
}

#[test]
fn increments_and_decrements_accumulate() {
    assert_eq!(run_program(b"+++-.", Vec::new()), Ok(vec![2]));
}

#[test]
fn increments_wrap_modulo_256() {
    let mut code: Vec<u8> = Vec::new();
    for _ in 0..300 {
        code.push(b'+');
    }
    code.push(b'.');
    assert_eq!(run_program(&code, Vec::new()), Ok(vec![44]));
}

#[test]
fn decrement_from_zero_wraps_to_255() {
    assert_eq!(run_program(b"-.", Vec::new()), Ok(vec![255]));
}

#[test]
fn balanced_brackets_on_zero_cell_skip_their_bodies() {
    let code = b"[[][]][].";
    assert_eq!(run_program(code, Vec::new()), Ok(vec![0]));
}

#[test]
fn balanced_brackets_on_zero_cell_leave_tape_untouched() {
    let mut interp = Interpreter::new(ByteStream::new(Vec::new()), Vec::new());
    assert_eq!(interp.run(b"[[][]][]", STEPS), Ok(()));
    assert_eq!(interp.tape.cells, vec![0u8]);
    assert_eq!(interp.tape.head, 0);
    assert_eq!(interp.output(), &Vec::new());
}

#[test]
fn moving_left_from_origin_aborts() {
    assert_eq!(run_program(b"<", Vec::new()), Err(RunError::BoundaryViolation));
}

#[test]
fn reading_past_end_of_input_yields_zero() {
    assert_eq!(run_program(b",.", Vec::new()), Ok(vec![0]));
    assert_eq!(run_program(b",,,.", vec![7]), Ok(vec![0]));
}

#[test]
fn round_trip_copies_input_byte_to_output() {
    assert_eq!(run_program(b",.", vec![0x41]), Ok(vec![0x41]));
}

#[test]
fn hello_world_emits_exact_bytes() {
    let code = b"++++++++++[>+++++++>++++++++++>+++>+<<<<-]>++.>+.+++++++..+++.>++.\
                 <<+++++++++++++++.>.+++.------.--------.>+.>.";
    assert_eq!(run_program(code, Vec::new()), Ok(b"Hello World!\n".to_vec()));
}

#[test]
fn unmatched_open_bracket_is_invalid_program() {
    assert_eq!(run_program(b"[", Vec::new()), Err(RunError::UnmatchedBracket));
}

#[test]
fn unmatched_close_bracket_is_invalid_program() {
    assert_eq!(run_program(b"+]", Vec::new()), Err(RunError::UnmatchedBracket));
}

#[test]
fn open_bracket_on_nonzero_cell_is_not_scanned() {
    // Bracket validation is lazy: entering a loop does not look for the
    // matching close bracket, so a missing one goes unnoticed here.
    assert_eq!(run_program(b"+[", Vec::new()), Ok(Vec::new()));
}

#[test]
fn rights_then_lefts_return_head_to_origin_and_grow_tape() {
    let n = 5;
    let mut code: Vec<u8> = Vec::new();
    for _ in 0..n {
        code.push(b'>');
    }
    for _ in 0..n {
        code.push(b'<');
    }
    let mut interp = Interpreter::new(ByteStream::new(Vec::new()), Vec::new());
    assert_eq!(interp.run(&code, STEPS), Ok(()));
    assert_eq!(interp.tape.head, 0);
    assert!(interp.tape.cells.len() >= n + 1);
}

#[test]
fn unrecognized_bytes_are_ignored() {
    assert_eq!(run_program(b"a+b+c. comment", Vec::new()), Ok(vec![2]));
}

#[test]
fn endless_loop_hits_the_step_limit() {
    let mut interp = Interpreter::new(ByteStream::new(Vec::new()), Vec::new());
    assert_eq!(interp.run(b"+[]", 1000), Err(RunError::StepLimit));
}

#[test]
fn matching_for_left_paren_finds_first_zero_depth_close() {
    let interp = Interpreter::new(ByteStream::new(Vec::new()), Vec::new());
    let code = b"[+[-]+]";
    assert_eq!(interp.matching_for_left_paren(0, code), Ok(6));
    assert_eq!(interp.matching_for_left_paren(2, code), Ok(4));
    assert_eq!(interp.matching_for_left_paren(0, b"[["), Err(RunError::UnmatchedBracket));
}

#[test]
fn matching_for_right_paren_finds_last_zero_depth_open() {
    let interp = Interpreter::new(ByteStream::new(Vec::new()), Vec::new());
    let code = b"[+[-]+]";
    assert_eq!(interp.matching_for_right_paren(6, code), Ok(0));
    assert_eq!(interp.matching_for_right_paren(4, code), Ok(2));
    assert_eq!(interp.matching_for_right_paren(1, b"]]"), Err(RunError::UnmatchedBracket));
}

#[test]
fn output_accessors_expose_collected_bytes() {
    let mut interp = Interpreter::new(ByteStream::new(vec![3]), Vec::new());
    assert_eq!(interp.run(b",.+.", STEPS), Ok(()));
    assert_eq!(interp.output(), &vec![3, 4]);
    assert_eq!(interp.into_output(), vec![3, 4]);
}

#[test]
fn nested_loop_multiplication_terminates_with_product() {
    // 3 * 4 computed by a nested loop, left in the second cell.
    assert_eq!(run_program(b"+++[>++++<-]>.", Vec::new()), Ok(vec![12]));
}
