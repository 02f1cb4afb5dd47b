use brainruck::machine::RunError;
use brainruck::tape::{ByteStream, Tape};

#[test]
fn new_tape_is_single_zero_cell() {
    let t = Tape::new();
    assert_eq!(t.head, 0);
    assert_eq!(t.cells, vec![0u8]);
    assert!(t.is_zero());
}

#[test]
fn right_appends_zero_cell_at_end() {
    let mut t = Tape::new();
    t.right();
    assert_eq!(t.head, 1);
    assert_eq!(t.cells, vec![0u8, 0u8]);
    t.right();
    assert_eq!(t.head, 2);
    assert_eq!(t.cells, vec![0u8, 0u8, 0u8]);
}

#[test]
fn left_moves_back_after_right() {
    let mut t = Tape::new();
    t.right();
    assert_eq!(t.left(), Ok(()));
    assert_eq!(t.head, 0);
    assert_eq!(t.cells, vec![0u8, 0u8]);
}

#[test]
fn left_at_origin_is_boundary_violation() {
    let mut t = Tape::new();
    assert_eq!(t.left(), Err(RunError::BoundaryViolation));
    assert_eq!(t.head, 0);
    assert_eq!(t.cells, vec![0u8]);
}

#[test]
fn increment_wraps_from_255_to_0() {
    let mut t = Tape::new();
    for _ in 0..255 {
        t.increment();
    }
    assert_eq!(t.cells[0], 255);
    t.increment();
    assert_eq!(t.cells[0], 0);
    assert!(t.is_zero());
}

#[test]
fn decrement_wraps_from_0_to_255() {
    let mut t = Tape::new();
    t.decrement();
    assert_eq!(t.cells[0], 255);
    t.increment();
    assert_eq!(t.cells[0], 0);
}

#[test]
fn output_appends_cell_byte() {
    let mut t = Tape::new();
    t.increment();
    t.increment();
    let mut out: Vec<u8> = vec![9];
    t.output(&mut out);
    assert_eq!(out, vec![9, 2]);
}

#[test]
fn input_reads_byte_and_advances() {
    let mut t = Tape::new();
    let mut src = ByteStream::new(vec![65, 66]);
    t.input(&mut src);
    assert_eq!(t.cells[0], 65);
    assert_eq!(src.pos, 1);
    t.input(&mut src);
    assert_eq!(t.cells[0], 66);
    assert_eq!(src.pos, 2);
}

#[test]
fn input_at_end_of_stream_sets_cell_to_zero() {
    let mut t = Tape::new();
    for _ in 0..5 {
        t.increment();
    }
    assert_eq!(t.cells[0], 5);
    let mut src = ByteStream::new(Vec::new());
    t.input(&mut src);
    assert_eq!(t.cells[0], 0);
    assert_eq!(src.pos, 0);
}
