//! Mathematical model of an execution: machine states, the small-step
//! transition relation, and the bracket-matching specification.

use vstd::prelude::*;

verus! {

/// Instruction byte: move the head one cell to the right.
pub const INSTR_RIGHT: u8 = 62;
/// Instruction byte: move the head one cell to the left.
pub const INSTR_LEFT: u8 = 60;
/// Instruction byte: increment the cell at the head (wrapping).
pub const INSTR_PLUS: u8 = 43;
/// Instruction byte: decrement the cell at the head (wrapping).
pub const INSTR_MINUS: u8 = 45;
/// Instruction byte: write the cell at the head to the output.
pub const INSTR_DOT: u8 = 46;
/// Instruction byte: read one input byte into the cell at the head.
pub const INSTR_COMMA: u8 = 44;
/// Instruction byte: jump past the matching close bracket if the cell is zero.
pub const INSTR_OPEN: u8 = 91;
/// Instruction byte: jump back past the matching open bracket if the cell is nonzero.
pub const INSTR_CLOSE: u8 = 93;

/// The ways a run can fail.
#[derive(Clone, Copy, Debug, PartialEq, Eq, Structural)]
pub enum RunError {
    /// The head was asked to move left of cell index 0.
    BoundaryViolation,
    /// A bracket was reached whose matching counterpart does not exist.
    UnmatchedBracket,
    /// The step budget given to the run was exhausted before the program
    /// ended. The language itself has no such condition; a budget is what
    /// makes the interpreter a total, verifiable function even though a
    /// program may loop forever. A caller that wants a run bounded only by
    /// patience passes `u64::MAX`.
    StepLimit,
}

/// A snapshot of an execution: the tape contents and head position, how much
/// of the input has been consumed, the output produced so far, and the
/// program cursor.
#[verifier::ext_equal]
pub ghost struct MachineState {
    pub cells: Seq<u8>,
    pub head: int,
    pub in_pos: int,
    pub out: Seq<u8>,
    pub pc: int,
}

/// A machine state is well formed when the head is a valid cell index and
/// the input position and program cursor are not negative.
pub open spec fn state_wf(s: MachineState) -> bool {
    &&& 0 <= s.head < s.cells.len()
    &&& 0 <= s.in_pos
    &&& 0 <= s.pc
}

/// The machine state at the start of a run: one zero cell, head at 0,
/// nothing consumed, nothing output, cursor at 0.
pub open spec fn init_state() -> MachineState {
    MachineState { cells: seq![0u8], head: 0, in_pos: 0, out: Seq::empty(), pc: 0 }
}

/// Incrementing a byte wraps modulo 256.
pub open spec fn wrap_inc(b: u8) -> u8 {
    ((b + 1) % 256) as u8
}

/// Decrementing a byte wraps modulo 256.
pub open spec fn wrap_dec(b: u8) -> u8 {
    ((b + 255) % 256) as u8
}

/// The contribution of one byte to the bracket nesting level: open brackets
/// count +1, close brackets -1, every other byte 0.
pub open spec fn bracket_weight(b: u8) -> int {
    if b == INSTR_OPEN {
        1
    } else if b == INSTR_CLOSE {
        -1
    } else {
        0
    }
}

/// The number of open brackets minus the number of close brackets in
/// `code[lo..hi]`.
pub open spec fn balance(code: Seq<u8>, lo: int, hi: int) -> int
    decreases hi - lo,
{
    if lo >= hi {
        0
    } else {
        balance(code, lo, hi - 1) + bracket_weight(code[hi - 1])
    }
}

/// `j` is the matching close bracket for the open bracket at `i`: it is the
/// first position after `i` holding a close bracket at nesting level zero
/// relative to `i`.
pub open spec fn is_forward_match(code: Seq<u8>, i: int, j: int) -> bool {
    &&& i < j < code.len()
    &&& code[j] == INSTR_CLOSE
    &&& balance(code, i + 1, j) == 0
    &&& forall|k: int|
        i < k < j ==> !(code[k] == INSTR_CLOSE && balance(code, i + 1, k) == 0)
}

/// Some position matches the open bracket at `i`.
pub open spec fn has_forward_match(code: Seq<u8>, i: int) -> bool {
    exists|j: int| is_forward_match(code, i, j)
}

/// The position of the close bracket matching the open bracket at `i`
/// (meaningful when `has_forward_match` holds).
pub open spec fn forward_match(code: Seq<u8>, i: int) -> int {
    choose|j: int| is_forward_match(code, i, j)
}

/// `j` is the matching open bracket for the close bracket at `i`: it is the
/// last position before `i` holding an open bracket at nesting level zero
/// relative to `i`.
pub open spec fn is_backward_match(code: Seq<u8>, i: int, j: int) -> bool {
    &&& 0 <= j < i
    &&& code[j] == INSTR_OPEN
    &&& balance(code, j + 1, i) == 0
    &&& forall|k: int|
        j < k < i ==> !(code[k] == INSTR_OPEN && balance(code, k + 1, i) == 0)
}

/// Some position matches the close bracket at `i`.
pub open spec fn has_backward_match(code: Seq<u8>, i: int) -> bool {
    exists|j: int| is_backward_match(code, i, j)
}

/// The position of the open bracket matching the close bracket at `i`
/// (meaningful when `has_backward_match` holds).
pub open spec fn backward_match(code: Seq<u8>, i: int) -> int {
    choose|j: int| is_backward_match(code, i, j)
}

/// The outcome of one dispatch step.
pub ghost enum StepResult {
    /// The instruction executed; this is the state afterwards.
    Next(MachineState),
    /// The cursor is at (or past) the end of the program: the run is over.
    Halted,
    /// The instruction failed: the run aborts with this error.
    Failed(RunError),
}

/// One dispatch step of the interpreter on program `code` with input `inp`:
/// executes the instruction at the cursor and advances the cursor by one
/// (a taken bracket jump lands on the matched bracket, so the advance moves
/// just past it). Unrecognized bytes are no-ops.
pub open spec fn step(code: Seq<u8>, inp: Seq<u8>, s: MachineState) -> StepResult {
    if !(0 <= s.pc < code.len()) {
        StepResult::Halted
    } else {
        let b = code[s.pc];
        if b == INSTR_RIGHT {
            let cells = if s.head == s.cells.len() - 1 {
                s.cells.push(0u8)
            } else {
                s.cells
            };
            StepResult::Next(
                MachineState {
                    cells,
                    head: s.head + 1,
                    in_pos: s.in_pos,
                    out: s.out,
                    pc: s.pc + 1,
                },
            )
        } else if b == INSTR_LEFT {
            if s.head == 0 {
                StepResult::Failed(RunError::BoundaryViolation)
            } else {
                StepResult::Next(
                    MachineState {
                        cells: s.cells,
                        head: s.head - 1,
                        in_pos: s.in_pos,
                        out: s.out,
                        pc: s.pc + 1,
                    },
                )
            }
        } else if b == INSTR_PLUS {
            StepResult::Next(
                MachineState {
                    cells: s.cells.update(s.head, wrap_inc(s.cells[s.head])),
                    head: s.head,
                    in_pos: s.in_pos,
                    out: s.out,
                    pc: s.pc + 1,
                },
            )
        } else if b == INSTR_MINUS {
            StepResult::Next(
                MachineState {
                    cells: s.cells.update(s.head, wrap_dec(s.cells[s.head])),
                    head: s.head,
                    in_pos: s.in_pos,
                    out: s.out,
                    pc: s.pc + 1,
                },
            )
        } else if b == INSTR_DOT {
            StepResult::Next(
                MachineState {
                    cells: s.cells,
                    head: s.head,
                    in_pos: s.in_pos,
                    out: s.out.push(s.cells[s.head]),
                    pc: s.pc + 1,
                },
            )
        } else if b == INSTR_COMMA {
            if s.in_pos < inp.len() {
                StepResult::Next(
                    MachineState {
                        cells: s.cells.update(s.head, inp[s.in_pos]),
                        head: s.head,
                        in_pos: s.in_pos + 1,
                        out: s.out,
                        pc: s.pc + 1,
                    },
                )
            } else {
                StepResult::Next(
                    MachineState {
                        cells: s.cells.update(s.head, 0u8),
                        head: s.head,
                        in_pos: s.in_pos,
                        out: s.out,
                        pc: s.pc + 1,
                    },
                )
            }
        } else if b == INSTR_OPEN {
            if s.cells[s.head] == 0 {
                if has_forward_match(code, s.pc) {
                    StepResult::Next(
                        MachineState {
                            cells: s.cells,
                            head: s.head,
                            in_pos: s.in_pos,
                            out: s.out,
                            pc: forward_match(code, s.pc) + 1,
                        },
                    )
                } else {
                    StepResult::Failed(RunError::UnmatchedBracket)
                }
            } else {
                StepResult::Next(
                    MachineState {
                        cells: s.cells,
                        head: s.head,
                        in_pos: s.in_pos,
                        out: s.out,
                        pc: s.pc + 1,
                    },
                )
            }
        } else if b == INSTR_CLOSE {
            if s.cells[s.head] != 0 {
                if has_backward_match(code, s.pc) {
                    StepResult::Next(
                        MachineState {
                            cells: s.cells,
                            head: s.head,
                            in_pos: s.in_pos,
                            out: s.out,
                            pc: backward_match(code, s.pc) + 1,
                        },
                    )
                } else {
                    StepResult::Failed(RunError::UnmatchedBracket)
                }
            } else {
                StepResult::Next(
                    MachineState {
                        cells: s.cells,
                        head: s.head,
                        in_pos: s.in_pos,
                        out: s.out,
                        pc: s.pc + 1,
                    },
                )
            }
        } else {
            StepResult::Next(
                MachineState {
                    cells: s.cells,
                    head: s.head,
                    in_pos: s.in_pos,
                    out: s.out,
                    pc: s.pc + 1,
                },
            )
        }
    }
}

/// The state after `n` dispatch steps from `s` (a step that halts or fails
/// leaves the state unchanged).
pub open spec fn run_n(code: Seq<u8>, inp: Seq<u8>, s: MachineState, n: nat) -> MachineState
    decreases n,
{
    if n == 0 {
        s
    } else {
        let prev = run_n(code, inp, s, (n - 1) as nat);
        match step(code, inp, prev) {
            StepResult::Next(s2) => s2,
            StepResult::Halted => prev,
            StepResult::Failed(_) => prev,
        }
    }
}

/// Each of the first `n` dispatch steps from `s` executes an instruction
/// (none halts or fails).
pub open spec fn steps_ok(code: Seq<u8>, inp: Seq<u8>, s: MachineState, n: nat) -> bool {
    forall|m: nat|
        m < n ==> (step(code, inp, #[trigger] run_n(code, inp, s, m)) is Next)
}

/// The bracket balance over an interval is the sum of the balances over its
/// two halves.
pub proof fn lemma_balance_concat(code: Seq<u8>, a: int, b: int, c: int)
    requires
        a <= b <= c,
    ensures
        balance(code, a, c) == balance(code, a, b) + balance(code, b, c),
    decreases c - b,
{
    if b < c {
        lemma_balance_concat(code, a, b, c - 1);
    }
}

/// An open bracket has at most one matching close bracket.
pub proof fn lemma_forward_match_unique(code: Seq<u8>, i: int, j1: int, j2: int)
    requires
        is_forward_match(code, i, j1),
        is_forward_match(code, i, j2),
    ensures
        j1 == j2,
{
}

/// A close bracket has at most one matching open bracket.
pub proof fn lemma_backward_match_unique(code: Seq<u8>, i: int, j1: int, j2: int)
    requires
        is_backward_match(code, i, j1),
        is_backward_match(code, i, j2),
    ensures
        j1 == j2,
{
}

/// Prepending one executed step: running `n` steps from the successor state
/// reaches the same state as running `n + 1` steps from the earlier one.
pub proof fn lemma_run_n_shift(code: Seq<u8>, inp: Seq<u8>, t: MachineState, t1: MachineState, n: nat)
    requires
        step(code, inp, t) == StepResult::Next(t1),
    ensures
        run_n(code, inp, t, n + 1) == run_n(code, inp, t1, n),
    decreases n,
{
    if n == 0 {
        assert(run_n(code, inp, t, 0) == t);
        assert(run_n(code, inp, t1, 0) == t1);
        assert(run_n(code, inp, t, 1) == t1);
    } else {
        lemma_run_n_shift(code, inp, t, t1, (n - 1) as nat);
        assert(run_n(code, inp, t, n) == run_n(code, inp, t1, (n - 1) as nat));
        assert(run_n(code, inp, t, n + 1) == run_n(code, inp, t1, n));
    }
}

/// Prepending one executed step to a run in which every step executes gives
/// a run in which every step executes.
pub proof fn lemma_steps_ok_shift(code: Seq<u8>, inp: Seq<u8>, t: MachineState, t1: MachineState, n: nat)
    requires
        step(code, inp, t) == StepResult::Next(t1),
        steps_ok(code, inp, t1, n),
    ensures
        steps_ok(code, inp, t, n + 1),
{
    assert forall|m: nat| m < n + 1 implies
        step(code, inp, #[trigger] run_n(code, inp, t, m)) is Next by {
        if m > 0 {
            lemma_run_n_shift(code, inp, t, t1, (m - 1) as nat);
            assert(run_n(code, inp, t, m) == run_n(code, inp, t1, (m - 1) as nat));
        }
    }
}

} // verus!
