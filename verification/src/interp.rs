//! The interpreter: owns a tape and the two byte buffers standing for the
//! input and output streams, and executes a program against them.

use vstd::prelude::*;
use crate::machine::{
    MachineState, RunError, StepResult, balance, backward_match, bracket_weight, forward_match,
    has_backward_match, has_forward_match, init_state, is_backward_match, is_forward_match,
    lemma_backward_match_unique, lemma_balance_concat, lemma_forward_match_unique,
    lemma_run_n_shift, lemma_steps_ok_shift, run_n, step, steps_ok, INSTR_CLOSE, INSTR_COMMA,
    INSTR_DOT, INSTR_LEFT, INSTR_MINUS, INSTR_OPEN, INSTR_PLUS, INSTR_RIGHT,
};
use crate::tape::{ByteStream, Tape};

verus! {

/// Couples one tape, one input stream, and one output buffer for the
/// duration of a single run.
pub struct Interpreter {
    /// The input stream, consumed byte by byte on the read instruction.
    pub input: ByteStream,
    /// The output buffer, appended to byte by byte on the write instruction.
    pub output: Vec<u8>,
    /// The memory tape.
    pub tape: Tape,
}

impl Interpreter {
    /// An interpreter is well formed when its tape and input stream are.
    pub open spec fn wf(&self) -> bool {
        &&& self.tape.wf()
        &&& self.input.wf()
    }

    /// The machine state this interpreter embodies, at program cursor `pc`.
    pub open spec fn state(&self, pc: int) -> MachineState {
        MachineState {
            cells: self.tape.cells@,
            head: self.tape.head as int,
            in_pos: self.input.pos as int,
            out: self.output@,
            pc,
        }
    }

    /// Creates an interpreter over the given streams, with a fresh tape.
    pub fn new(input: ByteStream, output: Vec<u8>) -> (r: Interpreter)
        requires
            input.wf(),
        ensures
            r.wf(),
            r.state(0) == (MachineState {
                cells: seq![0u8],
                head: 0,
                in_pos: input.pos as int,
                out: output@,
                pc: 0,
            }),
            r.input == input,
        {
        Interpreter { input, output, tape: Tape::new() }
    }

    /// Borrows the output buffer.
    pub fn output(&self) -> (r: &Vec<u8>)
        ensures
            r@ == self.output@,
    {
        &self.output
    }

    /// Consumes the interpreter, returning the output buffer.
    pub fn into_output(self) -> (r: Vec<u8>)
        ensures
            r@ == self.output@,
    {
        self.output
    }

    /// Executes the program `code` until it ends, an instruction fails, or
    /// `max_steps` instructions have been dispatched.
    ///
    /// The contract relates the result to the dispatch-step model: on `Ok`,
    /// some number of steps all executed and reached the end of the program,
    /// and the interpreter embodies the state those steps produced; on an
    /// error other than the step limit, some number of steps all executed
    /// and the next one failed with that error, and the interpreter embodies
    /// the state reached just before the failing instruction; on the step
    /// limit, all `max_steps` steps executed and the program had still not
    /// ended.
    pub fn run(&mut self, code: &[u8], max_steps: u64) -> (r: Result<(), RunError>)
        requires
            old(self).wf(),
        ensures
            final(self).wf(),
            final(self).input.data@ == old(self).input.data@,
            r matches Ok(()) ==> exists|n: nat|
                {
                    &&& n <= max_steps
                    &&& #[trigger] steps_ok(code@, old(self).input.data@, old(self).state(0), n)
                    &&& run_n(code@, old(self).input.data@, old(self).state(0), n).pc
                        == code@.len()
                    &&& final(self).state(code@.len() as int) == run_n(
                        code@,
                        old(self).input.data@,
                        old(self).state(0),
                        n,
                    )
                },
            r matches Err(e) ==> e == RunError::StepLimit || exists|n: nat|
                {
                    &&& n < max_steps
                    &&& #[trigger] steps_ok(code@, old(self).input.data@, old(self).state(0), n)
                    &&& step(
                        code@,
                        old(self).input.data@,
                        run_n(code@, old(self).input.data@, old(self).state(0), n),
                    ) == StepResult::Failed(e)
                    &&& final(self).state(
                        run_n(code@, old(self).input.data@, old(self).state(0), n).pc,
                    ) == run_n(code@, old(self).input.data@, old(self).state(0), n)
                },
            r == Err::<(), RunError>(RunError::StepLimit) ==> {
                &&& steps_ok(code@, old(self).input.data@, old(self).state(0), max_steps as nat)
                &&& run_n(code@, old(self).input.data@, old(self).state(0), max_steps as nat).pc
                    != code@.len()
                &&& final(self).state(
                    run_n(code@, old(self).input.data@, old(self).state(0), max_steps as nat).pc,
                ) == run_n(code@, old(self).input.data@, old(self).state(0), max_steps as nat)
            },
    {
        let ghost codes = code@;
        let ghost inp = self.input.data@;
        let ghost s0 = self.state(0);
        let n_code = code.len();
        let mut i: usize = 0;
        let mut remaining: u64 = max_steps;
        let ghost mut steps: nat = 0;
        while i < n_code
            invariant
                codes == code@,
                n_code == codes.len(),
                s0 == old(self).state(0),
                inp == old(self).input.data@,
                self.wf(),
                self.input.data@ == inp,
                i <= n_code,
                steps + remaining == max_steps,
                steps_ok(codes, inp, s0, steps),
                run_n(codes, inp, s0, steps) == self.state(i as int),
            decreases remaining,
        {
            if remaining == 0 {
                return Err(RunError::StepLimit);
            }
            remaining = remaining - 1;
            let ghost pre = self.state(i as int);
            let b = code[i];
            if b == INSTR_RIGHT {
                self.tape.right();
            } else if b == INSTR_LEFT {
                match self.tape.left() {
                    Ok(()) => {},
                    Err(e) => {
                        proof {
                            assert(step(codes, inp, pre) == StepResult::Failed(
                                RunError::BoundaryViolation,
                            ));
                        }
                        return Err(e);
                    },
                }
            } else if b == INSTR_PLUS {
                self.tape.increment();
            } else if b == INSTR_MINUS {
                self.tape.decrement();
            } else if b == INSTR_DOT {
                self.tape.output(&mut self.output);
            } else if b == INSTR_COMMA {
                self.tape.input(&mut self.input);
            } else if b == INSTR_OPEN {
                if self.tape.is_zero() {
                    match self.matching_for_left_paren(i, code) {
                        Ok(j) => {
                            proof {
                                assert(has_forward_match(codes, i as int));
                                lemma_forward_match_unique(
                                    codes,
                                    i as int,
                                    j as int,
                                    forward_match(codes, i as int),
                                );
                            }
                            i = j;
                        },
                        Err(e) => {
                            proof {
                                assert(step(codes, inp, pre) == StepResult::Failed(
                                    RunError::UnmatchedBracket,
                                ));
                            }
                            return Err(e);
                        },
                    }
                }
            } else if b == INSTR_CLOSE {
                if !self.tape.is_zero() {
                    match self.matching_for_right_paren(i, code) {
                        Ok(j) => {
                            proof {
                                assert(has_backward_match(codes, i as int));
                                lemma_backward_match_unique(
                                    codes,
                                    i as int,
                                    j as int,
                                    backward_match(codes, i as int),
                                );
                            }
                            i = j;
                        },
                        Err(e) => {
                            proof {
                                assert(step(codes, inp, pre) == StepResult::Failed(
                                    RunError::UnmatchedBracket,
                                ));
                            }
                            return Err(e);
                        },
                    }
                }
            }
            i = i + 1;
            proof {
                assert(step(codes, inp, pre) == StepResult::Next(self.state(i as int)));
                assert(run_n(codes, inp, s0, steps + 1) == self.state(i as int));
                assert forall|m: nat| m < steps + 1 implies
                    step(codes, inp, #[trigger] run_n(codes, inp, s0, m)) is Next by {}
                steps = steps + 1;
            }
        }
        Ok(())
    }

    /// Finds the close bracket matching an open bracket at `current_index`:
    /// the first position after it holding a close bracket at nesting level
    /// zero. Returns the invalid-program error when no such position exists.
    pub fn matching_for_left_paren(&self, current_index: usize, code: &[u8]) -> (r: Result<
        usize,
        RunError,
    >)
        requires
            current_index < code@.len(),
        ensures
            r is Ok <==> has_forward_match(code@, current_index as int),
            r matches Ok(j) ==> is_forward_match(code@, current_index as int, j as int),
            r matches Err(e) ==> e == RunError::UnmatchedBracket,
    {
        let ghost ci = current_index as int;
        let n = code.len();
        let mut k: usize = current_index + 1;
        let mut depth: usize = 0;
        while k < n
            invariant
                ci == current_index as int,
                n == code@.len(),
                current_index < k <= code@.len(),
                depth == balance(code@, ci + 1, k as int),
                depth <= k - current_index - 1,
                forall|m: int|
                    ci < m < k ==> !(code@[m] == INSTR_CLOSE && balance(code@, ci + 1, m) == 0),
            decreases code@.len() - k,
        {
            let b = code[k];
            proof {
                assert(balance(code@, k as int, k as int) == 0);
                assert(balance(code@, k as int, k as int + 1) == bracket_weight(code@[k as int]));
                lemma_balance_concat(code@, ci + 1, k as int, k as int + 1);
            }
            if b == INSTR_OPEN {
                depth = depth + 1;
            } else if b == INSTR_CLOSE {
                if depth == 0 {
                    proof {
                        assert(is_forward_match(code@, ci, k as int));
                    }
                    return Ok(k);
                }
                depth = depth - 1;
            }
            k = k + 1;
        }
        proof {
            assert forall|j: int| !is_forward_match(code@, ci, j) by {
                if ci < j < code@.len() {
                    assert(!(code@[j] == INSTR_CLOSE && balance(code@, ci + 1, j) == 0));
                }
            }
        }
        Err(RunError::UnmatchedBracket)
    }

    /// Finds the open bracket matching a close bracket at `current_index`:
    /// the last position before it holding an open bracket at nesting level
    /// zero. Returns the invalid-program error when no such position exists.
    pub fn matching_for_right_paren(&self, current_index: usize, code: &[u8]) -> (r: Result<
        usize,
        RunError,
    >)
        requires
            current_index <= code@.len(),
        ensures
            r is Ok <==> has_backward_match(code@, current_index as int),
            r matches Ok(j) ==> is_backward_match(code@, current_index as int, j as int),
            r matches Err(e) ==> e == RunError::UnmatchedBracket,
    {
        let ghost ci = current_index as int;
        let mut k: usize = current_index;
        let mut depth: usize = 0;
        while k > 0
            invariant
                ci == current_index as int,
                k <= current_index <= code@.len(),
                depth == -balance(code@, k as int, ci),
                depth <= current_index - k,
                forall|m: int|
                    k <= m < ci ==> !(code@[m] == INSTR_OPEN && balance(code@, m + 1, ci) == 0),
            decreases k,
        {
            let b = code[k - 1];
            proof {
                assert(balance(code@, k - 1, k - 1) == 0);
                assert(balance(code@, k - 1, k as int) == bracket_weight(code@[k - 1]));
                lemma_balance_concat(code@, k - 1, k as int, ci);
            }
            if b == INSTR_CLOSE {
                depth = depth + 1;
            } else if b == INSTR_OPEN {
                if depth == 0 {
                    proof {
                        assert(is_backward_match(code@, ci, k - 1));
                    }
                    return Ok(k - 1);
                }
                depth = depth - 1;
            }
            k = k - 1;
        }
        proof {
            assert forall|j: int| !is_backward_match(code@, ci, j) by {
                if 0 <= j < ci {
                    assert(!(code@[j] == INSTR_OPEN && balance(code@, j + 1, ci) == 0));
                }
            }
        }
        Err(RunError::UnmatchedBracket)
    }
}

} // verus!
