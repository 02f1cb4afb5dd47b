//! Laws of the interpreter, proved against the dispatch-step model.

use vstd::prelude::*;
use vstd::arithmetic::div_mod::{lemma_add_mod_noop, lemma_mod_bound, lemma_sub_mod_noop};
use crate::machine::{
    MachineState, StepResult, balance, bracket_weight, forward_match, has_forward_match,
    init_state, is_forward_match, lemma_balance_concat, lemma_run_n_shift, lemma_steps_ok_shift,
    run_n, state_wf, step, steps_ok, wrap_dec, wrap_inc, INSTR_CLOSE, INSTR_LEFT, INSTR_MINUS,
    INSTR_OPEN, INSTR_PLUS, INSTR_RIGHT,
};

verus! {

/// Law: a dispatch step that executes preserves well-formedness and never
/// shrinks the tape.
pub proof fn lemma_step_preserves_wf(code: Seq<u8>, inp: Seq<u8>, s: MachineState)
    requires
        state_wf(s),
    ensures
        step(code, inp, s) matches StepResult::Next(s2) ==> state_wf(s2) && s2.cells.len()
            >= s.cells.len(),
{
}

/// Law: however many dispatch steps run, well-formedness is preserved and
/// the tape never shrinks.
pub proof fn lemma_run_n_never_shrinks(code: Seq<u8>, inp: Seq<u8>, s: MachineState, n: nat)
    requires
        state_wf(s),
    ensures
        state_wf(run_n(code, inp, s, n)),
        run_n(code, inp, s, n).cells.len() >= s.cells.len(),
    decreases n,
{
    if n > 0 {
        lemma_run_n_never_shrinks(code, inp, s, (n - 1) as nat);
        lemma_step_preserves_wf(code, inp, run_n(code, inp, s, (n - 1) as nat));
    }
}

/// The number of occurrences of `b` in `code[0..hi]`.
pub open spec fn count_byte(code: Seq<u8>, b: u8, hi: int) -> int
    decreases hi,
{
    if hi <= 0 {
        0
    } else {
        count_byte(code, b, hi - 1) + if code[hi - 1] == b {
            1int
        } else {
            0int
        }
    }
}

/// Law: running the first `n` instructions of a program made only of
/// increments and decrements leaves the single cell at the difference
/// between the increments and decrements dispatched, modulo 256 — the
/// value wraps around at 0 and at 255. Nothing else changes but the cursor.
pub proof fn lemma_inc_dec_cell_value(code: Seq<u8>, inp: Seq<u8>, n: nat)
    requires
        n <= code.len(),
        forall|i: int|
            0 <= i < code.len() ==> code[i] == INSTR_PLUS || code[i] == INSTR_MINUS,
    ensures
        steps_ok(code, inp, init_state(), n),
        run_n(code, inp, init_state(), n) == (MachineState {
            cells: seq![
                (((count_byte(code, INSTR_PLUS, n as int) - count_byte(
                    code,
                    INSTR_MINUS,
                    n as int,
                )) % 256) as u8)
            ],
            head: 0,
            in_pos: 0,
            out: Seq::empty(),
            pc: n as int,
        }),
    decreases n,
{
    let s0 = init_state();
    if n == 0 {
        assert(count_byte(code, INSTR_PLUS, 0) == 0);
        assert(count_byte(code, INSTR_MINUS, 0) == 0);
        assert(run_n(code, inp, s0, 0) == s0);
    } else {
        lemma_inc_dec_cell_value(code, inp, (n - 1) as nat);
        let prev = run_n(code, inp, s0, (n - 1) as nat);
        let d_prev = count_byte(code, INSTR_PLUS, n - 1) - count_byte(code, INSTR_MINUS, n - 1);
        let d = count_byte(code, INSTR_PLUS, n as int) - count_byte(code, INSTR_MINUS, n as int);
        let v = (d_prev % 256) as u8;
        lemma_mod_bound(d_prev, 256);
        assert(prev.cells[0] == v);
        if code[n - 1] == INSTR_PLUS {
            assert(d == d_prev + 1);
            lemma_add_mod_noop(d_prev, 1, 256);
            assert(wrap_inc(v) == ((d % 256) as u8)) by {
                assert((v + 1) % 256 == ((d_prev % 256) + (1int % 256)) % 256);
            }
        } else {
            assert(d == d_prev - 1);
            lemma_sub_mod_noop(d_prev, 1, 256);
            assert(wrap_dec(v) == ((d % 256) as u8)) by {
                lemma_add_mod_noop(d_prev % 256, 255, 256);
                lemma_mod_bound(d_prev - 1, 256);
                assert((v + 255) % 256 == ((d_prev % 256) - (1int % 256)) % 256) by {
                    assert(((d_prev % 256) + 255) % 256 == (((d_prev % 256) - 1) + 256) % 256);
                    assert((((d_prev % 256) - 1) + 256) % 256 == ((d_prev % 256) - 1) % 256) by {
                        lemma_add_mod_noop((d_prev % 256) - 1, 256, 256);
                    }
                }
            }
        }
        assert(prev.cells.update(0, ((d % 256) as u8)) =~= seq![((d % 256) as u8)]);
        assert(run_n(code, inp, s0, n) == (MachineState {
            cells: seq![((d % 256) as u8)],
            head: 0,
            in_pos: 0,
            out: Seq::empty(),
            pc: n as int,
        }));
        assert forall|m: nat| m < n implies
            step(code, inp, #[trigger] run_n(code, inp, s0, m)) is Next by {}
    }
}

/// Every byte of the program is a bracket.
pub open spec fn only_brackets(code: Seq<u8>) -> bool {
    forall|i: int| 0 <= i < code.len() ==> code[i] == INSTR_OPEN || code[i] == INSTR_CLOSE
}

/// The program's brackets are balanced: no prefix closes more brackets than
/// it opens, and the whole program closes every bracket it opens.
pub open spec fn balanced(code: Seq<u8>) -> bool {
    &&& balance(code, 0, code.len() as int) == 0
    &&& forall|k: int| 0 <= k <= code.len() ==> balance(code, 0, k) >= 0
}

/// Scanning right from `cur`, a region whose total bracket balance from `lo`
/// ends up negative must contain a first close bracket standing at balance
/// zero relative to `lo`.
proof fn lemma_first_close(code: Seq<u8>, lo: int, cur: int, hi: int)
    requires
        0 <= lo <= cur <= hi <= code.len(),
        balance(code, lo, hi) < 0,
        balance(code, lo, cur) >= 0,
        forall|k: int| lo <= k < cur ==> !(code[k] == INSTR_CLOSE && balance(code, lo, k) == 0),
    ensures
        exists|j: int|
            {
                &&& cur <= j < hi
                &&& code[j] == INSTR_CLOSE
                &&& balance(code, lo, j) == 0
                &&& forall|k: int|
                    lo <= k < j ==> !(code[k] == INSTR_CLOSE && balance(code, lo, k) == 0)
            },
    decreases hi - cur,
{
    lemma_balance_concat(code, lo, cur, hi);
    assert(cur < hi);
    assert(balance(code, cur, cur) == 0);
    assert(balance(code, cur, cur + 1) == bracket_weight(code[cur]));
    lemma_balance_concat(code, lo, cur, cur + 1);
    if code[cur] == INSTR_CLOSE && balance(code, lo, cur) == 0 {
        let j = cur;
        assert({
            &&& cur <= j < hi
            &&& code[j] == INSTR_CLOSE
            &&& balance(code, lo, j) == 0
            &&& forall|k: int|
                lo <= k < j ==> !(code[k] == INSTR_CLOSE && balance(code, lo, k) == 0)
        });
    } else {
        assert(balance(code, lo, cur + 1) >= 0);
        assert(forall|k: int|
            lo <= k < cur + 1 ==> !(code[k] == INSTR_CLOSE && balance(code, lo, k) == 0));
        lemma_first_close(code, lo, cur + 1, hi);
    }
}

/// In a balanced program every open bracket has a matching close bracket.
pub proof fn lemma_balanced_forward_match(code: Seq<u8>, i: int)
    requires
        balanced(code),
        0 <= i < code.len(),
        code[i] == INSTR_OPEN,
    ensures
        has_forward_match(code, i),
{
    let hi = code.len() as int;
    assert(balance(code, i, i) == 0);
    assert(balance(code, i, i + 1) == 1);
    lemma_balance_concat(code, 0, i, i + 1);
    lemma_balance_concat(code, 0, i + 1, hi);
    assert(balance(code, i + 1, hi) < 0);
    lemma_first_close(code, i + 1, i + 1, hi);
    let j = choose|j: int|
        {
            &&& i + 1 <= j < hi
            &&& code[j] == INSTR_CLOSE
            &&& balance(code, i + 1, j) == 0
            &&& forall|k: int|
                i + 1 <= k < j ==> !(code[k] == INSTR_CLOSE && balance(code, i + 1, k) == 0)
        };
    assert(is_forward_match(code, i, j));
}

/// Law: in a program made only of balanced brackets, a run whose current
/// cell is zero enters no loop body: each open bracket jumps past its match,
/// each close bracket falls through, and the run reaches the end of the
/// program — in at most one step per remaining instruction — with the tape,
/// head, input position and output exactly as they were.
pub proof fn lemma_balanced_brackets_skip(code: Seq<u8>, inp: Seq<u8>, t: MachineState)
    requires
        only_brackets(code),
        balanced(code),
        state_wf(t),
        t.cells[t.head] == 0,
        t.pc <= code.len(),
    ensures
        exists|m: nat|
            {
                &&& m <= code.len() - t.pc
                &&& #[trigger] steps_ok(code, inp, t, m)
                &&& run_n(code, inp, t, m) == (MachineState {
                    cells: t.cells,
                    head: t.head,
                    in_pos: t.in_pos,
                    out: t.out,
                    pc: code.len() as int,
                })
            },
    decreases code.len() - t.pc,
{
    let end = MachineState {
        cells: t.cells,
        head: t.head,
        in_pos: t.in_pos,
        out: t.out,
        pc: code.len() as int,
    };
    if t.pc == code.len() {
        assert(t == end);
        assert(run_n(code, inp, t, 0) == end);
        assert(steps_ok(code, inp, t, 0));
    } else {
        let p = t.pc;
        let t1 = if code[p] == INSTR_OPEN {
            lemma_balanced_forward_match(code, p);
            let j = forward_match(code, p);
            assert(is_forward_match(code, p, j));
            MachineState { cells: t.cells, head: t.head, in_pos: t.in_pos, out: t.out, pc: j + 1 }
        } else {
            MachineState { cells: t.cells, head: t.head, in_pos: t.in_pos, out: t.out, pc: p + 1 }
        };
        assert(step(code, inp, t) == StepResult::Next(t1));
        lemma_balanced_brackets_skip(code, inp, t1);
        let m1 = choose|m: nat|
            {
                &&& m <= code.len() - t1.pc
                &&& #[trigger] steps_ok(code, inp, t1, m)
                &&& run_n(code, inp, t1, m) == (MachineState {
                    cells: t1.cells,
                    head: t1.head,
                    in_pos: t1.in_pos,
                    out: t1.out,
                    pc: code.len() as int,
                })
            };
        lemma_run_n_shift(code, inp, t, t1, m1);
        lemma_steps_ok_shift(code, inp, t, t1, m1);
        assert(run_n(code, inp, t, m1 + 1) == end);
        assert(m1 + 1 <= code.len() - t.pc);
    }
}

/// The program that moves the head `n` cells to the right and then `n`
/// cells back to the left.
pub open spec fn right_left_program(n: nat) -> Seq<u8> {
    Seq::new(2 * n, |i: int| if i < n { INSTR_RIGHT } else { INSTR_LEFT })
}

/// A tape of `len` zero cells.
pub open spec fn zero_cells(len: nat) -> Seq<u8> {
    Seq::new(len, |i: int| 0u8)
}

/// After `k` of the right moves, the tape has grown to `k + 1` zero cells
/// and the head sits on the last one.
proof fn lemma_rights_phase(n: nat, inp: Seq<u8>, k: nat)
    requires
        k <= n,
    ensures
        steps_ok(right_left_program(n), inp, init_state(), k),
        run_n(right_left_program(n), inp, init_state(), k) == (MachineState {
            cells: zero_cells(k + 1),
            head: k as int,
            in_pos: 0,
            out: Seq::empty(),
            pc: k as int,
        }),
    decreases k,
{
    let code = right_left_program(n);
    let s0 = init_state();
    if k == 0 {
        assert(run_n(code, inp, s0, 0) == s0);
        assert(s0.cells =~= zero_cells(1));
    } else {
        lemma_rights_phase(n, inp, (k - 1) as nat);
        let prev = run_n(code, inp, s0, (k - 1) as nat);
        assert(code[k - 1] == INSTR_RIGHT);
        assert(prev.cells.push(0u8) =~= zero_cells(k + 1));
        assert(run_n(code, inp, s0, k) == (MachineState {
            cells: zero_cells(k + 1),
            head: k as int,
            in_pos: 0,
            out: Seq::empty(),
            pc: k as int,
        }));
        assert forall|m: nat| m < k implies
            step(code, inp, #[trigger] run_n(code, inp, s0, m)) is Next by {}
    }
}

/// After the `n` right moves and `k` of the left moves, the tape still has
/// `n + 1` zero cells and the head has come back `k` cells.
proof fn lemma_lefts_phase(n: nat, inp: Seq<u8>, k: nat)
    requires
        k <= n,
    ensures
        steps_ok(right_left_program(n), inp, init_state(), n + k),
        run_n(right_left_program(n), inp, init_state(), n + k) == (MachineState {
            cells: zero_cells(n + 1),
            head: n - k,
            in_pos: 0,
            out: Seq::empty(),
            pc: n + k as int,
        }),
    decreases k,
{
    let code = right_left_program(n);
    let s0 = init_state();
    if k == 0 {
        lemma_rights_phase(n, inp, n);
    } else {
        lemma_lefts_phase(n, inp, (k - 1) as nat);
        let prev = run_n(code, inp, s0, (n + k - 1) as nat);
        assert(code[n + k - 1] == INSTR_LEFT);
        assert(prev.head == n - (k - 1) > 0);
        assert(run_n(code, inp, s0, n + k) == (MachineState {
            cells: zero_cells(n + 1),
            head: n - k,
            in_pos: 0,
            out: Seq::empty(),
            pc: n + k as int,
        }));
        assert forall|m: nat| m < n + k implies
            step(code, inp, #[trigger] run_n(code, inp, s0, m)) is Next by {}
    }
}

/// Law: the program of `n` right moves followed by `n` left moves runs to
/// completion, brings the head back to cell 0, and leaves a tape of exactly
/// `n + 1` zero cells — one allocated per right move past the end, and none
/// ever taken away.
pub proof fn lemma_right_left_round_trip(n: nat, inp: Seq<u8>)
    ensures
        steps_ok(right_left_program(n), inp, init_state(), 2 * n),
        run_n(right_left_program(n), inp, init_state(), 2 * n) == (MachineState {
            cells: zero_cells(n + 1),
            head: 0,
            in_pos: 0,
            out: Seq::empty(),
            pc: 2 * n as int,
        }),
        run_n(right_left_program(n), inp, init_state(), 2 * n).pc
            == right_left_program(n).len(),
        run_n(right_left_program(n), inp, init_state(), 2 * n).cells.len() == n + 1,
{
    lemma_lefts_phase(n, inp, n);
}

} // verus!

