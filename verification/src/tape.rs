//! The tape: a growable, left-bounded array of byte cells with a movable
//! head, and the in-memory byte stream the interpreter reads input from.

use vstd::prelude::*;
use crate::machine::{wrap_inc, wrap_dec, RunError};

verus! {

/// A stream of input bytes, consumed one byte at a time.
pub struct ByteStream {
    /// The bytes of the stream.
    pub data: Vec<u8>,
    /// How many bytes have been consumed so far.
    pub pos: usize,
}

impl ByteStream {
    /// A stream is well formed when its position does not lie past its end.
    pub open spec fn wf(&self) -> bool {
        self.pos <= self.data@.len()
    }

    /// Creates a stream positioned at the start of `data`.
    pub fn new(data: Vec<u8>) -> (s: ByteStream)
        ensures
            s.wf(),
            s.data@ == data@,
            s.pos == 0,
    {
        ByteStream { data, pos: 0 }
    }
}

/// The memory tape: a sequence of byte cells, hard-bounded on the left at
/// index 0 and growable to the right, with a head pointing at one cell.
pub struct Tape {
    /// The current head position.
    pub head: usize,
    /// The cells; never shrinks.
    pub cells: Vec<u8>,
}

impl Tape {
    /// A tape is well formed when the head is a valid cell index.
    pub open spec fn wf(&self) -> bool {
        self.head < self.cells@.len()
    }

    /// Creates a tape with a single zero cell and the head on it.
    pub fn new() -> (t: Tape)
        ensures
            t.wf(),
            t.cells@ == seq![0u8],
            t.head == 0,
    {
        let mut cells: Vec<u8> = Vec::with_capacity(1024);
        cells.push(0);
        proof {
            assert(cells@ =~= seq![0u8]);
        }
        Tape { head: 0, cells }
    }

    /// Moves the head one cell to the right, appending a fresh zero cell
    /// first if the head was on the last existing cell. Never fails.
    pub fn right(&mut self)
        requires
            old(self).wf(),
        ensures
            final(self).wf(),
            final(self).head == old(self).head + 1,
            final(self).cells@ == (if old(self).head + 1 == old(self).cells@.len() {
                old(self).cells@.push(0u8)
            } else {
                old(self).cells@
            }),
    {
        if self.head == self.cells.len() - 1 {
            self.cells.push(0);
        }
        self.head = self.head + 1;
    }

    /// Moves the head one cell to the left. Moving left from index 0 is a
    /// boundary violation: the tape is left unchanged and the error is
    /// reported.
    pub fn left(&mut self) -> (r: Result<(), RunError>)
        requires
            old(self).wf(),
        ensures
            final(self).wf(),
            final(self).cells@ == old(self).cells@,
            old(self).head == 0 ==> r == Err::<(), RunError>(RunError::BoundaryViolation)
                && final(self).head == old(self).head,
            old(self).head > 0 ==> r == Ok::<(), RunError>(())
                && final(self).head == old(self).head - 1,
    {
        if self.head == 0 {
            Err(RunError::BoundaryViolation)
        } else {
            self.head = self.head - 1;
            Ok(())
        }
    }

    /// Increments the cell at the head, wrapping modulo 256.
    pub fn increment(&mut self)
        requires
            old(self).wf(),
        ensures
            final(self).wf(),
            final(self).head == old(self).head,
            final(self).cells@ == old(self).cells@.update(
                old(self).head as int,
                wrap_inc(old(self).cells@[old(self).head as int]),
            ),
    {
        let v = self.cells[self.head];
        self.cells.set(self.head, v.wrapping_add(1));
    }

    /// Decrements the cell at the head, wrapping modulo 256.
    pub fn decrement(&mut self)
        requires
            old(self).wf(),
        ensures
            final(self).wf(),
            final(self).head == old(self).head,
            final(self).cells@ == old(self).cells@.update(
                old(self).head as int,
                wrap_dec(old(self).cells@[old(self).head as int]),
            ),
    {
        let v = self.cells[self.head];
        self.cells.set(self.head, v.wrapping_sub(1));
    }

    /// Appends the byte at the head to the output buffer `out`.
    pub fn output(&self, out: &mut Vec<u8>)
        requires
            self.wf(),
        ensures
            final(out)@ == old(out)@.push(self.cells@[self.head as int]),
    {
        out.push(self.cells[self.head]);
    }

    /// Reads one byte from `src` into the cell at the head. If the stream is
    /// exhausted, the cell is set to 0 and the stream is left where it was;
    /// end-of-input is not an error.
    pub fn input(&mut self, src: &mut ByteStream)
        requires
            old(self).wf(),
            old(src).wf(),
        ensures
            final(self).wf(),
            final(src).wf(),
            final(self).head == old(self).head,
            final(src).data@ == old(src).data@,
            old(src).pos < old(src).data@.len() ==> {
                &&& final(self).cells@ == old(self).cells@.update(
                    old(self).head as int,
                    old(src).data@[old(src).pos as int],
                )
                &&& final(src).pos == old(src).pos + 1
            },
            old(src).pos >= old(src).data@.len() ==> {
                &&& final(self).cells@ == old(self).cells@.update(old(self).head as int, 0u8)
                &&& final(src).pos == old(src).pos
            },
    {
        if src.pos < src.data.len() {
            let b = src.data[src.pos];
            self.cells.set(self.head, b);
            src.pos = src.pos + 1;
        } else {
            self.cells.set(self.head, 0);
        }
    }

    /// Reports whether the cell at the head is zero.
    pub fn is_zero(&self) -> (r: bool)
        requires
            self.wf(),
        ensures
            r == (self.cells@[self.head as int] == 0),
    {
        self.cells[self.head] == 0
    }
}

} // verus!
