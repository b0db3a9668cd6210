//! The abstract machine: the state of an interpreter as mathematical values,
//! and the meaning of every operator as a function from state to state.
//!
//! Everything here is ghost code. The executable interpreter is specified
//! against these definitions, and the laws of the language are proved of them.

use vstd::prelude::*;

verus! {

/// `>`: move the data pointer one cell to the right.
pub const MOVE_RIGHT: u8 = 62;

/// `<`: move the data pointer one cell to the left.
pub const MOVE_LEFT: u8 = 60;

/// `+`: add one to the current cell.
pub const INCREMENT: u8 = 43;

/// `-`: subtract one from the current cell.
pub const DECREMENT: u8 = 45;

/// `.`: write the current cell to the output.
pub const OUTPUT: u8 = 46;

/// `,`: read one byte of input into the current cell.
pub const INPUT: u8 = 44;

/// `[`: open a loop.
pub const LOOP_OPEN: u8 = 91;

/// `]`: close a loop.
pub const LOOP_CLOSE: u8 = 93;

/// One frame of the loop-control stack.
pub enum Frame {
    /// The loop was opened on a zero cell: its body is passed over.
    Skip,
    /// The loop is active; the position is that of the first byte of its body.
    Resume(nat),
}

/// The whole state of a run.
pub struct Machine {
    /// The instruction bytes.
    pub program: Seq<u8>,
    /// How many instruction bytes have been fetched; the next one is `program[position]`.
    pub position: nat,
    /// The memory cells.
    pub tape: Seq<u8>,
    /// The index of the current cell.
    pub pointer: nat,
    /// The loop-control stack; its top is the last element.
    pub frames: Seq<Frame>,
    /// The input bytes that have not been read yet.
    pub input: Seq<u8>,
    /// The bytes written so far.
    pub output: Seq<u8>,
}

impl Machine {
    /// The state before the first instruction: one zero cell, the pointer on it,
    /// no open loop.
    pub open spec fn initial(program: Seq<u8>, input: Seq<u8>, output: Seq<u8>) -> Machine {
        Machine {
            program,
            position: 0,
            tape: seq![0u8],
            pointer: 0,
            frames: Seq::empty(),
            input,
            output,
        }
    }

    /// The states that a run can be in: the pointer is on the tape, the position
    /// and every resume position lie within the program, and while a loop body
    /// is passed over the current cell is zero.
    pub open spec fn wf(self) -> bool {
        &&& self.position <= self.program.len()
        &&& self.pointer < self.tape.len()
        &&& forall|i: int|
            0 <= i < self.frames.len() ==> (#[trigger] self.frames[i] matches Frame::Resume(p)
                ==> p <= self.program.len())
        &&& self.skipping() ==> self.cell() == 0
    }

    /// The value of the current cell.
    pub open spec fn cell(self) -> u8 {
        self.tape[self.pointer as int]
    }

    /// Skip mode: the innermost open loop is being passed over.
    pub open spec fn skipping(self) -> bool {
        self.frames.len() > 0 && self.frames.last() is Skip
    }

    /// No instruction byte is left.
    pub open spec fn halted(self) -> bool {
        self.position >= self.program.len()
    }

    /// The same state with `value` in the current cell.
    pub open spec fn with_cell(self, value: u8) -> Machine {
        Machine { tape: self.tape.update(self.pointer as int, value), ..self }
    }

    /// `>`: the pointer moves right; a zero cell is appended if it leaves the tape.
    pub open spec fn forward(self) -> Machine {
        Machine {
            pointer: self.pointer + 1,
            tape: if self.pointer + 1 == self.tape.len() {
                self.tape.push(0u8)
            } else {
                self.tape
            },
            ..self
        }
    }

    /// `<`: the pointer moves left, and stays where it is on cell 0.
    pub open spec fn backward(self) -> Machine {
        if self.pointer == 0 {
            self
        } else {
            Machine { pointer: (self.pointer - 1) as nat, ..self }
        }
    }

    /// `+`: the current cell plus one, modulo 256.
    pub open spec fn increment(self) -> Machine {
        self.with_cell(((self.cell() + 1) % 256) as u8)
    }

    /// `-`: the current cell minus one, modulo 256.
    pub open spec fn decrement(self) -> Machine {
        self.with_cell(((self.cell() + 255) % 256) as u8)
    }

    /// `.`: the current cell is appended to the output.
    pub open spec fn write_output(self) -> Machine {
        Machine { output: self.output.push(self.cell()), ..self }
    }

    /// `,`: the next input byte moves into the current cell. With no input
    /// left, nothing changes.
    pub open spec fn read_input(self) -> Machine {
        if self.input.len() == 0 {
            self
        } else {
            Machine { input: self.input.drop_first(), ..self.with_cell(self.input[0]) }
        }
    }

    /// `[`: a frame is pushed, `Skip` on a zero cell, else `Resume` with the
    /// position of the byte that follows the `[`.
    pub open spec fn open_loop(self) -> Machine {
        Machine {
            frames: self.frames.push(
                if self.cell() == 0 {
                    Frame::Skip
                } else {
                    Frame::Resume(self.position)
                },
            ),
            ..self
        }
    }

    /// `]`: in skip mode or on a zero cell the top frame is popped (nothing
    /// happens on an empty stack); otherwise the frame stays and the run goes
    /// back to its resume position.
    pub open spec fn close_loop(self) -> Machine {
        if self.frames.len() == 0 {
            self
        } else if self.skipping() || self.cell() == 0 {
            Machine { frames: self.frames.drop_last(), ..self }
        } else {
            match self.frames.last() {
                Frame::Resume(p) => Machine { position: p, ..self },
                Frame::Skip => self,
            }
        }
    }

    /// `op` is a `]` that asks to repeat a loop that was never opened.
    pub open spec fn unmatched(self, op: u8) -> bool {
        op == LOOP_CLOSE && self.frames.len() == 0 && self.cell() != 0
    }

    /// The effect of the operator `op`, once it has been fetched. In skip mode
    /// only `[` and `]` act. A byte that is no operator does nothing, and
    /// neither does an unmatched `]`.
    pub open spec fn operate(self, op: u8) -> Machine {
        if self.skipping() && op != LOOP_OPEN && op != LOOP_CLOSE {
            self
        } else if op == MOVE_RIGHT {
            self.forward()
        } else if op == MOVE_LEFT {
            self.backward()
        } else if op == INCREMENT {
            self.increment()
        } else if op == DECREMENT {
            self.decrement()
        } else if op == OUTPUT {
            self.write_output()
        } else if op == INPUT {
            self.read_input()
        } else if op == LOOP_OPEN {
            self.open_loop()
        } else if op == LOOP_CLOSE {
            self.close_loop()
        } else {
            self
        }
    }

    /// The next instruction byte.
    pub open spec fn next(self) -> u8
        recommends
            !self.halted(),
    {
        self.program[self.position as int]
    }

    /// The same state with the position counter one further.
    pub open spec fn fetch(self) -> Machine {
        Machine { position: self.position + 1, ..self }
    }

    /// The run cannot go on: the next instruction is an unmatched `]`.
    pub open spec fn stuck(self) -> bool {
        !self.halted() && self.unmatched(self.next())
    }

    /// One turn of the fetch-decode-execute loop. A halted or stuck machine
    /// stays as it is.
    pub open spec fn step(self) -> Machine {
        if self.halted() || self.stuck() {
            self
        } else {
            self.fetch().operate(self.next())
        }
    }

    /// The state after `n` steps.
    pub open spec fn run(self, n: nat) -> Machine
        decreases n,
    {
        if n == 0 {
            self
        } else {
            self.step().run((n - 1) as nat)
        }
    }
}

} // verus!
