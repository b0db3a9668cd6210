//! The executable interpreter. It holds the program, the pending input and
//! the output written so far in memory, and every method says which
//! transition of the abstract machine it performs.

use crate::laws::{lemma_run_add, lemma_run_settled};
use crate::machine::{
    Frame, Machine, DECREMENT, INCREMENT, INPUT, LOOP_CLOSE, LOOP_OPEN, MOVE_LEFT, MOVE_RIGHT,
    OUTPUT,
};
use std::collections::VecDeque;
use vstd::prelude::*;

verus! {

/// Why a run stopped before the end of the program.
#[derive(Clone, Copy, Debug, PartialEq, Eq, Structural)]
pub enum Error {
    /// A `]` asked to repeat a loop that no `[` had opened.
    UnmatchedClose,
    /// The step budget was spent before the program ended.
    StepLimit,
}

/// One entry of the loop-control stack.
enum Stack {
    /// The loop body is passed over.
    Skip,
    /// The loop is active and repeats from this position.
    Index(usize),
}

impl View for Stack {
    type V = Frame;

    closed spec fn view(&self) -> Frame {
        match self {
            Stack::Skip => Frame::Skip,
            Stack::Index(position) => Frame::Resume(*position as nat),
        }
    }
}

/// An interpreter over a program held in memory.
pub struct Interpreter {
    program: Vec<u8>,
    stdin: VecDeque<u8>,
    stdout: Vec<u8>,
    memory: Vec<u8>,
    index: usize,
    stack: Vec<Stack>,
    current: usize,
}

impl View for Interpreter {
    type V = Machine;

    closed spec fn view(&self) -> Machine {
        Machine {
            program: self.program@,
            position: self.current as nat,
            tape: self.memory@,
            pointer: self.index as nat,
            frames: Seq::new(self.stack@.len(), |i: int| self.stack@[i]@),
            input: self.stdin@,
            output: self.stdout@,
        }
    }
}

impl Interpreter {
    /// The interpreter stands for a well-formed machine.
    pub open spec fn wf(&self) -> bool {
        self@.wf()
    }

    /// An interpreter at the start of `program`, with `stdin` as the input yet
    /// to be read and `stdout` as the output so far.
    pub fn new(program: Vec<u8>, stdin: Vec<u8>, stdout: Vec<u8>) -> (interpreter: Interpreter)
        ensures
            interpreter.wf(),
            interpreter@ == Machine::initial(program@, stdin@, stdout@),
    {
        let mut pending: VecDeque<u8> = VecDeque::new();
        let mut i: usize = 0;
        while i < stdin.len()
            invariant
                i <= stdin.len(),
                pending@ == stdin@.take(i as int),
            decreases stdin.len() - i,
        {
            pending.push_back(stdin[i]);
            i += 1;
        }
        let mut memory: Vec<u8> = Vec::new();
        memory.push(0u8);
        let interpreter = Interpreter {
            program,
            stdin: pending,
            stdout,
            memory,
            index: 0,
            stack: Vec::new(),
            current: 0,
        };
        assert(interpreter@.tape =~= seq![0u8]);
        assert(interpreter@.frames =~= Seq::empty());
        assert(interpreter@.input =~= stdin@);
        interpreter
    }

    /// Runs the program to its end. A program may run forever, so the run is
    /// cut off after `u64::MAX` steps.
    pub fn execute(&mut self) -> (res: Result<(), Error>)
        requires
            old(self).wf(),
        ensures
            final(self).wf(),
            match res {
                Ok(()) => {
                    &&& old(self)@.run(u64::MAX as nat).halted()
                    &&& final(self)@ == old(self)@.run(u64::MAX as nat)
                },
                Err(Error::UnmatchedClose) => {
                    &&& old(self)@.run((u64::MAX - 1) as nat).stuck()
                    &&& final(self)@ == old(self)@.run(u64::MAX as nat).fetch()
                },
                Err(Error::StepLimit) => {
                    &&& !old(self)@.run(u64::MAX as nat).halted()
                    &&& !old(self)@.run((u64::MAX - 1) as nat).stuck()
                    &&& final(self)@ == old(self)@.run(u64::MAX as nat)
                },
            },
    {
        self.execute_bounded(u64::MAX)
    }

    /// Runs the program for at most `limit` steps.
    ///
    /// The result is `Ok` when the program has ended within `limit` steps, and
    /// the machine is then in its final state. It is `UnmatchedClose` when one
    /// of these steps met a `]` that it could not obey; the offending byte has
    /// then been fetched and nothing else was done. Otherwise it is
    /// `StepLimit`, and the machine has made exactly `limit` steps.
    pub fn execute_bounded(&mut self, limit: u64) -> (res: Result<(), Error>)
        requires
            old(self).wf(),
        ensures
            final(self).wf(),
            match res {
                Ok(()) => {
                    &&& old(self)@.run(limit as nat).halted()
                    &&& final(self)@ == old(self)@.run(limit as nat)
                },
                Err(Error::UnmatchedClose) => {
                    &&& limit > 0
                    &&& old(self)@.run((limit - 1) as nat).stuck()
                    &&& final(self)@ == old(self)@.run(limit as nat).fetch()
                },
                Err(Error::StepLimit) => {
                    &&& !old(self)@.run(limit as nat).halted()
                    &&& !(limit > 0 && old(self)@.run((limit - 1) as nat).stuck())
                    &&& final(self)@ == old(self)@.run(limit as nat)
                },
            },
    {
        let ghost start = self@;
        let mut steps: u64 = 0;
        while steps < limit
            invariant
                self.wf(),
                steps <= limit,
                start == old(self)@,
                self@ == start.run(steps as nat),
                steps > 0 ==> !start.run((steps - 1) as nat).stuck(),
            decreases limit - steps,
        {
            let ghost before = self@;
            proof {
                lemma_run_add(start, steps as nat, (limit - steps) as nat);
                lemma_run_add(start, steps as nat, (limit - 1 - steps) as nat);
                lemma_run_add(start, steps as nat, 1);
                assert(before.run(1) == before.step()) by {
                    reveal_with_fuel(Machine::run, 2);
                }
            }
            match self.read() {
                None => {
                    proof {
                        lemma_run_settled(before, (limit - steps) as nat);
                    }
                    return Ok(());
                },
                Some(operator) => {
                    match self.operate(operator) {
                        Ok(()) => {},
                        Err(e) => {
                            proof {
                                lemma_run_settled(before, (limit - steps) as nat);
                                lemma_run_settled(before, (limit - 1 - steps) as nat);
                            }
                            return Err(e);
                        },
                    }
                },
            }
            steps += 1;
        }
        if self.current >= self.program.len() {
            Ok(())
        } else {
            Err(Error::StepLimit)
        }
    }

    /// Fetches the next instruction byte and advances the position counter;
    /// `None` when the program has ended.
    pub fn read(&mut self) -> (operator: Option<u8>)
        requires
            old(self).wf(),
        ensures
            final(self).wf(),
            old(self)@.halted() ==> operator is None && final(self)@ == old(self)@,
            !old(self)@.halted() ==> operator == Some(old(self)@.next()) && final(self)@ == old(
                self,
            )@.fetch(),
    {
        if self.current < self.program.len() {
            let operator: u8 = self.program[self.current];
            self.current += 1;
            Some(operator)
        } else {
            None
        }
    }

    /// Obeys one operator. The only operator that can fail is a `]` met with
    /// no loop open and a nonzero cell; it changes nothing.
    pub fn operate(&mut self, operator: u8) -> (res: Result<(), Error>)
        requires
            old(self).wf(),
        ensures
            final(self).wf(),
            final(self)@ == old(self)@.operate(operator),
            res == if old(self)@.unmatched(operator) {
                Err::<(), Error>(Error::UnmatchedClose)
            } else {
                Ok::<(), Error>(())
            },
    {
        if self.skip() && operator != LOOP_CLOSE && operator != LOOP_OPEN {
            return Ok(());
        }
        match operator {
            MOVE_RIGHT => self.forward(),
            MOVE_LEFT => self.backward(),
            INCREMENT => self.set(self.get().wrapping_add(1)),
            DECREMENT => self.set(self.get().wrapping_sub(1)),
            OUTPUT => self.write_to_output(),
            INPUT => self.read_from_input(),
            LOOP_OPEN => self.push_stack(),
            LOOP_CLOSE => {
                if self.stack.is_empty() && self.get() != 0 {
                    return Err(Error::UnmatchedClose);
                }
                self.pop_or_goback()
            },
            _ => (),
        }
        Ok(())
    }

    /// `>`: moves the data pointer right, growing the tape by a zero cell where
    /// it ends.
    fn forward(&mut self)
        requires
            old(self).wf(),
            !old(self)@.skipping(),
        ensures
            final(self).wf(),
            final(self)@ == old(self)@.forward(),
    {
        let cells: usize = self.memory.len();
        self.index += 1;
        if self.index == cells {
            self.memory.push(0);
        }
    }

    /// `<`: moves the data pointer left, unless it is on the first cell.
    fn backward(&mut self)
        requires
            old(self).wf(),
            !old(self)@.skipping(),
        ensures
            final(self).wf(),
            final(self)@ == old(self)@.backward(),
    {
        if self.index != 0 {
            self.index -= 1;
        }
    }

    /// `.`: appends the current cell to the output.
    fn write_to_output(&mut self)
        requires
            old(self).wf(),
        ensures
            final(self).wf(),
            final(self)@ == old(self)@.write_output(),
    {
        let value: u8 = self.get();
        self.stdout.push(value);
    }

    /// `,`: moves the next pending input byte into the current cell; with none
    /// pending the cell keeps its value.
    fn read_from_input(&mut self)
        requires
            old(self).wf(),
            !old(self)@.skipping(),
        ensures
            final(self).wf(),
            final(self)@ == old(self)@.read_input(),
    {
        match self.stdin.pop_front() {
            Some(value) => self.set(value),
            None => (),
        }
    }

    /// `[`: pushes `Skip` on a zero cell, else the position to repeat from.
    fn push_stack(&mut self)
        requires
            old(self).wf(),
        ensures
            final(self).wf(),
            final(self)@ == old(self)@.open_loop(),
    {
        let frame = if self.get() == 0 {
            Stack::Skip
        } else {
            Stack::Index(self.current)
        };
        self.stack.push(frame);
        assert(self@.frames =~= old(self)@.frames.push(frame@));
    }

    /// `]`: leaves the loop in skip mode or on a zero cell, else repeats it.
    fn pop_or_goback(&mut self)
        requires
            old(self).wf(),
            !old(self)@.unmatched(LOOP_CLOSE),
        ensures
            final(self).wf(),
            final(self)@ == old(self)@.close_loop(),
    {
        if self.skip() || self.get() == 0 {
            self.stack.pop();
            assert(old(self)@.frames.len() > 0 ==> self@.frames =~= old(self)@.frames.drop_last());
            assert(old(self)@.frames.len() == 0 ==> self@.frames =~= old(self)@.frames);
        } else {
            self.goback();
        }
    }

    /// Stores `value` in the current cell.
    fn set(&mut self, value: u8)
        requires
            old(self).wf(),
            !old(self)@.skipping(),
        ensures
            final(self).wf(),
            final(self)@ == old(self)@.with_cell(value),
    {
        self.memory.set(self.index, value);
    }

    /// The value of the current cell.
    pub fn get(&self) -> (value: u8)
        requires
            self.wf(),
        ensures
            value == self@.cell(),
    {
        self.memory[self.index]
    }

    /// Moves the position counter back to where the top frame resumes; the
    /// frame stays on the stack.
    fn goback(&mut self)
        requires
            old(self).wf(),
            old(self)@.frames.len() > 0,
        ensures
            final(self).wf(),
            final(self)@ == match old(self)@.frames.last() {
                Frame::Resume(position) => Machine { position, ..old(self)@ },
                Frame::Skip => old(self)@,
            },
    {
        match self.status() {
            Stack::Index(index) => {
                self.current = *index;
            },
            _ => (),
        }
    }

    /// The top frame of the loop-control stack.
    fn status(&self) -> (top: &Stack)
        requires
            self@.frames.len() > 0,
        ensures
            top@ == self@.frames.last(),
    {
        &self.stack[self.stack.len() - 1]
    }

    /// Whether the interpreter is in skip mode.
    pub fn skip(&self) -> (skipping: bool)
        ensures
            skipping == self@.skipping(),
    {
        if self.stack.is_empty() {
            return false;
        }
        match self.status() {
            Stack::Skip => true,
            Stack::Index(_) => false,
        }
    }
    /// Whether the machine is about to read input while none is pending: the
    /// next instruction is a `,` that will be obeyed, and every byte supplied
    /// so far has been read.
    pub fn awaits_input(&self) -> (waiting: bool)
        ensures
            waiting == (!self@.halted() && self@.next() == INPUT && !self@.skipping()
                && self@.input.len() == 0),
    {
        self.current < self.program.len() && self.program[self.current] == INPUT && !self.skip()
            && self.stdin.len() == 0
    }

    /// Appends one byte to the pending input.
    pub fn supply_input(&mut self, byte: u8)
        requires
            old(self).wf(),
        ensures
            final(self).wf(),
            final(self)@ == (Machine { input: old(self)@.input.push(byte), ..old(self)@ }),
    {
        self.stdin.push_back(byte);
    }

    /// Hands out the output written so far and starts afresh with none.
    pub fn take_output(&mut self) -> (written: Vec<u8>)
        requires
            old(self).wf(),
        ensures
            final(self).wf(),
            written@ == old(self)@.output,
            final(self)@ == (Machine { output: Seq::empty(), ..old(self)@ }),
    {
        let mut written: Vec<u8> = Vec::new();
        std::mem::swap(&mut written, &mut self.stdout);
        written
    }

    /// The output written so far.
    pub fn output(&self) -> (written: &Vec<u8>)
        ensures
            written@ == self@.output,
    {
        &self.stdout
    }

    /// The memory cells.
    pub fn memory(&self) -> (cells: &Vec<u8>)
        ensures
            cells@ == self@.tape,
    {
        &self.memory
    }

    /// The data pointer.
    pub fn index(&self) -> (pointer: usize)
        ensures
            pointer == self@.pointer,
    {
        self.index
    }

    /// The position counter: how many instruction bytes have been fetched.
    pub fn current(&self) -> (position: usize)
        ensures
            position == self@.position,
    {
        self.current
    }

    /// The number of frames on the loop-control stack.
    pub fn depth(&self) -> (frames: usize)
        ensures
            frames == self@.frames.len(),
    {
        self.stack.len()
    }
}

} // verus!
