//! An interpreter for the tape language of eight operators (`>` `<` `+` `-`
//! `.` `,` `[` `]`), verified against an abstract machine.
//!
//! [`machine`] states what a program means: the state of a run and the effect
//! of each operator on it. [`interpreter`] is the executable engine; each of
//! its methods is proved to perform the transition that the machine
//! prescribes. [`laws`] and [`loops`] hold what is proved of every run.
//!
//! The program is held in memory, so going back to the start of a loop is a
//! change of an index and cannot fail. Input and output are byte queues that
//! the caller fills and drains. Moving left on the first cell does nothing, and
//! so does reading when no input is left. Every byte that is no operator is
//! passed over.

pub mod interpreter;
pub mod laws;
pub mod loops;
pub mod machine;

pub use interpreter::{Error, Interpreter};
