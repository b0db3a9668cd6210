//! What holds of every run of the abstract machine.

use crate::machine::{Machine, DECREMENT, INCREMENT, INPUT, MOVE_RIGHT, OUTPUT};
use vstd::prelude::*;

verus! {

/// The initial state is well formed.
pub proof fn lemma_initial_wf(program: Seq<u8>, input: Seq<u8>, output: Seq<u8>)
    ensures
        Machine::initial(program, input, output).wf(),
{
}

/// Fetching keeps a machine that has not halted well formed.
pub proof fn lemma_fetch_wf(m: Machine)
    requires
        m.wf(),
        !m.halted(),
    ensures
        m.fetch().wf(),
{
}

/// Every operator keeps the machine well formed, and none touches the program.
pub proof fn lemma_operate_wf(m: Machine, op: u8)
    requires
        m.wf(),
    ensures
        m.operate(op).wf(),
        m.operate(op).program == m.program,
{
}

/// A step keeps the machine well formed, and does not touch the program.
pub proof fn lemma_step_wf(m: Machine)
    requires
        m.wf(),
    ensures
        m.step().wf(),
        m.step().program == m.program,
{
    if !m.halted() && !m.stuck() {
        lemma_fetch_wf(m);
        lemma_operate_wf(m.fetch(), m.next());
    }
}

/// A run keeps the machine well formed, and does not touch the program.
pub proof fn lemma_run_wf(m: Machine, n: nat)
    requires
        m.wf(),
    ensures
        m.run(n).wf(),
        m.run(n).program == m.program,
    decreases n,
{
    if n > 0 {
        lemma_step_wf(m);
        lemma_run_wf(m.step(), (n - 1) as nat);
    }
}

/// Running `a` steps and then `b` steps is running `a + b` steps.
pub proof fn lemma_run_add(m: Machine, a: nat, b: nat)
    ensures
        m.run(a).run(b) == m.run(a + b),
    decreases a,
{
    if a > 0 {
        lemma_run_add(m.step(), (a - 1) as nat, b);
    }
}

/// A machine that has halted or is stuck stays as it is, however long it runs.
pub proof fn lemma_run_settled(m: Machine, n: nat)
    requires
        m.halted() || m.stuck(),
    ensures
        m.run(n) == m,
    decreases n,
{
    if n > 0 {
        lemma_run_settled(m, (n - 1) as nat);
    }
}

/// Once a run has halted or is stuck, more steps change nothing.
pub proof fn lemma_run_beyond(m: Machine, n: nat, limit: nat)
    requires
        n <= limit,
        m.run(n).halted() || m.run(n).stuck(),
    ensures
        m.run(limit) == m.run(n),
{
    lemma_run_add(m, n, (limit - n) as nat);
    lemma_run_settled(m.run(n), (limit - n) as nat);
}

/// A run has halted after `limit` steps exactly when the program ends within
/// `limit` steps.
pub proof fn lemma_halted_within(m: Machine, limit: nat)
    ensures
        m.run(limit).halted() <==> exists|n: nat| n <= limit && (#[trigger] m.run(n)).halted(),
{
    if exists|n: nat| n <= limit && (#[trigger] m.run(n)).halted() {
        let n = choose|n: nat| n <= limit && (#[trigger] m.run(n)).halted();
        lemma_run_beyond(m, n, limit);
    }
}

/// The tape never shrinks, and it grows by at most one cell in a step.
pub proof fn lemma_tape_never_shrinks(m: Machine, n: nat)
    requires
        m.wf(),
    ensures
        m.tape.len() <= m.run(n).tape.len() <= m.tape.len() + n,
    decreases n,
{
    if n > 0 {
        lemma_step_wf(m);
        lemma_tape_never_shrinks(m.step(), (n - 1) as nat);
    }
}

/// The next `k` instruction bytes of `m` are all `op`.
pub open spec fn repeats(m: Machine, op: u8, k: nat) -> bool {
    &&& m.position + k <= m.program.len()
    &&& forall|i: int| m.position <= i < m.position + k ==> m.program[i] == op
}

/// The next `2 * k` instruction bytes of `m` are `k` pairs of `,` and `.`.
pub open spec fn echoes(m: Machine, k: nat) -> bool {
    &&& m.position + 2 * k <= m.program.len()
    &&& forall|i: int|
        m.position <= i < m.position + 2 * k ==> m.program[i] == if (i - m.position) % 2 == 0 {
            INPUT
        } else {
            OUTPUT
        }
}

/// Moving right from the last cell of the tape, `k` times, appends `k` zero
/// cells and leaves the pointer on the last of them.
pub proof fn lemma_move_right_extends_tape(m: Machine, k: nat)
    requires
        m.wf(),
        !m.skipping(),
        m.pointer + 1 == m.tape.len(),
        repeats(m, MOVE_RIGHT, k),
    ensures
        m.run(k) == (Machine {
            position: m.position + k,
            pointer: m.pointer + k,
            tape: m.tape + Seq::new(k, |i: int| 0u8),
            ..m
        }),
    decreases k,
{
    if k == 0 {
        assert(m.tape + Seq::new(0, |i: int| 0u8) =~= m.tape);
    } else {
        let next = m.step();
        assert(m.next() == MOVE_RIGHT);
        assert(next == m.fetch().forward());
        lemma_move_right_extends_tape(next, (k - 1) as nat);
        assert(next.tape + Seq::new((k - 1) as nat, |i: int| 0u8) =~= m.tape + Seq::new(
            k,
            |i: int| 0u8,
        ));
    }
}

/// A program of `n` move-right operators, run from the start, ends with a
/// tape of exactly `n + 1` zero cells and the pointer on cell `n`.
pub proof fn lemma_move_right_grows_tape(n: nat, input: Seq<u8>, output: Seq<u8>)
    ensures
        ({
            let start = Machine::initial(Seq::new(n, |i: int| MOVE_RIGHT), input, output);
            &&& start.run(n).halted()
            &&& start.run(n) == (Machine {
                position: n,
                pointer: n,
                tape: Seq::new(n + 1, |i: int| 0u8),
                ..start
            })
        }),
{
    let start = Machine::initial(Seq::new(n, |i: int| MOVE_RIGHT), input, output);
    lemma_move_right_extends_tape(start, n);
    assert(start.tape + Seq::new(n, |i: int| 0u8) =~= Seq::new(n + 1, |i: int| 0u8));
}

/// Incrementing `k` times adds `k` to the current cell modulo 256.
pub proof fn lemma_increment_wraps(m: Machine, k: nat)
    requires
        m.wf(),
        !m.skipping(),
        repeats(m, INCREMENT, k),
    ensures
        m.run(k) == (Machine {
            position: m.position + k,
            ..m.with_cell(((m.cell() + k) % 256) as u8)
        }),
    decreases k,
{
    if k == 0 {
        assert(m.tape.update(m.pointer as int, m.cell()) =~= m.tape);
    } else {
        let next = m.step();
        assert(m.next() == INCREMENT);
        assert(next == m.fetch().increment());
        lemma_increment_wraps(next, (k - 1) as nat);
        assert((next.cell() + (k - 1)) % 256 == (m.cell() + k) % 256);
        assert(next.tape.update(next.pointer as int, ((m.cell() + k) % 256) as u8)
            =~= m.tape.update(m.pointer as int, ((m.cell() + k) % 256) as u8));
    }
}

/// Decrementing `k` times subtracts `k` from the current cell modulo 256.
pub proof fn lemma_decrement_wraps(m: Machine, k: nat)
    requires
        m.wf(),
        !m.skipping(),
        repeats(m, DECREMENT, k),
    ensures
        m.run(k) == (Machine {
            position: m.position + k,
            ..m.with_cell(((m.cell() - k) % 256) as u8)
        }),
    decreases k,
{
    if k == 0 {
        assert(m.tape.update(m.pointer as int, m.cell()) =~= m.tape);
    } else {
        let next = m.step();
        assert(m.next() == DECREMENT);
        assert(next == m.fetch().decrement());
        lemma_decrement_wraps(next, (k - 1) as nat);
        assert((next.cell() - (k - 1)) % 256 == (m.cell() - k) % 256);
        assert(next.tape.update(next.pointer as int, ((m.cell() - k) % 256) as u8)
            =~= m.tape.update(m.pointer as int, ((m.cell() - k) % 256) as u8));
    }
}

/// `k` pairs of `,` and `.` move the next `k` input bytes to the output, in
/// order; the last of them stays in the current cell.
pub proof fn lemma_echo(m: Machine, k: nat)
    requires
        m.wf(),
        !m.skipping(),
        echoes(m, k),
        k <= m.input.len(),
    ensures
        m.run(2 * k) == (Machine {
            position: m.position + 2 * k,
            input: m.input.skip(k as int),
            output: m.output + m.input.take(k as int),
            tape: if k == 0 {
                m.tape
            } else {
                m.tape.update(m.pointer as int, m.input[k - 1])
            },
            ..m
        }),
    decreases k,
{
    if k == 0 {
        assert(m.input.skip(0) =~= m.input);
        assert(m.output + m.input.take(0) =~= m.output);
    } else {
        let read = m.step();
        assert(m.program[m.position as int] == INPUT);
        assert(m.program[m.position as int + 1] == OUTPUT);
        assert(read == m.fetch().read_input());
        let written = read.step();
        assert(written == read.fetch().write_output());
        assert(m.run(2 * k) == written.run((2 * (k - 1)) as nat)) by {
            lemma_run_add(m, 2, (2 * (k - 1)) as nat);
            reveal_with_fuel(Machine::run, 3);
        }
        assert(echoes(written, (k - 1) as nat));
        lemma_echo(written, (k - 1) as nat);
        assert(written.input.skip(k - 1) =~= m.input.skip(k as int));
        assert(written.output + written.input.take(k - 1) =~= m.output + m.input.take(k as int));
        if k > 1 {
            assert(written.tape.update(written.pointer as int, written.input[k - 2])
                =~= m.tape.update(m.pointer as int, m.input[k - 1]));
        }
    }
}

/// A program of `n` pairs of `,` and `.`, run from the start on `n` input
/// bytes, writes exactly these bytes and ends with no input left.
pub proof fn lemma_echo_round_trip(input: Seq<u8>, output: Seq<u8>)
    ensures
        ({
            let program = Seq::new(
                2 * input.len(),
                |i: int| if i % 2 == 0 { INPUT } else { OUTPUT },
            );
            let end = Machine::initial(program, input, output).run(2 * input.len());
            &&& end.halted()
            &&& end.output == output + input
            &&& end.input == Seq::<u8>::empty()
        }),
{
    let program = Seq::new(2 * input.len(), |i: int| if i % 2 == 0 { INPUT } else { OUTPUT });
    let start = Machine::initial(program, input, output);
    lemma_echo(start, input.len());
    assert(input.take(input.len() as int) =~= input);
    assert(input.skip(input.len() as int) =~= Seq::<u8>::empty());
}

} // verus!
