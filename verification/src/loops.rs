//! Laws of the bracket operators: what a run does with a loop whose cell is
//! zero, and how often it repeats one that counts its cell down.

use crate::laws::{lemma_run_add, lemma_run_beyond, lemma_run_wf, lemma_step_wf};
use crate::machine::{Frame, Machine, DECREMENT, LOOP_CLOSE, LOOP_OPEN};
use vstd::prelude::*;

verus! {

/// What one byte adds to the nesting depth.
pub open spec fn nesting(op: u8) -> int {
    if op == LOOP_OPEN {
        1
    } else if op == LOOP_CLOSE {
        -1
    } else {
        0
    }
}

/// The number of `[` in `code` minus the number of `]`.
pub open spec fn depth(code: Seq<u8>) -> int
    decreases code.len(),
{
    if code.len() == 0 {
        0
    } else {
        depth(code.drop_last()) + nesting(code.last())
    }
}

/// No `]` of `code` comes before the `[` that it closes.
pub open spec fn closes_own(code: Seq<u8>) -> bool {
    forall|k: int| 0 <= k <= code.len() ==> depth(#[trigger] code.take(k)) >= 0
}

/// The brackets of `code` match each other.
pub open spec fn balanced(code: Seq<u8>) -> bool {
    closes_own(code) && depth(code) == 0
}

/// `m` stands before the `[` of a loop whose `]` is at position `close`.
pub open spec fn at_loop(m: Machine, close: nat) -> bool {
    &&& m.position < close < m.program.len()
    &&& m.program[m.position as int] == LOOP_OPEN
    &&& m.program[close as int] == LOOP_CLOSE
    &&& balanced(m.program.subrange(m.position as int + 1, close as int))
}

/// `h` frames, all `Skip`.
pub open spec fn skips(h: nat) -> Seq<Frame> {
    Seq::new(h, |i: int| Frame::Skip)
}

/// One more byte changes the depth by its nesting.
proof fn lemma_depth_take(code: Seq<u8>, k: int)
    requires
        0 <= k < code.len(),
    ensures
        depth(code.take(k + 1)) == depth(code.take(k)) + nesting(code[k]),
{
    assert(code.take(k + 1).drop_last() =~= code.take(k));
}

/// In skip mode, under `h` skip frames, a run over `j` bytes that close
/// nothing outside them changes the position and the number of skip frames,
/// and nothing else.
proof fn lemma_skip_over(s: Machine, base: Seq<Frame>, h: nat, len: nat, j: nat)
    requires
        s.wf(),
        s.position + len <= s.program.len(),
        h >= 1,
        s.frames == base + skips(h),
        closes_own(s.program.subrange(s.position as int, s.position as int + len)),
        j <= len,
    ensures
        ({
            let body = s.program.subrange(s.position as int, s.position as int + len);
            &&& h + depth(body.take(j as int)) >= 1
            &&& s.run(j) == (Machine {
                position: s.position + j,
                frames: base + skips((h + depth(body.take(j as int))) as nat),
                ..s
            })
        }),
    decreases j,
{
    let body = s.program.subrange(s.position as int, s.position as int + len);
    assert(depth(body.take(0)) == 0);
    if j == 0 {
        assert(base + skips((h + 0) as nat) =~= s.frames);
    } else {
        let i = (j - 1) as nat;
        lemma_skip_over(s, base, h, len, i);
        lemma_run_wf(s, i);
        lemma_depth_take(body, i as int);
        let r = s.run(i);
        let d = depth(body.take(i as int));
        assert(s.run(j) == r.step()) by {
            lemma_run_add(s, i, 1);
            reveal_with_fuel(Machine::run, 2);
        }
        assert(depth(body.take(j as int)) >= 0);
        assert(r.frames.last() == Frame::Skip);
        assert(r.next() == body[i as int]);
        let op = r.next();
        let after = base + skips((h + depth(body.take(j as int))) as nat);
        if op == LOOP_OPEN {
            assert(r.frames.push(Frame::Skip) =~= after);
        } else if op == LOOP_CLOSE {
            assert(r.frames.drop_last() =~= after);
        } else {
            assert(r.frames =~= after);
        }
    }
}

/// A loop met on a zero cell is passed over: the run fetches every byte up to
/// and including the matching `]`, and nothing but the position changes. No
/// cell, no input and no output is touched, and the loop-control stack is as
/// it was.
pub proof fn lemma_zero_loop_skipped(m: Machine, close: nat)
    requires
        m.wf(),
        at_loop(m, close),
        m.cell() == 0,
    ensures
        m.run((close + 1 - m.position) as nat) == (Machine { position: close + 1, ..m }),
{
    let len = (close - m.position - 1) as nat;
    let inside = m.step();
    assert(inside == m.fetch().open_loop());
    assert(inside.frames =~= m.frames + skips(1));
    let body = inside.program.subrange(inside.position as int, inside.position as int + len);
    assert(body.take(len as int) =~= body);
    lemma_skip_over(inside, m.frames, 1, len, len);
    let last = inside.run(len);
    lemma_run_wf(inside, len);
    assert(last.frames.last() == Frame::Skip);
    assert(last.step() == (Machine { position: close + 1, ..m })) by {
        assert(last.frames.drop_last() =~= m.frames);
    }
    assert(m.run(len + 2) == last.step()) by {
        lemma_run_add(m, 1, len + 1);
        lemma_run_add(inside, len, 1);
        reveal_with_fuel(Machine::run, 2);
    }
}

/// The state at the top of the loop body before pass `j` of the loop that `m`
/// stands before, where `len(i)` is the number of steps that pass `i` takes
/// from the top of the body to the `]`. After the last pass it is the state
/// behind the loop.
pub open spec fn loop_top(m: Machine, len: spec_fn(nat) -> nat, j: nat) -> Machine
    decreases j,
{
    if j == 0 {
        m.step()
    } else {
        loop_top(m, len, (j - 1) as nat).run(len((j - 1) as nat)).step()
    }
}

/// The number of steps from the `[` to the top of the body before pass `j`.
pub open spec fn loop_steps(len: spec_fn(nat) -> nat, j: nat) -> nat
    decreases j,
{
    if j == 0 {
        1
    } else {
        loop_steps(len, (j - 1) as nat) + len((j - 1) as nat) + 1
    }
}

/// Pass `j` of the loop takes the machine from the top of the body to the `]`
/// at `close`, with the loop's frame on top of the stack again and the
/// current cell one less than the pass found it.
pub open spec fn pass_counts_down(
    m: Machine,
    close: nat,
    len: spec_fn(nat) -> nat,
    j: nat,
) -> bool {
    let top = loop_top(m, len, j);
    let bottom = top.run(len(j));
    &&& bottom.position == close
    &&& bottom.frames == top.frames
    &&& bottom.cell() == top.cell() - 1
}

/// The loop law, for the first `j` passes.
proof fn lemma_loop_passes(m: Machine, close: nat, len: spec_fn(nat) -> nat, j: nat)
    requires
        m.wf(),
        !m.skipping(),
        m.position < close < m.program.len(),
        m.next() == LOOP_OPEN,
        m.program[close as int] == LOOP_CLOSE,
        m.cell() != 0,
        j <= m.cell(),
        forall|i: nat| i < m.cell() ==> #[trigger] pass_counts_down(m, close, len, i),
    ensures
        ({
            let top = loop_top(m, len, j);
            &&& top.wf()
            &&& top.program == m.program
            &&& m.run(loop_steps(len, j)) == top
            &&& top.cell() == m.cell() - j
            &&& j < m.cell() ==> top.position == m.position + 1 && top.frames == m.frames.push(
                Frame::Resume(m.position + 1),
            )
            &&& j == m.cell() ==> top.position == close + 1 && top.frames == m.frames
        }),
    decreases j,
{
    let inside = m.frames.push(Frame::Resume(m.position + 1));
    if j == 0 {
        assert(m.step() == m.fetch().open_loop());
        assert(m.run(1) == m.step()) by {
            reveal_with_fuel(Machine::run, 2);
        }
    } else {
        let i = (j - 1) as nat;
        lemma_loop_passes(m, close, len, i);
        let top = loop_top(m, len, i);
        let bottom = top.run(len(i));
        assert(pass_counts_down(m, close, len, i));
        lemma_run_wf(top, len(i));
        assert(bottom.frames.last() == Frame::Resume(m.position + 1));
        assert(bottom.step() == bottom.fetch().close_loop());
        assert(inside.drop_last() =~= m.frames);
        assert(m.run(loop_steps(len, j)) == bottom.step()) by {
            lemma_run_add(m, loop_steps(len, i), len(i) + 1);
            lemma_run_add(top, len(i), 1);
            reveal_with_fuel(Machine::run, 2);
        }
    }
}

/// The loop law. Let `m` stand before the `[` of a loop, on a nonzero cell,
/// and let every pass through the body bring the run to the `]` with the
/// loop's frame on top of the stack and the current cell one less than the
/// pass found it. Then the body is run exactly `m.cell()` times: before pass
/// `j` the run stands at the top of the body with the cell at
/// `m.cell() - j`, and after the last pass it stands behind the `]` with the
/// cell at zero and the loop-control stack as it was before the `[`.
pub proof fn lemma_loop_counts_down(m: Machine, close: nat, len: spec_fn(nat) -> nat)
    requires
        m.wf(),
        !m.skipping(),
        m.position < close < m.program.len(),
        m.next() == LOOP_OPEN,
        m.program[close as int] == LOOP_CLOSE,
        m.cell() != 0,
        forall|j: nat| j < m.cell() ==> #[trigger] pass_counts_down(m, close, len, j),
    ensures
        forall|j: nat|
            j < m.cell() ==> {
                let top = #[trigger] loop_top(m, len, j);
                &&& m.run(loop_steps(len, j)) == top
                &&& top.position == m.position + 1
                &&& top.frames == m.frames.push(Frame::Resume(m.position + 1))
                &&& top.cell() == m.cell() - j
            },
        ({
            let end = loop_top(m, len, m.cell() as nat);
            &&& m.run(loop_steps(len, m.cell() as nat)) == end
            &&& end.position == close + 1
            &&& end.frames == m.frames
            &&& end.cell() == 0
        }),
{
    assert forall|j: nat| j < m.cell() implies {
        let top = #[trigger] loop_top(m, len, j);
        &&& m.run(loop_steps(len, j)) == top
        &&& top.position == m.position + 1
        &&& top.frames == m.frames.push(Frame::Resume(m.position + 1))
        &&& top.cell() == m.cell() - j
    } by {
        lemma_loop_passes(m, close, len, j);
    }
    lemma_loop_passes(m, close, len, m.cell() as nat);
}

/// The loop `[-]` clears the current cell and changes nothing else: from a
/// cell that counts `c` the run stands behind the loop after `2 * c + 1`
/// steps, or after 3 steps where `c` is zero.
pub proof fn lemma_clear_loop(m: Machine)
    requires
        m.wf(),
        !m.skipping(),
        m.position + 3 <= m.program.len(),
        m.program[m.position as int] == LOOP_OPEN,
        m.program[m.position as int + 1] == DECREMENT,
        m.program[m.position as int + 2] == LOOP_CLOSE,
    ensures
        m.run(
            if m.cell() == 0 {
                3
            } else {
                (2 * m.cell() + 1) as nat
            },
        ) == (Machine { position: m.position + 3, ..m.with_cell(0) }),
{
    let close = m.position + 2;
    if m.cell() == 0 {
        let body = m.program.subrange(m.position as int + 1, close as int);
        assert(balanced(body)) by {
            assert forall|k: int| 0 <= k <= body.len() implies depth(#[trigger] body.take(k))
                >= 0 by {
                reveal_with_fuel(depth, 2);
                if k == 1 {
                    assert(body.take(1).drop_last() =~= Seq::<u8>::empty());
                }
            }
            assert(body.take(1) =~= body);
        }
        lemma_zero_loop_skipped(m, close);
        assert(m.tape.update(m.pointer as int, 0u8) =~= m.tape);
    } else {
        let len = |j: nat| 1nat;
        assert forall|j: nat| j < m.cell() implies #[trigger] pass_counts_down(m, close, len, j) by {
            lemma_clear_loop_pass(m, j);
        }
        lemma_loop_counts_down(m, close, len);
        lemma_clear_loop_pass(m, m.cell() as nat);
    }
}

/// The state of `[-]` before pass `j`, and that pass `j` counts down.
proof fn lemma_clear_loop_pass(m: Machine, j: nat)
    requires
        m.wf(),
        !m.skipping(),
        m.position + 3 <= m.program.len(),
        m.program[m.position as int] == LOOP_OPEN,
        m.program[m.position as int + 1] == DECREMENT,
        m.program[m.position as int + 2] == LOOP_CLOSE,
        m.cell() != 0,
        j <= m.cell(),
    ensures
        loop_steps(|i: nat| 1nat, j) == 2 * j + 1,
        j < m.cell() ==> pass_counts_down(m, m.position + 2, |i: nat| 1nat, j),
        j < m.cell() ==> loop_top(m, |i: nat| 1nat, j) == (Machine {
            position: m.position + 1,
            frames: m.frames.push(Frame::Resume(m.position + 1)),
            ..m.with_cell((m.cell() - j) as u8)
        }),
        j == m.cell() ==> loop_top(m, |i: nat| 1nat, j) == (Machine {
            position: m.position + 3,
            ..m.with_cell(0)
        }),
    decreases j,
{
    let len = |i: nat| 1nat;
    let inside = m.frames.push(Frame::Resume(m.position + 1));
    if j == 0 {
        assert(m.step() == m.fetch().open_loop());
        assert(m.tape.update(m.pointer as int, m.cell()) =~= m.tape);
    } else {
        let i = (j - 1) as nat;
        lemma_clear_loop_pass(m, i);
        let top = loop_top(m, len, i);
        assert(top.run(1) == top.step()) by {
            reveal_with_fuel(Machine::run, 2);
        }
        let bottom = top.step();
        assert(bottom == top.fetch().decrement());
        assert(bottom.tape =~= m.tape.update(m.pointer as int, (m.cell() - j) as u8));
        assert(bottom.frames.last() == Frame::Resume(m.position + 1));
        assert(bottom.step() == bottom.fetch().close_loop());
        assert(inside.drop_last() =~= m.frames);
    }
    if j < m.cell() {
        let top = loop_top(m, len, j);
        assert(top.run(1) == top.step()) by {
            reveal_with_fuel(Machine::run, 2);
        }
        assert(top.step() == top.fetch().decrement());
    }
}

/// What holds of a state `s` of a run that entered balanced code at `m` and
/// has not left it at `end`: it stands inside the code, the frames of `m` lie
/// untouched under as many frames as there are loops open at its position,
/// and each of these that resumes a loop points behind the `[` of its level.
pub open spec fn nested(m: Machine, end: nat, s: Machine) -> bool {
    let code = m.program.subrange(m.position as int, end as int);
    let base = m.frames.len();
    &&& s.wf()
    &&& s.program == m.program
    &&& m.position <= s.position <= end
    &&& s.frames.len() == base + depth(code.take(s.position - m.position))
    &&& s.frames.take(base as int) == m.frames
    &&& forall|i: int|
        base <= i < s.frames.len() ==> (#[trigger] s.frames[i] matches Frame::Resume(p)
            ==> m.position < p <= s.position && depth(code.take(p - m.position)) == i - base + 1)
    &&& forall|i: int, j: int|
        base <= i < j < s.frames.len() ==> (#[trigger] s.frames[i] matches Frame::Resume(p)
            ==> (#[trigger] s.frames[j] matches Frame::Resume(q) ==> p <= q))
}

/// A step inside balanced code keeps the run nested in it.
proof fn lemma_nested_step(m: Machine, end: nat, s: Machine)
    requires
        m.position <= end <= m.program.len(),
        closes_own(m.program.subrange(m.position as int, end as int)),
        nested(m, end, s),
        s.position < end,
    ensures
        nested(m, end, s.step()),
        !s.stuck(),
{
    let code = m.program.subrange(m.position as int, end as int);
    let base = m.frames.len();
    let at = s.position - m.position;
    let d = depth(code.take(at));
    let op = s.next();
    let t = s.step();
    assert(code[at] == op);
    lemma_depth_take(code, at);
    assert(depth(code.take(at + 1)) >= 0);
    lemma_step_wf(s);
    if op == LOOP_CLOSE {
        assert(d >= 1);
        assert(!s.stuck());
        assert(t == s.fetch().close_loop());
        if s.skipping() || s.cell() == 0 {
            assert(t.frames == s.frames.drop_last());
            assert(t.frames.take(base as int) =~= s.frames.take(base as int));
        } else {
            let top = s.frames.len() - 1;
            assert(s.frames[top] is Resume);
            assert(t.frames == s.frames);
        }
    } else if op == LOOP_OPEN {
        assert(t == s.fetch().open_loop());
        assert(t.frames.take(base as int) =~= s.frames.take(base as int));
    } else {
        assert(t.frames == s.frames);
        assert(t.position == s.position + 1);
    }
}

/// While a run that entered balanced code has not reached its end, it stays
/// nested in it.
proof fn lemma_nested_run(m: Machine, end: nat, n: nat)
    requires
        m.wf(),
        m.position <= end <= m.program.len(),
        closes_own(m.program.subrange(m.position as int, end as int)),
        forall|k: nat| k < n ==> (#[trigger] m.run(k)).position != end,
    ensures
        nested(m, end, m.run(n)),
        forall|k: nat| k < n ==> !(#[trigger] m.run(k)).stuck(),
    decreases n,
{
    let code = m.program.subrange(m.position as int, end as int);
    if n == 0 {
        assert(depth(code.take(0)) == 0);
        assert(m.frames.take(m.frames.len() as int) =~= m.frames);
    } else {
        let i = (n - 1) as nat;
        lemma_nested_run(m, end, i);
        assert(m.run(i).position != end);
        lemma_nested_step(m, end, m.run(i));
        assert(m.run(n) == m.run(i).step()) by {
            lemma_run_add(m, i, 1);
            reveal_with_fuel(Machine::run, 2);
        }
    }
}

/// The loop-control stack follows the nesting of the program. From the entry
/// into balanced code until the run first stands at its end, the stack holds
/// the frames that it held at the entry and above them one frame for each
/// loop that is open at the current position; no `]` in between is unmatched;
/// and at the end of the code the stack is what it was at the entry.
pub proof fn lemma_stack_follows_nesting(m: Machine, end: nat, n: nat)
    requires
        m.wf(),
        m.position <= end <= m.program.len(),
        balanced(m.program.subrange(m.position as int, end as int)),
        forall|k: nat| k < n ==> (#[trigger] m.run(k)).position != end,
    ensures
        m.position <= m.run(n).position <= end,
        m.run(n).frames.len() == m.frames.len() + depth(
            m.program.subrange(m.position as int, m.run(n).position as int),
        ),
        m.run(n).frames.take(m.frames.len() as int) == m.frames,
        m.run(n).position == end ==> m.run(n).frames == m.frames,
        forall|k: nat| k < n ==> !(#[trigger] m.run(k)).stuck(),
{
    lemma_nested_run(m, end, n);
    let code = m.program.subrange(m.position as int, end as int);
    let s = m.run(n);
    assert(code.take(s.position - m.position) =~= m.program.subrange(
        m.position as int,
        s.position as int,
    ));
    if s.position == end {
        assert(code.take(end - m.position) =~= code);
        assert(s.frames.take(m.frames.len() as int) =~= s.frames);
    }
}

/// A matched loop leaves the loop-control stack as it found it: when the run
/// first stands behind the `]`, however often the body was repeated or
/// whether it was entered at all, the stack is what it was before the `[`.
pub proof fn lemma_loop_restores_stack(m: Machine, close: nat, n: nat)
    requires
        m.wf(),
        at_loop(m, close),
        m.run(n).position == close + 1,
        forall|k: nat| k < n ==> (#[trigger] m.run(k)).position != close + 1,
    ensures
        m.run(n).frames == m.frames,
{
    let body = m.program.subrange(m.position as int + 1, close as int);
    let code = m.program.subrange(m.position as int, close as int + 1);
    lemma_loop_balanced(m.program, m.position, close);
    lemma_stack_follows_nesting(m, close + 1, n);
}

/// A balanced body between a `[` and a `]` makes balanced code.
proof fn lemma_loop_balanced(program: Seq<u8>, open: nat, close: nat)
    requires
        open < close < program.len(),
        program[open as int] == LOOP_OPEN,
        program[close as int] == LOOP_CLOSE,
        balanced(program.subrange(open as int + 1, close as int)),
    ensures
        balanced(program.subrange(open as int, close as int + 1)),
{
    let body = program.subrange(open as int + 1, close as int);
    let code = program.subrange(open as int, close as int + 1);
    assert forall|k: int| 0 <= k <= code.len() - 1 implies depth(#[trigger] code.take(k)) == if k
        == 0 {
        0
    } else {
        1 + depth(body.take(k - 1))
    } by {
        lemma_depth_behind_open(program, open, close, k);
    }
    assert(body.take(body.len() as int) =~= body);
    assert(depth(code.take(code.len() - 1)) == 1);
    lemma_depth_take(code, code.len() - 1);
    assert(code.take(code.len() as int) =~= code);
    assert forall|k: int| 0 <= k <= code.len() implies depth(#[trigger] code.take(k)) >= 0 by {
        if 0 < k < code.len() {
            assert(depth(body.take(k - 1)) >= 0);
        }
    }
}

/// The depth of a prefix of `[` and a body is one more than that of the
/// body's prefix.
proof fn lemma_depth_behind_open(program: Seq<u8>, open: nat, close: nat, k: int)
    requires
        open < close < program.len(),
        program[open as int] == LOOP_OPEN,
        0 <= k <= close - open,
    ensures
        depth(program.subrange(open as int, close as int + 1).take(k)) == if k == 0 {
            0
        } else {
            1 + depth(program.subrange(open as int + 1, close as int).take(k - 1))
        },
    decreases k,
{
    let body = program.subrange(open as int + 1, close as int);
    let code = program.subrange(open as int, close as int + 1);
    if k == 0 {
        assert(depth(code.take(0)) == 0);
    } else {
        lemma_depth_behind_open(program, open, close, k - 1);
        lemma_depth_take(code, k - 1);
        if k == 1 {
            assert(depth(body.take(0)) == 0);
        } else {
            lemma_depth_take(body, k - 2);
            assert(code[k - 1] == body[k - 2]);
        }
    }
}

/// Where the brackets of the rest of the program match, the run never meets an
/// unmatched `]`: it is stuck after no number of steps, and when it halts the
/// loop-control stack is what it was at the start.
pub proof fn lemma_balanced_never_stuck(m: Machine, n: nat)
    requires
        m.wf(),
        balanced(m.program.subrange(m.position as int, m.program.len() as int)),
    ensures
        !m.run(n).stuck(),
        m.run(n).halted() ==> m.run(n).frames == m.frames,
    decreases n,
{
    let end = m.program.len();
    lemma_run_wf(m, n);
    if forall|k: nat| k < n ==> (#[trigger] m.run(k)).position != end {
        lemma_nested_run(m, end, n);
        lemma_stack_follows_nesting(m, end, n);
        if m.run(n).position < end {
            lemma_nested_step(m, end, m.run(n));
        }
    } else {
        let k = choose|k: nat| k < n && (#[trigger] m.run(k)).position == end;
        lemma_balanced_never_stuck(m, k);
        lemma_run_wf(m, k);
        lemma_run_beyond(m, k, n);
    }
}

} // verus!
