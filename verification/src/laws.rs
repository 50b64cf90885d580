//! Theorems about the semantics of the machine.

use crate::brackets::{
    backward_level, backward_match, balanced, forward_level, forward_match, is_backward_match,
    is_forward_match, jump_backward, jump_forward, lemma_backward_match_unique,
    lemma_balanced_closing_has_partner, lemma_balanced_opening_has_partner,
    lemma_forward_match_found, lemma_forward_match_unique, lemma_partner_of_opening_leads_back,
    net_depth,
};
use crate::engine::{event_output, run_steps, spec_run, spec_step, Event, Trace};
use crate::machine::{byte_cell, cell_byte, wrap_dec, wrap_inc, Machine, VmError};
use vstd::prelude::*;

verus! {

/// The program holds no output instruction.
pub open spec fn silent(p: Seq<char>) -> bool {
    forall|i: int| 0 <= i < p.len() ==> p[i] != '.'
}

/// Both pointers of `m` are in range for a run of `p`: the data pointer
/// on the tape, the instruction pointer in the program or just behind it.
pub open spec fn in_bounds(p: Seq<char>, m: Machine) -> bool {
    &&& m.wf()
    &&& m.on_tape()
    &&& m.instr_ptr <= p.len()
}

/// A step keeps a well-formed machine well formed.
pub proof fn lemma_step_preserves_wf(p: Seq<char>, m: Machine)
    requires
        m.wf(),
    ensures
        spec_step(p, m) matches Ok((next, _)) ==> next.wf(),
{
}

/// A step keeps both pointers in range: a step that would move one of
/// them out of range faults instead.
pub proof fn lemma_step_preserves_bounds(p: Seq<char>, m: Machine)
    requires
        in_bounds(p, m),
    ensures
        spec_step(p, m) matches Ok((next, _)) ==> in_bounds(p, next),
{
}

/// Through a whole run both pointers stay in range.
pub proof fn lemma_run_preserves_bounds(p: Seq<char>, m: Machine, n: nat)
    requires
        in_bounds(p, m),
    ensures
        in_bounds(p, run_steps(p, m, n).machine),
    decreases n,
{
    if n > 0 {
        lemma_run_preserves_bounds(p, m, (n - 1) as nat);
        lemma_step_preserves_bounds(p, run_steps(p, m, (n - 1) as nat).machine);
    }
}

/// A step emits a character only when the symbol under the instruction
/// pointer is the output instruction.
pub proof fn lemma_output_only_at_dot(p: Seq<char>, m: Machine)
    requires
        m.wf(),
    ensures
        spec_step(p, m) matches Ok((_, Event::Output(_))) ==> m.instr_ptr < p.len()
            && p[m.instr_ptr] == '.',
{
}

/// A program without an output instruction emits nothing, from whatever
/// machine it starts and however long it runs.
pub proof fn lemma_silent_program_emits_nothing(p: Seq<char>, m: Machine, n: nat)
    requires
        m.wf(),
        silent(p),
    ensures
        run_steps(p, m, n).output == Seq::<char>::empty(),
        run_steps(p, m, n).machine.wf(),
    decreases n,
{
    if n > 0 {
        lemma_silent_program_emits_nothing(p, m, (n - 1) as nat);
        let t = run_steps(p, m, (n - 1) as nat);
        lemma_step_preserves_wf(p, t.machine);
        lemma_output_only_at_dot(p, t.machine);
        assert(run_steps(p, m, n).output =~= Seq::<char>::empty());
    }
}

/// The run of a program without an output instruction, when it succeeds,
/// returns the empty output.
pub proof fn lemma_silent_run_emits_nothing(p: Seq<char>, n: nat)
    requires
        silent(p),
    ensures
        spec_run(p, n) matches Ok(out) ==> out == Seq::<char>::empty(),
{
    lemma_silent_program_emits_nothing(p, Machine::initial(), n);
}

/// In a program with balanced brackets the matcher, called at a bracket,
/// finds the partner: it does not fail, and it leaves the instruction
/// pointer inside the program.
pub proof fn lemma_balanced_matcher_stays_in_program(p: Seq<char>, m: Machine)
    requires
        balanced(p),
        m.wf(),
        m.on_tape(),
        m.instr_ptr < p.len(),
    ensures
        p[m.instr_ptr] == '[' ==> (jump_forward(p, m) matches Ok(next) && 0 <= next.instr_ptr
            < p.len()),
        p[m.instr_ptr] == ']' ==> (jump_backward(p, m) matches Ok(next) && 0 <= next.instr_ptr
            < p.len()),
{
    if p[m.instr_ptr] == '[' {
        lemma_balanced_opening_has_partner(p, m.instr_ptr);
    } else if p[m.instr_ptr] == ']' {
        lemma_balanced_closing_has_partner(p, m.instr_ptr);
    }
}

/// In a program with balanced brackets no step runs a bracket scan off
/// the program.
pub proof fn lemma_balanced_step_stays_in_program(p: Seq<char>, m: Machine)
    requires
        balanced(p),
        m.wf(),
    ensures
        spec_step(p, m) != Err::<(Machine, Event), VmError>(VmError::ProgramBounds),
        spec_step(p, m) matches Ok((next, _)) ==> next.wf(),
{
    if m.instr_ptr < p.len() {
        let c = p[m.instr_ptr];
        if c == '[' {
            lemma_balanced_opening_has_partner(p, m.instr_ptr);
        } else if c == ']' {
            lemma_balanced_closing_has_partner(p, m.instr_ptr);
        }
    }
}

/// In a program with balanced brackets no run is aborted by a bracket
/// scan that leaves the program.
pub proof fn lemma_balanced_run_stays_in_program(p: Seq<char>, m: Machine, n: nat)
    requires
        balanced(p),
        m.wf(),
    ensures
        run_steps(p, m, n).fault != Some(VmError::ProgramBounds),
        run_steps(p, m, n).machine.wf(),
    decreases n,
{
    if n > 0 {
        lemma_balanced_run_stays_in_program(p, m, (n - 1) as nat);
        lemma_balanced_step_stays_in_program(p, run_steps(p, m, (n - 1) as nat).machine);
    }
}

/// Incrementing a cell at its maximum gives its minimum, decrementing a
/// cell at its minimum gives its maximum, each undoes the other, and on
/// the tape neither ever faults. Read as unsigned bytes, the cells count
/// modulo 256.
pub proof fn lemma_cells_wrap(m: Machine, c: i8)
    ensures
        wrap_inc(i8::MAX) == i8::MIN,
        wrap_dec(i8::MIN) == i8::MAX,
        wrap_dec(wrap_inc(c)) == c,
        wrap_inc(wrap_dec(c)) == c,
        cell_byte(wrap_inc(c)) == (cell_byte(c) + 1) % 256,
        cell_byte(wrap_dec(c)) == (cell_byte(c) - 1) % 256,
        byte_cell(cell_byte(c)) == c,
        m.on_tape() ==> m.incremented() == Ok::<Machine, VmError>(
            m.with_current(wrap_inc(m.current())),
        ),
        m.on_tape() ==> m.decremented() == Ok::<Machine, VmError>(
            m.with_current(wrap_dec(m.current())),
        ),
{
}

/// Running `a + b` steps is running `a` steps and then, from where they
/// led, `b` more.
pub proof fn lemma_run_steps_add(p: Seq<char>, m: Machine, a: nat, b: nat)
    requires
        run_steps(p, m, a).fault is None,
    ensures
        run_steps(p, m, a + b) == ({
            let first = run_steps(p, m, a);
            let second = run_steps(p, first.machine, b);
            Trace {
                machine: second.machine,
                output: first.output + second.output,
                fault: second.fault,
            }
        }),
    decreases b,
{
    let first = run_steps(p, m, a);
    if b == 0 {
        assert(first.output + Seq::<char>::empty() =~= first.output);
    } else {
        lemma_run_steps_add(p, m, a, (b - 1) as nat);
        let before = run_steps(p, first.machine, (b - 1) as nat);
        if before.fault is None {
            if let Ok((_, ev)) = spec_step(p, before.machine) {
                assert((first.output + before.output) + event_output(ev) =~= first.output + (
                before.output + event_output(ev)));
            }
        }
    }
}

/// The body of the loop between `open` and `close` counts cell `d` down:
/// entered on cell `d` with a nonzero value, it reaches the closing
/// bracket after `body_steps` steps without a fault, with the data pointer
/// on cell `d` again and the value of that cell one lower. What else the
/// body does, to other cells or to the output, is left open.
pub open spec fn body_counts_down(
    p: Seq<char>,
    open: int,
    close: int,
    d: int,
    body_steps: nat,
) -> bool {
    forall|s: Machine|
        in_bounds(p, s) && s.instr_ptr == open + 1 && s.data_ptr == d && s.current() != 0 ==> {
            let t = #[trigger] run_steps(p, s, body_steps);
            &&& t.fault is None
            &&& t.machine.instr_ptr == close
            &&& t.machine.data_ptr == d
            &&& t.machine.current() == wrap_dec(s.current())
        }
}

/// A loop whose body counts the current cell down runs that body exactly
/// as often as it takes to bring the cell to zero.
///
/// Let the machine stand at a `[` whose partner is at `close`, with the
/// current cell, read as an unsigned byte, at `count`. One step enters or
/// skips the loop; each pass takes the steps of the body and one for the
/// `]`. For every `k < count`, after `k` passes the cell holds `count - k`
/// and the machine stands at the body again; after `count` passes the cell
/// is zero and the machine stands behind the `]`.
pub proof fn lemma_counting_loop_runs_to_zero(
    p: Seq<char>,
    m: Machine,
    close: int,
    body_steps: nat,
    k: nat,
)
    requires
        in_bounds(p, m),
        m.instr_ptr < p.len(),
        p[m.instr_ptr] == '[',
        forward_match(p, m.instr_ptr) == Some(close),
        body_counts_down(p, m.instr_ptr, close, m.data_ptr, body_steps),
        k <= cell_byte(m.current()),
    ensures
        ({
            let t = run_steps(p, m, (1 + k * (body_steps + 1)) as nat);
            &&& t.fault is None
            &&& in_bounds(p, t.machine)
            &&& t.machine.data_ptr == m.data_ptr
            &&& cell_byte(t.machine.current()) == cell_byte(m.current()) - k
            &&& t.machine.instr_ptr == if k < cell_byte(m.current()) {
                m.instr_ptr + 1
            } else {
                close + 1
            }
        }),
    decreases k,
{
    let open = m.instr_ptr;
    let count = cell_byte(m.current());
    lemma_forward_match_found(p, open);
    lemma_partner_of_opening_leads_back(p, open, close);
    lemma_backward_match_unique(p, close, open);
    if k == 0 {
        assert(run_steps(p, m, 0).machine == m);
        lemma_run_preserves_bounds(p, m, 1);
    } else {
        let passed = (1 + (k - 1) * (body_steps + 1)) as nat;
        assert(1 + k * (body_steps + 1) == passed + body_steps + 1) by (nonlinear_arith)
            requires
                k >= 1,
                passed == 1 + (k - 1) * (body_steps + 1),
        ;
        lemma_counting_loop_runs_to_zero(p, m, close, body_steps, (k - 1) as nat);
        let at_body = run_steps(p, m, passed).machine;
        let at_close = run_steps(p, at_body, body_steps);
        assert(at_close.machine.current() == wrap_dec(at_body.current()));
        lemma_run_preserves_bounds(p, at_body, body_steps);
        lemma_run_steps_add(p, m, passed, body_steps + 1);
        lemma_run_preserves_bounds(p, m, passed + body_steps + 1);
    }
}

/// The three symbols from position `i` on are the loop `[-]`.
pub open spec fn decrement_loop_at(p: Seq<char>, i: int) -> bool {
    &&& 0 <= i
    &&& i + 2 < p.len()
    &&& p[i] == '['
    &&& p[i + 1] == '-'
    &&& p[i + 2] == ']'
}

/// The two brackets of a loop `[-]` are each other's partners.
pub proof fn lemma_decrement_loop_brackets(p: Seq<char>, i: int)
    requires
        decrement_loop_at(p, i),
    ensures
        forward_match(p, i) == Some(i + 2),
        backward_match(p, i + 2) == Some(i),
{
    assert(net_depth(p, i + 1, i + 1) == 0);
    assert(net_depth(p, i + 1, i + 2) == 0);
    assert(net_depth(p, i + 1, i + 3) == -1);
    assert forall|k: int| i < k < i + 2 implies #[trigger] forward_level(p, i, k) > 0 by {
        assert(k == i + 1);
    }
    assert(is_forward_match(p, i, i + 2));
    lemma_forward_match_unique(p, i, i + 2);
    assert(net_depth(p, i, i) == 0);
    assert(net_depth(p, i, i + 1) == 1);
    assert(net_depth(p, i, i + 2) == 1);
    assert forall|k: int| i < k < i + 2 implies #[trigger] backward_level(p, i + 2, k) > 0 by {
        assert(k == i + 1);
    }
    assert(is_backward_match(p, i + 2, i));
    lemma_backward_match_unique(p, i + 2, i);
}

/// The body of a loop `[-]` counts the current cell down in one step,
/// whichever cell that is.
pub proof fn lemma_decrement_body_counts_down(p: Seq<char>, i: int, d: int)
    requires
        decrement_loop_at(p, i),
    ensures
        body_counts_down(p, i, i + 2, d, 1),
{
    assert forall|s: Machine|
        in_bounds(p, s) && s.instr_ptr == i + 1 && s.data_ptr == d && s.current() != 0 implies ({
        let t = #[trigger] run_steps(p, s, 1);
        &&& t.fault is None
        &&& t.machine.instr_ptr == i + 2
        &&& t.machine.data_ptr == d
        &&& t.machine.current() == wrap_dec(s.current())
    }) by {
        assert(run_steps(p, s, 0).machine == s);
    }
}

/// Where a machine that entered a loop `[-]` as `m` stands once the body
/// has run `k` times: at the body with the cell counted down by `k`, or,
/// when that made the cell zero, behind the loop.
pub open spec fn decrement_loop_state(m: Machine, k: nat) -> Machine {
    let count = cell_byte(m.current());
    if k < count {
        m.with_current(byte_cell(count - k)).at(m.instr_ptr + 1)
    } else {
        m.with_current(0).at(m.instr_ptr + 3)
    }
}

/// A loop `[-]` runs its body exactly as often as it takes to bring the
/// current cell to zero.
///
/// Let the machine stand at the `[` with the current cell, read as an
/// unsigned byte, at `count`. For every `k < count`, after `1 + 2k` steps
/// the body has run `k` times, the cell holds `count - k` and the machine
/// stands at the body again. After `1 + 2 * count` steps the cell is zero
/// and the machine stands behind the `]`. No other cell and no pointer
/// but the instruction pointer has changed, and nothing was emitted.
pub proof fn lemma_decrement_loop_counts_down(p: Seq<char>, m: Machine, k: nat)
    requires
        m.wf(),
        m.on_tape(),
        decrement_loop_at(p, m.instr_ptr),
        k <= cell_byte(m.current()),
    ensures
        run_steps(p, m, (1 + 2 * k) as nat) == (Trace {
            machine: decrement_loop_state(m, k),
            output: Seq::empty(),
            fault: None,
        }),
    decreases k,
{
    let i = m.instr_ptr;
    let count = cell_byte(m.current());
    let quiet = Seq::<char>::empty();
    lemma_decrement_loop_brackets(p, i);
    if k == 0 {
        assert(run_steps(p, m, 0) == (Trace { machine: m, output: quiet, fault: None }));
        if count == 0 {
            assert(m.with_current(0).tape =~= m.tape);
        } else {
            assert(m.with_current(byte_cell(count)).tape =~= m.tape);
        }
        assert(spec_step(p, m) == Ok::<(Machine, Event), VmError>(
            (decrement_loop_state(m, 0), Event::Quiet),
        ));
        assert(quiet + event_output(Event::Quiet) =~= quiet);
    } else {
        lemma_decrement_loop_counts_down(p, m, (k - 1) as nat);
        let at_body = decrement_loop_state(m, (k - 1) as nat);
        assert(run_steps(p, m, (2 * k - 1) as nat) == (Trace {
            machine: at_body,
            output: quiet,
            fault: None,
        }));
        let left = byte_cell(count - k);
        let at_close = m.with_current(left).at(i + 2);
        assert(at_body.with_current(wrap_dec(at_body.current())).tape =~= at_close.tape);
        assert(spec_step(p, at_body) == Ok::<(Machine, Event), VmError>((at_close, Event::Quiet)));
        assert(quiet + event_output(Event::Quiet) =~= quiet);
        assert(run_steps(p, m, (2 * k) as nat) == (Trace {
            machine: at_close,
            output: quiet,
            fault: None,
        }));
        assert(spec_step(p, at_close) == Ok::<(Machine, Event), VmError>(
            (decrement_loop_state(m, k), Event::Quiet),
        ));
    }
}

} // verus!
