//! The dispatch of one instruction, and the bounded run of a program.

use crate::brackets::{balanced, jump_backward, jump_forward, loop_backwards, loop_forwards};
use crate::laws::{lemma_balanced_run_stays_in_program, lemma_silent_run_emits_nothing, silent};
use crate::machine::{cell_char, Machine, VmError, VM};
use vstd::prelude::*;

verus! {

/// What one call of [`step`] did.
#[derive(Debug, Clone, Copy, PartialEq, Eq, Structural)]
pub enum Event {
    /// The instruction pointer is past the program: nothing was executed
    /// and the run is over.
    Halted,
    /// One symbol was executed without output.
    Quiet,
    /// An output instruction was executed: the character is to be handed
    /// to the output sink.
    Output(char),
}

/// The outcome of an instruction once its effect on the tape and the
/// pointers is known: the instruction pointer moves on by one.
pub open spec fn then_advance(effect: Result<Machine, VmError>) -> Result<(Machine, Event), VmError> {
    match effect {
        Ok(m) => Ok((m.at(m.instr_ptr + 1), Event::Quiet)),
        Err(e) => Err(e),
    }
}

/// The semantics of one step: the next machine and what the step did, or
/// the fault that aborts the run.
pub open spec fn spec_step(p: Seq<char>, m: Machine) -> Result<(Machine, Event), VmError> {
    if m.instr_ptr >= p.len() {
        Ok((m, Event::Halted))
    } else {
        let c = p[m.instr_ptr];
        if c == '>' {
            then_advance(m.moved(1))
        } else if c == '<' {
            then_advance(m.moved(-1))
        } else if c == '+' {
            then_advance(m.incremented())
        } else if c == '-' {
            then_advance(m.decremented())
        } else if c == '.' {
            match m.read() {
                Ok(v) => Ok((m.at(m.instr_ptr + 1), Event::Output(cell_char(v)))),
                Err(e) => Err(e),
            }
        } else if c == '[' {
            then_advance(jump_forward(p, m))
        } else if c == ']' {
            then_advance(jump_backward(p, m))
        } else {
            then_advance(Ok(m))
        }
    }
}

/// What a run has come to after some steps.
pub ghost struct Trace {
    /// The machine after the last step that succeeded.
    pub machine: Machine,
    /// The characters emitted so far, in order.
    pub output: Seq<char>,
    /// The fault that aborted the run, if one did.
    pub fault: Option<VmError>,
}

/// The characters that a step hands to the output sink.
pub open spec fn event_output(ev: Event) -> Seq<char> {
    match ev {
        Event::Output(c) => seq![c],
        _ => Seq::empty(),
    }
}

/// The trace of `n` steps from machine `m`. A fault ends the run: later
/// steps change nothing.
pub open spec fn run_steps(p: Seq<char>, m: Machine, n: nat) -> Trace
    decreases n,
{
    if n == 0 {
        Trace { machine: m, output: Seq::empty(), fault: None }
    } else {
        let t = run_steps(p, m, (n - 1) as nat);
        if t.fault is Some {
            t
        } else {
            match spec_step(p, t.machine) {
                Ok((next, ev)) => Trace {
                    machine: next,
                    output: t.output + event_output(ev),
                    fault: None,
                },
                Err(e) => Trace { fault: Some(e), ..t },
            }
        }
    }
}

/// The result of running `p` on a fresh machine for at most `n` steps: the
/// whole output when the program ends within them, the fault when one
/// aborts the run, and a step-limit error when neither happens.
pub open spec fn spec_run(p: Seq<char>, n: nat) -> Result<Seq<char>, VmError> {
    let t = run_steps(p, Machine::initial(), n);
    match t.fault {
        Some(e) => Err(e),
        None => if t.machine.instr_ptr >= p.len() {
            Ok(t.output)
        } else {
            Err(VmError::StepLimit)
        },
    }
}

/// Once a run has ended, by a fault or by leaving the program, further
/// steps change nothing.
pub proof fn lemma_run_steps_settled(p: Seq<char>, m: Machine, k: nat, n: nat)
    requires
        k <= n,
        run_steps(p, m, k).fault is Some || run_steps(p, m, k).machine.instr_ptr >= p.len(),
    ensures
        run_steps(p, m, n) == run_steps(p, m, k),
    decreases n - k,
{
    if k < n {
        lemma_run_steps_settled(p, m, k, (n - 1) as nat);
        let t = run_steps(p, m, k);
        assert(t.output + event_output(Event::Halted) =~= t.output);
    }
}

/// A run that ended within its budget, with its output or with a fault,
/// ends the same way within every larger budget.
pub proof fn lemma_larger_budget_same_result(p: Seq<char>, n: nat, larger: nat)
    requires
        n <= larger,
        spec_run(p, n) != Err::<Seq<char>, VmError>(VmError::StepLimit),
    ensures
        spec_run(p, larger) == spec_run(p, n),
{
    lemma_run_steps_settled(p, Machine::initial(), n, larger);
}

/// The character that an output instruction emits for a cell: the cell's
/// bit pattern read as an unsigned byte, as a character code.
pub fn output_char(cell: i8) -> (c: char)
    ensures
        c == cell_char(cell),
{
    let byte: u8 = if cell < 0 {
        (cell as i16 + 256) as u8
    } else {
        cell as u8
    };
    byte as char
}

/// Executes the symbol under the instruction pointer.
///
/// Past the end of the program nothing happens and `Halted` is returned.
/// Otherwise the symbol is dispatched and the instruction pointer moves on
/// by one, after any jump that the bracket matcher made. On a fault the
/// machine is left as it was.
pub fn step(vm: &mut VM, instr: &str) -> (r: Result<Event, VmError>)
    ensures
        match r {
            Ok(ev) => spec_step(instr@, old(vm)@) == Ok::<(Machine, Event), VmError>(
                (final(vm)@, ev),
            ),
            Err(e) => spec_step(instr@, old(vm)@) == Err::<(Machine, Event), VmError>(e)
                && *final(vm) == *old(vm),
        },
{
    let len: usize = instr.unicode_len();
    if vm.instr_ptr >= len {
        return Ok(Event::Halted);
    }
    let mut event = Event::Quiet;
    let effect: Result<(), VmError> = match instr.get_char(vm.instr_ptr) {
        '>' => vm.move_right(),
        '<' => vm.move_left(),
        '+' => vm.increment(),
        '-' => vm.decrement(),
        '.' => match vm.current() {
            Ok(cell) => {
                event = Event::Output(output_char(cell));
                Ok(())
            },
            Err(e) => Err(e),
        },
        '[' => loop_forwards(vm, instr),
        ']' => loop_backwards(vm, instr),
        _ => Ok(()),
    };
    match effect {
        Ok(()) => {
            vm.instr_ptr = vm.instr_ptr + 1;
            Ok(event)
        },
        Err(e) => Err(e),
    }
}

/// Runs a program on a fresh machine, for at most `max_steps` steps, and
/// returns everything it emitted.
///
/// The run succeeds when the instruction pointer leaves the program within
/// the budget. It fails with the fault of the first instruction that
/// faults, and with `StepLimit` when the budget is used up while the
/// program is still running. A failed run returns no output.
///
/// A program without an output instruction emits nothing, and a program
/// with balanced brackets never fails with `ProgramBounds`.
pub fn run(instr: &str, max_steps: u64) -> (r: Result<Vec<char>, VmError>)
    ensures
        match r {
            Ok(out) => spec_run(instr@, max_steps as nat) == Ok::<Seq<char>, VmError>(out@),
            Err(e) => spec_run(instr@, max_steps as nat) == Err::<Seq<char>, VmError>(e),
        },
        silent(instr@) ==> (r matches Ok(out) ==> out@.len() == 0),
        balanced(instr@) ==> r != Err::<Vec<char>, VmError>(VmError::ProgramBounds),
{
    let len: usize = instr.unicode_len();
    let mut vm = VM::default();
    let mut out: Vec<char> = Vec::new();
    let mut steps: u64 = 0;
    while vm.instr_ptr < len
        invariant
            len == instr@.len(),
            steps <= max_steps,
            run_steps(instr@, Machine::initial(), steps as nat) == (Trace {
                machine: vm@,
                output: out@,
                fault: None,
            }),
        decreases max_steps - steps,
    {
        if steps >= max_steps {
            return Err(VmError::StepLimit);
        }
        let ghost before = run_steps(instr@, Machine::initial(), steps as nat);
        match step(&mut vm, instr) {
            Ok(ev) => {
                if let Event::Output(c) = ev {
                    out.push(c);
                }
                assert(out@ =~= before.output + event_output(ev));
            },
            Err(e) => {
                proof {
                    lemma_run_steps_settled(
                        instr@,
                        Machine::initial(),
                        (steps + 1) as nat,
                        max_steps as nat,
                    );
                    if balanced(instr@) {
                        lemma_balanced_run_stays_in_program(
                            instr@,
                            Machine::initial(),
                            max_steps as nat,
                        );
                    }
                }
                return Err(e);
            },
        }
        steps = steps + 1;
    }
    proof {
        lemma_run_steps_settled(instr@, Machine::initial(), steps as nat, max_steps as nat);
        if silent(instr@) {
            lemma_silent_run_emits_nothing(instr@, max_steps as nat);
        }
    }
    Ok(out)
}

} // verus!
