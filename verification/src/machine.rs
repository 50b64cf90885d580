//! The machine state: tape, data pointer, instruction pointer.

use vstd::prelude::*;

verus! {

/// Number of cells on the tape.
pub const TAPE_LEN: usize = 30000;

/// Why a run was aborted.
#[derive(Debug, Clone, Copy, PartialEq, Eq, Structural)]
pub enum VmError {
    /// The data pointer would leave the tape, or a cell outside the tape
    /// was accessed.
    TapeBounds,
    /// A bracket scan ran off the start or the end of the program: the
    /// bracket under the instruction pointer has no partner.
    ProgramBounds,
    /// The step budget was used up before the program ended.
    StepLimit,
}

/// The state of the virtual machine.
///
/// Cells are signed 8-bit integers and wrap: one past `127` is `-128`.
pub struct VM {
    pub memory: [i8; TAPE_LEN],
    pub data_ptr: usize,
    pub instr_ptr: usize,
}

/// The mathematical view of a [`VM`].
pub ghost struct Machine {
    pub tape: Seq<i8>,
    pub data_ptr: int,
    pub instr_ptr: int,
}

/// The cell after `c` when counting up: `127` is followed by `-128`.
pub open spec fn wrap_inc(c: i8) -> i8 {
    if c == i8::MAX {
        i8::MIN
    } else {
        (c + 1) as i8
    }
}

/// The cell before `c` when counting up: `-128` is preceded by `127`.
pub open spec fn wrap_dec(c: i8) -> i8 {
    if c == i8::MIN {
        i8::MAX
    } else {
        (c - 1) as i8
    }
}

/// The cell's bit pattern read as an unsigned byte.
pub open spec fn cell_byte(c: i8) -> int {
    if c < 0 {
        c + 256
    } else {
        c as int
    }
}

/// The cell whose bit pattern, read as an unsigned byte, is `b`.
pub open spec fn byte_cell(b: int) -> i8 {
    if b >= 128 {
        (b - 256) as i8
    } else {
        b as i8
    }
}

/// The character that an output instruction emits for a cell.
pub open spec fn cell_char(c: i8) -> char {
    cell_byte(c) as char
}

impl Machine {
    /// The machine before the first instruction: a tape of zeros, both
    /// pointers at zero.
    pub open spec fn initial() -> Machine {
        Machine { tape: Seq::new(TAPE_LEN as nat, |i: int| 0i8), data_ptr: 0, instr_ptr: 0 }
    }

    /// The tape has its fixed length and neither pointer is negative:
    /// what holds of the view of every [`VM`].
    pub open spec fn wf(self) -> bool {
        &&& self.tape.len() == TAPE_LEN
        &&& 0 <= self.data_ptr
        &&& 0 <= self.instr_ptr
    }

    /// The data pointer selects a cell of the tape.
    pub open spec fn on_tape(self) -> bool {
        0 <= self.data_ptr < self.tape.len()
    }

    /// The cell under the data pointer.
    pub open spec fn current(self) -> i8
        recommends
            self.on_tape(),
    {
        self.tape[self.data_ptr]
    }

    /// The same machine with the cell under the data pointer replaced.
    pub open spec fn with_current(self, c: i8) -> Machine
        recommends
            self.on_tape(),
    {
        Machine { tape: self.tape.update(self.data_ptr, c), ..self }
    }

    /// The same machine with the data pointer moved by `delta`.
    pub open spec fn shifted(self, delta: int) -> Machine {
        Machine { data_ptr: self.data_ptr + delta, ..self }
    }

    /// The same machine with the instruction pointer at `ip`.
    pub open spec fn at(self, ip: int) -> Machine {
        Machine { instr_ptr: ip, ..self }
    }

    /// Reading the current cell: the cell, or a tape fault.
    pub open spec fn read(self) -> Result<i8, VmError> {
        if self.on_tape() {
            Ok(self.current())
        } else {
            Err(VmError::TapeBounds)
        }
    }

    /// Incrementing the current cell, wrapping.
    pub open spec fn incremented(self) -> Result<Machine, VmError> {
        if self.on_tape() {
            Ok(self.with_current(wrap_inc(self.current())))
        } else {
            Err(VmError::TapeBounds)
        }
    }

    /// Decrementing the current cell, wrapping.
    pub open spec fn decremented(self) -> Result<Machine, VmError> {
        if self.on_tape() {
            Ok(self.with_current(wrap_dec(self.current())))
        } else {
            Err(VmError::TapeBounds)
        }
    }

    /// Moving the data pointer by `delta`: a fault when the target is not a
    /// cell of the tape.
    pub open spec fn moved(self, delta: int) -> Result<Machine, VmError> {
        if self.shifted(delta).on_tape() {
            Ok(self.shifted(delta))
        } else {
            Err(VmError::TapeBounds)
        }
    }
}

impl View for VM {
    type V = Machine;

    open spec fn view(&self) -> Machine {
        Machine {
            tape: self.memory@,
            data_ptr: self.data_ptr as int,
            instr_ptr: self.instr_ptr as int,
        }
    }
}

/// The view of every machine is well formed.
pub proof fn lemma_view_wf(vm: VM)
    ensures
        vm@.wf(),
{
}

impl Default for VM {
    /// A fresh machine: every cell zero, both pointers zero.
    fn default() -> (vm: VM)
        ensures
            vm@ == Machine::initial(),
    {
        let vm = VM { memory: [0i8; TAPE_LEN], data_ptr: 0, instr_ptr: 0 };
        assert(vm@.tape =~= Machine::initial().tape);
        vm
    }
}

impl VM {
    /// Reads the cell under the data pointer.
    pub fn current(&self) -> (r: Result<i8, VmError>)
        ensures
            r == self@.read(),
    {
        if self.data_ptr < TAPE_LEN {
            Ok(self.memory[self.data_ptr])
        } else {
            Err(VmError::TapeBounds)
        }
    }

    /// Adds one to the cell under the data pointer. At `127` the cell
    /// wraps to `-128`. Fails, leaving the machine as it was, only when the
    /// data pointer is off the tape.
    pub fn increment(&mut self) -> (r: Result<(), VmError>)
        ensures
            match r {
                Ok(()) => old(self)@.incremented() == Ok::<Machine, VmError>(final(self)@),
                Err(e) => old(self)@.incremented() == Err::<Machine, VmError>(e) && *final(self)
                    == *old(self),
            },
    {
        if self.data_ptr < TAPE_LEN {
            let c: i8 = self.memory[self.data_ptr];
            self.memory[self.data_ptr] = c.wrapping_add(1);
            assert(self@.tape =~= old(self)@.tape.update(
                old(self)@.data_ptr,
                wrap_inc(old(self)@.current()),
            ));
            Ok(())
        } else {
            Err(VmError::TapeBounds)
        }
    }

    /// Subtracts one from the cell under the data pointer. At `-128` the
    /// cell wraps to `127`. Fails, leaving the machine as it was, only when
    /// the data pointer is off the tape.
    pub fn decrement(&mut self) -> (r: Result<(), VmError>)
        ensures
            match r {
                Ok(()) => old(self)@.decremented() == Ok::<Machine, VmError>(final(self)@),
                Err(e) => old(self)@.decremented() == Err::<Machine, VmError>(e) && *final(self)
                    == *old(self),
            },
    {
        if self.data_ptr < TAPE_LEN {
            let c: i8 = self.memory[self.data_ptr];
            self.memory[self.data_ptr] = c.wrapping_sub(1);
            assert(self@.tape =~= old(self)@.tape.update(
                old(self)@.data_ptr,
                wrap_dec(old(self)@.current()),
            ));
            Ok(())
        } else {
            Err(VmError::TapeBounds)
        }
    }

    /// Moves the data pointer one cell towards the end of the tape. Fails,
    /// leaving the machine as it was, when the target is not on the tape.
    pub fn move_right(&mut self) -> (r: Result<(), VmError>)
        ensures
            match r {
                Ok(()) => old(self)@.moved(1) == Ok::<Machine, VmError>(final(self)@),
                Err(e) => old(self)@.moved(1) == Err::<Machine, VmError>(e) && *final(self)
                    == *old(self),
            },
    {
        if self.data_ptr < TAPE_LEN - 1 {
            self.data_ptr = self.data_ptr + 1;
            Ok(())
        } else {
            Err(VmError::TapeBounds)
        }
    }

    /// Moves the data pointer one cell towards the start of the tape.
    /// Fails, leaving the machine as it was, when the target is not on the
    /// tape.
    pub fn move_left(&mut self) -> (r: Result<(), VmError>)
        ensures
            match r {
                Ok(()) => old(self)@.moved(-1) == Ok::<Machine, VmError>(final(self)@),
                Err(e) => old(self)@.moved(-1) == Err::<Machine, VmError>(e) && *final(self)
                    == *old(self),
            },
    {
        if 0 < self.data_ptr && self.data_ptr <= TAPE_LEN {
            self.data_ptr = self.data_ptr - 1;
            Ok(())
        } else {
            Err(VmError::TapeBounds)
        }
    }
}

} // verus!
