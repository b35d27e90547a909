//! The machine: a tape of byte cells, a data pointer and an instruction
//! pointer, and the effect of one opcode on them.

use crate::opcode::{paired_at, well_formed, Opcode};
use vstd::prelude::*;

verus! {

/// The number of cells on the tape.
pub const TAPE_LEN: usize = 30000;

/// What one step lets the outside world see.
#[derive(Clone, Copy, Debug, PartialEq, Eq, Structural)]
pub enum Effect {
    /// Nothing.
    Silent,
    /// One byte written to the output.
    Emit(u8),
}

/// Why a run is aborted.
#[derive(Clone, Copy, Debug, PartialEq, Eq, Structural)]
pub enum Fault {
    /// The data pointer was about to leave the tape.
    TapeOutOfBounds,
    /// An `Input` opcode found no byte to read.
    StdinReadError,
}

/// The machine as a mathematical value.
pub struct MachineState {
    /// Index of the next opcode.
    pub ip: int,
    /// Index of the current cell.
    pub dp: int,
    /// The cells.
    pub tape: Seq<u8>,
}

/// The state in which every run begins: both pointers at zero, every cell
/// zero.
pub open spec fn initial_state() -> MachineState {
    MachineState { ip: 0, dp: 0, tape: Seq::new(TAPE_LEN as nat, |i: int| 0u8) }
}

/// The tape has its fixed length and the data pointer is on it.
pub open spec fn valid_state(s: MachineState) -> bool {
    &&& 0 <= s.ip
    &&& 0 <= s.dp < TAPE_LEN
    &&& s.tape.len() == TAPE_LEN
}

/// The instruction pointer has left the program.
pub open spec fn halted(code: Seq<Opcode>, s: MachineState) -> bool {
    !(0 <= s.ip < code.len())
}

/// The next opcode is `Input`.
pub open spec fn wants_input(code: Seq<Opcode>, s: MachineState) -> bool {
    !halted(code, s) && code[s.ip] == Opcode::Input
}

/// The state after one opcode that only moves on.
pub open spec fn advanced(s: MachineState) -> MachineState {
    MachineState { ip: s.ip + 1, ..s }
}

/// The state after one opcode that writes `value` to the current cell.
pub open spec fn stored(s: MachineState, value: u8) -> MachineState {
    MachineState { ip: s.ip + 1, tape: s.tape.update(s.dp, value), ..s }
}

/// One step of the machine: the next state and what it emits, or the fault
/// that ends the run. `input` is the byte that an `Input` opcode reads, if
/// there is one to read; other opcodes do not look at it. A halted machine
/// stays as it is.
pub open spec fn step_spec(code: Seq<Opcode>, s: MachineState, input: Option<u8>) -> Result<
    (MachineState, Effect),
    Fault,
> {
    if halted(code, s) {
        Ok((s, Effect::Silent))
    } else {
        match code[s.ip] {
            Opcode::IncPtr => if s.dp + 1 < TAPE_LEN {
                Ok((MachineState { ip: s.ip + 1, dp: s.dp + 1, ..s }, Effect::Silent))
            } else {
                Err(Fault::TapeOutOfBounds)
            },
            Opcode::DecPtr => if s.dp > 0 {
                Ok((MachineState { ip: s.ip + 1, dp: s.dp - 1, ..s }, Effect::Silent))
            } else {
                Err(Fault::TapeOutOfBounds)
            },
            Opcode::IncVal => Ok((stored(s, ((s.tape[s.dp] + 1) % 256) as u8), Effect::Silent)),
            Opcode::DecVal => Ok((stored(s, ((s.tape[s.dp] - 1) % 256) as u8), Effect::Silent)),
            Opcode::Output => Ok((advanced(s), Effect::Emit(s.tape[s.dp]))),
            Opcode::Input => match input {
                Some(byte) => Ok((stored(s, byte), Effect::Silent)),
                None => Err(Fault::StdinReadError),
            },
            Opcode::LoopStart(end) => if s.tape[s.dp] == 0 {
                Ok((MachineState { ip: end + 1, ..s }, Effect::Silent))
            } else {
                Ok((advanced(s), Effect::Silent))
            },
            Opcode::LoopEnd(start) => if s.tape[s.dp] != 0 {
                Ok((MachineState { ip: start + 1, ..s }, Effect::Silent))
            } else {
                Ok((advanced(s), Effect::Silent))
            },
        }
    }
}

/// The tape and the two pointers.
#[derive(Debug)]
pub struct Machine {
    ip: usize,
    dp: usize,
    tape: Vec<u8>,
}

impl View for Machine {
    type V = MachineState;

    closed spec fn view(&self) -> MachineState {
        MachineState { ip: self.ip as int, dp: self.dp as int, tape: self.tape@ }
    }
}

impl Machine {
    /// The invariant of the type.
    pub open spec fn wf(&self) -> bool {
        valid_state(self@)
    }

    /// A machine in the initial state.
    pub fn new() -> (m: Machine)
        ensures
            m.wf(),
            m@ == initial_state(),
    {
        let tape: Vec<u8> = vec![0u8; TAPE_LEN];
        assert(tape@ =~= initial_state().tape);
        Machine { ip: 0, dp: 0, tape }
    }

    /// The index of the next opcode.
    pub fn ip(&self) -> (ip: usize)
        ensures
            ip == self@.ip,
    {
        self.ip
    }

    /// The index of the current cell.
    pub fn dp(&self) -> (dp: usize)
        ensures
            dp == self@.dp,
    {
        self.dp
    }

    /// The cells.
    pub fn tape(&self) -> (tape: &[u8])
        ensures
            tape@ == self@.tape,
    {
        self.tape.as_slice()
    }

    /// Whether the instruction pointer has left `code`.
    pub fn is_halted(&self, code: &[Opcode]) -> (b: bool)
        ensures
            b == halted(code@, self@),
    {
        self.ip >= code.len()
    }

    /// Whether the next step reads a byte.
    pub fn wants_input(&self, code: &[Opcode]) -> (b: bool)
        ensures
            b == wants_input(code@, self@),
    {
        self.ip < code.len() && matches!(code[self.ip], Opcode::Input)
    }

    /// Executes the opcode at the instruction pointer.
    ///
    /// `input` is the byte read for an `Input` opcode, `None` if the read
    /// failed or the input is at its end; for any other opcode it is not
    /// looked at. On a fault the machine is left as it was.
    pub fn step(&mut self, code: &[Opcode], input: Option<u8>) -> (r: Result<Effect, Fault>)
        requires
            old(self).wf(),
            well_formed(code@),
        ensures
            final(self).wf(),
            match r {
                Ok(effect) => step_spec(code@, old(self)@, input) == Ok::<
                    (MachineState, Effect),
                    Fault,
                >((final(self)@, effect)),
                Err(fault) => step_spec(code@, old(self)@, input) == Err::<
                    (MachineState, Effect),
                    Fault,
                >(fault) && final(self)@ == old(self)@,
            },
    {
        if self.ip >= code.len() {
            return Ok(Effect::Silent);
        }
        assert(paired_at(code@, self.ip as int));
        let mut effect: Effect = Effect::Silent;
        match code[self.ip] {
            Opcode::IncPtr => {
                if self.dp + 1 >= TAPE_LEN {
                    return Err(Fault::TapeOutOfBounds);
                }
                self.dp += 1;
            },
            Opcode::DecPtr => {
                if self.dp == 0 {
                    return Err(Fault::TapeOutOfBounds);
                }
                self.dp -= 1;
            },
            Opcode::IncVal => {
                let value: u8 = self.tape[self.dp].wrapping_add(1);
                self.tape[self.dp] = value;
            },
            Opcode::DecVal => {
                let value: u8 = self.tape[self.dp].wrapping_sub(1);
                self.tape[self.dp] = value;
            },
            Opcode::Output => {
                effect = Effect::Emit(self.tape[self.dp]);
            },
            Opcode::Input => match input {
                Some(byte) => {
                    self.tape[self.dp] = byte;
                },
                None => {
                    return Err(Fault::StdinReadError);
                },
            },
            Opcode::LoopStart(end) => {
                if self.tape[self.dp] == 0 {
                    self.ip = end;
                }
            },
            Opcode::LoopEnd(start) => {
                if self.tape[self.dp] != 0 {
                    self.ip = start;
                }
            },
        }
        self.ip += 1;
        Ok(effect)
    }
}

} // verus!
