//! The dispatch loop: runs a resolved program on a machine, reading from a
//! buffer of input bytes and collecting the output, for a bounded number of
//! steps.

use crate::machine::{
    halted, initial_state, step_spec, valid_state, wants_input, Effect, Fault, Machine,
    MachineState, TAPE_LEN,
};
use crate::opcode::{well_formed, Opcode};
use vstd::prelude::*;

verus! {

/// How a bounded run ended.
#[derive(Clone, Copy, Debug, PartialEq, Eq, Structural)]
pub enum Status {
    /// The instruction pointer reached the end of the program.
    Halted,
    /// A fault aborted the run.
    Faulted(Fault),
    /// The step limit was reached before the program halted.
    StepLimit,
}

/// What a bounded run did.
#[derive(Debug, PartialEq, Eq)]
pub struct Execution {
    /// How the run ended.
    pub status: Status,
    /// The bytes written, in order.
    pub output: Vec<u8>,
    /// How many bytes of the input were read.
    pub consumed: usize,
}

/// A machine together with its place in the input and the output so far.
pub struct Config {
    /// The machine.
    pub machine: MachineState,
    /// How many input bytes have been read.
    pub consumed: int,
    /// The bytes written so far.
    pub output: Seq<u8>,
}

/// The configuration in which a run of a whole program begins.
pub open spec fn initial_config() -> Config {
    starting_from(initial_state())
}

/// The configuration of a machine that has not read or written yet.
pub open spec fn starting_from(machine: MachineState) -> Config {
    Config { machine, consumed: 0, output: Seq::empty() }
}

/// The byte that the next step reads from `input`: the first unread one, if
/// the next opcode is `Input` and a byte is left.
pub open spec fn next_byte(code: Seq<Opcode>, input: Seq<u8>, c: Config) -> Option<u8> {
    if wants_input(code, c.machine) && 0 <= c.consumed < input.len() {
        Some(input[c.consumed])
    } else {
        None
    }
}

/// One step of a configuration: the machine steps, an `Input` opcode takes
/// the next unread byte, and what is emitted joins the output.
pub open spec fn advance(code: Seq<Opcode>, input: Seq<u8>, c: Config) -> Result<Config, Fault> {
    match step_spec(code, c.machine, next_byte(code, input, c)) {
        Err(fault) => Err(fault),
        Ok((machine, effect)) => Ok(
            Config {
                machine,
                consumed: if wants_input(code, c.machine) {
                    c.consumed + 1
                } else {
                    c.consumed
                },
                output: match effect {
                    Effect::Silent => c.output,
                    Effect::Emit(byte) => c.output.push(byte),
                },
            },
        ),
    }
}

/// Runs `code` from `c` for at most `fuel` steps: how the run ends, and the
/// configuration in which it ends. A run that faults ends in the
/// configuration before the faulting step.
pub open spec fn run_spec(code: Seq<Opcode>, input: Seq<u8>, c: Config, fuel: nat) -> (
    Status,
    Config,
)
    decreases fuel,
{
    if halted(code, c.machine) {
        (Status::Halted, c)
    } else if fuel == 0 {
        (Status::StepLimit, c)
    } else {
        match advance(code, input, c) {
            Err(fault) => (Status::Faulted(fault), c),
            Ok(next) => run_spec(code, input, next, (fuel - 1) as nat),
        }
    }
}

impl Machine {
    /// Runs `code` on this machine until it halts, faults, or has taken
    /// `step_limit` steps. `Input` opcodes read `input` from its start; one
    /// that finds no byte left faults with `StdinReadError`.
    pub fn run(&mut self, code: &[Opcode], input: &[u8], step_limit: usize) -> (e: Execution)
        requires
            old(self).wf(),
            well_formed(code@),
        ensures
            final(self).wf(),
            ({
                let (status, end) = run_spec(
                    code@,
                    input@,
                    starting_from(old(self)@),
                    step_limit as nat,
                );
                &&& e.status == status
                &&& final(self)@ == end.machine
                &&& e.output@ == end.output
                &&& e.consumed == end.consumed
            }),
    {
        let mut output: Vec<u8> = Vec::new();
        let mut consumed: usize = 0;
        let mut remaining: usize = step_limit;
        let ghost start = starting_from(self@);
        loop
            invariant
                self.wf(),
                well_formed(code@),
                start == starting_from(old(self)@),
                consumed <= input@.len(),
                run_spec(code@, input@, start, step_limit as nat) == run_spec(
                    code@,
                    input@,
                    Config { machine: self@, consumed: consumed as int, output: output@ },
                    remaining as nat,
                ),
            decreases remaining,
        {
            if self.is_halted(code) {
                return Execution { status: Status::Halted, output, consumed };
            }
            if remaining == 0 {
                return Execution { status: Status::StepLimit, output, consumed };
            }
            let reads: bool = self.wants_input(code);
            let byte: Option<u8> = if reads && consumed < input.len() {
                Some(input[consumed])
            } else {
                None
            };
            match self.step(code, byte) {
                Err(fault) => {
                    return Execution { status: Status::Faulted(fault), output, consumed };
                },
                Ok(Effect::Silent) => {},
                Ok(Effect::Emit(b)) => {
                    output.push(b);
                },
            }
            if reads {
                consumed += 1;
            }
            remaining -= 1;
        }
    }
}

/// Executes `code` on a fresh machine, all cells zero and both pointers at
/// zero, for at most `step_limit` steps, reading from `input`.
pub fn interpret(code: &[Opcode], input: &[u8], step_limit: usize) -> (e: Execution)
    requires
        well_formed(code@),
    ensures
        ({
            let (status, end) = run_spec(code@, input@, initial_config(), step_limit as nat);
            &&& e.status == status
            &&& e.output@ == end.output
            &&& e.consumed == end.consumed
        }),
{
    let mut machine: Machine = Machine::new();
    machine.run(code, input, step_limit)
}

/// The empty program halts at once: whatever the input and the step limit,
/// nothing is read, written or changed.
pub proof fn lemma_empty_program_halts(input: Seq<u8>, c: Config, fuel: nat)
    ensures
        run_spec(Seq::<Opcode>::empty(), input, c, fuel) == (Status::Halted, c),
{
}

/// A loop met on a zero cell is skipped: one step takes the run past the
/// matching `LoopEnd` and changes nothing else.
pub proof fn lemma_loop_on_zero_cell_is_skipped(
    code: Seq<Opcode>,
    input: Seq<u8>,
    c: Config,
    fuel: nat,
    end: usize,
)
    requires
        !halted(code, c.machine),
        code[c.machine.ip] == Opcode::LoopStart(end),
        c.machine.tape[c.machine.dp] == 0,
        fuel > 0,
    ensures
        run_spec(code, input, c, fuel) == run_spec(
            code,
            input,
            Config { machine: MachineState { ip: end + 1, ..c.machine }, ..c },
            (fuel - 1) as nat,
        ),
{
}

/// A loop with an empty body, met on a cell that is not zero, never ends:
/// under every step limit the run is cut short, with the tape, the data
/// pointer, the input and the output as they were. `start` is the index of
/// the `LoopStart`; the machine stands on it or on its `LoopEnd`.
pub proof fn lemma_empty_loop_on_nonzero_cell_spins(
    code: Seq<Opcode>,
    input: Seq<u8>,
    c: Config,
    fuel: nat,
    start: usize,
)
    requires
        start + 1 < code.len(),
        code[start as int] == Opcode::LoopStart((start + 1) as usize),
        code[start + 1] == Opcode::LoopEnd(start),
        c.machine.ip == start || c.machine.ip == start + 1,
        c.machine.tape[c.machine.dp] != 0,
    ensures
        ({
            let (status, end) = run_spec(code, input, c, fuel);
            &&& status == Status::StepLimit
            &&& end.machine.tape == c.machine.tape
            &&& end.machine.dp == c.machine.dp
            &&& end.consumed == c.consumed
            &&& end.output == c.output
        }),
    decreases fuel,
{
    if fuel > 0 {
        let next = advance(code, input, c)->Ok_0;
        lemma_empty_loop_on_nonzero_cell_spins(code, input, next, (fuel - 1) as nat, start);
    }
}

/// How often `op` stands in `code` at index `from` or later.
pub open spec fn occurrences(code: Seq<Opcode>, op: Opcode, from: int) -> int
    decreases code.len() - from,
{
    if from < 0 || from >= code.len() {
        0
    } else if code[from] == op {
        1 + occurrences(code, op, from + 1)
    } else {
        occurrences(code, op, from + 1)
    }
}

/// A stretch of `IncVal` and `DecVal` changes the current cell alone, by the
/// number of increments minus the number of decrements, modulo 256: with
/// enough steps to reach the end, a run over such a stretch halts there, the
/// cell holds its old value plus the difference, reduced modulo 256, and
/// nothing is read or written.
pub proof fn lemma_increments_and_decrements(
    code: Seq<Opcode>,
    input: Seq<u8>,
    c: Config,
    fuel: nat,
)
    requires
        valid_state(c.machine),
        c.machine.ip <= code.len(),
        forall|i: int|
            c.machine.ip <= i < code.len() ==> code[i] == Opcode::IncVal || code[i]
                == Opcode::DecVal,
        fuel >= code.len() - c.machine.ip,
    ensures
        ({
            let (status, end) = run_spec(code, input, c, fuel);
            let n = occurrences(code, Opcode::IncVal, c.machine.ip);
            let m = occurrences(code, Opcode::DecVal, c.machine.ip);
            let cell = c.machine.tape[c.machine.dp];
            &&& status == Status::Halted
            &&& end.machine.ip == code.len()
            &&& end.machine.dp == c.machine.dp
            &&& end.machine.tape == c.machine.tape.update(
                c.machine.dp,
                ((cell + n - m) % 256) as u8,
            )
            &&& end.consumed == c.consumed
            &&& end.output == c.output
        }),
    decreases code.len() - c.machine.ip,
{
    let s = c.machine;
    let cell = s.tape[s.dp];
    if s.ip == code.len() {
        assert(s.tape.update(s.dp, cell) =~= s.tape);
    } else {
        let next = advance(code, input, c)->Ok_0;
        lemma_increments_and_decrements(code, input, next, (fuel - 1) as nat);
        let n = occurrences(code, Opcode::IncVal, s.ip + 1);
        let m = occurrences(code, Opcode::DecVal, s.ip + 1);
        let stepped = next.machine.tape[s.dp];
        assert(next.machine.tape.update(s.dp, ((stepped + n - m) % 256) as u8) =~= s.tape.update(
            s.dp,
            ((stepped + n - m) % 256) as u8,
        ));
        if code[s.ip] == Opcode::IncVal {
            assert((stepped + n - m) % 256 == (cell + (n + 1) - m) % 256);
        } else {
            assert((stepped + n - m) % 256 == (cell + n - (m + 1)) % 256);
        }
    }
}

/// On a fresh machine, a program of increments and decrements alone, in any
/// order, halts with the number of increments minus the number of decrements,
/// modulo 256, in the first cell, and with every other cell still zero.
pub proof fn lemma_fresh_cell_counts(code: Seq<Opcode>, input: Seq<u8>, fuel: nat)
    requires
        forall|i: int|
            0 <= i < code.len() ==> code[i] == Opcode::IncVal || code[i] == Opcode::DecVal,
        fuel >= code.len(),
    ensures
        ({
            let (status, end) = run_spec(code, input, initial_config(), fuel);
            let n = occurrences(code, Opcode::IncVal, 0);
            let m = occurrences(code, Opcode::DecVal, 0);
            &&& status == Status::Halted
            &&& end.machine.tape[0] == (n - m) % 256
            &&& forall|i: int| 1 <= i < TAPE_LEN ==> end.machine.tape[i] == 0
            &&& end.output == Seq::<u8>::empty()
        }),
{
    lemma_increments_and_decrements(code, input, initial_config(), fuel);
}

/// A program without `Output` writes nothing, however its run ends.
pub proof fn lemma_no_output_opcode_no_output(
    code: Seq<Opcode>,
    input: Seq<u8>,
    c: Config,
    fuel: nat,
)
    requires
        forall|i: int| 0 <= i < code.len() ==> code[i] != Opcode::Output,
    ensures
        run_spec(code, input, c, fuel).1.output == c.output,
    decreases fuel,
{
    if !halted(code, c.machine) && fuel > 0 {
        if let Ok(next) = advance(code, input, c) {
            lemma_no_output_opcode_no_output(code, input, next, (fuel - 1) as nat);
        }
    }
}

/// A program without `Input` reads nothing, however its run ends.
pub proof fn lemma_no_input_opcode_no_read(
    code: Seq<Opcode>,
    input: Seq<u8>,
    c: Config,
    fuel: nat,
)
    requires
        forall|i: int| 0 <= i < code.len() ==> code[i] != Opcode::Input,
    ensures
        run_spec(code, input, c, fuel).1.consumed == c.consumed,
    decreases fuel,
{
    if !halted(code, c.machine) && fuel > 0 {
        if let Ok(next) = advance(code, input, c) {
            lemma_no_input_opcode_no_read(code, input, next, (fuel - 1) as nat);
        }
    }
}

/// The status tells whether the program came to its end: a run ends as
/// `Halted` exactly when the machine it leaves behind is halted.
pub proof fn lemma_status_tells_halting(code: Seq<Opcode>, input: Seq<u8>, c: Config, fuel: nat)
    ensures
        run_spec(code, input, c, fuel).0 == Status::Halted <==> halted(
            code,
            run_spec(code, input, c, fuel).1.machine,
        ),
    decreases fuel,
{
    if !halted(code, c.machine) && fuel > 0 {
        if let Ok(next) = advance(code, input, c) {
            lemma_status_tells_halting(code, input, next, (fuel - 1) as nat);
        }
    }
}

/// A run that halts or faults within `fuel` steps ends the same way under
/// any higher limit: only a run that is cut short depends on the limit.
pub proof fn lemma_limit_only_cuts_short(
    code: Seq<Opcode>,
    input: Seq<u8>,
    c: Config,
    fuel: nat,
    more: nat,
)
    requires
        fuel <= more,
        run_spec(code, input, c, fuel).0 != Status::StepLimit,
    ensures
        run_spec(code, input, c, more) == run_spec(code, input, c, fuel),
    decreases fuel,
{
    if !halted(code, c.machine) && fuel > 0 {
        if let Ok(next) = advance(code, input, c) {
            lemma_limit_only_cuts_short(code, input, next, (fuel - 1) as nat, (more - 1) as nat);
        }
    }
}

} // verus!
