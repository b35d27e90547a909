//! The eight instructions: their source bytes, their opcodes, and the pairing
//! invariant of a resolved opcode sequence.

use vstd::prelude::*;

verus! {

/// The byte `>`.
pub const RIGHT: u8 = 0x3e;

/// The byte `<`.
pub const LEFT: u8 = 0x3c;

/// The byte `+`.
pub const PLUS: u8 = 0x2b;

/// The byte `-`.
pub const MINUS: u8 = 0x2d;

/// The byte `.`.
pub const DOT: u8 = 0x2e;

/// The byte `,`.
pub const COMMA: u8 = 0x2c;

/// The byte `[`.
pub const OPEN: u8 = 0x5b;

/// The byte `]`.
pub const CLOSE: u8 = 0x5d;

/// Whether `b` is one of the eight instruction characters `> < + - . , [ ]`.
pub open spec fn is_instruction(b: u8) -> bool {
    b == RIGHT || b == LEFT || b == PLUS || b == MINUS || b == DOT || b == COMMA || b == OPEN
        || b == CLOSE
}

/// The instruction bytes of `src`, in order: every other byte is dropped.
pub open spec fn instructions(src: Seq<u8>) -> Seq<u8> {
    src.filter(|b: u8| is_instruction(b))
}

/// One instruction of a resolved program.
///
/// The two loop opcodes carry the index of their partner in the sequence
/// that holds them.
#[derive(Clone, Copy, Debug, PartialEq, Eq, Structural)]
pub enum Opcode {
    /// Move the data pointer one cell to the right.
    IncPtr,
    /// Move the data pointer one cell to the left.
    DecPtr,
    /// Add one to the current cell, modulo 256.
    IncVal,
    /// Subtract one from the current cell, modulo 256.
    DecVal,
    /// Emit the current cell as one byte.
    Output,
    /// Read one byte into the current cell.
    Input,
    /// If the current cell is zero, jump to the matching `LoopEnd`, whose
    /// index this holds.
    LoopStart(usize),
    /// If the current cell is not zero, jump to the matching `LoopStart`,
    /// whose index this holds.
    LoopEnd(usize),
}

/// Whether the opcode at index `i` of `code` is consistent with its partner:
/// a `LoopStart(end)` points forward at a `LoopEnd` that points back at `i`,
/// a `LoopEnd(start)` points backward at a `LoopStart` that points forward at
/// `i`, and any other opcode is consistent by itself.
pub open spec fn paired_at(code: Seq<Opcode>, i: int) -> bool {
    match code[i] {
        Opcode::LoopStart(end) => i < end < code.len() && code[end as int] == Opcode::LoopEnd(
            i as usize,
        ),
        Opcode::LoopEnd(start) => 0 <= start < i && code[start as int] == Opcode::LoopStart(
            i as usize,
        ),
        _ => true,
    }
}

/// A sequence is well formed when bracket pairing is exact and mutual at
/// every index.
pub open spec fn well_formed(code: Seq<Opcode>) -> bool {
    forall|i: int| 0 <= i < code.len() ==> paired_at(code, i)
}

/// Decides whether `code` is well formed.
pub fn is_well_formed(code: &[Opcode]) -> (ok: bool)
    ensures
        ok == well_formed(code@),
{
    let n: usize = code.len();
    let mut i: usize = 0;
    while i < n
        invariant
            n == code@.len(),
            i <= n,
            forall|k: int| 0 <= k < i ==> paired_at(code@, k),
        decreases n - i,
    {
        let paired: bool = match code[i] {
            Opcode::LoopStart(end) => i < end && end < n && match code[end] {
                Opcode::LoopEnd(start) => start == i,
                _ => false,
            },
            Opcode::LoopEnd(start) => start < i && match code[start] {
                Opcode::LoopStart(end) => end == i,
                _ => false,
            },
            _ => true,
        };
        if !paired {
            assert(!paired_at(code@, i as int));
            return false;
        }
        i += 1;
    }
    true
}

} // verus!
