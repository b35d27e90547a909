//! The linker: from source bytes to an opcode sequence whose loop opcodes
//! carry the index of their partner.

use crate::brackets::{
    balanced, close_unmatched, closer_of, delta, depth, lemma_closer_unique, lemma_opener_unique,
    lemma_partner_exists, matched, open_unmatched, opener_of,
};
use crate::opcode::{
    instructions, is_instruction, paired_at, well_formed, Opcode, CLOSE, COMMA, DOT, LEFT, MINUS,
    OPEN, PLUS, RIGHT,
};
use vstd::prelude::*;

verus! {

/// Why a source does not link.
#[derive(Clone, Copy, Debug, PartialEq, Eq, Structural)]
pub enum ParseError {
    /// A `]` stands where no `[` is open.
    UnmatchedCloseBracket,
    /// The source ends while a `[` is still open.
    UnmatchedOpenBracket,
}

/// The opcode that stands at index `i` of the linked form of `ins`, where
/// `ins[i]` is an instruction byte.
pub open spec fn opcode_at(ins: Seq<u8>, i: int) -> Opcode
    recommends
        0 <= i < ins.len(),
        is_instruction(ins[i]),
{
    let b = ins[i];
    if b == RIGHT {
        Opcode::IncPtr
    } else if b == LEFT {
        Opcode::DecPtr
    } else if b == PLUS {
        Opcode::IncVal
    } else if b == MINUS {
        Opcode::DecVal
    } else if b == DOT {
        Opcode::Output
    } else if b == COMMA {
        Opcode::Input
    } else if b == OPEN {
        Opcode::LoopStart(closer_of(ins, i) as usize)
    } else {
        Opcode::LoopEnd(opener_of(ins, i) as usize)
    }
}

/// The linked form of a balanced sequence of instruction bytes: one opcode
/// per byte, each bracket carrying the index of the bracket it matches.
pub open spec fn resolve(ins: Seq<u8>) -> Seq<Opcode> {
    Seq::new(ins.len(), |i: int| opcode_at(ins, i))
}

/// What parsing `src` yields. Bytes that are no instruction play no part.
/// Where one closing bracket and one opening bracket both lack a partner, the
/// error names the closing bracket.
pub open spec fn parse_result(src: Seq<u8>) -> Result<Seq<Opcode>, ParseError> {
    let ins = instructions(src);
    if close_unmatched(ins) {
        Err(ParseError::UnmatchedCloseBracket)
    } else if open_unmatched(ins) {
        Err(ParseError::UnmatchedOpenBracket)
    } else {
        Ok(resolve(ins))
    }
}

/// Whether `r` is what `parse` may return on `src`.
pub open spec fn parse_post(src: Seq<u8>, r: Result<Vec<Opcode>, ParseError>) -> bool {
    match r {
        Ok(code) => parse_result(src) == Ok::<Seq<Opcode>, ParseError>(code@),
        Err(e) => parse_result(src) == Err::<Seq<Opcode>, ParseError>(e),
    }
}

/// The instruction bytes of a prefix, one byte longer.
proof fn lemma_instructions_step(src: Seq<u8>, p: int)
    requires
        0 <= p < src.len(),
    ensures
        instructions(src.take(p + 1)) == if is_instruction(src[p]) {
            instructions(src.take(p)).push(src[p])
        } else {
            instructions(src.take(p))
        },
{
    reveal(Seq::filter);
    assert(src.take(p + 1).drop_last() =~= src.take(p));
}

/// The instruction bytes of a prefix are a prefix of the instruction bytes.
proof fn lemma_instructions_prefix(src: Seq<u8>, p: int)
    requires
        0 <= p <= src.len(),
    ensures
        instructions(src.take(p)).len() <= instructions(src).len(),
        instructions(src.take(p)) == instructions(src).take(
            instructions(src.take(p)).len() as int,
        ),
{
    let pred = |b: u8| is_instruction(b);
    Seq::filter_distributes_over_add(src.take(p), src.skip(p), pred);
    assert(src.take(p) + src.skip(p) =~= src);
    assert((src.take(p).filter(pred) + src.skip(p).filter(pred)).take(
        src.take(p).filter(pred).len() as int,
    ) =~= src.take(p).filter(pred));
}

/// The state of the linker after `n` instruction bytes: `code` holds their
/// opcodes, and `stack` the indices of the brackets that are still open,
/// innermost last.
spec fn linking(ins: Seq<u8>, n: int, code: Seq<Opcode>, stack: Seq<usize>) -> bool {
    &&& 0 <= n <= ins.len()
    &&& code.len() == n
    &&& forall|m: int| 0 <= m <= n ==> depth(ins, m) >= 0
    &&& stack.len() == depth(ins, n)
    &&& forall|k: int|
        0 <= k < stack.len() ==> {
            &&& (#[trigger] stack[k]) < n
            &&& ins[stack[k] as int] == OPEN
            &&& depth(ins, stack[k] as int) == k
        }
    &&& forall|k: int, m: int|
        #![trigger stack[k], depth(ins, m)]
        0 <= k < stack.len() && stack[k] < m <= n ==> depth(ins, m) > k
    &&& forall|i: int| 0 <= i < n ==> linked_at(ins, code, stack, i)
}

/// The opcode at `i` is the right one: a bracket that has found its partner
/// carries the partner's index, and one that has not is on the stack.
spec fn linked_at(ins: Seq<u8>, code: Seq<Opcode>, stack: Seq<usize>, i: int) -> bool {
    let b = ins[i];
    if b == OPEN {
        code[i] matches Opcode::LoopStart(end) && (matched(ins, i, end as int) || (depth(ins, i)
            < stack.len() && stack[depth(ins, i)] == i))
    } else if b == CLOSE {
        code[i] matches Opcode::LoopEnd(start) && matched(ins, start as int, i)
    } else {
        code[i] == opcode_at(ins, i)
    }
}

/// Parses `source` into a resolved opcode sequence.
///
/// Every byte that is not one of `> < + - . , [ ]` is skipped. Each `[`
/// becomes a `LoopStart` that holds the index of its `]`, and each `]` a
/// `LoopEnd` that holds the index of its `[`. A `]` with no open `[` fails
/// with `UnmatchedCloseBracket`; a `[` that is never closed fails with
/// `UnmatchedOpenBracket`.
pub fn parse(source: &[u8]) -> (r: Result<Vec<Opcode>, ParseError>)
    ensures
        parse_post(source@, r),
        r matches Ok(code) ==> well_formed(code@),
{
    let ghost ins = instructions(source@);
    let mut code: Vec<Opcode> = Vec::new();
    let mut stack: Vec<usize> = Vec::new();
    let mut p: usize = 0;
    proof {
        lemma_instructions_prefix(source@, 0);
        assert(instructions(source@.take(0)).len() == 0) by {
            reveal(Seq::filter);
        }
    }
    while p < source.len()
        invariant
            p <= source@.len(),
            ins == instructions(source@),
            linking(ins, code@.len() as int, code@, stack@),
            ins.take(code@.len() as int) == instructions(source@.take(p as int)),
        decreases source@.len() - p,
    {
        let b: u8 = source[p];
        let ghost n = code@.len() as int;
        let ghost old_code = code@;
        let ghost old_stack = stack@;
        proof {
            lemma_instructions_step(source@, p as int);
            lemma_instructions_prefix(source@, p as int + 1);
            if is_instruction(b) {
                assert(ins.take(n + 1)[n] == b);
                assert(depth(ins, n + 1) == depth(ins, n) + delta(b));
            }
        }
        if b == RIGHT {
            code.push(Opcode::IncPtr);
        } else if b == LEFT {
            code.push(Opcode::DecPtr);
        } else if b == PLUS {
            code.push(Opcode::IncVal);
        } else if b == MINUS {
            code.push(Opcode::DecVal);
        } else if b == DOT {
            code.push(Opcode::Output);
        } else if b == COMMA {
            code.push(Opcode::Input);
        } else if b == OPEN {
            stack.push(code.len());
            code.push(Opcode::LoopStart(0));
        } else if b == CLOSE {
            match stack.pop() {
                None => {
                    assert(depth(ins, n + 1) < 0);
                    return Err(ParseError::UnmatchedCloseBracket);
                },
                Some(start) => {
                    let end: usize = code.len();
                    code.set(start, Opcode::LoopStart(end));
                    code.push(Opcode::LoopEnd(start));
                    assert(old_stack[old_stack.len() - 1] == start);
                    assert(matched(ins, start as int, end as int));
                },
            }
        }
        proof {
            if is_instruction(b) {
                assert forall|i: int| 0 <= i < n + 1 implies linked_at(ins, code@, stack@, i) by {
                    if i < n {
                        assert(linked_at(ins, old_code, old_stack, i));
                    }
                }
            }
        }
        p += 1;
    }
    proof {
        assert(source@.take(p as int) =~= source@);
        assert(code@.len() == ins.len());
    }
    if stack.len() > 0 {
        return Err(ParseError::UnmatchedOpenBracket);
    }
    proof {
        assert forall|i: int| 0 <= i < ins.len() implies code@[i] == opcode_at(ins, i) by {
            assert(linked_at(ins, code@, stack@, i));
            if ins[i] == OPEN {
                lemma_closer_unique(ins, i, code@[i]->LoopStart_0 as int, closer_of(ins, i));
            } else if ins[i] == CLOSE {
                lemma_opener_unique(ins, code@[i]->LoopEnd_0 as int, opener_of(ins, i), i);
            }
        }
        assert(code@ =~= resolve(ins));
        lemma_parse_result_well_formed(source@);
    }
    Ok(code)
}

/// In the linked form of a balanced sequence every bracket and its partner
/// point at each other: a `LoopStart(end)` at `i` has a `LoopEnd(i)` at `end`,
/// and a `LoopEnd(start)` at `i` has a `LoopStart(i)` at `start`.
pub proof fn lemma_resolve_well_formed(ins: Seq<u8>)
    requires
        ins.len() <= usize::MAX,
        forall|i: int| 0 <= i < ins.len() ==> is_instruction(ins[i]),
        balanced(ins),
    ensures
        well_formed(resolve(ins)),
{
    let code = resolve(ins);
    assert forall|i: int| 0 <= i < code.len() implies paired_at(code, i) by {
        lemma_partner_exists(ins, i);
        assert(code[i] == opcode_at(ins, i));
        if ins[i] == OPEN {
            let end = closer_of(ins, i);
            lemma_partner_exists(ins, end);
            lemma_opener_unique(ins, i, opener_of(ins, end), end);
            assert(code[end] == opcode_at(ins, end));
        } else if ins[i] == CLOSE {
            let start = opener_of(ins, i);
            lemma_partner_exists(ins, start);
            lemma_closer_unique(ins, start, i, closer_of(ins, start));
            assert(code[start] == opcode_at(ins, start));
        }
    }
}

/// Whatever a source parses to is well formed.
pub proof fn lemma_parse_result_well_formed(src: Seq<u8>)
    requires
        src.len() <= usize::MAX,
    ensures
        parse_result(src) matches Ok(code) ==> well_formed(code),
{
    let pred = |b: u8| is_instruction(b);
    src.lemma_filter_len(pred);
    if parse_result(src) is Ok {
        let ins = instructions(src);
        assert forall|i: int| 0 <= i < ins.len() implies is_instruction(ins[i]) by {
            src.lemma_filter_pred(pred, i);
        }
        lemma_resolve_well_formed(ins);
    }
}

/// A byte that is no instruction leaves no trace: the source without it
/// parses to the same result.
pub proof fn lemma_non_instruction_ignored(src: Seq<u8>, i: int)
    requires
        0 <= i < src.len(),
        !is_instruction(src[i]),
    ensures
        instructions(src.remove(i)) == instructions(src),
        parse_result(src.remove(i)) == parse_result(src),
{
    let pred = |b: u8| is_instruction(b);
    let head = src.take(i);
    let tail = src.skip(i + 1);
    let one = seq![src[i]];
    assert(src.remove(i) =~= head + tail);
    assert(src =~= (head + one) + tail);
    Seq::filter_distributes_over_add(head, tail, pred);
    Seq::filter_distributes_over_add(head + one, tail, pred);
    Seq::filter_distributes_over_add(head, one, pred);
    assert(one.filter(pred) =~= Seq::<u8>::empty()) by {
        reveal_with_fuel(Seq::filter, 2);
    }
    assert(head.filter(pred) + one.filter(pred) =~= head.filter(pred));
}

/// Parsing is a function of the source: two results that `parse` may return
/// on one source agree, in the opcodes or in the error.
pub proof fn lemma_parse_deterministic(
    src: Seq<u8>,
    r1: Result<Vec<Opcode>, ParseError>,
    r2: Result<Vec<Opcode>, ParseError>,
)
    requires
        parse_post(src, r1),
        parse_post(src, r2),
    ensures
        match (r1, r2) {
            (Ok(c1), Ok(c2)) => c1@ == c2@,
            (Err(e1), Err(e2)) => e1 == e2,
            _ => false,
        },
{
}

} // verus!
