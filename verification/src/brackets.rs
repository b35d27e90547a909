//! Bracket nesting over a sequence of instruction bytes: the depth after each
//! prefix, the matching relation between an opening and a closing bracket,
//! and the proofs that every bracket of a balanced sequence has exactly one
//! partner.

use crate::opcode::{CLOSE, OPEN};
use vstd::prelude::*;

verus! {

/// What a byte adds to the nesting depth.
pub open spec fn delta(b: u8) -> int {
    if b == OPEN {
        1
    } else if b == CLOSE {
        -1
    } else {
        0
    }
}

/// The nesting depth after the first `n` bytes of `ins`: opening brackets
/// minus closing brackets among them.
pub open spec fn depth(ins: Seq<u8>, n: int) -> int
    decreases n,
{
    if n <= 0 {
        0
    } else {
        depth(ins, n - 1) + delta(ins[n - 1])
    }
}

/// Some closing bracket has no opening bracket before it to match: the depth
/// falls below zero after some prefix.
pub open spec fn close_unmatched(ins: Seq<u8>) -> bool {
    exists|n: int| 0 <= n <= ins.len() && depth(ins, n) < 0
}

/// Some opening bracket is still open at the end.
pub open spec fn open_unmatched(ins: Seq<u8>) -> bool {
    depth(ins, ins.len() as int) > 0
}

/// Every bracket has a partner.
pub open spec fn balanced(ins: Seq<u8>) -> bool {
    !close_unmatched(ins) && !open_unmatched(ins)
}

/// The bracket at `open` and the bracket at `close` match each other: the
/// depth returns to its value before `open` right after `close`, and never
/// earlier.
pub open spec fn matched(ins: Seq<u8>, open: int, close: int) -> bool {
    &&& 0 <= open < close < ins.len()
    &&& ins[open] == OPEN
    &&& ins[close] == CLOSE
    &&& depth(ins, close + 1) == depth(ins, open)
    &&& forall|k: int| open < k <= close ==> depth(ins, k) > depth(ins, open)
}

/// The index of the closing bracket that matches the opening bracket at
/// `open`.
pub open spec fn closer_of(ins: Seq<u8>, open: int) -> int {
    choose|close: int| matched(ins, open, close)
}

/// The index of the opening bracket that matches the closing bracket at
/// `close`.
pub open spec fn opener_of(ins: Seq<u8>, close: int) -> int {
    choose|open: int| matched(ins, open, close)
}

/// An opening bracket has at most one matching closing bracket.
pub proof fn lemma_closer_unique(ins: Seq<u8>, open: int, c1: int, c2: int)
    requires
        matched(ins, open, c1),
        matched(ins, open, c2),
    ensures
        c1 == c2,
{
    if c1 < c2 {
        assert(depth(ins, c1 + 1) > depth(ins, open));
    } else if c2 < c1 {
        assert(depth(ins, c2 + 1) > depth(ins, open));
    }
}

/// A closing bracket has at most one matching opening bracket.
pub proof fn lemma_opener_unique(ins: Seq<u8>, o1: int, o2: int, close: int)
    requires
        matched(ins, o1, close),
        matched(ins, o2, close),
    ensures
        o1 == o2,
{
    if o1 < o2 {
        assert(depth(ins, o2) > depth(ins, o1));
    } else if o2 < o1 {
        assert(depth(ins, o1) > depth(ins, o2));
    }
}

/// Walks right from `from` to the closing bracket that matches `open`. The
/// depth has stayed above its value before `open` up to `from`, and is back
/// at or below it at the end, so the walk arrives.
proof fn lemma_closer_search(ins: Seq<u8>, open: int, from: int)
    requires
        0 <= open < from <= ins.len(),
        ins[open] == OPEN,
        depth(ins, ins.len() as int) <= depth(ins, open),
        forall|k: int| open < k <= from ==> depth(ins, k) > depth(ins, open),
    ensures
        exists|close: int| matched(ins, open, close),
    decreases ins.len() - from,
{
    assert(depth(ins, from) > depth(ins, open));
    assert(depth(ins, from + 1) == depth(ins, from) + delta(ins[from]));
    if depth(ins, from + 1) == depth(ins, open) {
        assert(matched(ins, open, from));
    } else {
        lemma_closer_search(ins, open, from + 1);
    }
}

/// Walks left from `from` to the opening bracket that matches `close`. The
/// depth has stayed above its value after `close` back to `from`, and is zero
/// at the start, so the walk arrives.
proof fn lemma_opener_search(ins: Seq<u8>, close: int, from: int)
    requires
        0 <= from <= close < ins.len(),
        ins[close] == CLOSE,
        depth(ins, close + 1) >= 0,
        forall|k: int| from <= k <= close ==> #[trigger] depth(ins, k) > depth(ins, close + 1),
    ensures
        exists|open: int| matched(ins, open, close),
    decreases from,
{
    assert(depth(ins, from) > depth(ins, close + 1));
    assert(depth(ins, 0) == 0);
    assert(depth(ins, from) == depth(ins, from - 1) + delta(ins[from - 1]));
    if depth(ins, from - 1) == depth(ins, close + 1) {
        assert(matched(ins, from - 1, close));
    } else {
        lemma_opener_search(ins, close, from - 1);
    }
}

/// In a balanced sequence every bracket has its partner.
pub proof fn lemma_partner_exists(ins: Seq<u8>, i: int)
    requires
        0 <= i < ins.len(),
        balanced(ins),
    ensures
        ins[i] == OPEN ==> matched(ins, i, closer_of(ins, i)),
        ins[i] == CLOSE ==> matched(ins, opener_of(ins, i), i),
{
    assert(depth(ins, ins.len() as int) >= 0);
    assert(depth(ins, i) >= 0);
    assert(depth(ins, i + 1) >= 0);
    assert(depth(ins, i + 1) == depth(ins, i) + delta(ins[i]));
    if ins[i] == OPEN {
        lemma_closer_search(ins, i, i + 1);
    } else if ins[i] == CLOSE {
        lemma_opener_search(ins, i, i);
    }
}

} // verus!
