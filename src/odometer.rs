//! The mathematical model of the enumeration: alphabets, values stored
//! least-significant symbol first, and the increment-with-growth step.

use vstd::prelude::*;

verus! {

/// An alphabet is usable when it is non-empty and strictly ascending by code point
/// (so it holds no duplicate).
pub open spec fn alphabet_wf(alpha: Seq<char>) -> bool {
    &&& alpha.len() >= 1
    &&& strictly_ascending(alpha)
}

pub open spec fn strictly_ascending(alpha: Seq<char>) -> bool {
    forall|i: int, j: int|
        0 <= i < j < alpha.len() ==> (#[trigger] alpha[i] as u32) < (#[trigger] alpha[j] as u32)
}

/// Every symbol of `v` belongs to the alphabet.
pub open spec fn value_over(alpha: Seq<char>, v: Seq<char>) -> bool {
    forall|i: int| 0 <= i < v.len() ==> alpha.contains(#[trigger] v[i])
}

/// The symbol that follows `c` in the alphabet, if `c` occurs there and is not the last one.
pub open spec fn successor_symbol(alpha: Seq<char>, c: char) -> Option<char>
    decreases alpha.len(),
{
    if alpha.len() < 2 {
        None
    } else if alpha[0] == c {
        Some(alpha[1])
    } else {
        successor_symbol(alpha.drop_first(), c)
    }
}

/// The odometer step on a value stored least-significant symbol first: the lowest
/// symbol with a successor is replaced by it, every symbol below it wraps to the first
/// symbol, and when every symbol wraps a new most-significant first symbol is added.
pub open spec fn increment(alpha: Seq<char>, v: Seq<char>) -> Seq<char>
    decreases v.len(),
{
    if v.len() == 0 {
        seq![alpha[0]]
    } else {
        match successor_symbol(alpha, v[0]) {
            Some(n) => v.update(0, n),
            None => seq![alpha[0]] + increment(alpha, v.drop_first()),
        }
    }
}

/// The value in the opposite symbol order: turns the stored least-significant-first form
/// into the visible most-significant-first form, and back.
pub open spec fn reversed(v: Seq<char>) -> Seq<char> {
    Seq::new(v.len(), |i: int| v[v.len() - 1 - i])
}

/// The state after one advance: exhausted once the terminal value has been passed.
pub open spec fn advanced(alpha: Seq<char>, terminal: Seq<char>, current: Option<Seq<char>>) -> Option<Seq<char>> {
    match current {
        None => None,
        Some(v) => if v == terminal {
            None
        } else {
            Some(increment(alpha, v))
        },
    }
}

/// The position of `c` in the alphabet (the alphabet's length when absent).
pub open spec fn rank(alpha: Seq<char>, c: char) -> int
    decreases alpha.len(),
{
    if alpha.len() == 0 {
        0
    } else if alpha[0] == c {
        0
    } else {
        1 + rank(alpha.drop_first(), c)
    }
}

/// The place of a value on the number line of the enumeration: values are numbered in
/// bijective base `alpha.len()`, the empty value at 0, then every one-symbol value, then
/// every two-symbol value, each length in ascending order.
pub open spec fn position(alpha: Seq<char>, v: Seq<char>) -> int
    decreases v.len(),
{
    if v.len() == 0 {
        0
    } else {
        1 + rank(alpha, v[0]) + alpha.len() * position(alpha, v.drop_first())
    }
}

/// The value reached from `v` by `k` increments.
pub open spec fn iterate(alpha: Seq<char>, v: Seq<char>, k: nat) -> Seq<char>
    decreases k,
{
    if k == 0 {
        v
    } else {
        increment(alpha, iterate(alpha, v, (k - 1) as nat))
    }
}

} // verus!
