//! Single steps of number sequences, for a generator to drive: Fibonacci
//! numbers and Collatz sequences.

use vstd::prelude::*;

verus! {

/// One Fibonacci step: yields the first of the two numbers held and moves
/// on to the next pair. Their sum must fit in a `usize`.
pub fn fib_step(state: &mut (usize, usize)) -> (r: usize)
    requires
        old(state).0 + old(state).1 <= usize::MAX,
    ensures
        r == old(state).0,
        *final(state) == (old(state).1, (old(state).0 + old(state).1) as usize),
{
    let out = state.0;
    let next = state.0 + state.1;
    state.0 = state.1;
    state.1 = next;
    out
}

/// The number after `n` in a Collatz sequence: half of an even `n`, else
/// `3n + 1`, taken modulo `usize::MAX + 1` when it does not fit.
pub open spec fn collatz_next(n: usize) -> usize {
    if n % 2 == 0 {
        (n / 2) as usize
    } else {
        ((3 * n + 1) % (usize::MAX as int + 1)) as usize
    }
}

/// One Collatz step. The state `0` means the sequence is over. Otherwise
/// the number held is yielded; after `1` the sequence is over, after any
/// other number the state moves to [`collatz_next`] of it.
pub fn collatz_step(state: &mut usize) -> (r: Option<usize>)
    ensures
        *old(state) == 0 ==> r is None && *final(state) == 0,
        *old(state) == 1 ==> r == Some(1usize) && *final(state) == 0,
        *old(state) > 1 ==> r == Some(*old(state)) && *final(state) == collatz_next(*old(state)),
{
    if *state == 0 {
        return None;
    }
    let current = *state;
    if current == 1 {
        *state = 0;
        return Some(1);
    }
    let next = if current % 2 == 0 {
        current / 2
    } else {
        let wide = 3 * (current as u128) + 1;
        (wide % (usize::MAX as u128 + 1)) as usize
    };
    *state = next;
    Some(current)
}

} // verus!
