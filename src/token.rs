use vstd::prelude::*;

verus! {

/// One structural unit of the encoding. Integers and byte strings are given as
/// the span `[start, end)` of their raw bytes in the input.
#[derive(Clone, Copy, PartialEq, Eq, Structural, Debug)]
pub enum Token {
    List,
    Dict,
    String(usize, usize),
    Num(usize, usize),
    End,
}

} // verus!
