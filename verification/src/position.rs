use vstd::prelude::*;

verus! {

/// A caret address into the buffer: `x` is the column, a character index
/// into one line's text; `y` is the row, an index into the line sequence.
#[derive(Clone, Copy, Debug, PartialEq, Eq, Structural)]
pub struct Position {
    pub x: usize,
    pub y: usize,
}

} // verus!
