use vstd::prelude::*;

verus! {

/// What the engine refuses.
#[derive(Clone, Copy, Debug, PartialEq, Eq, Structural)]
pub enum GameError {
    /// A peg holds a color outside the palette.
    InvalidColorValue,
    /// The board cannot take this operation in its present state.
    InvalidState,
}

} // verus!
