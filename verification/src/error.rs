//! Error values shared by the automaton constructors and the matching
//! engine, and the `soft_assert` helper that turns a checked condition into
//! a `Result`.

use vstd::prelude::*;

verus! {

/// Raised while an explicit automaton (or a monoid table) is constructed
/// from ill-formed parts; never raised after construction has succeeded.
#[derive(Debug, Clone, Copy, PartialEq, Eq)]
pub enum ValidationError {
    /// The designated initial index does not name a state.
    InitialStateOutOfRange { initial_state: usize, size: usize },
    /// The acceptance table does not cover exactly the declared states.
    AcceptedLengthMismatch { len: usize, size: usize },
    /// The transition row for `symbol` does not give a target for every
    /// state.
    RowLengthMismatch { symbol: char, len: usize, size: usize },
    /// Two transition rows are labelled with the same symbol.
    DuplicateSymbol { symbol: char },
    /// A transition names a destination outside the state array.
    TargetOutOfRange { target: usize, size: usize },
    /// A transition is labelled with a symbol outside the declared alphabet.
    SymbolOutsideAlphabet { symbol: char },
    /// A state index handed to a mutating operation is out of range.
    StateOutOfRange { state: usize, size: usize },
    /// The edge being added is already present.
    DuplicateEdge { from: usize, to: usize },
    /// An operation table has the wrong number of rows.
    RowCountMismatch { len: usize, size: usize },
    /// A row of an operation table has the wrong number of columns.
    MatrixRowLengthMismatch { row: usize, len: usize, size: usize },
}

/// Raised while an automaton is driven over an input string; the automaton
/// itself stays valid and reusable after the failed run.
#[derive(Debug, Clone, Copy, PartialEq, Eq)]
pub enum MatchError {
    /// The input holds, at `position`, a symbol the automaton does not
    /// recognize.
    UnknownSymbol { symbol: char, position: usize },
    /// The run would need a capability (epsilon-closure) that is declared
    /// but not yet available; nothing is silently approximated.
    UnsupportedFeature,
}

/// Raised by a single `advance` step on a symbol the automaton does not
/// recognize; the driver that knows the input position turns it into a
/// [`MatchError`].
#[derive(Debug, Clone, Copy, PartialEq, Eq)]
pub struct UnknownSymbol {
    pub symbol: char,
}

/// Raised by the pattern parser, carrying the index of the first
/// character position at which the input fails to match the grammar.
#[derive(Debug, Clone, Copy, PartialEq, Eq)]
pub struct ParseError {
    pub position: usize,
}

/// Returns `Ok(())` exactly when `cond` holds, and hands `e` back otherwise.
pub fn soft_assert<E>(cond: bool, e: E) -> (r: Result<(), E>)
    ensures
        cond ==> r == Ok::<(), E>(()),
        !cond ==> r == Err::<(), E>(e),
{
    if cond {
        Ok(())
    } else {
        Err(e)
    }
}

} // verus!
