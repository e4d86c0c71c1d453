//! Whether a path can still lead to a solution.

use vstd::prelude::*;

verus! {

/// How a path stands: `Solvable` when no identity occurs twice on it,
/// `Conflict` when one does.
#[derive(Clone, Copy, Debug, PartialEq, Eq, Structural)]
pub enum Solvability {
    Solvable,
    Conflict,
}

} // verus!
