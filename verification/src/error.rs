//! The two ways in which formatting fails.

use vstd::prelude::*;

verus! {

/// Why a tree or a stream of instructions cannot be rendered. There is no
/// partial result: a failure leaves nothing behind.
#[derive(Clone, Copy, Debug, PartialEq, Eq, Structural)]
pub enum Error {
    /// The tree holds a construct that has no rendering: a node of a kind
    /// unknown to this library, or a token span that none of the shapes known
    /// for its place matches.
    Unrepresentable,
    /// The stream of instructions closes a box that it has not opened, or
    /// leaves one open.
    Unbalanced,
}

} // verus!
