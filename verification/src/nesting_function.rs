use vstd::prelude::*;

verus! {

/// Per-token directive that drives the eager tree builders.
///
/// - [`Nesting::Increase`] starts a new child level; the current token
///   becomes the first member of that new level.
/// - [`Nesting::Maintain`] keeps the current token in the current level.
/// - [`Nesting::Decrease`] appends the current token to the current level,
///   then closes the level and returns to its parent.  If there is no
///   parent, a fresh parent level is synthesized to hold the closed level;
///   this is a recovery policy, not an error.
#[derive(Clone, Copy, Debug)]
pub enum Nesting {
    /// Start nesting the following items into a new child level.
    Increase,
    /// Keep the item in the same level as the previous ones.
    Maintain,
    /// Append the item, then return to the parent level.  With no parent, a
    /// new parent level is created around the closed one.
    Decrease,
}

/// A classifier for the eager builders: called once per token, in input
/// order, with a reference to the token about to be consumed.  An
/// implementation may keep internal state (for example a bracket stack) and
/// mutate it once per call.
pub trait NestingFunction<T> {
    /// Decide how the tree nesting changes at `item`.
    fn direction(&mut self, item: &T) -> Nesting;
}

} // verus!
