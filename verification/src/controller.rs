use vstd::prelude::*;

verus! {

/// Per-token directive that drives the lazy branch adapters.
///
/// - [`BranchControl::Start`] begins a new branch; the current token becomes
///   its first member.
/// - [`BranchControl::Continue`] appends the current token to the current
///   branch.
/// - [`BranchControl::End`] appends the current token, then closes the
///   current branch.  An `End` seen at top level degrades to a plain leaf,
///   and a branch left open when the input runs out closes implicitly;
///   neither is an error.
#[derive(Clone, Copy, Debug)]
pub enum BranchControl {
    /// Begin a new branch with the current token as its first member.
    Start,
    /// Append the current token to the current branch.
    Continue,
    /// Append the current token, then close the current branch.
    End,
}

/// A classifier for the lazy adapters: called once per token, in input
/// order, with a reference to the token about to be consumed.  An
/// implementation may keep internal state and mutate it once per call.
pub trait Controller<T> {
    /// Decide how the branch structure changes at `item`.
    fn control_branch(&mut self, item: &T) -> BranchControl;
}

} // verus!
