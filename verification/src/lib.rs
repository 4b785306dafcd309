//! Turn a flat sequence of tokens into a tree of nested levels, driven by a
//! per-token classifier, and flatten such a tree back into the original
//! token order.
//!
//! The eager builder ([`IntoTreeExt::into_tree`]) folds a whole token vector
//! into one [`Tree`]; the lazy adapter ([`Treeable::tree`]) hands out one
//! top-level subtree per pull.  [`TreeDeque`] mirrors [`Tree`] with a
//! double-ended queue as the branch container.  Both are modelled by the
//! mathematical tree in [`model`], over which the round-trip, non-emptiness
//! and depth laws are stated and proved.
//!
//! The two construction styles recover differently from unbalanced
//! signals: the eager builders synthesize a wrapper level around a level
//! closed with no parent open, while the lazy adapters never synthesize —
//! an unmatched end degrades to a plain leaf, and a branch left open
//! closes implicitly when the tokens run out.

mod controller;
mod nesting_function;
pub mod model;
pub mod prelude;
pub mod tree;
pub mod tree_deque;
pub mod vec;

pub use controller::BranchControl;
pub use controller::Controller;
pub use nesting_function::Nesting;
pub use nesting_function::NestingFunction;
pub use tree::Tree;
pub use tree::adapter::TreeAdapter;
pub use tree::adapter::Treeable;
pub use tree::into_tree::IntoTreeExt;
pub use tree_deque::TreeDeque;
pub use tree_deque::TreeDequeAdapter;
pub use tree_deque::TreeDequeable;
pub use tree_deque::into_tree_deque::IntoTreeDequeExt;
pub use vec::VecTree;
