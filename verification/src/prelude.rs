//! The names most callers want in scope at once.

pub use crate::controller::BranchControl;
pub use crate::controller::Controller;
pub use crate::tree::Tree;
pub use crate::tree::adapter::Treeable;
pub use crate::tree_deque::TreeDeque;
pub use crate::tree_deque::TreeDequeable;
