use vstd::prelude::*;

verus! {

/// Everything that can go wrong in the index.
#[derive(Clone, Copy, Debug, PartialEq, Eq, Structural)]
pub enum Error {
    /// Bad builder parameters: empty path, a branching parameter of zero,
    /// or one that is too large for the page size.
    ConfigError,
    /// A page was requested at an offset the backing store does not hold,
    /// or a file image ends within a page.
    IoError,
    /// A page does not decode to a node.
    CorruptPage,
    /// The key is not in the tree.
    KeyNotFound,
    /// The key is already in the tree.
    DuplicateKey,
    /// A node breaks a structural rule of the tree, or the tree is what is
    /// left of one that an operation was broken off in.
    TreeInvariantViolation,
    /// An access past the end of a page, or a node with too many cells for one page.
    PageOverflow,
    /// A key longer than a key cell can hold.
    KeyOverflow,
    /// A value longer than a value cell can hold.
    ValueOverflow,
}

} // verus!
