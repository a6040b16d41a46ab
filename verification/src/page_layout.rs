//! The byte layout of a page.
//!
//! A node page starts with a header shared by both kinds of node: the root
//! flag, the kind tag, the parent offset and the number of cells. The cells
//! follow, one after the other. A leaf cell holds a key and a value; an
//! internal cell holds a child offset and the separator key to its right
//! (the last cell holds a child offset only). A key or a value is stored as
//! one length byte followed by its bytes, padded with zeros to the cell width.
use vstd::prelude::*;

verus! {

/// The size of a page in bytes. Each page holds one node.
pub const PAGE_SIZE: usize = 4096;

/// The width of an offset or a count on a page.
pub const PTR_SIZE: usize = 8;

/// Where the root flag stands (one byte: 0 or 1).
pub const IS_ROOT_OFFSET: usize = 0;

/// The width of the root flag.
pub const IS_ROOT_SIZE: usize = 1;

/// Where the kind tag stands (one byte: 0 for an internal node, 1 for a leaf).
pub const NODE_TYPE_OFFSET: usize = 1;

/// The width of the kind tag.
pub const NODE_TYPE_SIZE: usize = 1;

/// Where the parent offset stands; zero means that there is none.
pub const PARENT_POINTER_OFFSET: usize = 2;

/// The width of the parent offset.
pub const PARENT_POINTER_SIZE: usize = 8;

/// The width of what the headers of both kinds of node share.
pub const COMMON_NODE_HEADER_SIZE: usize = 10;

/// Where a leaf keeps the number of its pairs.
pub const LEAF_NODE_NUM_PAIRS_OFFSET: usize = 10;

/// The width of a leaf's number of pairs.
pub const LEAF_NODE_NUM_PAIRS_SIZE: usize = 8;

/// The width of a leaf's header; the cells follow it.
pub const LEAF_NODE_HEADER_SIZE: usize = 18;

/// Where an internal node keeps the number of its children.
pub const INTERNAL_NODE_NUM_CHILDREN_OFFSET: usize = 10;

/// The width of an internal node's number of children.
pub const INTERNAL_NODE_NUM_CHILDREN_SIZE: usize = 8;

/// The width of an internal node's header; the cells follow it.
pub const INTERNAL_NODE_HEADER_SIZE: usize = 18;

/// The width of a key cell: one length byte and the key's bytes.
pub const KEY_SIZE: usize = 10;

/// The width of a value cell: one length byte and the value's bytes.
pub const VALUE_SIZE: usize = 10;

/// The longest key that a key cell holds.
pub const MAX_KEY_LEN: usize = 9;

/// The longest value that a value cell holds.
pub const MAX_VALUE_LEN: usize = 9;

/// The width of a leaf cell: a key and its value.
pub const LEAF_CELL_SIZE: usize = 20;

/// The width of an internal cell: a child offset and a separator key.
pub const INTERNAL_CELL_SIZE: usize = 18;

/// The number of pairs that fit in a leaf page.
pub const LEAF_NODE_MAX_PAIRS: usize = 203;

/// The number of children that fit in an internal page.
pub const INTERNAL_NODE_MAX_CHILDREN: usize = 226;

/// Where the superblock keeps the offset of the root.
pub const SUPERBLOCK_ROOT_OFFSET: usize = 0;

/// Where the superblock keeps the branching parameter.
pub const SUPERBLOCK_B_OFFSET: usize = 8;

/// How the sizes follow from one another: the headers are the sums of their
/// fields, a cell is the sum of its parts, and the capacities are what is
/// left of a page after the header, divided by the cell size.
pub proof fn lemma_layout_consistent()
    ensures
        PARENT_POINTER_SIZE == PTR_SIZE,
        COMMON_NODE_HEADER_SIZE == IS_ROOT_SIZE + NODE_TYPE_SIZE + PARENT_POINTER_SIZE,
        LEAF_NODE_NUM_PAIRS_OFFSET == COMMON_NODE_HEADER_SIZE,
        LEAF_NODE_HEADER_SIZE == COMMON_NODE_HEADER_SIZE + LEAF_NODE_NUM_PAIRS_SIZE,
        INTERNAL_NODE_NUM_CHILDREN_OFFSET == COMMON_NODE_HEADER_SIZE,
        INTERNAL_NODE_HEADER_SIZE == COMMON_NODE_HEADER_SIZE + INTERNAL_NODE_NUM_CHILDREN_SIZE,
        MAX_KEY_LEN == KEY_SIZE - 1,
        MAX_VALUE_LEN == VALUE_SIZE - 1,
        LEAF_CELL_SIZE == KEY_SIZE + VALUE_SIZE,
        INTERNAL_CELL_SIZE == PTR_SIZE + KEY_SIZE,
        LEAF_NODE_MAX_PAIRS == (PAGE_SIZE - LEAF_NODE_HEADER_SIZE) / (LEAF_CELL_SIZE as int),
        INTERNAL_NODE_MAX_CHILDREN == (PAGE_SIZE - INTERNAL_NODE_HEADER_SIZE) / (
        INTERNAL_CELL_SIZE as int),
{
}

} // verus!
