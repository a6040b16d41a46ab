//! A disk-oriented B+Tree index: an ordered store of short byte-string keys
//! and values whose nodes live in fixed-size pages.
//!
//! The layers, leaf first:
//! - [`page`]: a 4096-byte buffer with bounds-checked accessors, and
//!   [`page_layout`], the byte layout of a node on a page;
//! - [`pager`]: the image of the backing file as a sequence of pages, which
//!   are appended or overwritten in place;
//! - [`node`] and [`node_type`]: the decoded form of a page, its wire
//!   format, and what happens between neighbouring nodes: splitting,
//!   borrowing and merging;
//! - [`btree`]: configuration, search, insertion with proactive splitting,
//!   deletion with rebalancing, and reopening a tree from its pages. The
//!   engine states what it asks of the pages as a predicate; the tree type
//!   around it holds that predicate as an invariant of the type.
//!
//! What the tree is, mathematically, is said in [`tree`] (when the pages of
//! a store hold a well-formed tree, and what a search finds in it),
//! [`traversal`] (its pairs in the order of its leaves) and [`model`] (the
//! tree as a map, and what each operation does to the map). The modules
//! [`lex`] and [`sorted`] hold the order of keys and the search among sorted
//! keys; [`split`], [`kids`] and [`rebalance`] hold the proofs that the
//! restructuring steps keep the tree well-formed and its keys in place;
//! [`descent`] says what a search meets and what an insertion leaves behind
//! on the way down, page by page, and [`removal`] what a deletion leaves
//! behind; [`validate`] tells whether a store holds a tree.
//!
//! Every function carries a contract that Verus proves.
pub mod btree;
pub mod descent;
pub mod error;
pub mod kids;
pub mod lex;
pub mod model;
pub mod node;
pub mod node_type;
pub mod page;
pub mod page_layout;
pub mod pager;
pub mod rebalance;
pub mod removal;
pub mod sorted;
pub mod split;
pub mod traversal;
pub mod tree;
pub mod validate;
