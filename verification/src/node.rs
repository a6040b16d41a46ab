//! A node of the tree, and its form on a page.
use vstd::prelude::*;
use vstd::bytes::{lemma_auto_spec_u64_to_from_le_bytes, spec_u64_from_le_bytes, spec_u64_to_le_bytes};
use crate::error::Error;
use crate::lex::copy_bytes;
use crate::node_type::{pairs_view, keys_view, Key, KeyValuePair, KindView, NodeType, Offset};
use crate::page::Page;
use crate::page_layout::{
    INTERNAL_CELL_SIZE, INTERNAL_NODE_HEADER_SIZE, INTERNAL_NODE_MAX_CHILDREN,
    IS_ROOT_OFFSET, KEY_SIZE, LEAF_CELL_SIZE,
    LEAF_NODE_HEADER_SIZE, LEAF_NODE_MAX_PAIRS, LEAF_NODE_NUM_PAIRS_OFFSET, MAX_KEY_LEN,
    MAX_VALUE_LEN, NODE_TYPE_OFFSET, PAGE_SIZE, PARENT_POINTER_OFFSET, PTR_SIZE, VALUE_SIZE,
};

verus! {

/// A node of the tree: the decoded form of one page.
#[derive(Clone, Debug, PartialEq, Eq)]
pub struct Node {
    pub node_type: NodeType,
    pub is_root: bool,
    pub parent_offset: Option<Offset>,
}

/// A node as a mathematical value.
pub struct NodeView {
    pub kind: KindView,
    pub is_root: bool,
    pub parent: Option<Offset>,
}

impl View for Node {
    type V = NodeView;

    open spec fn view(&self) -> NodeView {
        NodeView { kind: self.node_type@, is_root: self.is_root, parent: self.parent_offset }
    }
}

impl NodeView {
    /// The pairs of a leaf; an internal node has none.
    pub open spec fn pairs(self) -> Seq<(Seq<u8>, Seq<u8>)> {
        match self.kind {
            KindView::Leaf(pairs) => pairs,
            KindView::Internal(_, _) => Seq::empty(),
        }
    }

    /// The children of an internal node; a leaf has none.
    pub open spec fn children(self) -> Seq<Offset> {
        match self.kind {
            KindView::Leaf(_) => Seq::empty(),
            KindView::Internal(children, _) => children,
        }
    }

    /// The separator keys of an internal node; a leaf has none.
    pub open spec fn keys(self) -> Seq<Seq<u8>> {
        match self.kind {
            KindView::Leaf(_) => Seq::empty(),
            KindView::Internal(_, keys) => keys,
        }
    }

    /// The number of pairs of a leaf, or of keys of an internal node.
    pub open spec fn entries(self) -> nat {
        match self.kind {
            KindView::Leaf(pairs) => pairs.len(),
            KindView::Internal(_, keys) => keys.len(),
        }
    }

    /// The number of cells that the node takes on a page.
    pub open spec fn cells(self) -> nat {
        match self.kind {
            KindView::Leaf(pairs) => pairs.len(),
            KindView::Internal(children, _) => children.len(),
        }
    }
}

/// Whether a node is full for branching parameter `b`: it holds `2b - 1`
/// entries, and `2b` children if it is an internal node.
pub open spec fn is_full(n: NodeView, b: nat) -> bool {
    &&& b >= 1
    &&& n.entries() == 2 * b - 1
    &&& n.kind is Internal ==> n.children().len() == 2 * b
}

/// The key that goes up when a full node is split: the key of the median
/// pair of a leaf, the median key of an internal node.
pub open spec fn split_median(n: NodeView, b: nat) -> Seq<u8> {
    match n.kind {
        KindView::Leaf(pairs) => pairs[b - 1].0,
        KindView::Internal(_, keys) => keys[b - 1],
    }
}

/// What stays in a full node that is split: the first `b` pairs of a leaf,
/// the median among them; the first `b` children of an internal node with
/// the keys between them.
pub open spec fn split_left(n: NodeView, b: nat) -> NodeView {
    NodeView {
        kind: match n.kind {
            KindView::Leaf(pairs) => KindView::Leaf(pairs.subrange(0, b as int)),
            KindView::Internal(children, keys) => KindView::Internal(
                children.subrange(0, b as int),
                keys.subrange(0, b - 1),
            ),
        },
        is_root: n.is_root,
        parent: n.parent,
    }
}

/// What moves to the new sibling when a full node is split: the pairs
/// after the median of a leaf; the last `b` children of an internal node
/// with the keys between them.
pub open spec fn split_right(n: NodeView, b: nat) -> NodeView {
    NodeView {
        kind: match n.kind {
            KindView::Leaf(pairs) => KindView::Leaf(pairs.subrange(b as int, 2 * b - 1)),
            KindView::Internal(children, keys) => KindView::Internal(
                children.subrange(b as int, 2 * b as int),
                keys.subrange(b as int, 2 * b - 1),
            ),
        },
        is_root: false,
        parent: n.parent,
    }
}

/// The nodes `a2` and `b2` with the key `sep2` between them hold, in the
/// same order, what the nodes `a` and `b` with the key `sep` between them
/// held: entries have moved from one to the other across the key.
pub open spec fn repartitioned(
    hh: nat,
    a: NodeView,
    sep: Seq<u8>,
    b: NodeView,
    a2: NodeView,
    sep2: Seq<u8>,
    b2: NodeView,
) -> bool {
    if hh == 0 {
        &&& a2.kind is Leaf
        &&& b2.kind is Leaf
        &&& a2.pairs() + b2.pairs() == a.pairs() + b.pairs()
        &&& a2.pairs().len() > 0
        &&& sep2 == a2.pairs().last().0
    } else {
        &&& a2.kind is Internal
        &&& b2.kind is Internal
        &&& a2.children().len() == a2.keys().len() + 1
        &&& a2.children() + b2.children() == a.children() + b.children()
        &&& a2.keys() + seq![sep2] + b2.keys() == a.keys() + seq![sep] + b.keys()
    }
}

/// The node `m` holds what the nodes `a` and `b` with the key `sep`
/// between them held: the pairs of two leaves one after the other, or the
/// children of two internal nodes with their keys and `sep` between them.
pub open spec fn merged(hh: nat, a: NodeView, sep: Seq<u8>, b: NodeView, m: NodeView) -> bool {
    if hh == 0 {
        &&& m.kind is Leaf
        &&& m.pairs() == a.pairs() + b.pairs()
    } else {
        &&& m.kind is Internal
        &&& m.children() == a.children() + b.children()
        &&& m.keys() == a.keys() + seq![sep] + b.keys()
    }
}

/// 0 for a leaf, 1 for an internal node: the least height of a subtree
/// with such a node at its top.
pub open spec fn kind_height(n: NodeView) -> nat {
    if n.kind is Leaf {
        0
    } else {
        1
    }
}

/// Whether `left` can give its last entry to `right`, its right neighbour:
/// the two are of one kind, and `left` keeps an entry to part them by.
pub open spec fn can_lend_last(left: NodeView, right: NodeView) -> bool {
    match (left.kind, right.kind) {
        (KindView::Leaf(lp), KindView::Leaf(_)) => lp.len() >= 2,
        (KindView::Internal(lc, lk), KindView::Internal(rc, rk)) => lk.len() >= 1 && lc.len()
            == lk.len() + 1 && rc.len() == rk.len() + 1,
        _ => false,
    }
}

/// Whether `right` can give its first entry to `left`, its left neighbour.
pub open spec fn can_lend_first(left: NodeView, right: NodeView) -> bool {
    match (left.kind, right.kind) {
        (KindView::Leaf(_), KindView::Leaf(rp)) => rp.len() >= 1,
        (KindView::Internal(lc, lk), KindView::Internal(rc, rk)) => rk.len() >= 1 && rc.len()
            == rk.len() + 1 && lc.len() == lk.len() + 1,
        _ => false,
    }
}

/// Whether two nodes are of one kind.
pub open spec fn same_kind(left: NodeView, right: NodeView) -> bool {
    left.kind is Leaf <==> right.kind is Leaf
}

/// What `left` and `node`, its right neighbour, are after `left` gave its
/// last entry to `node`, and the key that parts them then. `sep` is the key
/// that parted them before. Nodes of two kinds stay as they are.
pub open spec fn lend_last(left: NodeView, sep: Seq<u8>, node: NodeView) -> (
    NodeView,
    Seq<u8>,
    NodeView,
) {
    match (left.kind, node.kind) {
        (KindView::Leaf(lp), KindView::Leaf(np)) => (
            NodeView { kind: KindView::Leaf(lp.drop_last()), is_root: left.is_root, parent: left.parent },
            lp[lp.len() - 2].0,
            NodeView {
                kind: KindView::Leaf(seq![lp.last()] + np),
                is_root: node.is_root,
                parent: node.parent,
            },
        ),
        (KindView::Internal(lc, lk), KindView::Internal(nc, nk)) => (
            NodeView {
                kind: KindView::Internal(lc.drop_last(), lk.drop_last()),
                is_root: left.is_root,
                parent: left.parent,
            },
            lk.last(),
            NodeView {
                kind: KindView::Internal(seq![lc.last()] + nc, seq![sep] + nk),
                is_root: node.is_root,
                parent: node.parent,
            },
        ),
        _ => (left, sep, node),
    }
}

/// What `node` and `right`, its right neighbour, are after `right` gave its
/// first entry to `node`, and the key that parts them then. `sep` is the
/// key that parted them before. Nodes of two kinds stay as they are.
pub open spec fn lend_first(node: NodeView, sep: Seq<u8>, right: NodeView) -> (
    NodeView,
    Seq<u8>,
    NodeView,
) {
    match (node.kind, right.kind) {
        (KindView::Leaf(np), KindView::Leaf(rp)) => (
            NodeView {
                kind: KindView::Leaf(np.push(rp.first())),
                is_root: node.is_root,
                parent: node.parent,
            },
            rp.first().0,
            NodeView {
                kind: KindView::Leaf(rp.drop_first()),
                is_root: right.is_root,
                parent: right.parent,
            },
        ),
        (KindView::Internal(nc, nk), KindView::Internal(rc, rk)) => (
            NodeView {
                kind: KindView::Internal(nc.push(rc.first()), nk.push(sep)),
                is_root: node.is_root,
                parent: node.parent,
            },
            rk.first(),
            NodeView {
                kind: KindView::Internal(rc.drop_first(), rk.drop_first()),
                is_root: right.is_root,
                parent: right.parent,
            },
        ),
        _ => (node, sep, right),
    }
}

/// The node that holds what `left` and `right`, its right neighbour, hold,
/// with the key `sep` that parted them between the keys of two internal
/// nodes. It is what `left` was to its parent.
pub open spec fn merged_node(left: NodeView, sep: Seq<u8>, right: NodeView) -> NodeView {
    NodeView {
        kind: match (left.kind, right.kind) {
            (KindView::Leaf(lp), KindView::Leaf(rp)) => KindView::Leaf(lp + rp),
            (KindView::Internal(lc, lk), KindView::Internal(rc, rk)) => KindView::Internal(
                lc + rc,
                lk + seq![sep] + rk,
            ),
            _ => left.kind,
        },
        is_root: left.is_root,
        parent: left.parent,
    }
}

/// Byte `j` of the cell that holds `content`: the length, then the bytes,
/// then zeros.
pub open spec fn cell_byte(content: Seq<u8>, j: int) -> u8 {
    if j == 0 {
        content.len() as u8
    } else if j <= content.len() {
        content[j - 1]
    } else {
        0
    }
}

/// The number that stands for a parent offset on a page: zero for none.
pub open spec fn parent_word(parent: Option<Offset>) -> u64 {
    match parent {
        None => 0,
        Some(offset) => offset.0 as u64,
    }
}

/// The kind tag of a node.
pub open spec fn kind_tag(kind: KindView) -> u8 {
    match kind {
        KindView::Internal(_, _) => 0,
        KindView::Leaf(_) => 1,
    }
}

/// Byte `i` of a node's header.
pub open spec fn header_byte(n: NodeView, i: int) -> u8 {
    if i == 0 {
        if n.is_root {
            1
        } else {
            0
        }
    } else if i == 1 {
        kind_tag(n.kind)
    } else if i < 10 {
        spec_u64_to_le_bytes(parent_word(n.parent))[i - 2]
    } else {
        spec_u64_to_le_bytes(n.cells() as u64)[i - 10]
    }
}

/// Byte `i` of a leaf's page, for `i` past the header.
pub open spec fn leaf_byte(pairs: Seq<(Seq<u8>, Seq<u8>)>, i: int) -> u8 {
    let c = (i - 18) / 20;
    let r = (i - 18) % 20;
    if c < pairs.len() {
        if r < 10 {
            cell_byte(pairs[c].0, r)
        } else {
            cell_byte(pairs[c].1, r - 10)
        }
    } else {
        0
    }
}

/// Byte `i` of an internal node's page, for `i` past the header.
pub open spec fn internal_byte(children: Seq<Offset>, keys: Seq<Seq<u8>>, i: int) -> u8 {
    let c = (i - 18) / 18;
    let r = (i - 18) % 18;
    if c < children.len() {
        if r < 8 {
            spec_u64_to_le_bytes(children[c].0 as u64)[r]
        } else if c < keys.len() {
            cell_byte(keys[c], r - 8)
        } else {
            0
        }
    } else {
        0
    }
}

/// Byte `i` of a node's page.
pub open spec fn node_byte(n: NodeView, i: int) -> u8 {
    if i < 18 {
        header_byte(n, i)
    } else {
        match n.kind {
            KindView::Leaf(pairs) => leaf_byte(pairs, i),
            KindView::Internal(children, keys) => internal_byte(children, keys, i),
        }
    }
}

/// The page that holds node `n`.
#[verifier::opaque]
pub open spec fn encode_bytes(n: NodeView) -> Seq<u8> {
    Seq::new(PAGE_SIZE as nat, |i: int| node_byte(n, i))
}

/// Every key of `keys` fits a key cell.
pub open spec fn keys_fit(keys: Seq<Seq<u8>>) -> bool {
    forall|i: int| 0 <= i < keys.len() ==> (#[trigger] keys[i]).len() <= MAX_KEY_LEN
}

/// Every pair of `pairs` has a key that fits a key cell.
pub open spec fn pair_keys_fit(pairs: Seq<(Seq<u8>, Seq<u8>)>) -> bool {
    forall|i: int| 0 <= i < pairs.len() ==> (#[trigger] pairs[i]).0.len() <= MAX_KEY_LEN
}

/// Every pair of `pairs` has a value that fits a value cell.
pub open spec fn pair_values_fit(pairs: Seq<(Seq<u8>, Seq<u8>)>) -> bool {
    forall|i: int| 0 <= i < pairs.len() ==> (#[trigger] pairs[i]).1.len() <= MAX_VALUE_LEN
}

/// Why node `n` cannot be put on a page, if it cannot. Offset zero is where
/// the superblock lies, so no node has it as parent.
pub open spec fn encode_error(n: NodeView) -> Option<Error> {
    if n.parent == Some(Offset(0)) {
        Some(Error::TreeInvariantViolation)
    } else {
        match n.kind {
            KindView::Leaf(pairs) => {
                if pairs.len() > LEAF_NODE_MAX_PAIRS {
                    Some(Error::PageOverflow)
                } else if !pair_keys_fit(pairs) {
                    Some(Error::KeyOverflow)
                } else if !pair_values_fit(pairs) {
                    Some(Error::ValueOverflow)
                } else {
                    None
                }
            },
            KindView::Internal(children, keys) => {
                if children.len() > INTERNAL_NODE_MAX_CHILDREN {
                    Some(Error::PageOverflow)
                } else if !(keys.len() + 1 == children.len() || (keys.len() == 0 && children.len()
                    == 0)) {
                    Some(Error::TreeInvariantViolation)
                } else if !keys_fit(keys) {
                    Some(Error::KeyOverflow)
                } else {
                    None
                }
            },
        }
    }
}

/// The number whose little-endian bytes start at `at`.
pub open spec fn word_at(page: Seq<u8>, at: int) -> u64 {
    spec_u64_from_le_bytes(page.subrange(at, at + 8))
}

/// The content of the key or value cell that starts at `at`.
pub open spec fn cell_content(page: Seq<u8>, at: int) -> Seq<u8> {
    page.subrange(at + 1, at + 1 + page[at] as int)
}

/// Leaf cell `c` of `page` holds a key and a value of admissible lengths.
pub open spec fn leaf_cell_ok(page: Seq<u8>, c: int) -> bool {
    page[18 + 20 * c] <= MAX_KEY_LEN && page[18 + 20 * c + 10] <= MAX_VALUE_LEN
}

/// The child offset in internal cell `c` of `page` fits an offset.
pub open spec fn child_cell_ok(page: Seq<u8>, c: int) -> bool {
    word_at(page, 18 + 18 * c) <= usize::MAX
}

/// The key in internal cell `c` of `page` has an admissible length.
pub open spec fn key_cell_ok(page: Seq<u8>, c: int) -> bool {
    page[18 + 18 * c + 8] <= MAX_KEY_LEN
}

/// The pair in leaf cell `c` of `page`.
pub open spec fn leaf_cell(page: Seq<u8>, c: int) -> (Seq<u8>, Seq<u8>) {
    (cell_content(page, 18 + 20 * c), cell_content(page, 18 + 20 * c + 10))
}

/// The child offset in internal cell `c` of `page`.
pub open spec fn child_cell(page: Seq<u8>, c: int) -> Offset {
    Offset(word_at(page, 18 + 18 * c) as usize)
}

/// The key in internal cell `c` of `page`.
pub open spec fn key_cell(page: Seq<u8>, c: int) -> Seq<u8> {
    cell_content(page, 18 + 18 * c + 8)
}

/// Whether `page` holds a node: the flag and the tag are 0 or 1, the count
/// fits the page, and every cell holds admissible lengths and offsets.
pub open spec fn decodable(page: Seq<u8>) -> bool {
    let count = word_at(page, 10);
    &&& page.len() == PAGE_SIZE
    &&& page[0] <= 1
    &&& page[1] <= 1
    &&& word_at(page, 2) <= usize::MAX
    &&& if page[1] == 1 {
        &&& count <= LEAF_NODE_MAX_PAIRS
        &&& forall|c: int| 0 <= c < count ==> #[trigger] leaf_cell_ok(page, c)
    } else {
        &&& count <= INTERNAL_NODE_MAX_CHILDREN
        &&& forall|c: int| 0 <= c < count ==> #[trigger] child_cell_ok(page, c)
        &&& forall|c: int| 0 <= c < count - 1 ==> #[trigger] key_cell_ok(page, c)
    }
}

/// The parent offset that a number on a page stands for.
pub open spec fn decode_parent(word: u64) -> Option<Offset> {
    if word == 0 {
        None
    } else {
        Some(Offset(word as usize))
    }
}

/// The node that a decodable page holds.
pub open spec fn decoded_node(page: Seq<u8>) -> NodeView {
    let count = word_at(page, 10) as nat;
    NodeView {
        kind: if page[1] == 1 {
            KindView::Leaf(Seq::new(count, |c: int| leaf_cell(page, c)))
        } else {
            KindView::Internal(
                Seq::new(count, |c: int| child_cell(page, c)),
                Seq::new(
                    if count == 0 {
                        0
                    } else {
                        (count - 1) as nat
                    },
                    |c: int| key_cell(page, c),
                ),
            )
        },
        is_root: page[0] == 1,
        parent: decode_parent(word_at(page, 2)),
    }
}

/// What decoding `page` gives: its node, or `CorruptPage`.
#[verifier::opaque]
pub open spec fn decode_spec(page: Seq<u8>) -> Result<NodeView, Error> {
    if decodable(page) {
        Ok(decoded_node(page))
    } else {
        Err(Error::CorruptPage)
    }
}

/// A node is made of keys and values that fit their cells, has as many
/// cells as fit a page, and does not name the superblock as its parent.
pub open spec fn node_fits(n: NodeView) -> bool {
    &&& n.parent != Some(Offset(0))
    &&& match n.kind {
        KindView::Leaf(pairs) => {
            &&& pairs.len() <= LEAF_NODE_MAX_PAIRS
            &&& pair_keys_fit(pairs)
            &&& pair_values_fit(pairs)
        },
        KindView::Internal(children, keys) => {
            &&& children.len() <= INTERNAL_NODE_MAX_CHILDREN
            &&& keys_fit(keys)
        },
    }
}

/// What a page decodes to is made of parts that fit a page again.
pub proof fn lemma_decoded_fits(page: Seq<u8>)
    ensures
        decode_spec(page) matches Ok(n) ==> node_fits(n) && (n.kind is Internal ==> (
            n.keys().len() + 1 == n.children().len() || (n.keys().len() == 0
                && n.children().len() == 0))),
{
    reveal(decode_spec);
    if decodable(page) {
        let n = decoded_node(page);
        match n.kind {
            KindView::Leaf(pairs) => {
                assert forall|i: int| 0 <= i < pairs.len() implies (#[trigger] pairs[i]).0.len()
                    <= MAX_KEY_LEN && pairs[i].1.len() <= MAX_VALUE_LEN by {
                    assert(leaf_cell_ok(page, i));
                }
            },
            KindView::Internal(children, keys) => {
                assert forall|i: int| 0 <= i < keys.len() implies (#[trigger] keys[i]).len()
                    <= MAX_KEY_LEN by {
                    assert(key_cell_ok(page, i));
                }
            },
        }
    }
}

/// The two halves of a full node that fits a page fit a page, and the
/// median fits a key cell.
pub proof fn lemma_split_fits(n: NodeView, b: nat)
    requires
        node_fits(n),
        is_full(n, b),
    ensures
        encode_error(split_left(n, b)) is None,
        encode_error(split_right(n, b)) is None,
        node_fits(split_left(n, b)),
        node_fits(split_right(n, b)),
        split_median(n, b).len() <= MAX_KEY_LEN,
{
    match n.kind {
        KindView::Leaf(pairs) => {
            let left = pairs.subrange(0, b as int);
            let right = pairs.subrange(b as int, 2 * b - 1);
            assert forall|i: int| 0 <= i < left.len() implies (#[trigger] left[i]).0.len()
                <= MAX_KEY_LEN && left[i].1.len() <= MAX_VALUE_LEN by {
                assert(left[i] == pairs[i]);
            }
            assert forall|i: int| 0 <= i < right.len() implies (#[trigger] right[i]).0.len()
                <= MAX_KEY_LEN && right[i].1.len() <= MAX_VALUE_LEN by {
                assert(right[i] == pairs[b + i]);
            }
            assert(pairs[b - 1].0.len() <= MAX_KEY_LEN);
        },
        KindView::Internal(children, keys) => {
            let left = keys.subrange(0, b - 1);
            let right = keys.subrange(b as int, 2 * b - 1);
            assert forall|i: int| 0 <= i < left.len() implies (#[trigger] left[i]).len()
                <= MAX_KEY_LEN by {
                assert(left[i] == keys[i]);
            }
            assert forall|i: int| 0 <= i < right.len() implies (#[trigger] right[i]).len()
                <= MAX_KEY_LEN by {
                assert(right[i] == keys[b + i]);
            }
            assert(keys[b - 1].len() <= MAX_KEY_LEN);
        },
    }
}

/// A leaf with room that takes in a pair that fits its cell still fits a page.
pub proof fn lemma_leaf_insert_fits(n: NodeView, i: int, k: Seq<u8>, v: Seq<u8>, n2: NodeView)
    requires
        node_fits(n),
        n.kind is Leaf,
        n.pairs().len() < LEAF_NODE_MAX_PAIRS,
        0 <= i <= n.pairs().len(),
        k.len() <= MAX_KEY_LEN,
        v.len() <= MAX_VALUE_LEN,
        n2.kind == KindView::Leaf(n.pairs().insert(i, (k, v))),
        n2.parent == n.parent,
    ensures
        encode_error(n2) is None,
{
    let pairs = n.pairs();
    let new = pairs.insert(i, (k, v));
    assert forall|j: int| 0 <= j < new.len() implies (#[trigger] new[j]).0.len() <= MAX_KEY_LEN
        && new[j].1.len() <= MAX_VALUE_LEN by {
        if j < i {
            assert(new[j] == pairs[j]);
        } else if j > i {
            assert(new[j] == pairs[j - 1]);
        }
    }
}

/// An internal node with room that takes in a key that fits its cell, and
/// a child, still fits a page.
pub proof fn lemma_inner_insert_fits(n: NodeView, i: int, m: Seq<u8>, sib: Offset, n2: NodeView)
    requires
        node_fits(n),
        n.kind is Internal,
        n.children().len() == n.keys().len() + 1,
        n.children().len() < INTERNAL_NODE_MAX_CHILDREN,
        0 <= i <= n.keys().len(),
        m.len() <= MAX_KEY_LEN,
        n2.kind == KindView::Internal(n.children().insert(i + 1, sib), n.keys().insert(i, m)),
        n2.parent == n.parent,
    ensures
        encode_error(n2) is None,
{
    let keys = n.keys();
    let new = keys.insert(i, m);
    assert forall|j: int| 0 <= j < new.len() implies (#[trigger] new[j]).len() <= MAX_KEY_LEN by {
        if j < i {
            assert(new[j] == keys[j]);
        } else if j > i {
            assert(new[j] == keys[j - 1]);
        }
    }
}

/// Two neighbouring nodes between which entries have moved fit a page if
/// they did before and hold no more entries than a node may, and the key
/// that parts them now fits a key cell.
pub proof fn lemma_repartition_fits(
    hh: nat,
    a: NodeView,
    sep: Seq<u8>,
    b: NodeView,
    a2: NodeView,
    sep2: Seq<u8>,
    b2: NodeView,
)
    requires
        node_fits(a),
        node_fits(b),
        sep.len() <= MAX_KEY_LEN,
        repartitioned(hh, a, sep, b, a2, sep2, b2),
        hh == 0 ==> a.kind is Leaf && b.kind is Leaf,
        hh > 0 ==> a.kind is Internal && b.kind is Internal && a.children().len() == a.keys().len()
            + 1 && b.children().len() == b.keys().len() + 1,
        a2.parent != Some(Offset(0)),
        b2.parent != Some(Offset(0)),
        a2.entries() <= LEAF_NODE_MAX_PAIRS,
        b2.entries() <= LEAF_NODE_MAX_PAIRS,
    ensures
        encode_error(a2) is None,
        encode_error(b2) is None,
        sep2.len() <= MAX_KEY_LEN,
{
    if hh == 0 {
        let whole = a.pairs() + b.pairs();
        let n = a2.pairs().len() as int;
        assert(whole == a2.pairs() + b2.pairs());
        assert forall|i: int| 0 <= i < whole.len() implies (#[trigger] whole[i]).0.len()
            <= MAX_KEY_LEN && whole[i].1.len() <= MAX_VALUE_LEN by {
            if i < a.pairs().len() {
                assert(whole[i] == a.pairs()[i]);
            } else {
                assert(whole[i] == b.pairs()[i - a.pairs().len()]);
            }
        }
        assert forall|i: int| 0 <= i < a2.pairs().len() implies (#[trigger] a2.pairs()[i]).0.len()
            <= MAX_KEY_LEN && a2.pairs()[i].1.len() <= MAX_VALUE_LEN by {
            assert(a2.pairs()[i] == whole[i]);
        }
        assert forall|i: int| 0 <= i < b2.pairs().len() implies (#[trigger] b2.pairs()[i]).0.len()
            <= MAX_KEY_LEN && b2.pairs()[i].1.len() <= MAX_VALUE_LEN by {
            assert(b2.pairs()[i] == whole[n + i]);
        }
        assert(a2.pairs()[n - 1].0.len() <= MAX_KEY_LEN);
    } else {
        let whole = a.keys() + seq![sep] + b.keys();
        let n = a2.keys().len() as int;
        assert(whole == a2.keys() + seq![sep2] + b2.keys());
        assert((a.children() + b.children()).len() == (a2.children() + b2.children()).len());
        assert(whole.len() == n + 1 + b2.keys().len());
        assert forall|i: int| 0 <= i < whole.len() implies (#[trigger] whole[i]).len()
            <= MAX_KEY_LEN by {
            if i < a.keys().len() {
                assert(whole[i] == a.keys()[i]);
            } else if i > a.keys().len() {
                assert(whole[i] == b.keys()[i - a.keys().len() - 1]);
            }
        }
        assert forall|i: int| 0 <= i < a2.keys().len() implies (#[trigger] a2.keys()[i]).len()
            <= MAX_KEY_LEN by {
            assert(a2.keys()[i] == whole[i]);
        }
        assert forall|i: int| 0 <= i < b2.keys().len() implies (#[trigger] b2.keys()[i]).len()
            <= MAX_KEY_LEN by {
            assert(b2.keys()[i] == whole[n + 1 + i]);
        }
        assert(whole[n] == sep2);
    }
}

/// Two neighbouring nodes merged into one fit a page if they did before
/// and the one holds no more entries than a node may.
pub proof fn lemma_merged_fits(hh: nat, a: NodeView, sep: Seq<u8>, b: NodeView, m: NodeView)
    requires
        node_fits(a),
        node_fits(b),
        sep.len() <= MAX_KEY_LEN,
        merged(hh, a, sep, b, m),
        hh == 0 ==> a.kind is Leaf && b.kind is Leaf,
        hh > 0 ==> a.kind is Internal && b.kind is Internal && a.children().len() == a.keys().len()
            + 1 && b.children().len() == b.keys().len() + 1,
        m.parent != Some(Offset(0)),
        m.entries() <= LEAF_NODE_MAX_PAIRS,
    ensures
        encode_error(m) is None,
{
    if hh == 0 {
        let whole = a.pairs() + b.pairs();
        assert forall|i: int| 0 <= i < whole.len() implies (#[trigger] whole[i]).0.len()
            <= MAX_KEY_LEN && whole[i].1.len() <= MAX_VALUE_LEN by {
            if i < a.pairs().len() {
                assert(whole[i] == a.pairs()[i]);
            } else {
                assert(whole[i] == b.pairs()[i - a.pairs().len()]);
            }
        }
    } else {
        let whole = a.keys() + seq![sep] + b.keys();
        assert forall|i: int| 0 <= i < whole.len() implies (#[trigger] whole[i]).len()
            <= MAX_KEY_LEN by {
            if i < a.keys().len() {
                assert(whole[i] == a.keys()[i]);
            } else if i > a.keys().len() {
                assert(whole[i] == b.keys()[i - a.keys().len() - 1]);
            }
        }
    }
}

/// An internal node one of whose keys was replaced by a key that fits its
/// cell still fits a page.
pub proof fn lemma_inner_update_fits(n: NodeView, j: int, sep: Seq<u8>, n2: NodeView)
    requires
        node_fits(n),
        n.kind is Internal,
        n.children().len() == n.keys().len() + 1,
        0 <= j < n.keys().len(),
        sep.len() <= MAX_KEY_LEN,
        n2.kind == KindView::Internal(n.children(), n.keys().update(j, sep)),
        n2.parent == n.parent,
    ensures
        encode_error(n2) is None,
{
    let new = n.keys().update(j, sep);
    assert forall|i: int| 0 <= i < new.len() implies (#[trigger] new[i]).len() <= MAX_KEY_LEN by {
        if i != j {
            assert(new[i] == n.keys()[i]);
        }
    }
}

/// An internal node that lost a key and the child after it still fits a
/// page.
pub proof fn lemma_inner_remove_fits(n: NodeView, j: int, n2: NodeView)
    requires
        node_fits(n),
        n.kind is Internal,
        n.children().len() == n.keys().len() + 1,
        0 <= j < n.keys().len(),
        n2.kind == KindView::Internal(n.children().remove(j + 1), n.keys().remove(j)),
        n2.parent == n.parent,
    ensures
        encode_error(n2) is None,
{
    let new = n.keys().remove(j);
    assert forall|i: int| 0 <= i < new.len() implies (#[trigger] new[i]).len() <= MAX_KEY_LEN by {
        if i < j {
            assert(new[i] == n.keys()[i]);
        } else {
            assert(new[i] == n.keys()[i + 1]);
        }
    }
}

/// A leaf that lost a pair still fits a page.
pub proof fn lemma_leaf_remove_fits(n: NodeView, i: int, n2: NodeView)
    requires
        node_fits(n),
        n.kind is Leaf,
        0 <= i < n.pairs().len(),
        n2.kind == KindView::Leaf(n.pairs().remove(i)),
        n2.parent == n.parent,
    ensures
        encode_error(n2) is None,
{
    let new = n.pairs().remove(i);
    assert forall|x: int| 0 <= x < new.len() implies (#[trigger] new[x]).0.len() <= MAX_KEY_LEN
        && new[x].1.len() <= MAX_VALUE_LEN by {
        if x < i {
            assert(new[x] == n.pairs()[x]);
        } else {
            assert(new[x] == n.pairs()[x + 1]);
        }
    }
}

/// Decoding the page of a node gives the node back.
pub proof fn lemma_decode_encode(n: NodeView)
    requires
        encode_error(n) is None,
    ensures
        decode_spec(encode_bytes(n)) == Ok::<NodeView, Error>(n),
{
    reveal(encode_bytes);
    reveal(decode_spec);
    let page = encode_bytes(n);
    lemma_auto_spec_u64_to_from_le_bytes();
    assert(page.subrange(2, 10) =~= spec_u64_to_le_bytes(parent_word(n.parent)));
    assert(page.subrange(10, 18) =~= spec_u64_to_le_bytes(n.cells() as u64));
    assert(word_at(page, 2) == parent_word(n.parent));
    assert(word_at(page, 10) == n.cells());
    assert(decode_parent(word_at(page, 2)) == n.parent);
    match n.kind {
        KindView::Leaf(pairs) => {
            assert(page[1] == node_byte(n, 1));
            assert forall|c: int|
                #![trigger leaf_cell_ok(page, c)]
                #![trigger leaf_cell(page, c)]
                0 <= c < pairs.len() implies leaf_cell_ok(page, c) && leaf_cell(page, c)
                == pairs[c] by {
                let at = 18 + 20 * c;
                assert(pair_keys_fit(pairs));
                assert(pair_values_fit(pairs));
                assert(pairs[c].0.len() <= MAX_KEY_LEN);
                assert(pairs[c].1.len() <= MAX_VALUE_LEN);
                assert(page[at] == node_byte(n, at));
                assert(page[at + 10] == node_byte(n, at + 10));
                assert forall|j: int| 0 <= j < pairs[c].0.len() implies #[trigger] page[at + 1 + j]
                    == pairs[c].0[j] by {
                    assert(page[at + 1 + j] == node_byte(n, at + 1 + j));
                }
                assert forall|j: int| 0 <= j < pairs[c].1.len() implies #[trigger] page[at + 11
                    + j] == pairs[c].1[j] by {
                    assert(page[at + 11 + j] == node_byte(n, at + 11 + j));
                }
                assert(cell_content(page, at) =~= pairs[c].0);
                assert(cell_content(page, at + 10) =~= pairs[c].1);
            }
            assert(decoded_node(page).kind->Leaf_0 =~= pairs);
        },
        KindView::Internal(children, keys) => {
            assert(page[1] == node_byte(n, 1));
            assert forall|c: int|
                #![trigger child_cell_ok(page, c)]
                #![trigger child_cell(page, c)]
                0 <= c < children.len() implies child_cell_ok(page, c) && child_cell(page, c)
                == children[c] by {
                let at = 18 + 18 * c;
                assert forall|j: int| 0 <= j < 8 implies #[trigger] page[at + j]
                    == spec_u64_to_le_bytes(children[c].0 as u64)[j] by {
                    assert(page[at + j] == node_byte(n, at + j));
                }
                assert(page.subrange(at, at + 8) =~= spec_u64_to_le_bytes(children[c].0 as u64));
            }
            assert forall|c: int|
                #![trigger key_cell_ok(page, c)]
                #![trigger key_cell(page, c)]
                0 <= c < keys.len() implies key_cell_ok(page, c) && key_cell(page, c)
                == keys[c] by {
                let at = 18 + 18 * c + 8;
                assert(keys_fit(keys));
                assert(keys[c].len() <= MAX_KEY_LEN);
                assert(page[at] == node_byte(n, at));
                assert forall|j: int| 0 <= j < keys[c].len() implies #[trigger] page[at + 1 + j]
                    == keys[c][j] by {
                    assert(page[at + 1 + j] == node_byte(n, at + 1 + j));
                }
                assert(cell_content(page, at) =~= keys[c]);
            }
            assert(decoded_node(page).kind->Internal_0 =~= children);
            assert(decoded_node(page).kind->Internal_1 =~= keys);
        },
    }
}


/// The cell of `width` bytes that holds `content`.
fn make_cell(content: &Vec<u8>, width: usize) -> (cell: Vec<u8>)
    requires
        content@.len() < width <= 256,
    ensures
        cell@.len() == width,
        forall|j: int| 0 <= j < width ==> cell@[j] == cell_byte(content@, j),
{
    let mut cell: Vec<u8> = Vec::with_capacity(width);
    cell.push(content.len() as u8);
    let mut j: usize = 1;
    while j < width
        invariant
            1 <= j <= width,
            cell@.len() == j,
            content@.len() < width <= 256,
            forall|k: int| 0 <= k < j ==> cell@[k] == cell_byte(content@, k),
        decreases width - j,
    {
        if j <= content.len() {
            cell.push(content[j - 1]);
        } else {
            cell.push(0u8);
        }
        j += 1;
    }
    cell
}

/// Puts a node's header on an empty page.
fn write_header(page: &mut Page, is_root: bool, tag: u8, parent: u64, count: u64) -> (r: Result<
    (),
    Error,
>)
    requires
        old(page).wf(),
        old(page)@ == Seq::new(PAGE_SIZE as nat, |i: int| 0u8),
    ensures
        r is Ok,
        final(page).wf(),
        final(page)@.len() == PAGE_SIZE,
        final(page)@[0] == (if is_root { 1u8 } else { 0u8 }),
        final(page)@[1] == tag,
        forall|i: int| 2 <= i < 10 ==> final(page)@[i] == spec_u64_to_le_bytes(parent)[i - 2],
        forall|i: int| 10 <= i < 18 ==> final(page)@[i] == spec_u64_to_le_bytes(count)[i - 10],
        forall|i: int| 18 <= i < PAGE_SIZE ==> final(page)@[i] == 0,
{
    proof {
        lemma_auto_spec_u64_to_from_le_bytes();
    }
    page.write_byte(IS_ROOT_OFFSET, if is_root { 1u8 } else { 0u8 })?;
    page.write_byte(NODE_TYPE_OFFSET, tag)?;
    page.write_u64(PARENT_POINTER_OFFSET, parent)?;
    page.write_u64(LEAF_NODE_NUM_PAIRS_OFFSET, count)?;
    Ok(())
}

/// Tells whether every pair has a key and a value that fit their cells, and
/// if not, which of the two does not.
fn check_pairs(pairs: &Vec<KeyValuePair>) -> (r: Result<(), Error>)
    ensures
        !pair_keys_fit(pairs_view(pairs@)) ==> r == Err::<(), Error>(Error::KeyOverflow),
        pair_keys_fit(pairs_view(pairs@)) && !pair_values_fit(
            pairs_view(pairs@),
        ) ==> r == Err::<(), Error>(Error::ValueOverflow),
        pair_keys_fit(pairs_view(pairs@)) && pair_values_fit(
            pairs_view(pairs@),
        ) ==> r is Ok,
{
    let ghost view = pairs_view(pairs@);
    let mut i: usize = 0;
    while i < pairs.len()
        invariant
            i <= pairs.len(),
            view == pairs_view(pairs@),
            forall|j: int| 0 <= j < i ==> (#[trigger] view[j]).0.len() <= MAX_KEY_LEN,
        decreases pairs.len() - i,
    {
        if pairs[i].key.len() > MAX_KEY_LEN {
            assert(view[i as int].0.len() > MAX_KEY_LEN);
            return Err(Error::KeyOverflow);
        }
        i += 1;
    }
    let mut i: usize = 0;
    while i < pairs.len()
        invariant
            i <= pairs.len(),
            view == pairs_view(pairs@),
            pair_keys_fit(view),
            forall|j: int| 0 <= j < i ==> (#[trigger] view[j]).1.len() <= MAX_VALUE_LEN,
        decreases pairs.len() - i,
    {
        if pairs[i].value.len() > MAX_VALUE_LEN {
            assert(view[i as int].1.len() > MAX_VALUE_LEN);
            return Err(Error::ValueOverflow);
        }
        i += 1;
    }
    Ok(())
}

/// Tells whether every key fits its cell.
fn check_keys(keys: &Vec<Key>) -> (r: Result<(), Error>)
    ensures
        !keys_fit(keys_view(keys@)) ==> r == Err::<(), Error>(Error::KeyOverflow),
        keys_fit(keys_view(keys@)) ==> r is Ok,
{
    let ghost view = keys_view(keys@);
    let mut i: usize = 0;
    while i < keys.len()
        invariant
            i <= keys.len(),
            view == keys_view(keys@),
            forall|j: int| 0 <= j < i ==> (#[trigger] view[j]).len() <= MAX_KEY_LEN,
        decreases keys.len() - i,
    {
        if keys[i].0.len() > MAX_KEY_LEN {
            assert(view[i as int].len() > MAX_KEY_LEN);
            return Err(Error::KeyOverflow);
        }
        i += 1;
    }
    Ok(())
}

impl Node {
    /// A node made of its parts.
    pub fn new(node_type: NodeType, is_root: bool, parent_offset: Option<Offset>) -> (node: Node)
        ensures
            node.node_type == node_type,
            node.is_root == is_root,
            node.parent_offset == parent_offset,
    {
        Node { node_type, is_root, parent_offset }
    }

    /// Splits a full node in two. The node keeps its first half, the second
    /// half comes back as a new sibling with the same parent, together with
    /// the key that parts the two. A node that is not full stays as it is.
    pub fn split(&mut self, b: usize) -> (r: Result<(Key, Node), Error>)
        ensures
            r is Ok <==> is_full(old(self)@, b as nat),
            r matches Ok((median, sibling)) ==> {
                &&& median@ == split_median(old(self)@, b as nat)
                &&& sibling@ == split_right(old(self)@, b as nat)
                &&& final(self)@ == split_left(old(self)@, b as nat)
            },
            r matches Err(e) ==> e == Error::TreeInvariantViolation && final(self)@ == old(self)@,
    {
        let parent_offset = self.parent_offset;
        match &mut self.node_type {
            NodeType::Leaf(pairs) => {
                let len = pairs.len();
                if !(b >= 1 && len >= b && len - b == b - 1) {
                    return Err(Error::TreeInvariantViolation);
                }
                let ghost before = pairs@;
                let median = Key(copy_bytes(&pairs[b - 1].key));
                let sibling_pairs = pairs.split_off(b);
                proof {
                    assert(pairs_view(pairs@) =~= pairs_view(before).subrange(0, b as int));
                    assert(pairs_view(sibling_pairs@) =~= pairs_view(before).subrange(
                        b as int,
                        2 * b - 1,
                    ));
                }
                Ok((median, Node::new(NodeType::Leaf(sibling_pairs), false, parent_offset)))
            },
            NodeType::Internal(children, keys) => {
                let len = keys.len();
                if !(b >= 1 && len >= b && len - b == b - 1 && children.len() > len
                    && children.len() - len == 1) {
                    return Err(Error::TreeInvariantViolation);
                }
                let ghost keys_before = keys@;
                let ghost children_before = children@;
                let sibling_keys = keys.split_off(b);
                let median = match keys.pop() {
                    Some(key) => key,
                    None => {
                        return Err(Error::TreeInvariantViolation);
                    },
                };
                let sibling_children = children.split_off(b);
                proof {
                    assert(keys_view(keys@) =~= keys_view(keys_before).subrange(0, b - 1));
                    assert(keys_view(sibling_keys@) =~= keys_view(keys_before).subrange(
                        b as int,
                        2 * b - 1,
                    ));
                    assert(sibling_children@ =~= children_before.subrange(b as int, 2 * b as int));
                }
                Ok(
                    (
                        median,
                        Node::new(
                            NodeType::Internal(sibling_children, sibling_keys),
                            false,
                            parent_offset,
                        ),
                    ),
                )
            },
        }
    }

    /// The number of pairs of a leaf, or of keys of an internal node.
    pub fn entries(&self) -> (n: usize)
        ensures
            n == self@.entries(),
    {
        match &self.node_type {
            NodeType::Leaf(pairs) => pairs.len(),
            NodeType::Internal(_, keys) => keys.len(),
        }
    }

    /// Moves the last entry of `left`, the left neighbour of this node,
    /// to the front of this node. `sep` is the key that parts the two in
    /// their parent. Gives back the left neighbour, the key that parts the
    /// two now, and this node. Between leaves the last pair moves, and the
    /// new key is the key of the pair before it. Between internal nodes the
    /// last child moves, `sep` comes down as the key after it, and the last
    /// key of `left` goes up.
    pub fn borrow_from_left(self, left: Node, sep: Key) -> (r: Result<(Node, Key, Node), Error>)
        ensures
            r is Ok <==> can_lend_last(left@, self@),
            r matches Ok((left2, sep2, node2)) ==> {
                &&& (left2@, sep2@, node2@) == lend_last(left@, sep@, self@)
                &&& repartitioned(kind_height(left@), left@, sep@, self@, left2@, sep2@, node2@)
                &&& left2@.entries() == left@.entries() - 1
                &&& node2@.entries() == self@.entries() + 1
                &&& left2@.is_root == left@.is_root
                &&& left2@.parent == left@.parent
                &&& node2@.is_root == self@.is_root
                &&& node2@.parent == self@.parent
            },
            r matches Err(e) ==> e == Error::TreeInvariantViolation,
    {
        let left_root = left.is_root;
        let left_parent = left.parent_offset;
        let node_root = self.is_root;
        let node_parent = self.parent_offset;
        match (left.node_type, self.node_type) {
            (NodeType::Leaf(mut lp), NodeType::Leaf(mut np)) => {
                if lp.len() < 2 {
                    return Err(Error::TreeInvariantViolation);
                }
                let ghost lp0 = lp@;
                let ghost np0 = np@;
                let moved = match lp.pop() {
                    Some(pair) => pair,
                    None => {
                        return Err(Error::TreeInvariantViolation);
                    },
                };
                np.insert(0, moved);
                let sep2 = Key(copy_bytes(&lp[lp.len() - 1].key));
                proof {
                    assert(pairs_view(lp@) + pairs_view(np@) =~= pairs_view(lp0) + pairs_view(np0));
                    assert(pairs_view(lp@) =~= pairs_view(lp0).drop_last());
                    assert(pairs_view(np@) =~= seq![pairs_view(lp0).last()] + pairs_view(np0));
                }
                Ok(
                    (
                        Node::new(NodeType::Leaf(lp), left_root, left_parent),
                        sep2,
                        Node::new(NodeType::Leaf(np), node_root, node_parent),
                    ),
                )
            },
            (NodeType::Internal(mut lc, mut lk), NodeType::Internal(mut nc, mut nk)) => {
                if lk.len() < 1 || lc.len() <= lk.len() || lc.len() - lk.len() != 1 || nc.len()
                    <= nk.len() || nc.len() - nk.len() != 1 {
                    return Err(Error::TreeInvariantViolation);
                }
                let ghost lc0 = lc@;
                let ghost lk0 = lk@;
                let ghost nc0 = nc@;
                let ghost nk0 = nk@;
                let sep2 = match lk.pop() {
                    Some(key) => key,
                    None => {
                        return Err(Error::TreeInvariantViolation);
                    },
                };
                let child = match lc.pop() {
                    Some(child) => child,
                    None => {
                        return Err(Error::TreeInvariantViolation);
                    },
                };
                nk.insert(0, sep);
                nc.insert(0, child);
                proof {
                    assert(lc@ + nc@ =~= lc0 + nc0);
                    assert(keys_view(lk@) + seq![sep2@] + keys_view(nk@) =~= keys_view(lk0)
                        + seq![sep@] + keys_view(nk0));
                    assert(lc@ =~= lc0.drop_last());
                    assert(keys_view(lk@) =~= keys_view(lk0).drop_last());
                    assert(nc@ =~= seq![lc0.last()] + nc0);
                    assert(keys_view(nk@) =~= seq![sep@] + keys_view(nk0));
                }
                Ok(
                    (
                        Node::new(NodeType::Internal(lc, lk), left_root, left_parent),
                        sep2,
                        Node::new(NodeType::Internal(nc, nk), node_root, node_parent),
                    ),
                )
            },
            _ => Err(Error::TreeInvariantViolation),
        }
    }

    /// Moves the first entry of `right`, the right neighbour of this node,
    /// to the end of this node. `sep` is the key that parts the two in
    /// their parent. Gives back this node, the key that parts the two now,
    /// and the right neighbour. Between leaves the first pair moves, and
    /// its key is the new key. Between internal nodes the first child
    /// moves, `sep` comes down as the key before it, and the first key of
    /// `right` goes up.
    pub fn borrow_from_right(self, right: Node, sep: Key) -> (r: Result<(Node, Key, Node), Error>)
        ensures
            r is Ok <==> can_lend_first(self@, right@),
            r matches Ok((node2, sep2, right2)) ==> {
                &&& (node2@, sep2@, right2@) == lend_first(self@, sep@, right@)
                &&& repartitioned(kind_height(self@), self@, sep@, right@, node2@, sep2@, right2@)
                &&& right2@.entries() == right@.entries() - 1
                &&& node2@.entries() == self@.entries() + 1
                &&& right2@.is_root == right@.is_root
                &&& right2@.parent == right@.parent
                &&& node2@.is_root == self@.is_root
                &&& node2@.parent == self@.parent
            },
            r matches Err(e) ==> e == Error::TreeInvariantViolation,
    {
        let right_root = right.is_root;
        let right_parent = right.parent_offset;
        let node_root = self.is_root;
        let node_parent = self.parent_offset;
        match (self.node_type, right.node_type) {
            (NodeType::Leaf(mut np), NodeType::Leaf(mut rp)) => {
                if rp.len() < 1 {
                    return Err(Error::TreeInvariantViolation);
                }
                let ghost np0 = np@;
                let ghost rp0 = rp@;
                let moved = rp.remove(0);
                let sep2 = Key(copy_bytes(&moved.key));
                np.push(moved);
                proof {
                    assert(pairs_view(np@) + pairs_view(rp@) =~= pairs_view(np0) + pairs_view(rp0));
                    assert(pairs_view(np@) =~= pairs_view(np0).push(pairs_view(rp0).first()));
                    assert(pairs_view(rp@) =~= pairs_view(rp0).drop_first());
                }
                Ok(
                    (
                        Node::new(NodeType::Leaf(np), node_root, node_parent),
                        sep2,
                        Node::new(NodeType::Leaf(rp), right_root, right_parent),
                    ),
                )
            },
            (NodeType::Internal(mut nc, mut nk), NodeType::Internal(mut rc, mut rk)) => {
                if rk.len() < 1 || rc.len() <= rk.len() || rc.len() - rk.len() != 1 || nc.len()
                    <= nk.len() || nc.len() - nk.len() != 1 {
                    return Err(Error::TreeInvariantViolation);
                }
                let ghost nc0 = nc@;
                let ghost nk0 = nk@;
                let ghost rc0 = rc@;
                let ghost rk0 = rk@;
                let sep2 = rk.remove(0);
                let child = rc.remove(0);
                nk.push(sep);
                nc.push(child);
                proof {
                    assert(nc@ + rc@ =~= nc0 + rc0);
                    assert(keys_view(nk@) + seq![sep2@] + keys_view(rk@) =~= keys_view(nk0)
                        + seq![sep@] + keys_view(rk0));
                    assert(rc@ =~= rc0.drop_first());
                    assert(keys_view(rk@) =~= keys_view(rk0).drop_first());
                    assert(nc@ =~= nc0.push(rc0.first()));
                    assert(keys_view(nk@) =~= keys_view(nk0).push(sep@));
                }
                Ok(
                    (
                        Node::new(NodeType::Internal(nc, nk), node_root, node_parent),
                        sep2,
                        Node::new(NodeType::Internal(rc, rk), right_root, right_parent),
                    ),
                )
            },
            _ => Err(Error::TreeInvariantViolation),
        }
    }

    /// Takes in what `right`, the right neighbour of this node, holds.
    /// `sep` is the key that parts the two in their parent. The pairs of
    /// two leaves follow one another; the keys of two internal nodes have
    /// `sep` between them.
    pub fn merge(self, right: Node, sep: Key) -> (r: Result<Node, Error>)
        ensures
            r is Ok <==> same_kind(self@, right@),
            r matches Ok(node) ==> {
                &&& node@ == merged_node(self@, sep@, right@)
                &&& merged(kind_height(self@), self@, sep@, right@, node@)
                &&& node@.is_root == self@.is_root
                &&& node@.parent == self@.parent
            },
            r matches Err(e) ==> e == Error::TreeInvariantViolation,
    {
        let node_root = self.is_root;
        let node_parent = self.parent_offset;
        match (self.node_type, right.node_type) {
            (NodeType::Leaf(mut np), NodeType::Leaf(mut rp)) => {
                let ghost np0 = np@;
                let ghost rp0 = rp@;
                np.append(&mut rp);
                proof {
                    assert(pairs_view(np@) =~= pairs_view(np0) + pairs_view(rp0));
                }
                Ok(Node::new(NodeType::Leaf(np), node_root, node_parent))
            },
            (NodeType::Internal(mut nc, mut nk), NodeType::Internal(mut rc, mut rk)) => {
                let ghost nc0 = nc@;
                let ghost nk0 = nk@;
                let ghost rc0 = rc@;
                let ghost rk0 = rk@;
                nk.push(sep);
                nk.append(&mut rk);
                nc.append(&mut rc);
                proof {
                    assert(keys_view(nk@) =~= keys_view(nk0) + seq![sep@] + keys_view(rk0));
                }
                Ok(Node::new(NodeType::Internal(nc, nk), node_root, node_parent))
            },
            _ => Err(Error::TreeInvariantViolation),
        }
    }

    /// The node's page. A node that does not fit a page, or is not a node
    /// of a tree, has none.
    pub fn encode(&self) -> (r: Result<Page, Error>)
        ensures
            encode_error(self@) matches Some(e) ==> r == Err::<Page, Error>(e),
            encode_error(self@) is None ==> (r matches Ok(page) && page.wf() && page@
                == encode_bytes(self@)),
    {
        let parent: u64 = match self.parent_offset {
            None => 0,
            Some(offset) => {
                if offset.0 == 0 {
                    return Err(Error::TreeInvariantViolation);
                }
                offset.0 as u64
            },
        };
        let ghost n = self@;
        proof {
            reveal(encode_bytes);
        }
        let mut page = Page::new();
        match &self.node_type {
            NodeType::Leaf(pairs) => {
                if pairs.len() > LEAF_NODE_MAX_PAIRS {
                    return Err(Error::PageOverflow);
                }
                check_pairs(pairs)?;
                write_header(&mut page, self.is_root, 1u8, parent, pairs.len() as u64)?;
                let ghost view = pairs_view(pairs@);
                let mut c: usize = 0;
                while c < pairs.len()
                    invariant
                        c <= pairs.len() <= LEAF_NODE_MAX_PAIRS,
                        page.wf(),
                        page@.len() == PAGE_SIZE,
                        view == pairs_view(pairs@),
                        n.kind == KindView::Leaf(view),
                        pair_keys_fit(view),
                        pair_values_fit(view),
                        forall|i: int| 0 <= i < 18 + 20 * c ==> page@[i] == node_byte(n, i),
                        forall|i: int| 18 + 20 * c <= i < PAGE_SIZE ==> page@[i] == 0,
                    decreases pairs.len() - c,
                {
                    let at: usize = LEAF_NODE_HEADER_SIZE + LEAF_CELL_SIZE * c;
                    assert(view[c as int].0.len() <= MAX_KEY_LEN);
                    assert(view[c as int].1.len() <= MAX_VALUE_LEN);
                    let key_cell = make_cell(&pairs[c].key, KEY_SIZE);
                    let value_cell = make_cell(&pairs[c].value, VALUE_SIZE);
                    page.write_fixed_bytes(at, &key_cell)?;
                    page.write_fixed_bytes(at + KEY_SIZE, &value_cell)?;
                    proof {
                        page.lemma_wf_len();
                        assert forall|i: int| 0 <= i < 18 + 20 * (c + 1) implies page@[i]
                            == node_byte(n, i) by {
                            if i >= at {
                                assert((i - 18) / 20 == c as int);
                            }
                        }
                    }
                    c += 1;
                }
                assert(page@ =~= encode_bytes(n));
                Ok(page)
            },
            NodeType::Internal(children, keys) => {
                if children.len() > INTERNAL_NODE_MAX_CHILDREN {
                    return Err(Error::PageOverflow);
                }
                let fits = if children.len() == 0 {
                    keys.len() == 0
                } else {
                    keys.len() == children.len() - 1
                };
                if !fits {
                    return Err(Error::TreeInvariantViolation);
                }
                check_keys(keys)?;
                write_header(&mut page, self.is_root, 0u8, parent, children.len() as u64)?;
                let ghost view = keys_view(keys@);
                let mut c: usize = 0;
                while c < children.len()
                    invariant
                        c <= children.len() <= INTERNAL_NODE_MAX_CHILDREN,
                        keys.len() + 1 == children.len() || (keys.len() == 0 && children.len()
                            == 0),
                        page.wf(),
                        page@.len() == PAGE_SIZE,
                        view == keys_view(keys@),
                        n.kind == KindView::Internal(children@, view),
                        keys_fit(view),
                        forall|i: int| 0 <= i < 18 + 18 * c ==> page@[i] == node_byte(n, i),
                        forall|i: int| 18 + 18 * c <= i < PAGE_SIZE ==> page@[i] == 0,
                    decreases children.len() - c,
                {
                    let at: usize = INTERNAL_NODE_HEADER_SIZE + INTERNAL_CELL_SIZE * c;
                    page.write_u64(at, children[c].0 as u64)?;
                    if c < keys.len() {
                        assert(view[c as int].len() <= MAX_KEY_LEN);
                        let key_cell = make_cell(&keys[c].0, KEY_SIZE);
                        page.write_fixed_bytes(at + PTR_SIZE, &key_cell)?;
                    }
                    proof {
                        page.lemma_wf_len();
                        lemma_auto_spec_u64_to_from_le_bytes();
                        assert forall|i: int| 0 <= i < 18 + 18 * (c + 1) implies page@[i]
                            == node_byte(n, i) by {
                            if i >= at {
                                assert((i - 18) / 18 == c as int);
                            }
                        }
                    }
                    c += 1;
                }
                assert(page@ =~= encode_bytes(n));
                Ok(page)
            },
        }
    }

    /// The node that `page` holds. A page that holds none is corrupt.
    pub fn decode(page: &Page) -> (r: Result<Node, Error>)
        requires
            page.wf(),
        ensures
            decode_spec(page@) matches Ok(n) ==> (r matches Ok(node) && node@ == n),
            decode_spec(page@) matches Err(e) ==> r == Err::<Node, Error>(e),
    {
        proof {
            reveal(decode_spec);
            page.lemma_wf_len();
        }
        let root_byte = page.read_byte(IS_ROOT_OFFSET)?;
        let tag = page.read_byte(NODE_TYPE_OFFSET)?;
        let parent_word = page.read_u64(PARENT_POINTER_OFFSET)?;
        let count = page.read_u64(LEAF_NODE_NUM_PAIRS_OFFSET)?;
        if root_byte > 1 || tag > 1 || parent_word > usize::MAX as u64 {
            return Err(Error::CorruptPage);
        }
        let parent_offset = if parent_word == 0 {
            None
        } else {
            Some(Offset(parent_word as usize))
        };
        if tag == 1 {
            if count > LEAF_NODE_MAX_PAIRS as u64 {
                return Err(Error::CorruptPage);
            }
            let n: usize = count as usize;
            let mut pairs: Vec<KeyValuePair> = Vec::with_capacity(n);
            let mut c: usize = 0;
            while c < n
                invariant
                    c <= n <= LEAF_NODE_MAX_PAIRS,
                    n == word_at(page@, 10),
                    page.wf(),
                    page@.len() == PAGE_SIZE,
                    pairs@.len() == c,
                    page@[1] == 1,
                    forall|i: int| 0 <= i < c ==> #[trigger] leaf_cell_ok(page@, i),
                    forall|i: int| 0 <= i < c ==> (#[trigger] pairs@[i])@ == leaf_cell(page@, i),
                decreases n - c,
            {
                let at: usize = LEAF_NODE_HEADER_SIZE + LEAF_CELL_SIZE * c;
                let key_len = page.read_byte(at)?;
                let value_len = page.read_byte(at + KEY_SIZE)?;
                if key_len as usize > MAX_KEY_LEN || value_len as usize > MAX_VALUE_LEN {
                    proof {
                        reveal(decode_spec);
                        assert(!leaf_cell_ok(page@, c as int));
                    }
                    return Err(Error::CorruptPage);
                }
                let key = page.read_fixed_bytes(at + 1, key_len as usize)?;
                let value = page.read_fixed_bytes(at + KEY_SIZE + 1, value_len as usize)?;
                pairs.push(KeyValuePair { key, value });
                c += 1;
            }
            let node = Node { node_type: NodeType::Leaf(pairs), is_root: root_byte == 1, parent_offset };
            proof {
                assert(decodable(page@));
                assert(node@.kind->Leaf_0 =~= decoded_node(page@).kind->Leaf_0);
            }
            Ok(node)
        } else {
            if count > INTERNAL_NODE_MAX_CHILDREN as u64 {
                return Err(Error::CorruptPage);
            }
            let n: usize = count as usize;
            let mut children: Vec<Offset> = Vec::with_capacity(n);
            let mut c: usize = 0;
            while c < n
                invariant
                    c <= n <= INTERNAL_NODE_MAX_CHILDREN,
                    n == word_at(page@, 10),
                    page.wf(),
                    page@.len() == PAGE_SIZE,
                    children@.len() == c,
                    page@[1] != 1,
                    forall|i: int| 0 <= i < c ==> #[trigger] child_cell_ok(page@, i),
                    forall|i: int| 0 <= i < c ==> #[trigger] children@[i] == child_cell(page@, i),
                decreases n - c,
            {
                let at: usize = INTERNAL_NODE_HEADER_SIZE + INTERNAL_CELL_SIZE * c;
                let word = page.read_u64(at)?;
                if word > usize::MAX as u64 {
                    proof {
                        reveal(decode_spec);
                        assert(!child_cell_ok(page@, c as int));
                    }
                    return Err(Error::CorruptPage);
                }
                children.push(Offset(word as usize));
                c += 1;
            }
            let m: usize = if n == 0 {
                0
            } else {
                n - 1
            };
            let mut keys: Vec<Key> = Vec::with_capacity(m);
            let mut c: usize = 0;
            while c < m
                invariant
                    c <= m < INTERNAL_NODE_MAX_CHILDREN,
                    m == word_at(page@, 10) - 1 || (m == 0 && word_at(page@, 10) == 0),
                    page.wf(),
                    page@.len() == PAGE_SIZE,
                    keys@.len() == c,
                    page@[1] != 1,
                    forall|i: int| 0 <= i < c ==> #[trigger] key_cell_ok(page@, i),
                    forall|i: int| 0 <= i < c ==> (#[trigger] keys@[i])@ == key_cell(page@, i),
                decreases m - c,
            {
                let at: usize = INTERNAL_NODE_HEADER_SIZE + INTERNAL_CELL_SIZE * c + PTR_SIZE;
                let key_len = page.read_byte(at)?;
                if key_len as usize > MAX_KEY_LEN {
                    proof {
                        reveal(decode_spec);
                        assert(!key_cell_ok(page@, c as int));
                    }
                    return Err(Error::CorruptPage);
                }
                let key = page.read_fixed_bytes(at + 1, key_len as usize)?;
                keys.push(Key(key));
                c += 1;
            }
            let node = Node {
                node_type: NodeType::Internal(children, keys),
                is_root: root_byte == 1,
                parent_offset,
            };
            proof {
                assert(decodable(page@));
                assert(node@.kind->Internal_0 =~= decoded_node(page@).kind->Internal_0);
                assert(node@.kind->Internal_1 =~= decoded_node(page@).kind->Internal_1);
            }
            Ok(node)
        }
    }
}

} // verus!
