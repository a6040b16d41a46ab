//! What a deletion leaves behind, page by page.
use vstd::prelude::*;
use crate::node::{encode_bytes, lend_first, lend_last, merged_node, NodeView};
use crate::node_type::{pair_keys, KindView, Offset};
use crate::sorted::route;
use crate::tree::node_at;

verus! {

/// The leaf `n` without its pair `i`.
pub open spec fn leaf_without(n: NodeView, i: int) -> NodeView {
    NodeView { kind: KindView::Leaf(n.pairs().remove(i)), is_root: n.is_root, parent: n.parent }
}

/// The internal node `n` with the key `sep` in the place of its key `j`.
pub open spec fn with_key(n: NodeView, j: int, sep: Seq<u8>) -> NodeView {
    NodeView {
        kind: KindView::Internal(n.children(), n.keys().update(j, sep)),
        is_root: n.is_root,
        parent: n.parent,
    }
}

/// The internal node `n` without its key `j` and without the child after
/// that key.
pub open spec fn without_child(n: NodeView, j: int) -> NodeView {
    NodeView {
        kind: KindView::Internal(n.children().remove(j + 1), n.keys().remove(j)),
        is_root: n.is_root,
        parent: n.parent,
    }
}

/// The store after entries moved between the children `j` and `j + 1` of
/// the node at `off`: the pages of the two hold `left` and `right`, and
/// the page of the node holds the node with `sep` between the two.
pub open spec fn after_rotation(
    s: Seq<Seq<u8>>,
    off: Offset,
    j: int,
    left: NodeView,
    sep: Seq<u8>,
    right: NodeView,
) -> Seq<Seq<u8>> {
    let n = node_at(s, off);
    s.update(n.children()[j].0 as int, encode_bytes(left)).update(
        n.children()[j + 1].0 as int,
        encode_bytes(right),
    ).update(off.0 as int, encode_bytes(with_key(n, j, sep)))
}

/// The store after the children `j` and `j + 1` of the node at `off` were
/// merged into `node`: the page of child `j` holds `node`, and the page of
/// the node holds the node without the key between the two and without
/// child `j + 1`, whose page is left behind.
pub open spec fn after_merge(s: Seq<Seq<u8>>, off: Offset, j: int, node: NodeView) -> Seq<Seq<u8>> {
    let n = node_at(s, off);
    s.update(n.children()[j].0 as int, encode_bytes(node)).update(
        off.0 as int,
        encode_bytes(without_child(n, j)),
    )
}

/// The store after child `i` of the node at `off`, which holds too few
/// entries, was repaired:
/// - it borrows the last entry of its left neighbour, if it has one that
///   holds more than `b - 1` entries;
/// - else it borrows the first entry of its right neighbour, if it has one
///   that holds more than `b - 1` entries;
/// - else it is merged into its left neighbour, if it has one;
/// - else its right neighbour is merged into it.
pub open spec fn repaired(s: Seq<Seq<u8>>, off: Offset, i: int, b: nat) -> Seq<Seq<u8>> {
    let n = node_at(s, off);
    let ch = n.children();
    let ks = n.keys();
    let child = node_at(s, ch[i]);
    if i > 0 && node_at(s, ch[i - 1]).entries() > b - 1 {
        let moved = lend_last(node_at(s, ch[i - 1]), ks[i - 1], child);
        after_rotation(s, off, i - 1, moved.0, moved.1, moved.2)
    } else if i + 1 < ch.len() && node_at(s, ch[i + 1]).entries() > b - 1 {
        let moved = lend_first(child, ks[i], node_at(s, ch[i + 1]));
        after_rotation(s, off, i, moved.0, moved.1, moved.2)
    } else if i > 0 {
        after_merge(s, off, i - 1, merged_node(node_at(s, ch[i - 1]), ks[i - 1], child))
    } else {
        after_merge(s, off, i, merged_node(child, ks[i], node_at(s, ch[i + 1])))
    }
}

/// The store after `key` was taken out of the subtree of height `h` at
/// `off`. A leaf that holds `key` is rewritten in place without the pair;
/// a leaf that does not hold it stays, and so does the store. At an
/// internal node the key is taken out of the child that a search for it
/// goes to, and the child is repaired if that leaves it with fewer than
/// `b - 1` entries.
pub open spec fn delete_from(s: Seq<Seq<u8>>, off: Offset, h: nat, b: nat, key: Seq<u8>) -> Seq<
    Seq<u8>,
>
    decreases h,
{
    let n = node_at(s, off);
    if h == 0 {
        let i = route(pair_keys(n.pairs()), key);
        if i < n.pairs().len() && n.pairs()[i].0 == key {
            s.update(off.0 as int, encode_bytes(leaf_without(n, i)))
        } else {
            s
        }
    } else {
        let i = route(n.keys(), key);
        let c = n.children()[i];
        let below = delete_from(s, c, (h - 1) as nat, b, key);
        if node_at(below, c).entries() < b - 1 {
            repaired(below, off, i, b)
        } else {
            below
        }
    }
}

/// The node `n` as the root.
pub open spec fn as_root(n: NodeView) -> NodeView {
    NodeView { kind: n.kind, is_root: true, parent: None }
}

} // verus!
