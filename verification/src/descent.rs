//! The way down the tree for a key, and what an insertion leaves behind on
//! it, page by page.
use vstd::prelude::*;
use crate::error::Error;
use crate::lex::lex_le;
use crate::node::{
    decode_spec, encode_bytes, split_left, split_median, split_right, NodeView,
};
use crate::node_type::{pair_keys, KindView, Offset};
use crate::sorted::{
    bisect, lemma_bisect_is_route, lemma_route_bounds, lemma_route_split, lemma_route_vs, route,
};
use crate::split::{
    lemma_split_child, lemma_split_child_halves, lemma_split_root, lemma_split_root_halves,
    split_child_pre, split_pre, split_root_pre,
};
use crate::tree::{
    child_hi, child_lo, in_subtree, leaf_get, lemma_subtree_in_store, lemma_wf_child,
    lemma_wf_top, lookup, node_at, subtree_wf,
};

verus! {

/// The child of the node at `off` that a search for `key` goes to.
pub open spec fn next_child(s: Seq<Seq<u8>>, off: Offset, key: Seq<u8>) -> Offset {
    node_at(s, off).children()[route(node_at(s, off).keys(), key)]
}

/// Page `p` lies on the way down from the node at `off` for `key`: it is
/// that node, or lies on the way down from the child that the search goes
/// to.
pub open spec fn on_path(s: Seq<Seq<u8>>, off: Offset, h: nat, key: Seq<u8>, p: Offset) -> bool
    decreases h,
{
    p == off || (h > 0 && on_path(s, next_child(s, off, key), (h - 1) as nat, key, p))
}

/// The node at `off` holds as many entries as a node may.
pub open spec fn is_full_at(s: Seq<Seq<u8>>, off: Offset, b: nat) -> bool {
    node_at(s, off).entries() == 2 * b - 1
}

/// The number of full nodes on the way down for `key` below the node at
/// `off`: each of them is split by an insertion of `key`, and each split
/// appends one page.
pub open spec fn splits_below(s: Seq<Seq<u8>>, off: Offset, h: nat, b: nat, key: Seq<u8>) -> nat
    decreases h,
{
    if h == 0 {
        0
    } else {
        (if is_full_at(s, next_child(s, off, key), b) {
            1nat
        } else {
            0nat
        }) + splits_below(s, next_child(s, off, key), (h - 1) as nat, b, key)
    }
}

/// The leaf `n` with the pair `(k, v)` in its place among the pairs.
pub open spec fn leaf_with(n: NodeView, k: Seq<u8>, v: Seq<u8>) -> NodeView {
    NodeView {
        kind: KindView::Leaf(n.pairs().insert(route(pair_keys(n.pairs()), k), (k, v))),
        is_root: n.is_root,
        parent: n.parent,
    }
}

/// The internal node `n` after its child `i` was split: the median `m` is
/// key `i`, and the new sibling `sib` is child `i + 1`.
pub open spec fn node_with_split(n: NodeView, i: int, m: Seq<u8>, sib: Offset) -> NodeView {
    NodeView {
        kind: KindView::Internal(n.children().insert(i + 1, sib), n.keys().insert(i, m)),
        is_root: n.is_root,
        parent: n.parent,
    }
}

/// The store after the full child `i` of the node at `off` was split: the
/// child's page holds its first half, a new page at the end holds its
/// second half, and the node's page holds the node with the median and
/// the new page taken in.
pub open spec fn after_child_split(s: Seq<Seq<u8>>, off: Offset, i: int, b: nat) -> Seq<Seq<u8>> {
    let n = node_at(s, off);
    let c = n.children()[i];
    let cn = node_at(s, c);
    s.update(c.0 as int, encode_bytes(split_left(cn, b))).push(
        encode_bytes(split_right(cn, b)),
    ).update(
        off.0 as int,
        encode_bytes(node_with_split(n, i, split_median(cn, b), Offset(s.len() as usize))),
    )
}

/// The page of the subtree at `off` that the descent for `key` goes on
/// with after the child on its way was split if it was full: the child, or
/// its new sibling if `key` lies above the median.
pub open spec fn descent_target(s: Seq<Seq<u8>>, off: Offset, b: nat, key: Seq<u8>) -> Offset {
    let c = next_child(s, off, key);
    if is_full_at(s, c, b) && !lex_le(key, split_median(node_at(s, c), b)) {
        Offset(s.len() as usize)
    } else {
        c
    }
}

/// The store after the pair `(k, v)` was put into the subtree of height
/// `h` at `off`, whose top node is not full. A leaf that does not hold `k`
/// is rewritten in place with the pair among its pairs; a leaf that holds
/// `k` stays. At an internal node the child on the way is split first if
/// it is full, and the pair goes into the child, or into the half of it
/// on whose side of the median `k` lies.
pub open spec fn insert_into(
    s: Seq<Seq<u8>>,
    off: Offset,
    h: nat,
    b: nat,
    k: Seq<u8>,
    v: Seq<u8>,
) -> Seq<Seq<u8>>
    decreases h,
{
    let n = node_at(s, off);
    if h == 0 {
        if leaf_get(n.pairs(), k) is Some {
            s
        } else {
            s.update(off.0 as int, encode_bytes(leaf_with(n, k, v)))
        }
    } else if is_full_at(s, next_child(s, off, k), b) {
        insert_into(
            after_child_split(s, off, route(n.keys(), k), b),
            descent_target(s, off, b, k),
            (h - 1) as nat,
            b,
            k,
            v,
        )
    } else {
        insert_into(s, next_child(s, off, k), (h - 1) as nat, b, k, v)
    }
}

/// The way down and the full nodes on it are the same in two stores in
/// which the pages of the subtree are the same, and the way down stays
/// within the subtree.
pub proof fn lemma_path_frame(
    s: Seq<Seq<u8>>,
    t: Seq<Seq<u8>>,
    off: Offset,
    h: nat,
    lo: Option<Seq<u8>>,
    hi: Option<Seq<u8>>,
    b: nat,
    min: int,
    root: bool,
    key: Seq<u8>,
)
    requires
        subtree_wf(s, off, h, lo, hi, b, min, root, -1),
        forall|p: Offset| #[trigger]
            in_subtree(s, off, h, p) ==> p.0 < t.len() && t[p.0 as int] == s[p.0 as int],
    ensures
        forall|p: Offset| #[trigger] on_path(t, off, h, key, p) == on_path(s, off, h, key, p),
        forall|p: Offset| #[trigger] on_path(s, off, h, key, p) ==> in_subtree(s, off, h, p),
        splits_below(t, off, h, b, key) == splits_below(s, off, h, b, key),
    decreases h,
{
    assert(in_subtree(s, off, h, off));
    assert(node_at(t, off) == node_at(s, off));
    if h > 0 {
        let n = node_at(s, off);
        let hh = (h - 1) as nat;
        lemma_wf_top(s, off, h, lo, hi, b, min, root, -1);
        lemma_route_bounds(n.keys(), key);
        let i = route(n.keys(), key);
        let c = n.children()[i];
        assert(next_child(s, off, key) == c);
        assert(next_child(t, off, key) == c);
        lemma_wf_child(s, off, h, lo, hi, b, min, root, -1, i);
        assert(in_subtree(s, c, hh, c));
        assert forall|p: Offset| #[trigger] in_subtree(s, c, hh, p) implies p.0 < t.len()
            && t[p.0 as int] == s[p.0 as int] by {
            assert(in_subtree(s, off, h, p));
        }
        lemma_path_frame(s, t, c, hh, child_lo(n.keys(), lo, i), child_hi(n.keys(), hi, i), b, b
            - 1, false, key);
        assert forall|p: Offset| #[trigger] on_path(s, off, h, key, p) implies in_subtree(
            s,
            off,
            h,
            p,
        ) by {
            if p != off {
                assert(on_path(s, c, hh, key, p));
                assert(in_subtree(s, c, hh, p));
            }
        }
        assert forall|p: Offset| #[trigger]
            on_path(t, off, h, key, p) == on_path(s, off, h, key, p) by {
            assert(on_path(t, c, hh, key, p) == on_path(s, c, hh, key, p));
        }
    }
}

/// Of the two halves of the split node at `c`, the one on whose side of the
/// median `key` lies: the node's own page, or the new page `sib`.
pub open spec fn half_of(s: Seq<Seq<u8>>, c: Offset, sib: Offset, b: nat, key: Seq<u8>) -> Offset {
    if lex_le(key, split_median(node_at(s, c), b)) {
        c
    } else {
        sib
    }
}

/// After a full node was split, the way down for `key` from the half on
/// whose side of the median `key` lies goes, below the half, where it went
/// below the node, and meets the full nodes that it met.
pub proof fn lemma_path_in_half(
    s: Seq<Seq<u8>>,
    t: Seq<Seq<u8>>,
    c: Offset,
    sib: Offset,
    hc: nat,
    lo: Option<Seq<u8>>,
    hi: Option<Seq<u8>>,
    b: nat,
    min: int,
    root: bool,
    key: Seq<u8>,
)
    requires
        split_pre(s, t, c, sib, hc, lo, hi, b, min, root),
    ensures
        splits_below(t, half_of(s, c, sib, b, key), hc, b, key) == splits_below(s, c, hc, b, key),
        forall|p: Offset| #[trigger]
            on_path(t, half_of(s, c, sib, b, key), hc, key, p) ==> p == half_of(s, c, sib, b, key)
                || (on_path(s, c, hc, key, p) && p != c && p.0 < s.len()),
{
    let cn = node_at(s, c);
    let m = split_median(cn, b);
    let half = if lex_le(key, m) {
        c
    } else {
        sib
    };
    if hc > 0 {
        let g = (hc - 1) as nat;
        let ks = cn.keys();
        let ch = cn.children();
        let hn = node_at(t, half);
        lemma_wf_top(s, c, hc, lo, hi, b, min, root, -1);
        lemma_route_bounds(ks, key);
        lemma_route_vs(ks, key, b - 1);
        lemma_route_split(ks, key, b - 1);
        lemma_route_split(ks, key, b as int);
        let r = route(ks, key);
        let child = ch[r];
        assert(next_child(s, c, key) == child);
        if lex_le(key, m) {
            assert(hn.keys() == ks.subrange(0, b - 1));
            assert(hn.children() == ch.subrange(0, b as int));
            assert(hn.children()[r] == ch[r]);
        } else {
            assert(hn.keys() == ks.subrange(b as int, ks.len() as int));
            assert(hn.children() == ch.subrange(b as int, 2 * b as int));
            assert(hn.children()[r - b] == ch[r]);
        }
        assert(next_child(t, half, key) == child);
        lemma_wf_child(s, c, hc, lo, hi, b, min, root, -1, r);
        assert(in_subtree(s, child, g, child));
        assert forall|p: Offset| #[trigger] in_subtree(s, child, g, p) implies p.0 < t.len()
            && t[p.0 as int] == s[p.0 as int] && p != c && p.0 < s.len() by {
            assert(in_subtree(s, c, hc, p));
            lemma_subtree_in_store(
                s,
                child,
                g,
                child_lo(ks, lo, r),
                child_hi(ks, hi, r),
                b,
                b - 1,
                false,
                -1,
                p,
            );
        }
        lemma_path_frame(s, t, child, g, child_lo(ks, lo, r), child_hi(ks, hi, r), b, b - 1, false, key);
        assert(node_at(t, child) == node_at(s, child));
        assert forall|p: Offset| #[trigger] on_path(t, half, hc, key, p) implies p == half || (
        on_path(s, c, hc, key, p) && p != c && p.0 < s.len()) by {
            if p != half {
                assert(on_path(t, child, g, key, p));
                assert(on_path(s, child, g, key, p));
                assert(in_subtree(s, child, g, p));
            }
        }
    }
}


/// What an insertion of `(k, v)` into the subtree at `off` has done to the
/// node at `off` and to the nodes right below it, between store `s` and
/// store `t`:
/// - the node says what it said of being the root and of its parent;
/// - a leaf that held `k` has left the store as it was, any other leaf
///   holds its pairs with `(k, v)` in its place, and no page was added;
/// - an internal node whose child on the way was full holds its keys with
///   the child's median at the child's index and its children with the
///   first new page right after the child; of the two halves, the one
///   that the descent did not go on with holds exactly its half;
/// - an internal node whose child on the way was not full has its page as
///   it was;
/// - the child on the way says what it said of being the root and of its
///   parent.
pub open spec fn inserted_shape(
    s: Seq<Seq<u8>>,
    t: Seq<Seq<u8>>,
    off: Offset,
    h: nat,
    b: nat,
    k: Seq<u8>,
    v: Seq<u8>,
) -> bool {
    let n = node_at(s, off);
    let c = next_child(s, off, k);
    let cn = node_at(s, c);
    let sib = Offset(s.len() as usize);
    &&& node_at(t, off).is_root == n.is_root
    &&& node_at(t, off).parent == n.parent
    &&& h == 0 ==> t.len() == s.len() && if leaf_get(n.pairs(), k) is Some {
        t == s
    } else {
        node_at(t, off) == leaf_with(n, k, v)
    }
    &&& h > 0 && is_full_at(s, c, b) ==> {
        &&& node_at(t, off) == node_with_split(n, route(n.keys(), k), split_median(cn, b), sib)
        &&& lex_le(k, split_median(cn, b)) ==> node_at(t, sib) == split_right(cn, b)
        &&& !lex_le(k, split_median(cn, b)) ==> node_at(t, c) == split_left(cn, b)
        &&& !node_at(t, sib).is_root
        &&& node_at(t, sib).parent == cn.parent
    }
    &&& h > 0 && !is_full_at(s, c, b) ==> t[off.0 as int] == s[off.0 as int]
    &&& h > 0 ==> node_at(t, c).is_root == cn.is_root && node_at(t, c).parent == cn.parent
}

/// What a descent of an insertion has left behind, between store `s` and
/// store `t`: exactly the store that `insert_into` tells, one new page for
/// each full node on the way, and every page off the way as it was.
pub open spec fn inserted(
    s: Seq<Seq<u8>>,
    t: Seq<Seq<u8>>,
    off: Offset,
    h: nat,
    b: nat,
    k: Seq<u8>,
    v: Seq<u8>,
) -> bool {
    &&& t == insert_into(s, off, h, b, k, v)
    &&& t.len() == s.len() + splits_below(s, off, h, b, k)
    &&& forall|p: Offset|
        p.0 < s.len() && !on_path(s, off, h, k, p) ==> #[trigger] t[p.0 as int] == s[p.0 as int]
    &&& inserted_shape(s, t, off, h, b, k, v)
}

/// After the full child on the way for `key` was split, the way goes on
/// with the half on whose side of the median `key` lies; below the half it
/// goes where it went below the child, and meets the full nodes that it
/// met.
pub proof fn lemma_split_child_path(
    s: Seq<Seq<u8>>,
    t: Seq<Seq<u8>>,
    off: Offset,
    h: nat,
    lo: Option<Seq<u8>>,
    hi: Option<Seq<u8>>,
    b: nat,
    min: int,
    root: bool,
    sib: Offset,
    key: Seq<u8>,
)
    requires
        split_child_pre(s, t, off, h, lo, hi, b, min, root, route(node_at(s, off).keys(), key), sib),
    ensures
        next_child(t, off, key) == descent_target(s, off, b, key),
        descent_target(s, off, b, key) == next_child(s, off, key) || descent_target(s, off, b, key)
            == sib,
        splits_below(t, descent_target(s, off, b, key), (h - 1) as nat, b, key) == splits_below(
            s,
            next_child(s, off, key),
            (h - 1) as nat,
            b,
            key,
        ),
        forall|p: Offset| #[trigger]
            on_path(t, descent_target(s, off, b, key), (h - 1) as nat, key, p) ==> p
                == descent_target(s, off, b, key) || (on_path(
                s,
                next_child(s, off, key),
                (h - 1) as nat,
                key,
                p,
            ) && p != next_child(s, off, key) && p.0 < s.len()),
{
    let n = node_at(s, off);
    let i = route(n.keys(), key);
    let c = n.children()[i];
    let hh = (h - 1) as nat;
    lemma_split_child(s, t, off, h, lo, hi, b, min, root, i, sib);
    lemma_split_child_halves(s, t, off, h, lo, hi, b, min, root, i, sib);
    assert(node_at(t, off).children() == n.children().insert(i + 1, sib));
    assert(route(node_at(t, off).keys(), key) == if lex_le(
        key,
        split_median(node_at(s, c), b),
    ) {
        i
    } else {
        i + 1
    });
    assert(is_full_at(s, c, b));
    lemma_path_in_half(
        s,
        t,
        c,
        sib,
        hh,
        child_lo(n.keys(), lo, i),
        child_hi(n.keys(), hi, i),
        b,
        b - 1,
        false,
        key,
    );
}

/// An insertion that has gone on below the node at `off`, after a split
/// of the child on the way if that was full, is an insertion into the
/// subtree at `off`.
pub proof fn lemma_inserted_below(
    s: Seq<Seq<u8>>,
    t: Seq<Seq<u8>>,
    u: Seq<Seq<u8>>,
    off: Offset,
    h: nat,
    lo: Option<Seq<u8>>,
    hi: Option<Seq<u8>>,
    b: nat,
    min: int,
    root: bool,
    k: Seq<u8>,
    v: Seq<u8>,
)
    requires
        h > 0,
        subtree_wf(s, off, h, lo, hi, b, min, root, -1),
        if is_full_at(s, next_child(s, off, k), b) {
            &&& split_child_pre(
                s,
                t,
                off,
                h,
                lo,
                hi,
                b,
                min,
                root,
                route(node_at(s, off).keys(), k),
                Offset(s.len() as usize),
            )
            &&& t == after_child_split(s, off, route(node_at(s, off).keys(), k), b)
            &&& node_at(t, off) == node_with_split(
                node_at(s, off),
                route(node_at(s, off).keys(), k),
                split_median(node_at(s, next_child(s, off, k)), b),
                Offset(s.len() as usize),
            )
            &&& node_at(t, next_child(s, off, k)) == split_left(
                node_at(s, next_child(s, off, k)),
                b,
            )
            &&& node_at(t, Offset(s.len() as usize)) == split_right(
                node_at(s, next_child(s, off, k)),
                b,
            )
        } else {
            t == s
        },
        inserted(t, u, descent_target(s, off, b, k), (h - 1) as nat, b, k, v),
        u[off.0 as int] == t[off.0 as int],
        off.0 < t.len(),
    ensures
        inserted(s, u, off, h, b, k, v),
{
    let n = node_at(s, off);
    let i = route(n.keys(), k);
    let c = n.children()[i];
    let cn = node_at(s, c);
    let hh = (h - 1) as nat;
    let half = descent_target(s, off, b, k);
    lemma_wf_top(s, off, h, lo, hi, b, min, root, -1);
    lemma_route_bounds(n.keys(), k);
    lemma_wf_child(s, off, h, lo, hi, b, min, root, -1, i);
    assert(in_subtree(s, c, hh, c));
    if is_full_at(s, c, b) {
        let sib = Offset(s.len() as usize);
        let m = split_median(cn, b);
        lemma_split_child_path(s, t, off, h, lo, hi, b, min, root, sib, k);
        assert(u == insert_into(s, off, h, b, k, v));
        assert(t.len() == s.len() + 1);
        assert forall|p: Offset| p.0 < s.len() && !on_path(s, off, h, k, p) implies #[trigger] u[p.0 as int]
            == s[p.0 as int] by {
            assert(p != off);
            assert(!on_path(s, c, hh, k, p));
            assert(p != c);
            assert(t[p.0 as int] == s[p.0 as int]);
            if on_path(t, half, hh, k, p) {
                assert(p == half);
            }
        }
        // The half that the descent did not go on with.
        if lex_le(k, m) {
            assert(half == c);
            if on_path(t, half, hh, k, sib) {
                assert(sib == half || sib.0 < s.len());
            }
            assert(u[sib.0 as int] == t[sib.0 as int]);
        } else {
            assert(half == sib);
            if on_path(t, half, hh, k, c) {
                assert(c == half || c != c);
            }
            assert(u[c.0 as int] == t[c.0 as int]);
        }
        assert(node_at(u, off) == node_at(t, off));
        assert(inserted_shape(s, u, off, h, b, k, v));
    } else {
        assert(half == c);
        assert(u == insert_into(s, off, h, b, k, v));
        assert forall|p: Offset| p.0 < s.len() && !on_path(s, off, h, k, p) implies #[trigger] u[p.0 as int]
            == s[p.0 as int] by {
            assert(!on_path(s, c, hh, k, p));
        }
        assert(inserted_shape(s, u, off, h, b, k, v));
    }
}

/// After the full root at `r` was split and the superblock was written,
/// the way down for `key` from the new root goes on with the half of the
/// old root on whose side of the median `key` lies, which is not full;
/// below it the way goes where it went below the old root, and meets the
/// full nodes that it met.
pub proof fn lemma_root_split_path(
    s: Seq<Seq<u8>>,
    t: Seq<Seq<u8>>,
    u: Seq<Seq<u8>>,
    r: Offset,
    h: nat,
    b: nat,
    min: int,
    nr: Offset,
    sib: Offset,
    key: Seq<u8>,
)
    requires
        split_root_pre(s, t, r, h, b, min, nr, sib),
        u.len() == t.len(),
        forall|p: Offset| 0 < p.0 < t.len() ==> #[trigger] u[p.0 as int] == t[p.0 as int],
    ensures
        next_child(u, nr, key) == half_of(s, r, sib, b, key),
        !is_full_at(u, next_child(u, nr, key), b),
        splits_below(u, nr, h + 1, b, key) == splits_below(s, r, h, b, key),
        forall|p: Offset| #[trigger]
            on_path(u, nr, h + 1, key, p) ==> p == nr || p == next_child(u, nr, key) || (on_path(
                s,
                r,
                h,
                key,
                p,
            ) && p != r && p.0 < s.len()),
{
    let m = split_median(node_at(s, r), b);
    let half = if lex_le(key, m) {
        r
    } else {
        sib
    };
    lemma_split_root(s, t, r, h, b, min, nr, sib);
    lemma_split_root_halves(s, t, r, h, b, min, nr, sib);
    lemma_path_in_half(s, t, r, sib, h, None, None, b, min, true, key);
    let n2 = node_at(t, nr);
    assert(node_at(u, nr) == n2);
    assert(n2.children() == seq![r, sib]);
    assert(n2.keys() == seq![m]);
    crate::lex::lemma_lex_irreflexive(m);
    crate::lex::lemma_lex_total(key, m);
    if lex_le(key, m) {
        crate::sorted::lemma_route_is(n2.keys(), key, 0);
    } else {
        crate::sorted::lemma_route_is(n2.keys(), key, 1);
    }
    assert(next_child(u, nr, key) == half);
    assert(next_child(t, nr, key) == half);
    let i = route(n2.keys(), key);
    lemma_wf_child(t, nr, h + 1, None, None, b, 1, true, -1, i);
    let hh = ((h + 1) - 1) as nat;
    assert(hh == h);
    crate::tree::lemma_subtree_pages(
        t,
        half,
        h,
        child_lo(n2.keys(), None, i),
        child_hi(n2.keys(), None, i),
        b,
        b - 1,
        false,
        -1,
    );
    lemma_path_frame(
        t,
        u,
        half,
        h,
        child_lo(n2.keys(), None, i),
        child_hi(n2.keys(), None, i),
        b,
        b - 1,
        false,
        key,
    );
    assert(in_subtree(t, half, h, half));
    assert(node_at(u, half) == node_at(t, half));
    assert forall|p: Offset| #[trigger] on_path(u, nr, h + 1, key, p) implies p == nr || p
        == half || (on_path(s, r, h, key, p) && p != r && p.0 < s.len()) by {
        if p != nr {
            assert(on_path(u, half, h, key, p));
            assert(on_path(t, half, h, key, p));
        }
    }
}


/// What a search for `key` answers that starts at the page `off` and goes
/// at most `fuel` levels down, whatever the pages hold:
/// - `IoError` where the way leads to an offset that the store does not
///   have;
/// - `CorruptPage` where a page on the way holds no node;
/// - `TreeInvariantViolation` where an internal node on the way lacks the
///   child that the search asks for, or the way does not end at a leaf
///   within `fuel` levels;
/// - at a leaf, the pair under `key`, or `KeyNotFound`.
pub open spec fn search_walk(s: Seq<Seq<u8>>, off: Offset, fuel: nat, key: Seq<u8>) -> Result<
    (Seq<u8>, Seq<u8>),
    Error,
>
    decreases fuel, 1nat,
{
    if off.0 >= s.len() {
        Err(Error::IoError)
    } else {
        match decode_spec(s[off.0 as int]) {
            Err(e) => Err(e),
            Ok(n) => walk_node(s, n, fuel, key),
        }
    }
}

/// What a search for `key` answers that starts at the node `n` and goes
/// at most `fuel` levels down.
pub open spec fn walk_node(s: Seq<Seq<u8>>, n: NodeView, fuel: nat, key: Seq<u8>) -> Result<
    (Seq<u8>, Seq<u8>),
    Error,
>
    decreases fuel, 0nat,
{
    match n.kind {
        KindView::Leaf(pairs) => {
            let i = bisect(pair_keys(pairs), key, 0, pairs.len() as int);
            if i < pairs.len() && pairs[i].0 == key {
                Ok(pairs[i])
            } else {
                Err(Error::KeyNotFound)
            }
        },
        KindView::Internal(children, keys) => {
            let i = bisect(keys, key, 0, keys.len() as int);
            if i >= children.len() || fuel == 0 {
                Err(Error::TreeInvariantViolation)
            } else {
                search_walk(s, children[i], (fuel - 1) as nat, key)
            }
        },
    }
}

/// In a well-formed subtree a search that may go as far down as the
/// subtree is high finds what the subtree holds under `key`, or answers
/// `KeyNotFound`.
pub proof fn lemma_walk_is_lookup(
    s: Seq<Seq<u8>>,
    off: Offset,
    h: nat,
    lo: Option<Seq<u8>>,
    hi: Option<Seq<u8>>,
    b: nat,
    min: int,
    root: bool,
    fuel: nat,
    key: Seq<u8>,
)
    requires
        subtree_wf(s, off, h, lo, hi, b, min, root, -1),
        fuel >= h,
    ensures
        search_walk(s, off, fuel, key) == match lookup(s, off, h, key) {
            Some(v) => Ok::<(Seq<u8>, Seq<u8>), Error>((key, v)),
            None => Err::<(Seq<u8>, Seq<u8>), Error>(Error::KeyNotFound),
        },
    decreases h,
{
    let n = node_at(s, off);
    lemma_wf_top(s, off, h, lo, hi, b, min, root, -1);
    assert(search_walk(s, off, fuel, key) == walk_node(s, n, fuel, key));
    if h == 0 {
        let ks = pair_keys(n.pairs());
        lemma_bisect_is_route(ks, key, 0, ks.len() as int);
        lemma_route_bounds(ks, key);
    } else {
        let ks = n.keys();
        lemma_bisect_is_route(ks, key, 0, ks.len() as int);
        lemma_route_bounds(ks, key);
        let i = route(ks, key);
        lemma_wf_child(s, off, h, lo, hi, b, min, root, -1, i);
        lemma_walk_is_lookup(
            s,
            n.children()[i],
            (h - 1) as nat,
            child_lo(ks, lo, i),
            child_hi(ks, hi, i),
            b,
            b - 1,
            false,
            (fuel - 1) as nat,
            key,
        );
    }
}

} // verus!
