//! What it means for the pages of a store to hold a B+Tree, and what the
//! tree then maps each key to.
use vstd::prelude::*;
use crate::lex::{lex_le, lex_lt};
use crate::node::{decode_spec, NodeView};
use crate::node_type::{pair_keys, Offset};
use crate::sorted::{route, sorted};

verus! {

/// The node that the page at `off` holds.
pub open spec fn node_at(s: Seq<Seq<u8>>, off: Offset) -> NodeView {
    decode_spec(s[off.0 as int])->Ok_0
}

/// `key` lies above the lower bound, if there is one.
pub open spec fn above(lo: Option<Seq<u8>>, key: Seq<u8>) -> bool {
    lo matches Some(l) ==> lex_lt(l, key)
}

/// `key` lies strictly below the upper bound, if there is one.
pub open spec fn below(key: Seq<u8>, hi: Option<Seq<u8>>) -> bool {
    hi matches Some(h) ==> lex_lt(key, h)
}

/// `key` lies at or below the upper bound, if there is one.
pub open spec fn at_most(key: Seq<u8>, hi: Option<Seq<u8>>) -> bool {
    hi matches Some(h) ==> lex_le(key, h)
}

/// The lower bound of child `i` of a node with separators `keys` and lower
/// bound `lo`.
pub open spec fn child_lo(keys: Seq<Seq<u8>>, lo: Option<Seq<u8>>, i: int) -> Option<Seq<u8>> {
    if i <= 0 {
        lo
    } else {
        Some(keys[i - 1])
    }
}

/// The upper bound of child `i` of a node with separators `keys` and upper
/// bound `hi`.
pub open spec fn child_hi(keys: Seq<Seq<u8>>, hi: Option<Seq<u8>>, i: int) -> Option<Seq<u8>> {
    if i >= keys.len() {
        hi
    } else {
        Some(keys[i])
    }
}

/// A leaf whose keys ascend and lie above `lo` and at or below `hi`.
pub open spec fn leaf_wf(n: NodeView, lo: Option<Seq<u8>>, hi: Option<Seq<u8>>) -> bool {
    &&& n.kind is Leaf
    &&& sorted(pair_keys(n.pairs()))
    &&& forall|i: int|
        0 <= i < n.pairs().len() ==> above(lo, (#[trigger] n.pairs()[i]).0) && at_most(
            n.pairs()[i].0,
            hi,
        )
}

/// An internal node with one child more than keys, whose keys ascend and lie
/// strictly between `lo` and `hi`.
pub open spec fn inner_wf(n: NodeView, lo: Option<Seq<u8>>, hi: Option<Seq<u8>>) -> bool {
    &&& n.kind is Internal
    &&& n.children().len() == n.keys().len() + 1
    &&& sorted(n.keys())
    &&& forall|i: int|
        0 <= i < n.keys().len() ==> above(lo, #[trigger] n.keys()[i]) && below(n.keys()[i], hi)
}

/// Page `p` belongs to the subtree of height `h` rooted at `off`.
pub open spec fn in_subtree(s: Seq<Seq<u8>>, off: Offset, h: nat, p: Offset) -> bool
    decreases h,
{
    p == off || (h > 0 && exists|i: int|
        0 <= i < node_at(s, off).children().len() && in_subtree(
            s,
            #[trigger] node_at(s, off).children()[i],
            (h - 1) as nat,
            p,
        ))
}

/// The fewest entries that child `i` may hold: one less than the others for
/// the child `weak`, which a deletion has just left.
pub open spec fn child_min(b: nat, weak: int, i: int) -> int {
    if i == weak {
        b - 2
    } else {
        b - 1
    }
}

/// The pages at and below `off` hold a well-formed subtree of height `h`
/// (a leaf has height 0):
/// - every page decodes to a node, of which only the one at `off` says that
///   it is the root, and that exactly if `root`;
/// - the leaves are all at the same depth;
/// - within each node the keys ascend, and every key in the subtree lies
///   above `lo` and at or below `hi` (separators: strictly below), with
///   child `i` of a node bounded by the separators around it;
/// - the node at `off` holds between `min` and `2b - 1` entries, every node
///   below it between `b - 1` and `2b - 1`, but for child `weak` of the node
///   at `off`, which may hold `b - 2`;
/// - no page belongs to two children, nor to a node and its own subtree.
pub open spec fn subtree_wf(
    s: Seq<Seq<u8>>,
    off: Offset,
    h: nat,
    lo: Option<Seq<u8>>,
    hi: Option<Seq<u8>>,
    b: nat,
    min: int,
    root: bool,
    weak: int,
) -> bool
    decreases h,
{
    let n = node_at(s, off);
    &&& 0 < off.0 < s.len()
    &&& decode_spec(s[off.0 as int]) is Ok
    &&& n.is_root == root
    &&& min <= n.entries() <= 2 * b - 1
    &&& if h == 0 {
        leaf_wf(n, lo, hi)
    } else {
        &&& inner_wf(n, lo, hi)
        &&& forall|i: int|
            0 <= i < n.children().len() ==> subtree_wf(
                s,
                #[trigger] n.children()[i],
                (h - 1) as nat,
                child_lo(n.keys(), lo, i),
                child_hi(n.keys(), hi, i),
                b,
                child_min(b, weak, i),
                false,
                -1,
            )
        &&& forall|i: int|
            0 <= i < n.children().len() ==> !in_subtree(
                s,
                #[trigger] n.children()[i],
                (h - 1) as nat,
                off,
            )
        &&& forall|i: int, j: int, p: Offset|
            0 <= i < n.children().len() && 0 <= j < n.children().len() && i != j
                && #[trigger] in_subtree(s, n.children()[i], (h - 1) as nat, p) ==> !in_subtree(
                s,
                #[trigger] n.children()[j],
                (h - 1) as nat,
                p,
            )
    }
}

/// The value under `key` among the pairs of a leaf.
pub open spec fn leaf_get(pairs: Seq<(Seq<u8>, Seq<u8>)>, key: Seq<u8>) -> Option<Seq<u8>> {
    let i = route(pair_keys(pairs), key);
    if i < pairs.len() && pairs[i].0 == key {
        Some(pairs[i].1)
    } else {
        None
    }
}

/// The value that a search for `key` finds in the subtree of height `h`
/// rooted at `off`: it descends into the child that the separators assign
/// to `key`, down to a leaf.
pub open spec fn lookup(s: Seq<Seq<u8>>, off: Offset, h: nat, key: Seq<u8>) -> Option<Seq<u8>>
    decreases h,
{
    let n = node_at(s, off);
    if h == 0 {
        leaf_get(n.pairs(), key)
    } else {
        lookup(s, n.children()[route(n.keys(), key)], (h - 1) as nat, key)
    }
}

/// The keys of the subtree with their values.
pub open spec fn tree_map(s: Seq<Seq<u8>>, off: Offset, h: nat) -> Map<Seq<u8>, Seq<u8>> {
    Map::new(
        |key: Seq<u8>| lookup(s, off, h, key) is Some,
        |key: Seq<u8>| lookup(s, off, h, key)->Some_0,
    )
}

/// The store `t` came from `s` by changes to the subtree at `off` alone:
/// pages may have been appended, pages of the subtree rewritten, and the
/// subtree may have taken in new pages, but no page that was outside it.
pub open spec fn updated(s: Seq<Seq<u8>>, t: Seq<Seq<u8>>, off: Offset, h: nat) -> bool {
    &&& s.len() <= t.len()
    &&& forall|p: Offset|
        p.0 < s.len() && !in_subtree(s, off, h, p) ==> #[trigger] t[p.0 as int] == s[p.0 as int]
    &&& forall|p: Offset| #[trigger]
        in_subtree(t, off, h, p) ==> in_subtree(s, off, h, p) || p.0 >= s.len()
}

/// What well-formedness says of the node at the top of a subtree.
pub proof fn lemma_wf_top(
    s: Seq<Seq<u8>>,
    off: Offset,
    h: nat,
    lo: Option<Seq<u8>>,
    hi: Option<Seq<u8>>,
    b: nat,
    min: int,
    root: bool,
    weak: int,
)
    requires
        subtree_wf(s, off, h, lo, hi, b, min, root, weak),
    ensures
        0 < off.0 < s.len(),
        decode_spec(s[off.0 as int]) is Ok,
        node_at(s, off).is_root == root,
        min <= node_at(s, off).entries() <= 2 * b - 1,
        h == 0 ==> leaf_wf(node_at(s, off), lo, hi),
        h > 0 ==> inner_wf(node_at(s, off), lo, hi),
{
}

/// What well-formedness says of child `i` of the node at the top of a
/// subtree.
pub proof fn lemma_wf_child(
    s: Seq<Seq<u8>>,
    off: Offset,
    h: nat,
    lo: Option<Seq<u8>>,
    hi: Option<Seq<u8>>,
    b: nat,
    min: int,
    root: bool,
    weak: int,
    i: int,
)
    requires
        subtree_wf(s, off, h, lo, hi, b, min, root, weak),
        h > 0,
        0 <= i < node_at(s, off).children().len(),
    ensures
        subtree_wf(
            s,
            node_at(s, off).children()[i],
            (h - 1) as nat,
            child_lo(node_at(s, off).keys(), lo, i),
            child_hi(node_at(s, off).keys(), hi, i),
            b,
            child_min(b, weak, i),
            false,
            -1,
        ),
        0 < node_at(s, off).children()[i].0 < s.len(),
        node_at(s, off).children()[i] != off,
        decode_spec(s[node_at(s, off).children()[i].0 as int]) is Ok,
        !node_at(s, node_at(s, off).children()[i]).is_root,
        child_min(b, weak, i) <= node_at(s, node_at(s, off).children()[i]).entries() <= 2 * b - 1,
        h == 1 ==> leaf_wf(
            node_at(s, node_at(s, off).children()[i]),
            child_lo(node_at(s, off).keys(), lo, i),
            child_hi(node_at(s, off).keys(), hi, i),
        ),
        h > 1 ==> inner_wf(
            node_at(s, node_at(s, off).children()[i]),
            child_lo(node_at(s, off).keys(), lo, i),
            child_hi(node_at(s, off).keys(), hi, i),
        ),
{
    let c = node_at(s, off).children()[i];
    lemma_wf_top(
        s,
        c,
        (h - 1) as nat,
        child_lo(node_at(s, off).keys(), lo, i),
        child_hi(node_at(s, off).keys(), hi, i),
        b,
        child_min(b, weak, i),
        false,
        -1,
    );
    assert(in_subtree(s, c, (h - 1) as nat, c));
}

/// Every page of a well-formed subtree lies in the store, past the
/// superblock.
pub proof fn lemma_subtree_in_store(
    s: Seq<Seq<u8>>,
    off: Offset,
    h: nat,
    lo: Option<Seq<u8>>,
    hi: Option<Seq<u8>>,
    b: nat,
    min: int,
    root: bool,
    weak: int,
    p: Offset,
)
    requires
        subtree_wf(s, off, h, lo, hi, b, min, root, weak),
        in_subtree(s, off, h, p),
    ensures
        0 < p.0 < s.len(),
    decreases h,
{
    if p != off {
        let n = node_at(s, off);
        let i = choose|i: int|
            0 <= i < n.children().len() && in_subtree(
                s,
                #[trigger] n.children()[i],
                (h - 1) as nat,
                p,
            );
        lemma_subtree_in_store(
            s,
            n.children()[i],
            (h - 1) as nat,
            child_lo(n.keys(), lo, i),
            child_hi(n.keys(), hi, i),
            b,
            child_min(b, weak, i),
            false,
            -1,
            p,
        );
    }
}

/// A subtree whose pages are the same in two stores is the same subtree in
/// both.
pub proof fn lemma_frame(
    s: Seq<Seq<u8>>,
    t: Seq<Seq<u8>>,
    off: Offset,
    h: nat,
    lo: Option<Seq<u8>>,
    hi: Option<Seq<u8>>,
    b: nat,
    min: int,
    root: bool,
    weak: int,
)
    requires
        subtree_wf(s, off, h, lo, hi, b, min, root, weak),
        forall|p: Offset| #[trigger]
            in_subtree(s, off, h, p) ==> p.0 < t.len() && t[p.0 as int] == s[p.0 as int],
    ensures
        subtree_wf(t, off, h, lo, hi, b, min, root, weak),
        forall|p: Offset| in_subtree(t, off, h, p) == in_subtree(s, off, h, p),
        forall|key: Seq<u8>| lookup(t, off, h, key) == lookup(s, off, h, key),
        tree_map(t, off, h) == tree_map(s, off, h),
    decreases h,
{
    assert(in_subtree(s, off, h, off));
    let n = node_at(s, off);
    assert(node_at(t, off) == n);
    if h > 0 {
        let hh = (h - 1) as nat;
        assert forall|i: int| 0 <= i < n.children().len() implies {
            &&& subtree_wf(
                t,
                #[trigger] n.children()[i],
                hh,
                child_lo(n.keys(), lo, i),
                child_hi(n.keys(), hi, i),
                b,
                child_min(b, weak, i),
                false,
                -1,
            )
            &&& forall|p: Offset|
                in_subtree(t, n.children()[i], hh, p) == in_subtree(s, n.children()[i], hh, p)
            &&& forall|key: Seq<u8>|
                lookup(t, n.children()[i], hh, key) == lookup(s, n.children()[i], hh, key)
        } by {
            let c = n.children()[i];
            assert forall|p: Offset| #[trigger] in_subtree(s, c, hh, p) implies p.0 < t.len()
                && t[p.0 as int] == s[p.0 as int] by {
                assert(in_subtree(s, off, h, p));
            }
            lemma_frame(
                s,
                t,
                c,
                hh,
                child_lo(n.keys(), lo, i),
                child_hi(n.keys(), hi, i),
                b,
                child_min(b, weak, i),
                false,
                -1,
            );
        }
        assert forall|p: Offset| in_subtree(t, off, h, p) == in_subtree(s, off, h, p) by {
            if in_subtree(s, off, h, p) && p != off {
                let i = choose|i: int|
                    0 <= i < n.children().len() && in_subtree(s, #[trigger] n.children()[i], hh, p);
                assert(in_subtree(t, n.children()[i], hh, p));
            }
            if in_subtree(t, off, h, p) && p != off {
                let i = choose|i: int|
                    0 <= i < n.children().len() && in_subtree(t, #[trigger] n.children()[i], hh, p);
                assert(in_subtree(s, n.children()[i], hh, p));
            }
        }
        assert forall|key: Seq<u8>| lookup(t, off, h, key) == lookup(s, off, h, key) by {
            crate::sorted::lemma_route_bounds(n.keys(), key);
            let i = route(n.keys(), key);
            assert(lookup(t, n.children()[i], hh, key) == lookup(s, n.children()[i], hh, key));
        }
    }
    assert(tree_map(t, off, h) =~= tree_map(s, off, h));
}


/// Changes to a subtree, one after the other, are changes to that subtree.
pub proof fn lemma_updated_trans(
    s: Seq<Seq<u8>>,
    t: Seq<Seq<u8>>,
    u: Seq<Seq<u8>>,
    off: Offset,
    h: nat,
)
    requires
        updated(s, t, off, h),
        updated(t, u, off, h),
    ensures
        updated(s, u, off, h),
{
    assert forall|p: Offset| p.0 < s.len() && !in_subtree(s, off, h, p) implies #[trigger] u[p.0 as int]
        == s[p.0 as int] by {
        assert(t[p.0 as int] == s[p.0 as int]);
        assert(!in_subtree(t, off, h, p));
    }
}

/// Nothing changed is a change to any subtree.
pub proof fn lemma_updated_refl(s: Seq<Seq<u8>>, off: Offset, h: nat)
    ensures
        updated(s, s, off, h),
{
}

/// What putting a new pair in its place does to a leaf: the keys still
/// ascend, the new key has its value, and every other key has what it had.
pub proof fn lemma_leaf_insert(pairs: Seq<(Seq<u8>, Seq<u8>)>, k: Seq<u8>, v: Seq<u8>)
    requires
        sorted(pair_keys(pairs)),
        leaf_get(pairs, k) is None,
    ensures
        sorted(pair_keys(pairs.insert(route(pair_keys(pairs), k), (k, v)))),
        forall|key: Seq<u8>|
            leaf_get(pairs.insert(route(pair_keys(pairs), k), (k, v)), key) == if key == k {
                Some(v)
            } else {
                leaf_get(pairs, key)
            },
{
    let ks = pair_keys(pairs);
    let i = route(ks, k);
    let new = pairs.insert(i, (k, v));
    crate::sorted::lemma_route_bounds(ks, k);
    if i < pairs.len() {
        assert(ks[i] == pairs[i].0);
        crate::lex::lemma_lex_le(k, ks[i]);
    }
    assert(pair_keys(new) =~= ks.insert(i, k));
    crate::sorted::lemma_sorted_insert(ks, i, k);
    assert forall|key: Seq<u8>|
        leaf_get(new, key) == if key == k {
            Some(v)
        } else {
            leaf_get(pairs, key)
        } by {
        crate::sorted::lemma_route_insert(ks, i, k, key);
        crate::sorted::lemma_route_bounds(ks, key);
        crate::lex::lemma_lex_le(key, k);
        crate::lex::lemma_lex_irreflexive(k);
        let r = route(ks, key);
        if r < i {
            assert(new[r] == pairs[r]);
        } else if r > i {
            if r < pairs.len() {
                assert(new[r + 1] == pairs[r]);
            }
        } else if lex_le(key, k) {
            assert(new[i] == (k, v));
            if key != k && i < pairs.len() {
                crate::lex::lemma_lex_transitive(key, k, ks[i]);
                crate::lex::lemma_lex_asymmetric(key, ks[i]);
            }
        } else {
            if i < pairs.len() {
                assert(new[i + 1] == pairs[i]);
            }
        }
    }
}

/// What taking a pair out does to a leaf: the keys still ascend, the key
/// is gone, and every other key has what it had.
pub proof fn lemma_leaf_remove(pairs: Seq<(Seq<u8>, Seq<u8>)>, i: int)
    requires
        sorted(pair_keys(pairs)),
        0 <= i < pairs.len(),
    ensures
        sorted(pair_keys(pairs.remove(i))),
        forall|key: Seq<u8>|
            leaf_get(pairs.remove(i), key) == if key == pairs[i].0 {
                None
            } else {
                leaf_get(pairs, key)
            },
{
    let ks = pair_keys(pairs);
    let new = pairs.remove(i);
    assert(pair_keys(new) =~= ks.remove(i));
    crate::sorted::lemma_sorted_remove(ks, i);
    assert forall|key: Seq<u8>|
        leaf_get(new, key) == if key == pairs[i].0 {
            None
        } else {
            leaf_get(pairs, key)
        } by {
        crate::sorted::lemma_route_remove(ks, i, key);
        crate::sorted::lemma_route_bounds(ks, key);
        crate::sorted::lemma_route_of_member(ks, i);
        let r = route(ks, key);
        if r < i {
            assert(new[r] == pairs[r]);
        } else if r == i {
            crate::lex::lemma_lex_le(key, ks[i]);
            if i + 1 < pairs.len() {
                assert(new[i] == pairs[i + 1]);
                assert(lex_lt(ks[i], ks[i + 1]));
                crate::lex::lemma_lex_asymmetric(ks[i], ks[i + 1]);
                if key != ks[i] {
                    crate::lex::lemma_lex_transitive(key, ks[i], ks[i + 1]);
                    crate::lex::lemma_lex_asymmetric(key, ks[i + 1]);
                }
            }
        } else {
            if r < pairs.len() {
                assert(new[r - 1] == pairs[r]);
            }
        }
    }
}

/// What a change to the subtree of child `i` does to the subtree of its
/// parent: the parent and the other children stay as they are, and a
/// search finds what it found, but for the keys that it takes to child `i`.
pub proof fn lemma_child_updated(
    s: Seq<Seq<u8>>,
    t: Seq<Seq<u8>>,
    off: Offset,
    h: nat,
    lo: Option<Seq<u8>>,
    hi: Option<Seq<u8>>,
    b: nat,
    min: int,
    root: bool,
    i: int,
    weak: int,
)
    requires
        h > 0,
        subtree_wf(s, off, h, lo, hi, b, min, root, -1),
        0 <= i < node_at(s, off).children().len(),
        weak == -1 || weak == i,
        updated(s, t, node_at(s, off).children()[i], (h - 1) as nat),
        subtree_wf(
            t,
            node_at(s, off).children()[i],
            (h - 1) as nat,
            child_lo(node_at(s, off).keys(), lo, i),
            child_hi(node_at(s, off).keys(), hi, i),
            b,
            child_min(b, weak, i),
            false,
            -1,
        ),
    ensures
        subtree_wf(t, off, h, lo, hi, b, min, root, weak),
        updated(s, t, off, h),
        t[off.0 as int] == s[off.0 as int],
        forall|key: Seq<u8>|
            lookup(t, off, h, key) == if route(node_at(s, off).keys(), key) == i {
                lookup(t, node_at(s, off).children()[i], (h - 1) as nat, key)
            } else {
                lookup(s, off, h, key)
            },
        forall|j: int, p: Offset|
            0 <= j < node_at(s, off).children().len() && j != i ==> #[trigger] in_subtree(
                t,
                node_at(s, off).children()[j],
                (h - 1) as nat,
                p,
            ) == in_subtree(s, node_at(s, off).children()[j], (h - 1) as nat, p),
{
    let n = node_at(s, off);
    let hh = (h - 1) as nat;
    let c = n.children()[i];
    assert(!in_subtree(s, c, hh, off));
    assert(t[off.0 as int] == s[off.0 as int]);
    assert(node_at(t, off) == n);
    assert forall|j: int| 0 <= j < n.children().len() && j != i implies {
        &&& subtree_wf(
            t,
            #[trigger] n.children()[j],
            hh,
            child_lo(n.keys(), lo, j),
            child_hi(n.keys(), hi, j),
            b,
            child_min(b, weak, j),
            false,
            -1,
        )
        &&& forall|p: Offset| in_subtree(t, n.children()[j], hh, p) == in_subtree(s, n.children()[j], hh, p)
        &&& forall|key: Seq<u8>|
            lookup(t, n.children()[j], hh, key) == lookup(s, n.children()[j], hh, key)
    } by {
        let cj = n.children()[j];
        assert forall|p: Offset| #[trigger] in_subtree(s, cj, hh, p) implies p.0 < t.len()
            && t[p.0 as int] == s[p.0 as int] by {
            lemma_subtree_in_store(
                s,
                cj,
                hh,
                child_lo(n.keys(), lo, j),
                child_hi(n.keys(), hi, j),
                b,
                b - 1,
                false,
                -1,
                p,
            );
            assert(!in_subtree(s, c, hh, p));
        }
        lemma_frame(
            s,
            t,
            cj,
            hh,
            child_lo(n.keys(), lo, j),
            child_hi(n.keys(), hi, j),
            b,
            b - 1,
            false,
            -1,
        );
    }
    assert forall|j: int| 0 <= j < n.children().len() implies !in_subtree(
        t,
        #[trigger] n.children()[j],
        hh,
        off,
    ) by {
        if j == i {
            if in_subtree(t, c, hh, off) {
                assert(in_subtree(s, c, hh, off) || off.0 >= s.len());
            }
        }
    }
    assert forall|j: int, k: int, p: Offset|
        0 <= j < n.children().len() && 0 <= k < n.children().len() && j != k
            && #[trigger] in_subtree(t, n.children()[j], hh, p) implies !in_subtree(
        t,
        #[trigger] n.children()[k],
        hh,
        p,
    ) by {
        if j == i {
            assert(in_subtree(s, c, hh, p) || p.0 >= s.len());
            if in_subtree(t, n.children()[k], hh, p) {
                assert(in_subtree(s, n.children()[k], hh, p));
                lemma_subtree_in_store(
                    s,
                    n.children()[k],
                    hh,
                    child_lo(n.keys(), lo, k),
                    child_hi(n.keys(), hi, k),
                    b,
                    b - 1,
                    false,
                    -1,
                    p,
                );
            }
        } else if k == i {
            assert(in_subtree(s, n.children()[j], hh, p));
            lemma_subtree_in_store(
                s,
                n.children()[j],
                hh,
                child_lo(n.keys(), lo, j),
                child_hi(n.keys(), hi, j),
                b,
                b - 1,
                false,
                -1,
                p,
            );
            if in_subtree(t, c, hh, p) {
                assert(in_subtree(s, c, hh, p) || p.0 >= s.len());
            }
        } else {
            assert(in_subtree(s, n.children()[j], hh, p));
        }
    }
    assert(subtree_wf(t, off, h, lo, hi, b, min, root, weak));
    assert forall|p: Offset| p.0 < s.len() && !in_subtree(s, off, h, p) implies #[trigger] t[p.0 as int]
        == s[p.0 as int] by {
        assert(!in_subtree(s, c, hh, p));
    }
    assert forall|p: Offset| #[trigger] in_subtree(t, off, h, p) implies in_subtree(s, off, h, p)
        || p.0 >= s.len() by {
        if p != off {
            let j = choose|j: int|
                0 <= j < n.children().len() && in_subtree(t, #[trigger] n.children()[j], hh, p);
            if j == i {
                assert(in_subtree(s, c, hh, p) || p.0 >= s.len());
            } else {
                assert(in_subtree(s, n.children()[j], hh, p));
            }
        }
    }
    assert forall|key: Seq<u8>|
        lookup(t, off, h, key) == if route(n.keys(), key) == i {
            lookup(t, c, hh, key)
        } else {
            lookup(s, off, h, key)
        } by {
        crate::sorted::lemma_route_bounds(n.keys(), key);
        let r = route(n.keys(), key);
        if r != i {
            assert(lookup(t, n.children()[r], hh, key) == lookup(s, n.children()[r], hh, key));
        }
    }
}


/// The subtree at `c` is in store `t` what it is in store `s`.
pub open spec fn sibling_framed(
    s: Seq<Seq<u8>>,
    t: Seq<Seq<u8>>,
    c: Offset,
    hh: nat,
    lo: Option<Seq<u8>>,
    hi: Option<Seq<u8>>,
    b: nat,
) -> bool {
    &&& subtree_wf(t, c, hh, lo, hi, b, b - 1, false, -1)
    &&& forall|p: Offset| #[trigger] in_subtree(t, c, hh, p) == in_subtree(s, c, hh, p)
    &&& forall|p: Offset| #[trigger] in_subtree(s, c, hh, p) ==> 0 < p.0 < s.len()
    &&& forall|key: Seq<u8>| #[trigger] lookup(t, c, hh, key) == lookup(s, c, hh, key)
}

/// The subtrees of the children of the node at `off`, but for children
/// `i1` and `i2`, are in store `t` what they are in store `s`.
pub open spec fn siblings_framed(
    s: Seq<Seq<u8>>,
    t: Seq<Seq<u8>>,
    off: Offset,
    h: nat,
    lo: Option<Seq<u8>>,
    hi: Option<Seq<u8>>,
    b: nat,
    i1: int,
    i2: int,
) -> bool {
    let n = node_at(s, off);
    forall|j: int|
        0 <= j < n.children().len() && j != i1 && j != i2 ==> sibling_framed(
            s,
            t,
            #[trigger] n.children()[j],
            (h - 1) as nat,
            child_lo(n.keys(), lo, j),
            child_hi(n.keys(), hi, j),
            b,
        )
}

/// A change to the node at `off` and to the subtrees of its children `i1`
/// and `i2` leaves the subtrees of the other children as they are.
pub proof fn lemma_siblings_framed(
    s: Seq<Seq<u8>>,
    t: Seq<Seq<u8>>,
    off: Offset,
    h: nat,
    lo: Option<Seq<u8>>,
    hi: Option<Seq<u8>>,
    b: nat,
    min: int,
    root: bool,
    weak: int,
    i1: int,
    i2: int,
)
    requires
        h > 0,
        subtree_wf(s, off, h, lo, hi, b, min, root, weak),
        0 <= i1 < node_at(s, off).children().len(),
        0 <= i2 < node_at(s, off).children().len(),
        weak == -1 || weak == i1 || weak == i2,
        s.len() <= t.len(),
        forall|p: Offset|
            p.0 < s.len() && p != off && !in_subtree(
                s,
                node_at(s, off).children()[i1],
                (h - 1) as nat,
                p,
            ) && !in_subtree(s, node_at(s, off).children()[i2], (h - 1) as nat, p)
                ==> #[trigger] t[p.0 as int] == s[p.0 as int],
    ensures
        siblings_framed(s, t, off, h, lo, hi, b, i1, i2),
{
    let n = node_at(s, off);
    let hh = (h - 1) as nat;
    assert forall|j: int| 0 <= j < n.children().len() && j != i1 && j != i2 implies sibling_framed(
        s,
        t,
        #[trigger] n.children()[j],
        hh,
        child_lo(n.keys(), lo, j),
        child_hi(n.keys(), hi, j),
        b,
    ) by {
        let cj = n.children()[j];
        lemma_wf_child(s, off, h, lo, hi, b, min, root, weak, j);
        assert forall|p: Offset| #[trigger] in_subtree(s, cj, hh, p) implies p.0 < t.len()
            && t[p.0 as int] == s[p.0 as int] && 0 < p.0 < s.len() by {
            lemma_subtree_in_store(
                s,
                cj,
                hh,
                child_lo(n.keys(), lo, j),
                child_hi(n.keys(), hi, j),
                b,
                b - 1,
                false,
                -1,
                p,
            );
            assert(!in_subtree(s, n.children()[i1], hh, p));
            assert(!in_subtree(s, n.children()[i2], hh, p));
        }
        lemma_frame(
            s,
            t,
            cj,
            hh,
            child_lo(n.keys(), lo, j),
            child_hi(n.keys(), hi, j),
            b,
            b - 1,
            false,
            -1,
        );
    }
}

/// Every page of a well-formed subtree lies in the store, past the
/// superblock.
pub proof fn lemma_subtree_pages(
    s: Seq<Seq<u8>>,
    off: Offset,
    h: nat,
    lo: Option<Seq<u8>>,
    hi: Option<Seq<u8>>,
    b: nat,
    min: int,
    root: bool,
    weak: int,
)
    requires
        subtree_wf(s, off, h, lo, hi, b, min, root, weak),
    ensures
        forall|p: Offset| #[trigger] in_subtree(s, off, h, p) ==> 0 < p.0 < s.len(),
{
    assert forall|p: Offset| #[trigger] in_subtree(s, off, h, p) implies 0 < p.0 < s.len() by {
        lemma_subtree_in_store(s, off, h, lo, hi, b, min, root, weak, p);
    }
}


/// What a change to the keys of child `i` is to the keys of its parent,
/// where a search for `k` goes to child `i`: a key put into the child is
/// put into the parent, a key taken out of the child is taken out of the
/// parent, and a child that holds what it held leaves the parent holding
/// what it held.
pub proof fn lemma_parent_map(
    s: Seq<Seq<u8>>,
    t: Seq<Seq<u8>>,
    off: Offset,
    h: nat,
    i: int,
    k: Seq<u8>,
    v: Seq<u8>,
)
    requires
        h > 0,
        route(node_at(s, off).keys(), k) == i,
        forall|key: Seq<u8>|
            lookup(t, off, h, key) == if route(node_at(s, off).keys(), key) == i {
                lookup(t, node_at(s, off).children()[i], (h - 1) as nat, key)
            } else {
                lookup(s, off, h, key)
            },
    ensures
        tree_map(s, off, h).contains_key(k) == tree_map(
            s,
            node_at(s, off).children()[i],
            (h - 1) as nat,
        ).contains_key(k),
        tree_map(t, node_at(s, off).children()[i], (h - 1) as nat) == tree_map(
            s,
            node_at(s, off).children()[i],
            (h - 1) as nat,
        ) ==> tree_map(t, off, h) == tree_map(s, off, h),
        tree_map(t, node_at(s, off).children()[i], (h - 1) as nat) == tree_map(
            s,
            node_at(s, off).children()[i],
            (h - 1) as nat,
        ).insert(k, v) ==> tree_map(t, off, h) == tree_map(s, off, h).insert(k, v),
        tree_map(t, node_at(s, off).children()[i], (h - 1) as nat) == tree_map(
            s,
            node_at(s, off).children()[i],
            (h - 1) as nat,
        ).remove(k) ==> tree_map(t, off, h) == tree_map(s, off, h).remove(k),
{
    let n = node_at(s, off);
    let c = n.children()[i];
    let hh = (h - 1) as nat;
    let mc_s = tree_map(s, c, hh);
    let mc_t = tree_map(t, c, hh);
    assert forall|key: Seq<u8>| route(n.keys(), key) == i implies lookup(s, off, h, key) == lookup(
        s,
        c,
        hh,
        key,
    ) by {}
    assert forall|key: Seq<u8>|
        (mc_s.contains_key(key) <==> lookup(s, c, hh, key) is Some) && (mc_t.contains_key(key)
            <==> lookup(t, c, hh, key) is Some) && (mc_s.contains_key(key) ==> mc_s[key] == lookup(
            s,
            c,
            hh,
            key,
        )->Some_0) && (mc_t.contains_key(key) ==> mc_t[key] == lookup(t, c, hh, key)->Some_0) by {}
    if mc_t == mc_s {
        assert forall|key: Seq<u8>| lookup(t, off, h, key) == lookup(s, off, h, key) by {
            if route(n.keys(), key) == i {
                assert(mc_t.contains_key(key) == mc_s.contains_key(key));
                assert(mc_t.contains_key(key) ==> mc_t[key] == mc_s[key]);
            }
        }
        assert(tree_map(t, off, h) =~= tree_map(s, off, h));
    }
    if mc_t == mc_s.insert(k, v) {
        assert forall|key: Seq<u8>|
            lookup(t, off, h, key) == if key == k {
                Some(v)
            } else {
                lookup(s, off, h, key)
            } by {
            if route(n.keys(), key) == i {
                assert(mc_t.contains_key(key) == (key == k || mc_s.contains_key(key)));
                assert(mc_t.contains_key(key) ==> mc_t[key] == if key == k {
                    v
                } else {
                    mc_s[key]
                });
            }
        }
        assert(tree_map(t, off, h) =~= tree_map(s, off, h).insert(k, v));
    }
    if mc_t == mc_s.remove(k) {
        assert forall|key: Seq<u8>|
            lookup(t, off, h, key) == if key == k {
                None
            } else {
                lookup(s, off, h, key)
            } by {
            if route(n.keys(), key) == i {
                assert(mc_t.contains_key(key) == (key != k && mc_s.contains_key(key)));
                assert(mc_t.contains_key(key) ==> mc_t[key] == mc_s[key]);
            }
        }
        assert(tree_map(t, off, h) =~= tree_map(s, off, h).remove(k));
    }
}

/// A change to the superblock alone leaves a subtree as it is.
pub proof fn lemma_superblock_frame(
    s: Seq<Seq<u8>>,
    t: Seq<Seq<u8>>,
    off: Offset,
    h: nat,
    lo: Option<Seq<u8>>,
    hi: Option<Seq<u8>>,
    b: nat,
    min: int,
    root: bool,
    weak: int,
)
    requires
        subtree_wf(s, off, h, lo, hi, b, min, root, weak),
        t.len() == s.len(),
        forall|p: Offset| 0 < p.0 < s.len() ==> #[trigger] t[p.0 as int] == s[p.0 as int],
    ensures
        subtree_wf(t, off, h, lo, hi, b, min, root, weak),
        tree_map(t, off, h) == tree_map(s, off, h),
        t[off.0 as int] == s[off.0 as int],
{
    lemma_subtree_pages(s, off, h, lo, hi, b, min, root, weak);
    lemma_frame(s, t, off, h, lo, hi, b, min, root, weak);
    assert(in_subtree(s, off, h, off));
}

/// The superblock is no page of a well-formed subtree.
pub proof fn lemma_superblock_outside(
    s: Seq<Seq<u8>>,
    off: Offset,
    h: nat,
    lo: Option<Seq<u8>>,
    hi: Option<Seq<u8>>,
    b: nat,
    min: int,
    root: bool,
    weak: int,
)
    requires
        subtree_wf(s, off, h, lo, hi, b, min, root, weak),
    ensures
        !in_subtree(s, off, h, Offset(0)),
{
    if in_subtree(s, off, h, Offset(0)) {
        lemma_subtree_in_store(s, off, h, lo, hi, b, min, root, weak, Offset(0));
    }
}


/// A leaf that was rewritten in place with a new pair among its pairs is a
/// well-formed leaf that holds the new pair besides what it held.
pub proof fn lemma_leaf_written(
    s: Seq<Seq<u8>>,
    t: Seq<Seq<u8>>,
    off: Offset,
    lo: Option<Seq<u8>>,
    hi: Option<Seq<u8>>,
    b: nat,
    min: int,
    root: bool,
    k: Seq<u8>,
    v: Seq<u8>,
)
    requires
        subtree_wf(s, off, 0, lo, hi, b, min, root, -1),
        node_at(s, off).entries() < 2 * b - 1,
        above(lo, k),
        at_most(k, hi),
        leaf_get(node_at(s, off).pairs(), k) is None,
        t.len() == s.len(),
        forall|p: Offset| p.0 < s.len() && p != off ==> #[trigger] t[p.0 as int] == s[p.0 as int],
        decode_spec(t[off.0 as int]) is Ok,
        node_at(t, off).is_root == root,
        node_at(t, off).kind == crate::node_type::KindView::Leaf(
            node_at(s, off).pairs().insert(route(pair_keys(node_at(s, off).pairs()), k), (k, v)),
        ),
    ensures
        subtree_wf(t, off, 0, lo, hi, b, min, root, -1),
        updated(s, t, off, 0),
        tree_map(t, off, 0) == tree_map(s, off, 0).insert(k, v),
        !tree_map(s, off, 0).contains_key(k),
{
    let pairs = node_at(s, off).pairs();
    let i = route(pair_keys(pairs), k);
    let new = pairs.insert(i, (k, v));
    crate::sorted::lemma_route_bounds(pair_keys(pairs), k);
    lemma_leaf_insert(pairs, k, v);
    assert forall|j: int| 0 <= j < new.len() implies above(lo, (#[trigger] new[j]).0) && at_most(
        new[j].0,
        hi,
    ) by {
        if j < i {
            assert(new[j] == pairs[j]);
        } else if j > i {
            assert(new[j] == pairs[j - 1]);
        }
    }
    assert(tree_map(t, off, 0) =~= tree_map(s, off, 0).insert(k, v));
}

/// A leaf that was rewritten in place without one of its pairs is a
/// well-formed leaf, but that it holds one pair less, and holds what it
/// held but for the key of that pair.
pub proof fn lemma_leaf_erased(
    s: Seq<Seq<u8>>,
    t: Seq<Seq<u8>>,
    off: Offset,
    lo: Option<Seq<u8>>,
    hi: Option<Seq<u8>>,
    b: nat,
    min: int,
    root: bool,
    i: int,
)
    requires
        subtree_wf(s, off, 0, lo, hi, b, min, root, -1),
        0 <= i < node_at(s, off).pairs().len(),
        t.len() == s.len(),
        forall|p: Offset| p.0 < s.len() && p != off ==> #[trigger] t[p.0 as int] == s[p.0 as int],
        decode_spec(t[off.0 as int]) is Ok,
        node_at(t, off).is_root == root,
        node_at(t, off).kind == crate::node_type::KindView::Leaf(node_at(s, off).pairs().remove(i)),
    ensures
        subtree_wf(t, off, 0, lo, hi, b, min - 1, root, -1),
        updated(s, t, off, 0),
        tree_map(t, off, 0) == tree_map(s, off, 0).remove(node_at(s, off).pairs()[i].0),
        tree_map(s, off, 0).contains_key(node_at(s, off).pairs()[i].0),
        node_at(t, off).entries() == node_at(s, off).entries() - 1,
{
    let pairs = node_at(s, off).pairs();
    let new = pairs.remove(i);
    lemma_leaf_remove(pairs, i);
    crate::sorted::lemma_route_of_member(pair_keys(pairs), i);
    assert(pair_keys(pairs)[i] == pairs[i].0);
    assert forall|j: int| 0 <= j < new.len() implies above(lo, (#[trigger] new[j]).0) && at_most(
        new[j].0,
        hi,
    ) by {
        if j < i {
            assert(new[j] == pairs[j]);
        } else {
            assert(new[j] == pairs[j + 1]);
        }
    }
    assert(tree_map(t, off, 0) =~= tree_map(s, off, 0).remove(pairs[i].0));
}


/// What a change to the subtree of the child that a search for `k` goes to
/// is to the subtree of the parent, after changes that left the parent's
/// subtree holding what it held.
pub proof fn lemma_descended(
    s: Seq<Seq<u8>>,
    t: Seq<Seq<u8>>,
    u: Seq<Seq<u8>>,
    off: Offset,
    h: nat,
    lo: Option<Seq<u8>>,
    hi: Option<Seq<u8>>,
    b: nat,
    min: int,
    root: bool,
    i: int,
    weak: int,
    k: Seq<u8>,
    v: Seq<u8>,
)
    requires
        h > 0,
        updated(s, t, off, h),
        tree_map(t, off, h) == tree_map(s, off, h),
        subtree_wf(t, off, h, lo, hi, b, min, root, -1),
        0 <= i < node_at(t, off).children().len(),
        route(node_at(t, off).keys(), k) == i,
        weak == -1 || weak == i,
        updated(t, u, node_at(t, off).children()[i], (h - 1) as nat),
        subtree_wf(
            u,
            node_at(t, off).children()[i],
            (h - 1) as nat,
            child_lo(node_at(t, off).keys(), lo, i),
            child_hi(node_at(t, off).keys(), hi, i),
            b,
            child_min(b, weak, i),
            false,
            -1,
        ),
    ensures
        subtree_wf(u, off, h, lo, hi, b, min, root, weak),
        updated(s, u, off, h),
        u[off.0 as int] == t[off.0 as int],
        tree_map(s, off, h).contains_key(k) == tree_map(
            t,
            node_at(t, off).children()[i],
            (h - 1) as nat,
        ).contains_key(k),
        tree_map(u, node_at(t, off).children()[i], (h - 1) as nat) == tree_map(
            t,
            node_at(t, off).children()[i],
            (h - 1) as nat,
        ) ==> tree_map(u, off, h) == tree_map(s, off, h),
        tree_map(u, node_at(t, off).children()[i], (h - 1) as nat) == tree_map(
            t,
            node_at(t, off).children()[i],
            (h - 1) as nat,
        ).insert(k, v) ==> tree_map(u, off, h) == tree_map(s, off, h).insert(k, v),
        tree_map(u, node_at(t, off).children()[i], (h - 1) as nat) == tree_map(
            t,
            node_at(t, off).children()[i],
            (h - 1) as nat,
        ).remove(k) ==> tree_map(u, off, h) == tree_map(s, off, h).remove(k),
{
    lemma_child_updated(t, u, off, h, lo, hi, b, min, root, i, weak);
    lemma_updated_trans(s, t, u, off, h);
    lemma_parent_map(t, u, off, h, i, k, v);
}


/// A well-formed subtree is well-formed for any lower bound on the
/// entries of its top node that the node meets.
pub proof fn lemma_min_change(
    s: Seq<Seq<u8>>,
    off: Offset,
    h: nat,
    lo: Option<Seq<u8>>,
    hi: Option<Seq<u8>>,
    b: nat,
    min: int,
    root: bool,
    weak: int,
    min2: int,
)
    requires
        subtree_wf(s, off, h, lo, hi, b, min, root, weak),
        min2 <= node_at(s, off).entries(),
    ensures
        subtree_wf(s, off, h, lo, hi, b, min2, root, weak),
{
}

/// A subtree whose one child that may hold an entry less than the others
/// does not, is well-formed without that allowance.
pub proof fn lemma_weak_ok(
    s: Seq<Seq<u8>>,
    off: Offset,
    h: nat,
    lo: Option<Seq<u8>>,
    hi: Option<Seq<u8>>,
    b: nat,
    min: int,
    root: bool,
    weak: int,
)
    requires
        h > 0,
        subtree_wf(s, off, h, lo, hi, b, min, root, weak),
        0 <= weak < node_at(s, off).children().len(),
        node_at(s, node_at(s, off).children()[weak]).entries() >= b - 1,
    ensures
        subtree_wf(s, off, h, lo, hi, b, min, root, -1),
{
    let n = node_at(s, off);
    assert forall|i: int| 0 <= i < n.children().len() implies subtree_wf(
        s,
        #[trigger] n.children()[i],
        (h - 1) as nat,
        child_lo(n.keys(), lo, i),
        child_hi(n.keys(), hi, i),
        b,
        child_min(b, -1, i),
        false,
        -1,
    ) by {
        if i == weak {
            lemma_min_change(
                s,
                n.children()[i],
                (h - 1) as nat,
                child_lo(n.keys(), lo, i),
                child_hi(n.keys(), hi, i),
                b,
                b - 2,
                false,
                -1,
                b - 1,
            );
        }
    }
}


/// Every node of a well-formed subtree but the one at its top holds
/// between `b - 1` and `2b - 1` entries, an internal one with one child
/// more than keys, and does not say that it is the root.
pub proof fn lemma_node_bounds(
    s: Seq<Seq<u8>>,
    off: Offset,
    h: nat,
    lo: Option<Seq<u8>>,
    hi: Option<Seq<u8>>,
    b: nat,
    min: int,
    root: bool,
    p: Offset,
)
    requires
        subtree_wf(s, off, h, lo, hi, b, min, root, -1),
        in_subtree(s, off, h, p),
        p != off,
    ensures
        decode_spec(s[p.0 as int]) is Ok,
        b - 1 <= node_at(s, p).entries() <= 2 * b - 1,
        node_at(s, p).kind is Internal ==> node_at(s, p).children().len() == node_at(s, p).keys().len()
            + 1,
        !node_at(s, p).is_root,
    decreases h,
{
    let n = node_at(s, off);
    let i = choose|i: int|
        0 <= i < n.children().len() && in_subtree(s, #[trigger] n.children()[i], (h - 1) as nat, p);
    lemma_wf_child(s, off, h, lo, hi, b, min, root, -1, i);
    if p != n.children()[i] {
        lemma_node_bounds(
            s,
            n.children()[i],
            (h - 1) as nat,
            child_lo(n.keys(), lo, i),
            child_hi(n.keys(), hi, i),
            b,
            b - 1,
            false,
            p,
        );
    }
}


/// Every child of `new` is a child of `old`.
pub open spec fn children_kept(old: Seq<Offset>, new: Seq<Offset>) -> bool {
    forall|x: int| 0 <= x < new.len() ==> old.contains(#[trigger] new[x])
}

/// The children of a node are among themselves, and so are they without
/// one of them.
pub proof fn lemma_children_kept(ch: Seq<Offset>, i: int)
    requires
        0 <= i < ch.len(),
    ensures
        children_kept(ch, ch),
        children_kept(ch, ch.remove(i)),
{
    assert forall|x: int| 0 <= x < ch.len() implies ch.contains(#[trigger] ch[x]) by {}
    let new = ch.remove(i);
    assert forall|x: int| 0 <= x < new.len() implies ch.contains(#[trigger] new[x]) by {
        if x < i {
            assert(ch[x] == new[x]);
        } else {
            assert(ch[x + 1] == new[x]);
        }
    }
}

} // verus!
