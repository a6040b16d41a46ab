//! The pairs of a tree in the order of its leaves.
use vstd::prelude::*;
use crate::kids::lemma_leaf_concat;
use crate::lex::{lemma_lex_asymmetric, lemma_lex_le_lt, lemma_lex_transitive, lex_le, lex_lt};
use crate::node_type::{pair_keys, Offset};
use crate::sorted::{lemma_route_bounds, lemma_route_of_member, lemma_route_vs, route, sorted};
use crate::tree::{
    above, at_most, below, child_hi, child_lo, child_min, leaf_get, lemma_wf_child, lemma_wf_top,
    lookup, node_at, subtree_wf, };

verus! {

/// The pairs of the subtree of height `h` at `off`, leaf after leaf from
/// left to right.
pub open spec fn subtree_pairs(s: Seq<Seq<u8>>, off: Offset, h: nat) -> Seq<(Seq<u8>, Seq<u8>)>
    decreases h, 1nat, 0nat,
{
    if h == 0 {
        node_at(s, off).pairs()
    } else {
        pairs_upto(s, off, h, node_at(s, off).children().len())
    }
}

/// The pairs below the first `n` children of the node at `off`.
pub open spec fn pairs_upto(s: Seq<Seq<u8>>, off: Offset, h: nat, n: nat) -> Seq<
    (Seq<u8>, Seq<u8>),
>
    decreases h, 0nat, n,
{
    if h == 0 || n == 0 {
        Seq::empty()
    } else {
        pairs_upto(s, off, h, (n - 1) as nat) + subtree_pairs(
            s,
            node_at(s, off).children()[n - 1],
            (h - 1) as nat,
        )
    }
}

/// The pairs `tr` are in order, their keys lie above `lo` and at or below
/// `hi`, and each key has the value that a search in the subtree at `off`
/// finds for it, at least where the search goes to one of the first `n`
/// children.
pub open spec fn traversal_ok(
    tr: Seq<(Seq<u8>, Seq<u8>)>,
    s: Seq<Seq<u8>>,
    off: Offset,
    h: nat,
    lo: Option<Seq<u8>>,
    hi: Option<Seq<u8>>,
    n: int,
) -> bool {
    &&& sorted(pair_keys(tr))
    &&& forall|i: int| 0 <= i < tr.len() ==> above(lo, (#[trigger] tr[i]).0) && at_most(tr[i].0, hi)
    &&& forall|key: Seq<u8>|
        h == 0 || route(node_at(s, off).keys(), key) < n ==> #[trigger] leaf_get(tr, key) == lookup(
            s,
            off,
            h,
            key,
        )
}

/// The traversal of a well-formed subtree is in order, within the bounds
/// of the subtree, and holds for each key what a search finds for it.
pub proof fn lemma_traversal(
    s: Seq<Seq<u8>>,
    off: Offset,
    h: nat,
    lo: Option<Seq<u8>>,
    hi: Option<Seq<u8>>,
    b: nat,
    min: int,
    root: bool,
    weak: int,
)
    requires
        subtree_wf(s, off, h, lo, hi, b, min, root, weak),
    ensures
        traversal_ok(
            subtree_pairs(s, off, h),
            s,
            off,
            h,
            lo,
            hi,
            node_at(s, off).children().len() as int,
        ),
        forall|key: Seq<u8>| #[trigger]
            leaf_get(subtree_pairs(s, off, h), key) == lookup(s, off, h, key),
    decreases h, 1nat, 0nat,
{
    if h > 0 {
        lemma_wf_top(s, off, h, lo, hi, b, min, root, weak);
        lemma_traversal_upto(
            s,
            off,
            h,
            lo,
            hi,
            b,
            min,
            root,
            weak,
            node_at(s, off).children().len(),
        );
        assert forall|key: Seq<u8>| #[trigger]
            leaf_get(subtree_pairs(s, off, h), key) == lookup(s, off, h, key) by {
            lemma_route_bounds(node_at(s, off).keys(), key);
        }
    }
}

proof fn lemma_traversal_upto(
    s: Seq<Seq<u8>>,
    off: Offset,
    h: nat,
    lo: Option<Seq<u8>>,
    hi: Option<Seq<u8>>,
    b: nat,
    min: int,
    root: bool,
    weak: int,
    n: nat,
)
    requires
        subtree_wf(s, off, h, lo, hi, b, min, root, weak),
        h > 0,
        1 <= n <= node_at(s, off).children().len(),
    ensures
        traversal_ok(
            pairs_upto(s, off, h, n),
            s,
            off,
            h,
            lo,
            child_hi(node_at(s, off).keys(), hi, n - 1),
            n as int,
        ),
    decreases h, 0nat, n,
{
    let nd = node_at(s, off);
    let ks = nd.keys();
    let ch = nd.children();
    let hh = (h - 1) as nat;
    let c = ch[n - 1];
    let sub = subtree_pairs(s, c, hh);
    let tr = pairs_upto(s, off, h, n);
    let hi_n = child_hi(ks, hi, n - 1);
    lemma_wf_top(s, off, h, lo, hi, b, min, root, weak);
    lemma_wf_child(s, off, h, lo, hi, b, min, root, weak, n - 1);
    lemma_traversal(
        s,
        c,
        hh,
        child_lo(ks, lo, n - 1),
        hi_n,
        b,
        child_min(b, weak, n - 1),
        false,
        -1,
    );
    if n == 1 {
        assert(pairs_upto(s, off, h, 0) =~= Seq::empty());
        assert(tr =~= sub);
        assert forall|key: Seq<u8>| route(ks, key) < 1 implies #[trigger] leaf_get(tr, key)
            == lookup(s, off, h, key) by {
            lemma_route_bounds(ks, key);
        }
    } else {
        let prev = pairs_upto(s, off, h, (n - 1) as nat);
        let sep = ks[n - 2];
        lemma_traversal_upto(s, off, h, lo, hi, b, min, root, weak, (n - 1) as nat);
        assert(tr == prev + sub);
        assert(above(lo, sep) && below(sep, hi));
        if n - 1 < ks.len() {
            assert(lex_lt(ks[n - 2], ks[n - 1]));
        }
        assert forall|i: int| 0 <= i < prev.len() implies lex_le((#[trigger] prev[i]).0, sep) by {
            assert(at_most(prev[i].0, Some(sep)));
        }
        assert forall|i: int| 0 <= i < sub.len() implies lex_lt(sep, (#[trigger] sub[i]).0) by {
            assert(above(Some(sep), sub[i].0));
        }
        lemma_leaf_concat(prev, sep, sub);
        assert forall|i: int| 0 <= i < tr.len() implies above(lo, (#[trigger] tr[i]).0) && at_most(
            tr[i].0,
            hi_n,
        ) by {
            if i < prev.len() {
                assert(tr[i] == prev[i]);
                assert(above(lo, prev[i].0) && lex_le(prev[i].0, sep));
                if hi_n is Some {
                    lemma_lex_le_lt(prev[i].0, sep, hi_n->Some_0);
                    lemma_lex_asymmetric(prev[i].0, hi_n->Some_0);
                }
            } else {
                let y = i - prev.len();
                assert(tr[i] == sub[y]);
                assert(lex_lt(sep, sub[y].0) && at_most(sub[y].0, hi_n));
                if lo is Some {
                    lemma_lex_transitive(lo->Some_0, sep, sub[y].0);
                }
            }
        }
        assert forall|key: Seq<u8>| route(ks, key) < n implies #[trigger] leaf_get(tr, key)
            == lookup(s, off, h, key) by {
            lemma_route_bounds(ks, key);
            lemma_route_vs(ks, key, n - 2);
            if lex_le(key, sep) {
                assert(leaf_get(prev, key) == lookup(s, off, h, key));
            } else {
                assert(route(ks, key) == n - 1);
                assert(leaf_get(sub, key) == lookup(s, c, hh, key));
            }
        }
    }
}

/// A sequence of pairs in order holds as many pairs as the map of its
/// keys to their values holds keys.
pub proof fn lemma_traversal_size(tr: Seq<(Seq<u8>, Seq<u8>)>, m: Map<Seq<u8>, Seq<u8>>)
    requires
        sorted(pair_keys(tr)),
        forall|key: Seq<u8>| m.contains_key(key) == (#[trigger] leaf_get(tr, key) is Some),
    ensures
        m.dom().finite(),
        m.dom().len() == tr.len(),
{
    let ks = pair_keys(tr);
    assert forall|i: int, j: int| 0 <= i < ks.len() && 0 <= j < ks.len() && i != j implies ks[i]
        != ks[j] by {
        if i < j {
            assert(lex_lt(ks[i], ks[j]));
            lemma_lex_asymmetric(ks[i], ks[j]);
        } else {
            assert(lex_lt(ks[j], ks[i]));
            lemma_lex_asymmetric(ks[j], ks[i]);
        }
    }
    assert(ks.no_duplicates());
    ks.unique_seq_to_set();
    vstd::seq_lib::seq_to_set_is_finite(ks);
    assert forall|key: Seq<u8>| m.dom().contains(key) == ks.to_set().contains(key) by {
        lemma_route_bounds(ks, key);
        if ks.to_set().contains(key) {
            let i = choose|i: int| 0 <= i < ks.len() && ks[i] == key;
            lemma_route_of_member(ks, i);
            assert(tr[i].0 == key);
            assert(leaf_get(tr, key) is Some);
        }
        if leaf_get(tr, key) is Some {
            let r = route(ks, key);
            assert(ks[r] == key);
            assert(ks.contains(key));
        }
    }
    assert(m.dom() =~= ks.to_set());
}

} // verus!
