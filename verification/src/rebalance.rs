//! Why moving entries between two neighbouring children, and merging them,
//! keeps the tree well-formed and its keys in place.
use vstd::prelude::*;
use crate::kids::{
    in_kids, kids_lookup, kids_wf, lemma_kids_concat, lemma_kids_frame, lemma_kids_of_subtree,
    lemma_kids_split, lemma_leaf_concat, lemma_subtree_of_kids,
};
use crate::lex::{
    lemma_lex_asymmetric, lemma_lex_irreflexive, lemma_lex_le_lt, lemma_lex_lt_le,
    lemma_lex_transitive, lex_le, lex_lt,
};
use crate::node::{decode_spec, merged, repartitioned, NodeView};
use crate::node_type::{pair_keys, KindView, Offset};
use crate::sorted::{
    lemma_route_bounds, lemma_route_remove, lemma_route_update, lemma_sorted_subrange, route,
    sorted,
};
use crate::tree::{
    above, at_most, below, child_hi, child_lo, child_min, in_subtree, inner_wf, leaf_get, leaf_wf,
    lemma_siblings_framed, lemma_subtree_in_store, lemma_subtree_pages, lemma_wf_child,
    lemma_wf_top, lookup, node_at, siblings_framed, subtree_wf, tree_map, updated,
};

verus! {

/// In store `s` the pages `a` and `b` hold two well-formed subtrees on
/// either side of the key `sep`, which share no page; store `t` has the
/// pages below the two as they were.
pub open spec fn pair_pre(
    s: Seq<Seq<u8>>,
    t: Seq<Seq<u8>>,
    a: Offset,
    b_: Offset,
    hh: nat,
    lo: Option<Seq<u8>>,
    hi: Option<Seq<u8>>,
    sep: Seq<u8>,
    b: nat,
    min_a: int,
    min_b: int,
) -> bool {
    &&& b >= 2
    &&& subtree_wf(s, a, hh, lo, Some(sep), b, min_a, false, -1)
    &&& subtree_wf(s, b_, hh, Some(sep), hi, b, min_b, false, -1)
    &&& above(lo, sep)
    &&& below(sep, hi)
    &&& forall|p: Offset| #[trigger] in_subtree(s, a, hh, p) ==> !in_subtree(s, b_, hh, p)
    &&& s.len() <= t.len()
    &&& forall|p: Offset|
        (in_subtree(s, a, hh, p) || in_subtree(s, b_, hh, p)) && p != a && p != b_
            ==> #[trigger] t[p.0 as int] == s[p.0 as int]
}

/// What a search for `key` finds in two subtrees on either side of `sep`.
pub open spec fn pair_lookup(
    s: Seq<Seq<u8>>,
    a: Offset,
    sep: Seq<u8>,
    b_: Offset,
    hh: nat,
    key: Seq<u8>,
) -> Option<Seq<u8>> {
    if lex_le(key, sep) {
        lookup(s, a, hh, key)
    } else {
        lookup(s, b_, hh, key)
    }
}

/// In store `t` the pages `a` and `b` hold two well-formed subtrees on
/// either side of the key `sep2`, made of pages that the two had in store
/// `s`, which share no page and hold between them what the two held.
pub open spec fn pair_post(
    s: Seq<Seq<u8>>,
    t: Seq<Seq<u8>>,
    a: Offset,
    b_: Offset,
    hh: nat,
    lo: Option<Seq<u8>>,
    hi: Option<Seq<u8>>,
    sep: Seq<u8>,
    sep2: Seq<u8>,
    b: nat,
) -> bool {
    &&& above(lo, sep2)
    &&& below(sep2, hi)
    &&& subtree_wf(t, a, hh, lo, Some(sep2), b, b - 1, false, -1)
    &&& subtree_wf(t, b_, hh, Some(sep2), hi, b, b - 1, false, -1)
    &&& forall|p: Offset| #[trigger]
        in_subtree(t, a, hh, p) ==> in_subtree(s, a, hh, p) || in_subtree(s, b_, hh, p)
    &&& forall|p: Offset| #[trigger]
        in_subtree(t, b_, hh, p) ==> in_subtree(s, a, hh, p) || in_subtree(s, b_, hh, p)
    &&& forall|p: Offset| #[trigger] in_subtree(t, a, hh, p) ==> !in_subtree(t, b_, hh, p)
    &&& forall|key: Seq<u8>| #[trigger]
        pair_lookup(t, a, sep2, b_, hh, key) == pair_lookup(s, a, sep, b_, hh, key)
}

/// In store `t` the page `a` holds a well-formed subtree made of pages
/// that the subtrees at `a` and `b` had in store `s`, which holds what the
/// two held.
pub open spec fn merge_post(
    s: Seq<Seq<u8>>,
    t: Seq<Seq<u8>>,
    a: Offset,
    b_: Offset,
    hh: nat,
    lo: Option<Seq<u8>>,
    hi: Option<Seq<u8>>,
    sep: Seq<u8>,
    b: nat,
) -> bool {
    &&& subtree_wf(t, a, hh, lo, hi, b, b - 1, false, -1)
    &&& forall|p: Offset| #[trigger]
        in_subtree(t, a, hh, p) ==> in_subtree(s, a, hh, p) || in_subtree(s, b_, hh, p)
    &&& forall|key: Seq<u8>| #[trigger]
        lookup(t, a, hh, key) == pair_lookup(s, a, sep, b_, hh, key)
}

/// The pairs of two neighbouring leaves, one after the other, ascend, lie
/// within the outer bounds of the two, and a search among them finds what
/// it finds in the leaf on its side of the key between the two.
proof fn lemma_joined_leaves(
    a: NodeView,
    sep: Seq<u8>,
    b_: NodeView,
    lo: Option<Seq<u8>>,
    hi: Option<Seq<u8>>,
)
    requires
        leaf_wf(a, lo, Some(sep)),
        leaf_wf(b_, Some(sep), hi),
        above(lo, sep),
        below(sep, hi),
    ensures
        sorted(pair_keys(a.pairs() + b_.pairs())),
        forall|x: int|
            0 <= x < (a.pairs() + b_.pairs()).len() ==> above(
                lo,
                (#[trigger] (a.pairs() + b_.pairs())[x]).0,
            ) && at_most((a.pairs() + b_.pairs())[x].0, hi),
        forall|key: Seq<u8>|
            leaf_get(a.pairs() + b_.pairs(), key) == if lex_le(key, sep) {
                leaf_get(a.pairs(), key)
            } else {
                leaf_get(b_.pairs(), key)
            },
{
    let first = a.pairs();
    let second = b_.pairs();
    let whole = first + second;
    assert forall|i: int| 0 <= i < first.len() implies lex_le((#[trigger] first[i]).0, sep) by {
        assert(at_most(first[i].0, Some(sep)));
    }
    assert forall|i: int| 0 <= i < second.len() implies lex_lt(sep, (#[trigger] second[i]).0) by {
        assert(above(Some(sep), second[i].0));
    }
    lemma_leaf_concat(first, sep, second);
    assert forall|x: int| 0 <= x < whole.len() implies above(lo, (#[trigger] whole[x]).0)
        && at_most(whole[x].0, hi) by {
        if x < first.len() {
            assert(whole[x] == first[x]);
            assert(above(lo, first[x].0) && at_most(first[x].0, Some(sep)));
            if hi is Some {
                lemma_lex_le_lt(first[x].0, sep, hi->Some_0);
                lemma_lex_asymmetric(first[x].0, hi->Some_0);
            }
        } else {
            let y = x - first.len();
            assert(whole[x] == second[y]);
            assert(above(Some(sep), second[y].0) && at_most(second[y].0, hi));
            if lo is Some {
                lemma_lex_transitive(lo->Some_0, sep, second[y].0);
            }
        }
    }
}

proof fn lemma_repartition_leaf(
    s: Seq<Seq<u8>>,
    t: Seq<Seq<u8>>,
    a: Offset,
    b_: Offset,
    lo: Option<Seq<u8>>,
    hi: Option<Seq<u8>>,
    sep: Seq<u8>,
    sep2: Seq<u8>,
    b: nat,
    min_a: int,
    min_b: int,
)
    requires
        pair_pre(s, t, a, b_, 0, lo, hi, sep, b, min_a, min_b),
        decode_spec(t[a.0 as int]) is Ok,
        decode_spec(t[b_.0 as int]) is Ok,
        !node_at(t, a).is_root,
        !node_at(t, b_).is_root,
        repartitioned(0, node_at(s, a), sep, node_at(s, b_), node_at(t, a), sep2, node_at(t, b_)),
        b - 1 <= node_at(t, a).entries() <= 2 * b - 1,
        b - 1 <= node_at(t, b_).entries() <= 2 * b - 1,
    ensures
        pair_post(s, t, a, b_, 0, lo, hi, sep, sep2, b),
{
    let na = node_at(s, a);
    let nb = node_at(s, b_);
    let a2 = node_at(t, a);
    let b2 = node_at(t, b_);
    let whole = na.pairs() + nb.pairs();
    let ks = pair_keys(whole);
    let n = a2.pairs().len() as int;
    lemma_joined_leaves(na, sep, nb, lo, hi);
    assert(whole == a2.pairs() + b2.pairs());
    assert(whole.len() == n + b2.pairs().len());
    assert(pair_keys(a2.pairs()) =~= ks.subrange(0, n));
    assert(pair_keys(b2.pairs()) =~= ks.subrange(n, ks.len() as int));
    lemma_sorted_subrange(ks, 0, n);
    lemma_sorted_subrange(ks, n, ks.len() as int);
    assert(sep2 == whole[n - 1].0);
    assert(ks[n - 1] == sep2);
    assert(above(lo, whole[n - 1].0));
    assert(whole[n] == b2.pairs()[0]);
    assert(lex_lt(ks[n - 1], ks[n]));
    assert(at_most(whole[n].0, hi));
    if hi is Some {
        lemma_lex_lt_le(sep2, ks[n], hi->Some_0);
    }
    assert forall|i: int| 0 <= i < a2.pairs().len() implies above(lo, (#[trigger] a2.pairs()[i]).0)
        && at_most(a2.pairs()[i].0, Some(sep2)) && lex_le(a2.pairs()[i].0, sep2) by {
        assert(a2.pairs()[i] == whole[i]);
        if i < n - 1 {
            assert(lex_lt(ks[i], ks[n - 1]));
            lemma_lex_asymmetric(ks[i], ks[n - 1]);
        } else {
            lemma_lex_irreflexive(sep2);
        }
    }
    assert forall|i: int| 0 <= i < b2.pairs().len() implies above(
        Some(sep2),
        (#[trigger] b2.pairs()[i]).0,
    ) && at_most(b2.pairs()[i].0, hi) && lex_lt(sep2, b2.pairs()[i].0) by {
        assert(b2.pairs()[i] == whole[n + i]);
        assert(lex_lt(ks[n - 1], ks[n + i]));
    }
    assert(leaf_wf(a2, lo, Some(sep2)));
    assert(leaf_wf(b2, Some(sep2), hi));
    lemma_leaf_concat(a2.pairs(), sep2, b2.pairs());
    assert(in_subtree(s, a, 0, a));
    assert(in_subtree(s, b_, 0, b_));
    assert forall|key: Seq<u8>| #[trigger]
        pair_lookup(t, a, sep2, b_, 0, key) == pair_lookup(s, a, sep, b_, 0, key) by {
        assert(leaf_get(whole, key) == pair_lookup(s, a, sep, b_, 0, key));
        assert(leaf_get(a2.pairs() + b2.pairs(), key) == pair_lookup(t, a, sep2, b_, 0, key));
    }
}

proof fn lemma_merge_leaf(
    s: Seq<Seq<u8>>,
    t: Seq<Seq<u8>>,
    a: Offset,
    b_: Offset,
    lo: Option<Seq<u8>>,
    hi: Option<Seq<u8>>,
    sep: Seq<u8>,
    b: nat,
    min_a: int,
    min_b: int,
)
    requires
        pair_pre(s, t, a, b_, 0, lo, hi, sep, b, min_a, min_b),
        decode_spec(t[a.0 as int]) is Ok,
        !node_at(t, a).is_root,
        merged(0, node_at(s, a), sep, node_at(s, b_), node_at(t, a)),
        b - 1 <= node_at(t, a).entries() <= 2 * b - 1,
    ensures
        merge_post(s, t, a, b_, 0, lo, hi, sep, b),
{
    lemma_joined_leaves(node_at(s, a), sep, node_at(s, b_), lo, hi);
    assert(leaf_wf(node_at(t, a), lo, hi));
    assert(in_subtree(s, a, 0, a));
}

/// The children of two neighbouring internal nodes, one after the other
/// with the key between the two among their keys, are in store `t` what a
/// well-formed node has below it.
proof fn lemma_joined_kids(
    s: Seq<Seq<u8>>,
    t: Seq<Seq<u8>>,
    a: Offset,
    b_: Offset,
    hh: nat,
    lo: Option<Seq<u8>>,
    hi: Option<Seq<u8>>,
    sep: Seq<u8>,
    b: nat,
    min_a: int,
    min_b: int,
)
    requires
        pair_pre(s, t, a, b_, hh, lo, hi, sep, b, min_a, min_b),
        hh > 0,
    ensures
        kids_wf(
            t,
            node_at(s, a).children() + node_at(s, b_).children(),
            node_at(s, a).keys() + seq![sep] + node_at(s, b_).keys(),
            (hh - 1) as nat,
            lo,
            hi,
            b,
        ),
        forall|key: Seq<u8>|
            kids_lookup(
                t,
                node_at(s, a).children() + node_at(s, b_).children(),
                node_at(s, a).keys() + seq![sep] + node_at(s, b_).keys(),
                (hh - 1) as nat,
                key,
            ) == pair_lookup(s, a, sep, b_, hh, key),
        forall|p: Offset| #[trigger]
            in_kids(t, node_at(s, a).children() + node_at(s, b_).children(), (hh - 1) as nat, p)
                ==> (in_subtree(s, a, hh, p) || in_subtree(s, b_, hh, p)) && p != a && p != b_,
{
    let na = node_at(s, a);
    let nb = node_at(s, b_);
    let g = (hh - 1) as nat;
    let ch = na.children() + nb.children();
    let ks = na.keys() + seq![sep] + nb.keys();
    lemma_kids_of_subtree(s, a, hh, lo, Some(sep), b, min_a, false);
    lemma_kids_of_subtree(s, b_, hh, Some(sep), hi, b, min_b, false);
    assert(in_subtree(s, a, hh, a));
    assert(in_subtree(s, b_, hh, b_));
    assert forall|p: Offset| #[trigger] in_kids(s, na.children(), g, p) implies !in_kids(
        s,
        nb.children(),
        g,
        p,
    ) by {
        assert(in_subtree(s, a, hh, p));
        if in_kids(s, nb.children(), g, p) {
            assert(in_subtree(s, b_, hh, p));
        }
    }
    lemma_kids_concat(s, na.children(), na.keys(), sep, nb.children(), nb.keys(), g, lo, hi, b);
    assert forall|p: Offset| #[trigger] in_kids(s, ch, g, p) implies p.0 < t.len() && t[p.0 as int]
        == s[p.0 as int] && (in_subtree(s, a, hh, p) || in_subtree(s, b_, hh, p)) && p != a && p
        != b_ by {
        if in_kids(s, na.children(), g, p) {
            assert(in_subtree(s, a, hh, p));
            lemma_subtree_in_store(s, a, hh, lo, Some(sep), b, min_a, false, -1, p);
        } else {
            assert(in_kids(s, nb.children(), g, p));
            assert(in_subtree(s, b_, hh, p));
            lemma_subtree_in_store(s, b_, hh, Some(sep), hi, b, min_b, false, -1, p);
        }
    }
    lemma_kids_frame(s, t, ch, ks, g, lo, hi, b);
    assert forall|p: Offset| in_kids(t, ch, g, p) implies (in_subtree(s, a, hh, p) || in_subtree(
        s,
        b_,
        hh,
        p,
    )) && p != a && p != b_ by {
        assert(in_kids(s, ch, g, p));
    }
}

proof fn lemma_repartition_inner(
    s: Seq<Seq<u8>>,
    t: Seq<Seq<u8>>,
    a: Offset,
    b_: Offset,
    hh: nat,
    lo: Option<Seq<u8>>,
    hi: Option<Seq<u8>>,
    sep: Seq<u8>,
    sep2: Seq<u8>,
    b: nat,
    min_a: int,
    min_b: int,
)
    requires
        pair_pre(s, t, a, b_, hh, lo, hi, sep, b, min_a, min_b),
        hh > 0,
        decode_spec(t[a.0 as int]) is Ok,
        decode_spec(t[b_.0 as int]) is Ok,
        !node_at(t, a).is_root,
        !node_at(t, b_).is_root,
        repartitioned(hh, node_at(s, a), sep, node_at(s, b_), node_at(t, a), sep2, node_at(t, b_)),
        b - 1 <= node_at(t, a).entries() <= 2 * b - 1,
        b - 1 <= node_at(t, b_).entries() <= 2 * b - 1,
    ensures
        pair_post(s, t, a, b_, hh, lo, hi, sep, sep2, b),
{
    let na = node_at(s, a);
    let nb = node_at(s, b_);
    let a2 = node_at(t, a);
    let b2 = node_at(t, b_);
    let g = (hh - 1) as nat;
    let ch = na.children() + nb.children();
    let ks = na.keys() + seq![sep] + nb.keys();
    let at = a2.children().len() as int;
    lemma_joined_kids(s, t, a, b_, hh, lo, hi, sep, b, min_a, min_b);
    lemma_wf_top(s, a, hh, lo, Some(sep), b, min_a, false, -1);
    lemma_wf_top(s, b_, hh, Some(sep), hi, b, min_b, false, -1);
    assert(ch == a2.children() + b2.children());
    assert(ks == a2.keys() + seq![sep2] + b2.keys());
    assert(ch.len() == at + b2.children().len());
    assert(ks.len() == a2.keys().len() + 1 + b2.keys().len());
    assert(ks[at - 1] == sep2);
    assert(ch.subrange(0, at) =~= a2.children());
    assert(ks.subrange(0, at - 1) =~= a2.keys());
    assert(ch.subrange(at, ch.len() as int) =~= b2.children());
    assert(ks.subrange(at, ks.len() as int) =~= b2.keys());
    lemma_kids_split(t, ch, ks, at, g, lo, hi, b);
    assert forall|p: Offset| in_kids(t, a2.children(), g, p) || in_kids(
        t,
        b2.children(),
        g,
        p,
    ) implies (in_subtree(s, a, hh, p) || in_subtree(s, b_, hh, p)) && p != a && p != b_ by {
        assert(in_kids(t, ch.subrange(0, at), g, p) || in_kids(
            t,
            ch.subrange(at, ch.len() as int),
            g,
            p,
        ));
        assert(in_kids(t, ch, g, p));
    }
    lemma_subtree_of_kids(t, a, hh, lo, Some(sep2), b, b - 1, false);
    lemma_subtree_of_kids(t, b_, hh, Some(sep2), hi, b, b - 1, false);
    assert(in_subtree(s, a, hh, a));
    assert(in_subtree(s, b_, hh, b_));
    assert forall|p: Offset| #[trigger] in_subtree(t, a, hh, p) implies !in_subtree(t, b_, hh, p) by {
        if in_subtree(t, b_, hh, p) {
            if p == a {
                assert(in_kids(t, b2.children(), g, p));
            } else if p == b_ {
                assert(in_kids(t, a2.children(), g, p));
            } else {
                assert(in_kids(t, a2.children(), g, p));
                assert(in_kids(t, b2.children(), g, p));
            }
        }
    }
    assert forall|key: Seq<u8>| #[trigger]
        pair_lookup(t, a, sep2, b_, hh, key) == pair_lookup(s, a, sep, b_, hh, key) by {
        assert(kids_lookup(t, ch, ks, g, key) == pair_lookup(s, a, sep, b_, hh, key));
        assert(lookup(t, a, hh, key) == kids_lookup(t, a2.children(), a2.keys(), g, key));
        assert(lookup(t, b_, hh, key) == kids_lookup(t, b2.children(), b2.keys(), g, key));
    }
}

proof fn lemma_merge_inner(
    s: Seq<Seq<u8>>,
    t: Seq<Seq<u8>>,
    a: Offset,
    b_: Offset,
    hh: nat,
    lo: Option<Seq<u8>>,
    hi: Option<Seq<u8>>,
    sep: Seq<u8>,
    b: nat,
    min_a: int,
    min_b: int,
)
    requires
        pair_pre(s, t, a, b_, hh, lo, hi, sep, b, min_a, min_b),
        hh > 0,
        decode_spec(t[a.0 as int]) is Ok,
        !node_at(t, a).is_root,
        merged(hh, node_at(s, a), sep, node_at(s, b_), node_at(t, a)),
        b - 1 <= node_at(t, a).entries() <= 2 * b - 1,
    ensures
        merge_post(s, t, a, b_, hh, lo, hi, sep, b),
{
    let g = (hh - 1) as nat;
    let m = node_at(t, a);
    lemma_joined_kids(s, t, a, b_, hh, lo, hi, sep, b, min_a, min_b);
    lemma_wf_top(s, a, hh, lo, Some(sep), b, min_a, false, -1);
    assert(m.children() == node_at(s, a).children() + node_at(s, b_).children());
    assert forall|p: Offset| in_kids(t, m.children(), g, p) implies (in_subtree(s, a, hh, p)
        || in_subtree(s, b_, hh, p)) && p != a && p != b_ by {
        assert(in_kids(t, node_at(s, a).children() + node_at(s, b_).children(), g, p));
    }
    lemma_subtree_of_kids(t, a, hh, lo, hi, b, b - 1, false);
    assert(in_subtree(s, a, hh, a));
    assert forall|key: Seq<u8>| #[trigger]
        lookup(t, a, hh, key) == pair_lookup(s, a, sep, b_, hh, key) by {
        assert(lookup(t, a, hh, key) == kids_lookup(t, m.children(), m.keys(), g, key));
    }
}

/// Entries moved between two neighbouring nodes leave two well-formed
/// subtrees that hold what the two held.
pub proof fn lemma_repartition(
    s: Seq<Seq<u8>>,
    t: Seq<Seq<u8>>,
    a: Offset,
    b_: Offset,
    hh: nat,
    lo: Option<Seq<u8>>,
    hi: Option<Seq<u8>>,
    sep: Seq<u8>,
    sep2: Seq<u8>,
    b: nat,
    min_a: int,
    min_b: int,
)
    requires
        pair_pre(s, t, a, b_, hh, lo, hi, sep, b, min_a, min_b),
        decode_spec(t[a.0 as int]) is Ok,
        decode_spec(t[b_.0 as int]) is Ok,
        !node_at(t, a).is_root,
        !node_at(t, b_).is_root,
        repartitioned(hh, node_at(s, a), sep, node_at(s, b_), node_at(t, a), sep2, node_at(t, b_)),
        b - 1 <= node_at(t, a).entries() <= 2 * b - 1,
        b - 1 <= node_at(t, b_).entries() <= 2 * b - 1,
    ensures
        pair_post(s, t, a, b_, hh, lo, hi, sep, sep2, b),
{
    if hh == 0 {
        lemma_repartition_leaf(s, t, a, b_, lo, hi, sep, sep2, b, min_a, min_b);
    } else {
        lemma_repartition_inner(s, t, a, b_, hh, lo, hi, sep, sep2, b, min_a, min_b);
    }
}

/// Two neighbouring nodes merged into one leave a well-formed subtree that
/// holds what the two held.
pub proof fn lemma_merge_node(
    s: Seq<Seq<u8>>,
    t: Seq<Seq<u8>>,
    a: Offset,
    b_: Offset,
    hh: nat,
    lo: Option<Seq<u8>>,
    hi: Option<Seq<u8>>,
    sep: Seq<u8>,
    b: nat,
    min_a: int,
    min_b: int,
)
    requires
        pair_pre(s, t, a, b_, hh, lo, hi, sep, b, min_a, min_b),
        decode_spec(t[a.0 as int]) is Ok,
        !node_at(t, a).is_root,
        merged(hh, node_at(s, a), sep, node_at(s, b_), node_at(t, a)),
        b - 1 <= node_at(t, a).entries() <= 2 * b - 1,
    ensures
        merge_post(s, t, a, b_, hh, lo, hi, sep, b),
{
    if hh == 0 {
        lemma_merge_leaf(s, t, a, b_, lo, hi, sep, b, min_a, min_b);
    } else {
        lemma_merge_inner(s, t, a, b_, hh, lo, hi, sep, b, min_a, min_b);
    }
}


/// Entries have moved between the neighbouring children `j` and `j + 1` of
/// the node at `off`: in store `t` the two hold between them what they
/// held, and the node has the key `sep2` between the two. No other page
/// has changed.
pub open spec fn rotate_pre(
    s: Seq<Seq<u8>>,
    t: Seq<Seq<u8>>,
    off: Offset,
    h: nat,
    lo: Option<Seq<u8>>,
    hi: Option<Seq<u8>>,
    b: nat,
    min: int,
    root: bool,
    weak: int,
    j: int,
    sep2: Seq<u8>,
) -> bool {
    let n = node_at(s, off);
    let a = n.children()[j];
    let b_ = n.children()[j + 1];
    &&& h > 0
    &&& b >= 2
    &&& subtree_wf(s, off, h, lo, hi, b, min, root, weak)
    &&& 0 <= j < n.keys().len()
    &&& (weak == -1 || weak == j || weak == j + 1)
    &&& t.len() == s.len()
    &&& decode_spec(t[off.0 as int]) is Ok
    &&& node_at(t, off).kind == KindView::Internal(n.children(), n.keys().update(j, sep2))
    &&& node_at(t, off).is_root == n.is_root
    &&& decode_spec(t[a.0 as int]) is Ok
    &&& decode_spec(t[b_.0 as int]) is Ok
    &&& !node_at(t, a).is_root
    &&& !node_at(t, b_).is_root
    &&& repartitioned(
        (h - 1) as nat,
        node_at(s, a),
        n.keys()[j],
        node_at(s, b_),
        node_at(t, a),
        sep2,
        node_at(t, b_),
    )
    &&& b - 1 <= node_at(t, a).entries() <= 2 * b - 1
    &&& b - 1 <= node_at(t, b_).entries() <= 2 * b - 1
    &&& forall|p: Offset|
        p.0 < s.len() && p != off && p != a && p != b_ ==> #[trigger] t[p.0 as int] == s[p.0 as int]
}

/// The neighbouring children `j` and `j + 1` of the node at `off` were
/// merged: in store `t` the page of child `j` holds what the two held, and
/// the node has lost the key between the two and child `j + 1`. No other
/// page has changed.
pub open spec fn merge_pre(
    s: Seq<Seq<u8>>,
    t: Seq<Seq<u8>>,
    off: Offset,
    h: nat,
    lo: Option<Seq<u8>>,
    hi: Option<Seq<u8>>,
    b: nat,
    min: int,
    root: bool,
    weak: int,
    j: int,
) -> bool {
    let n = node_at(s, off);
    let a = n.children()[j];
    let b_ = n.children()[j + 1];
    &&& h > 0
    &&& b >= 2
    &&& subtree_wf(s, off, h, lo, hi, b, min, root, weak)
    &&& 0 <= j < n.keys().len()
    &&& (weak == -1 || weak == j || weak == j + 1)
    &&& t.len() == s.len()
    &&& decode_spec(t[off.0 as int]) is Ok
    &&& node_at(t, off).kind == KindView::Internal(n.children().remove(j + 1), n.keys().remove(j))
    &&& node_at(t, off).is_root == n.is_root
    &&& decode_spec(t[a.0 as int]) is Ok
    &&& !node_at(t, a).is_root
    &&& merged((h - 1) as nat, node_at(s, a), n.keys()[j], node_at(s, b_), node_at(t, a))
    &&& b - 1 <= node_at(t, a).entries() <= 2 * b - 1
    &&& forall|p: Offset| p.0 < s.len() && p != off && p != a ==> #[trigger] t[p.0 as int] == s[p.0 as int]
}

/// The two neighbouring children of a well-formed node are two subtrees
/// on either side of the key between them, which share no page.
pub proof fn lemma_pair_of_parent(
    s: Seq<Seq<u8>>,
    t: Seq<Seq<u8>>,
    off: Offset,
    h: nat,
    lo: Option<Seq<u8>>,
    hi: Option<Seq<u8>>,
    b: nat,
    min: int,
    root: bool,
    weak: int,
    j: int,
)
    requires
        h > 0,
        b >= 2,
        subtree_wf(s, off, h, lo, hi, b, min, root, weak),
        0 <= j < node_at(s, off).keys().len(),
        s.len() <= t.len(),
        forall|p: Offset|
            p.0 < s.len() && p != off && p != node_at(s, off).children()[j] && p != node_at(
                s,
                off,
            ).children()[j + 1] ==> #[trigger] t[p.0 as int] == s[p.0 as int],
    ensures
        pair_pre(
            s,
            t,
            node_at(s, off).children()[j],
            node_at(s, off).children()[j + 1],
            (h - 1) as nat,
            child_lo(node_at(s, off).keys(), lo, j),
            child_hi(node_at(s, off).keys(), hi, j + 1),
            node_at(s, off).keys()[j],
            b,
            child_min(b, weak, j),
            child_min(b, weak, j + 1),
        ),
        node_at(s, off).children()[j] != node_at(s, off).children()[j + 1],
        node_at(s, off).children()[j] != off,
        node_at(s, off).children()[j + 1] != off,
        forall|p: Offset|
            #![trigger in_subtree(s, node_at(s, off).children()[j], (h - 1) as nat, p)]
            #![trigger in_subtree(s, node_at(s, off).children()[j + 1], (h - 1) as nat, p)]
            in_subtree(s, node_at(s, off).children()[j], (h - 1) as nat, p) || in_subtree(
                s,
                node_at(s, off).children()[j + 1],
                (h - 1) as nat,
                p,
            ) ==> 0 < p.0 < s.len() && p != off,
{
    let n = node_at(s, off);
    let ks = n.keys();
    let a = n.children()[j];
    let b_ = n.children()[j + 1];
    let hh = (h - 1) as nat;
    lemma_wf_child(s, off, h, lo, hi, b, min, root, weak, j);
    lemma_wf_child(s, off, h, lo, hi, b, min, root, weak, j + 1);
    lemma_subtree_pages(
        s,
        a,
        hh,
        child_lo(ks, lo, j),
        child_hi(ks, hi, j),
        b,
        child_min(b, weak, j),
        false,
        -1,
    );
    lemma_subtree_pages(
        s,
        b_,
        hh,
        child_lo(ks, lo, j + 1),
        child_hi(ks, hi, j + 1),
        b,
        child_min(b, weak, j + 1),
        false,
        -1,
    );
    assert(in_subtree(s, a, hh, a));
    assert(in_subtree(s, b_, hh, b_));
    assert(above(lo, ks[j]) && below(ks[j], hi));
    if j > 0 {
        assert(lex_lt(ks[j - 1], ks[j]));
    }
    if j + 1 < ks.len() {
        assert(lex_lt(ks[j], ks[j + 1]));
    }
    assert forall|p: Offset| #[trigger] in_subtree(s, a, hh, p) implies !in_subtree(s, b_, hh, p) by {}
    assert forall|p: Offset|
        #![trigger in_subtree(s, a, hh, p)]
        #![trigger in_subtree(s, b_, hh, p)]
        in_subtree(s, a, hh, p) || in_subtree(s, b_, hh, p) implies 0 < p.0 < s.len() && p
        != off by {
        assert(!in_subtree(s, a, hh, off));
        assert(!in_subtree(s, b_, hh, off));
    }
}

/// The keys of a node between two of whose children entries have moved
/// ascend and lie within the node's bounds.
proof fn lemma_rotated_keys(
    s: Seq<Seq<u8>>,
    t: Seq<Seq<u8>>,
    off: Offset,
    h: nat,
    lo: Option<Seq<u8>>,
    hi: Option<Seq<u8>>,
    b: nat,
    min: int,
    root: bool,
    weak: int,
    j: int,
    sep2: Seq<u8>,
)
    requires
        rotate_pre(s, t, off, h, lo, hi, b, min, root, weak, j, sep2),
        pair_post(
            s,
            t,
            node_at(s, off).children()[j],
            node_at(s, off).children()[j + 1],
            (h - 1) as nat,
            child_lo(node_at(s, off).keys(), lo, j),
            child_hi(node_at(s, off).keys(), hi, j + 1),
            node_at(s, off).keys()[j],
            sep2,
            b,
        ),
        siblings_framed(s, t, off, h, lo, hi, b, j, j + 1),
    ensures
        inner_wf(node_at(t, off), lo, hi),
        node_at(t, off).entries() == node_at(s, off).entries(),
{
    let n = node_at(s, off);
    let ks = n.keys();
    let ks2 = node_at(t, off).keys();
    assert(ks2 == ks.update(j, sep2));
    lemma_wf_top(s, off, h, lo, hi, b, min, root, weak);
    lemma_route_update(ks, j, sep2, sep2);
    assert(above(lo, sep2) && below(sep2, hi)) by {
        if j > 0 {
            assert(above(lo, ks[j - 1]));
            if lo is Some {
                lemma_lex_transitive(lo->Some_0, ks[j - 1], sep2);
            }
        }
        if j + 1 < ks.len() {
            assert(below(ks[j + 1], hi));
            if hi is Some {
                lemma_lex_transitive(sep2, ks[j + 1], hi->Some_0);
            }
        }
    }
    assert forall|x: int| 0 <= x < ks2.len() implies above(lo, #[trigger] ks2[x]) && below(
        ks2[x],
        hi,
    ) by {
        if x != j {
            assert(ks2[x] == ks[x]);
        }
    }
}

/// The children of a node between two of whose children entries have
/// moved are well-formed subtrees, none of which holds the node's page.
proof fn lemma_rotated_children(
    s: Seq<Seq<u8>>,
    t: Seq<Seq<u8>>,
    off: Offset,
    h: nat,
    lo: Option<Seq<u8>>,
    hi: Option<Seq<u8>>,
    b: nat,
    min: int,
    root: bool,
    weak: int,
    j: int,
    sep2: Seq<u8>,
)
    requires
        rotate_pre(s, t, off, h, lo, hi, b, min, root, weak, j, sep2),
        pair_post(
            s,
            t,
            node_at(s, off).children()[j],
            node_at(s, off).children()[j + 1],
            (h - 1) as nat,
            child_lo(node_at(s, off).keys(), lo, j),
            child_hi(node_at(s, off).keys(), hi, j + 1),
            node_at(s, off).keys()[j],
            sep2,
            b,
        ),
        siblings_framed(s, t, off, h, lo, hi, b, j, j + 1),
    ensures
        forall|x: int|
            0 <= x < node_at(t, off).children().len() ==> subtree_wf(
                t,
                #[trigger] node_at(t, off).children()[x],
                (h - 1) as nat,
                child_lo(node_at(t, off).keys(), lo, x),
                child_hi(node_at(t, off).keys(), hi, x),
                b,
                b - 1,
                false,
                -1,
            ) && !in_subtree(t, node_at(t, off).children()[x], (h - 1) as nat, off),
{
    let n = node_at(s, off);
    let ch = n.children();
    let ks = n.keys();
    let hh = (h - 1) as nat;
    let ks2 = node_at(t, off).keys();
    assert(node_at(t, off).children() == ch);
    assert(ks2 == ks.update(j, sep2));
    lemma_wf_top(s, off, h, lo, hi, b, min, root, weak);
    assert forall|x: int| 0 <= x < ch.len() implies subtree_wf(
        t,
        #[trigger] ch[x],
        hh,
        child_lo(ks2, lo, x),
        child_hi(ks2, hi, x),
        b,
        b - 1,
        false,
        -1,
    ) && !in_subtree(t, ch[x], hh, off) by {
        assert(!in_subtree(s, ch[j], hh, off));
        assert(!in_subtree(s, ch[j + 1], hh, off));
        if x == j {
            if x > 0 {
                assert(ks2[x - 1] == ks[x - 1]);
            }
            assert(ks2[x] == sep2);
        } else if x == j + 1 {
            assert(ks2[x - 1] == sep2);
            if x < ks.len() {
                assert(ks2[x] == ks[x]);
            }
        } else {
            if x > 0 {
                assert(ks2[x - 1] == ks[x - 1]);
            }
            if x < ks.len() {
                assert(ks2[x] == ks[x]);
            }
            assert(!in_subtree(s, ch[x], hh, off));
        }
    }
}

/// No page belongs to two children of a node between two of whose
/// children entries have moved, and every page of its subtree was one.
proof fn lemma_rotated_disjoint(
    s: Seq<Seq<u8>>,
    t: Seq<Seq<u8>>,
    off: Offset,
    h: nat,
    lo: Option<Seq<u8>>,
    hi: Option<Seq<u8>>,
    b: nat,
    min: int,
    root: bool,
    weak: int,
    j: int,
    sep2: Seq<u8>,
)
    requires
        rotate_pre(s, t, off, h, lo, hi, b, min, root, weak, j, sep2),
        pair_post(
            s,
            t,
            node_at(s, off).children()[j],
            node_at(s, off).children()[j + 1],
            (h - 1) as nat,
            child_lo(node_at(s, off).keys(), lo, j),
            child_hi(node_at(s, off).keys(), hi, j + 1),
            node_at(s, off).keys()[j],
            sep2,
            b,
        ),
        siblings_framed(s, t, off, h, lo, hi, b, j, j + 1),
    ensures
        forall|x: int, y: int, p: Offset|
            0 <= x < node_at(t, off).children().len() && 0 <= y < node_at(t, off).children().len()
                && x != y && #[trigger] in_subtree(
                t,
                node_at(t, off).children()[x],
                (h - 1) as nat,
                p,
            ) ==> !in_subtree(t, #[trigger] node_at(t, off).children()[y], (h - 1) as nat, p),
        forall|p: Offset| #[trigger] in_subtree(t, off, h, p) ==> in_subtree(s, off, h, p),
{
    let n = node_at(s, off);
    let ch = n.children();
    let hh = (h - 1) as nat;
    assert(node_at(t, off).children() == ch);
    lemma_wf_top(s, off, h, lo, hi, b, min, root, weak);
    // Where a page of a child came from: the child itself, or one of the two.
    assert forall|x: int, p: Offset| 0 <= x < ch.len() && #[trigger] in_subtree(
        t,
        ch[x],
        hh,
        p,
    ) implies if x == j || x == j + 1 {
        in_subtree(s, ch[j], hh, p) || in_subtree(s, ch[j + 1], hh, p)
    } else {
        in_subtree(s, ch[x], hh, p)
    } by {}
    assert forall|x: int, y: int, p: Offset|
        0 <= x < ch.len() && 0 <= y < ch.len() && x != y && #[trigger] in_subtree(
            t,
            ch[x],
            hh,
            p,
        ) implies !in_subtree(t, #[trigger] ch[y], hh, p) by {
        if in_subtree(t, ch[y], hh, p) {
            let xin = x == j || x == j + 1;
            let yin = y == j || y == j + 1;
            if xin && yin {
                assert(in_subtree(t, ch[j], hh, p));
                assert(in_subtree(t, ch[j + 1], hh, p));
            } else if xin {
                assert(in_subtree(s, ch[y], hh, p));
                assert(in_subtree(s, ch[j], hh, p) || in_subtree(s, ch[j + 1], hh, p));
            } else if yin {
                assert(in_subtree(s, ch[x], hh, p));
                assert(in_subtree(s, ch[j], hh, p) || in_subtree(s, ch[j + 1], hh, p));
            } else {
                assert(in_subtree(s, ch[x], hh, p));
                assert(in_subtree(s, ch[y], hh, p));
            }
        }
    }
    assert forall|p: Offset| #[trigger] in_subtree(t, off, h, p) implies in_subtree(s, off, h, p) by {
        if p != off {
            let x = choose|x: int| 0 <= x < ch.len() && in_subtree(t, #[trigger] ch[x], hh, p);
            if x == j || x == j + 1 {
                assert(in_subtree(s, ch[j], hh, p) || in_subtree(s, ch[j + 1], hh, p));
            } else {
                assert(in_subtree(s, ch[x], hh, p));
            }
        }
    }
}

/// A search in the subtree of a node between two of whose children
/// entries have moved finds what it found.
proof fn lemma_rotated_lookup(
    s: Seq<Seq<u8>>,
    t: Seq<Seq<u8>>,
    off: Offset,
    h: nat,
    lo: Option<Seq<u8>>,
    hi: Option<Seq<u8>>,
    b: nat,
    min: int,
    root: bool,
    weak: int,
    j: int,
    sep2: Seq<u8>,
)
    requires
        rotate_pre(s, t, off, h, lo, hi, b, min, root, weak, j, sep2),
        pair_post(
            s,
            t,
            node_at(s, off).children()[j],
            node_at(s, off).children()[j + 1],
            (h - 1) as nat,
            child_lo(node_at(s, off).keys(), lo, j),
            child_hi(node_at(s, off).keys(), hi, j + 1),
            node_at(s, off).keys()[j],
            sep2,
            b,
        ),
        siblings_framed(s, t, off, h, lo, hi, b, j, j + 1),
    ensures
        forall|key: Seq<u8>| lookup(t, off, h, key) == lookup(s, off, h, key),
{
    let n = node_at(s, off);
    let ch = n.children();
    let ks = n.keys();
    let hh = (h - 1) as nat;
    let ks2 = node_at(t, off).keys();
    let a = ch[j];
    let b_ = ch[j + 1];
    assert(node_at(t, off).children() == ch);
    assert(ks2 == ks.update(j, sep2));
    lemma_wf_top(s, off, h, lo, hi, b, min, root, weak);
    lemma_route_update(ks, j, sep2, sep2);
    assert forall|key: Seq<u8>| lookup(t, off, h, key) == lookup(s, off, h, key) by {
        lemma_route_update(ks, j, sep2, key);
        lemma_route_bounds(ks, key);
        crate::sorted::lemma_route_vs(ks, key, j);
        let r = route(ks, key);
        let r2 = route(ks2, key);
        assert(lookup(s, off, h, key) == lookup(s, ch[r], hh, key));
        assert(lookup(t, off, h, key) == lookup(t, ch[r2], hh, key));
        if r < j || r > j + 1 {
            assert(lookup(t, ch[r], hh, key) == lookup(s, ch[r], hh, key));
        } else {
            assert(pair_lookup(t, a, sep2, b_, hh, key) == pair_lookup(s, a, ks[j], b_, hh, key));
        }
    }
}

/// Moving entries between two neighbouring children keeps the subtree of
/// their parent well-formed, and a search in it finds what it found.
pub proof fn lemma_rotated(
    s: Seq<Seq<u8>>,
    t: Seq<Seq<u8>>,
    off: Offset,
    h: nat,
    lo: Option<Seq<u8>>,
    hi: Option<Seq<u8>>,
    b: nat,
    min: int,
    root: bool,
    weak: int,
    j: int,
    sep2: Seq<u8>,
)
    requires
        rotate_pre(s, t, off, h, lo, hi, b, min, root, weak, j, sep2),
    ensures
        subtree_wf(t, off, h, lo, hi, b, min, root, -1),
        updated(s, t, off, h),
        tree_map(t, off, h) == tree_map(s, off, h),
{
    let n = node_at(s, off);
    let ks = n.keys();
    let a = n.children()[j];
    let b_ = n.children()[j + 1];
    let hh = (h - 1) as nat;
    lemma_pair_of_parent(s, t, off, h, lo, hi, b, min, root, weak, j);
    lemma_repartition(
        s,
        t,
        a,
        b_,
        hh,
        child_lo(ks, lo, j),
        child_hi(ks, hi, j + 1),
        ks[j],
        sep2,
        b,
        child_min(b, weak, j),
        child_min(b, weak, j + 1),
    );
    assert(in_subtree(s, a, hh, a));
    assert(in_subtree(s, b_, hh, b_));
    lemma_siblings_framed(s, t, off, h, lo, hi, b, min, root, weak, j, j + 1);
    lemma_rotated_keys(s, t, off, h, lo, hi, b, min, root, weak, j, sep2);
    lemma_rotated_children(s, t, off, h, lo, hi, b, min, root, weak, j, sep2);
    lemma_rotated_disjoint(s, t, off, h, lo, hi, b, min, root, weak, j, sep2);
    lemma_rotated_lookup(s, t, off, h, lo, hi, b, min, root, weak, j, sep2);
    lemma_wf_top(s, off, h, lo, hi, b, min, root, weak);
    assert(subtree_wf(t, off, h, lo, hi, b, min, root, -1));
    assert(tree_map(t, off, h) =~= tree_map(s, off, h));
}

/// The keys of a node two of whose children were merged ascend and lie
/// within the node's bounds.
proof fn lemma_merged_keys(
    s: Seq<Seq<u8>>,
    t: Seq<Seq<u8>>,
    off: Offset,
    h: nat,
    lo: Option<Seq<u8>>,
    hi: Option<Seq<u8>>,
    b: nat,
    min: int,
    root: bool,
    weak: int,
    j: int,
)
    requires
        merge_pre(s, t, off, h, lo, hi, b, min, root, weak, j),
        merge_post(
            s,
            t,
            node_at(s, off).children()[j],
            node_at(s, off).children()[j + 1],
            (h - 1) as nat,
            child_lo(node_at(s, off).keys(), lo, j),
            child_hi(node_at(s, off).keys(), hi, j + 1),
            node_at(s, off).keys()[j],
            b,
        ),
        siblings_framed(s, t, off, h, lo, hi, b, j, j + 1),
    ensures
        inner_wf(node_at(t, off), lo, hi),
        node_at(t, off).entries() == node_at(s, off).entries() - 1,
{
    let n = node_at(s, off);
    let ks = n.keys();
    let ks2 = node_at(t, off).keys();
    assert(ks2 == ks.remove(j));
    assert(node_at(t, off).children() == n.children().remove(j + 1));
    lemma_wf_top(s, off, h, lo, hi, b, min, root, weak);
    crate::sorted::lemma_sorted_remove(ks, j);
    assert forall|x: int| 0 <= x < ks2.len() implies above(lo, #[trigger] ks2[x]) && below(
        ks2[x],
        hi,
    ) by {
        if x < j {
            assert(ks2[x] == ks[x]);
        } else {
            assert(ks2[x] == ks[x + 1]);
        }
    }
}

/// The children of a node two of whose children were merged are
/// well-formed subtrees, none of which holds the node's page.
proof fn lemma_merged_children(
    s: Seq<Seq<u8>>,
    t: Seq<Seq<u8>>,
    off: Offset,
    h: nat,
    lo: Option<Seq<u8>>,
    hi: Option<Seq<u8>>,
    b: nat,
    min: int,
    root: bool,
    weak: int,
    j: int,
)
    requires
        merge_pre(s, t, off, h, lo, hi, b, min, root, weak, j),
        merge_post(
            s,
            t,
            node_at(s, off).children()[j],
            node_at(s, off).children()[j + 1],
            (h - 1) as nat,
            child_lo(node_at(s, off).keys(), lo, j),
            child_hi(node_at(s, off).keys(), hi, j + 1),
            node_at(s, off).keys()[j],
            b,
        ),
        siblings_framed(s, t, off, h, lo, hi, b, j, j + 1),
    ensures
        forall|x: int|
            0 <= x < node_at(t, off).children().len() ==> subtree_wf(
                t,
                #[trigger] node_at(t, off).children()[x],
                (h - 1) as nat,
                child_lo(node_at(t, off).keys(), lo, x),
                child_hi(node_at(t, off).keys(), hi, x),
                b,
                b - 1,
                false,
                -1,
            ) && !in_subtree(t, node_at(t, off).children()[x], (h - 1) as nat, off),
{
    let n = node_at(s, off);
    let ch = n.children();
    let ks = n.keys();
    let hh = (h - 1) as nat;
    let ch2 = node_at(t, off).children();
    let ks2 = node_at(t, off).keys();
    assert(ch2 == ch.remove(j + 1));
    assert(ks2 == ks.remove(j));
    lemma_wf_top(s, off, h, lo, hi, b, min, root, weak);
    assert forall|x: int| 0 <= x < ch2.len() implies subtree_wf(
        t,
        #[trigger] ch2[x],
        hh,
        child_lo(ks2, lo, x),
        child_hi(ks2, hi, x),
        b,
        b - 1,
        false,
        -1,
    ) && !in_subtree(t, ch2[x], hh, off) by {
        assert(!in_subtree(s, ch[j], hh, off));
        assert(!in_subtree(s, ch[j + 1], hh, off));
        if x < j {
            assert(ch2[x] == ch[x]);
            if x > 0 {
                assert(ks2[x - 1] == ks[x - 1]);
            }
            assert(ks2[x] == ks[x]);
            assert(!in_subtree(s, ch[x], hh, off));
        } else if x == j {
            assert(ch2[x] == ch[j]);
            if x > 0 {
                assert(ks2[x - 1] == ks[x - 1]);
            }
            if x < ks2.len() {
                assert(ks2[x] == ks[x + 1]);
            }
        } else {
            assert(ch2[x] == ch[x + 1]);
            assert(ks2[x - 1] == ks[x]);
            if x < ks2.len() {
                assert(ks2[x] == ks[x + 1]);
            }
            assert(!in_subtree(s, ch[x + 1], hh, off));
        }
    }
}

/// No page belongs to two children of a node two of whose children were
/// merged, and every page of its subtree was one.
proof fn lemma_merged_disjoint(
    s: Seq<Seq<u8>>,
    t: Seq<Seq<u8>>,
    off: Offset,
    h: nat,
    lo: Option<Seq<u8>>,
    hi: Option<Seq<u8>>,
    b: nat,
    min: int,
    root: bool,
    weak: int,
    j: int,
)
    requires
        merge_pre(s, t, off, h, lo, hi, b, min, root, weak, j),
        merge_post(
            s,
            t,
            node_at(s, off).children()[j],
            node_at(s, off).children()[j + 1],
            (h - 1) as nat,
            child_lo(node_at(s, off).keys(), lo, j),
            child_hi(node_at(s, off).keys(), hi, j + 1),
            node_at(s, off).keys()[j],
            b,
        ),
        siblings_framed(s, t, off, h, lo, hi, b, j, j + 1),
    ensures
        forall|x: int, y: int, p: Offset|
            0 <= x < node_at(t, off).children().len() && 0 <= y < node_at(t, off).children().len()
                && x != y && #[trigger] in_subtree(
                t,
                node_at(t, off).children()[x],
                (h - 1) as nat,
                p,
            ) ==> !in_subtree(t, #[trigger] node_at(t, off).children()[y], (h - 1) as nat, p),
        forall|p: Offset| #[trigger] in_subtree(t, off, h, p) ==> in_subtree(s, off, h, p),
{
    let n = node_at(s, off);
    let ch = n.children();
    let hh = (h - 1) as nat;
    let ch2 = node_at(t, off).children();
    assert(ch2 == ch.remove(j + 1));
    lemma_wf_top(s, off, h, lo, hi, b, min, root, weak);
    assert forall|x: int, p: Offset| 0 <= x < ch2.len() && #[trigger] in_subtree(
        t,
        ch2[x],
        hh,
        p,
    ) implies if x == j {
        in_subtree(s, ch[j], hh, p) || in_subtree(s, ch[j + 1], hh, p)
    } else if x < j {
        in_subtree(s, ch[x], hh, p)
    } else {
        in_subtree(s, ch[x + 1], hh, p)
    } by {
        if x < j {
            assert(ch2[x] == ch[x]);
        } else if x == j {
            assert(ch2[x] == ch[j]);
        } else {
            assert(ch2[x] == ch[x + 1]);
        }
    }
    assert forall|x: int, y: int, p: Offset|
        0 <= x < ch2.len() && 0 <= y < ch2.len() && x != y && #[trigger] in_subtree(
            t,
            ch2[x],
            hh,
            p,
        ) implies !in_subtree(t, #[trigger] ch2[y], hh, p) by {
        if in_subtree(t, ch2[y], hh, p) {
            let x0 = if x <= j { x } else { x + 1 };
            let y0 = if y <= j { y } else { y + 1 };
            if x == j {
                assert(in_subtree(s, ch[j], hh, p) || in_subtree(s, ch[j + 1], hh, p));
                assert(in_subtree(s, ch[y0], hh, p));
            } else if y == j {
                assert(in_subtree(s, ch[j], hh, p) || in_subtree(s, ch[j + 1], hh, p));
                assert(in_subtree(s, ch[x0], hh, p));
            } else {
                assert(in_subtree(s, ch[x0], hh, p));
                assert(in_subtree(s, ch[y0], hh, p));
            }
        }
    }
    assert forall|p: Offset| #[trigger] in_subtree(t, off, h, p) implies in_subtree(s, off, h, p) by {
        if p != off {
            let x = choose|x: int| 0 <= x < ch2.len() && in_subtree(t, #[trigger] ch2[x], hh, p);
            if x == j {
                assert(in_subtree(s, ch[j], hh, p) || in_subtree(s, ch[j + 1], hh, p));
            } else if x < j {
                assert(in_subtree(s, ch[x], hh, p));
            } else {
                assert(in_subtree(s, ch[x + 1], hh, p));
            }
        }
    }
}

/// A search in the subtree of a node two of whose children were merged
/// finds what it found.
proof fn lemma_merged_lookup(
    s: Seq<Seq<u8>>,
    t: Seq<Seq<u8>>,
    off: Offset,
    h: nat,
    lo: Option<Seq<u8>>,
    hi: Option<Seq<u8>>,
    b: nat,
    min: int,
    root: bool,
    weak: int,
    j: int,
)
    requires
        merge_pre(s, t, off, h, lo, hi, b, min, root, weak, j),
        merge_post(
            s,
            t,
            node_at(s, off).children()[j],
            node_at(s, off).children()[j + 1],
            (h - 1) as nat,
            child_lo(node_at(s, off).keys(), lo, j),
            child_hi(node_at(s, off).keys(), hi, j + 1),
            node_at(s, off).keys()[j],
            b,
        ),
        siblings_framed(s, t, off, h, lo, hi, b, j, j + 1),
    ensures
        forall|key: Seq<u8>| lookup(t, off, h, key) == lookup(s, off, h, key),
{
    let n = node_at(s, off);
    let ch = n.children();
    let ks = n.keys();
    let hh = (h - 1) as nat;
    let ch2 = node_at(t, off).children();
    let ks2 = node_at(t, off).keys();
    let a = ch[j];
    let b_ = ch[j + 1];
    assert(ch2 == ch.remove(j + 1));
    assert(ks2 == ks.remove(j));
    lemma_wf_top(s, off, h, lo, hi, b, min, root, weak);
    assert forall|key: Seq<u8>| lookup(t, off, h, key) == lookup(s, off, h, key) by {
        lemma_route_remove(ks, j, key);
        lemma_route_bounds(ks, key);
        crate::sorted::lemma_route_vs(ks, key, j);
        let r = route(ks, key);
        let r2 = route(ks2, key);
        assert(lookup(s, off, h, key) == lookup(s, ch[r], hh, key));
        assert(lookup(t, off, h, key) == lookup(t, ch2[r2], hh, key));
        if r < j {
            assert(ch2[r2] == ch[r]);
            assert(lookup(t, ch[r], hh, key) == lookup(s, ch[r], hh, key));
        } else if r > j + 1 {
            assert(ch2[r2] == ch[r]);
            assert(lookup(t, ch[r], hh, key) == lookup(s, ch[r], hh, key));
        } else {
            assert(ch2[r2] == a);
            assert(lookup(t, a, hh, key) == pair_lookup(s, a, ks[j], b_, hh, key));
        }
    }
}

/// Merging two neighbouring children keeps the subtree of their parent
/// well-formed, but that the parent holds one key less, and a search in
/// it finds what it found.
pub proof fn lemma_merged_child(
    s: Seq<Seq<u8>>,
    t: Seq<Seq<u8>>,
    off: Offset,
    h: nat,
    lo: Option<Seq<u8>>,
    hi: Option<Seq<u8>>,
    b: nat,
    min: int,
    root: bool,
    weak: int,
    j: int,
)
    requires
        merge_pre(s, t, off, h, lo, hi, b, min, root, weak, j),
    ensures
        subtree_wf(t, off, h, lo, hi, b, min - 1, root, -1),
        updated(s, t, off, h),
        tree_map(t, off, h) == tree_map(s, off, h),
{
    let n = node_at(s, off);
    let ks = n.keys();
    let a = n.children()[j];
    let b_ = n.children()[j + 1];
    let hh = (h - 1) as nat;
    lemma_wf_child(s, off, h, lo, hi, b, min, root, weak, j + 1);
    assert(in_subtree(s, b_, hh, b_));
    assert forall|p: Offset|
        p.0 < s.len() && p != off && p != a && p != b_ implies #[trigger] t[p.0 as int]
        == s[p.0 as int] by {}
    lemma_pair_of_parent(s, t, off, h, lo, hi, b, min, root, weak, j);
    lemma_merge_node(
        s,
        t,
        a,
        b_,
        hh,
        child_lo(ks, lo, j),
        child_hi(ks, hi, j + 1),
        ks[j],
        b,
        child_min(b, weak, j),
        child_min(b, weak, j + 1),
    );
    assert(in_subtree(s, a, hh, a));
    lemma_siblings_framed(s, t, off, h, lo, hi, b, min, root, weak, j, j + 1);
    lemma_merged_keys(s, t, off, h, lo, hi, b, min, root, weak, j);
    lemma_merged_children(s, t, off, h, lo, hi, b, min, root, weak, j);
    lemma_merged_disjoint(s, t, off, h, lo, hi, b, min, root, weak, j);
    lemma_merged_lookup(s, t, off, h, lo, hi, b, min, root, weak, j);
    lemma_wf_top(s, off, h, lo, hi, b, min, root, weak);
    assert(subtree_wf(t, off, h, lo, hi, b, min - 1, root, -1));
    assert(tree_map(t, off, h) =~= tree_map(s, off, h));
}

} // verus!
