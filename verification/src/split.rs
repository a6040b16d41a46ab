//! Why splitting a full node keeps the tree well-formed and its keys in
//! place.
use vstd::prelude::*;
use crate::lex::{
    lemma_lex_asymmetric, lemma_lex_irreflexive, lemma_lex_lt_le, lemma_lex_transitive, lex_le,
    lex_lt,
};
use crate::node::{decode_spec, is_full, split_left, split_median, split_right};
use crate::node_type::{pair_keys, KindView, Offset};
use crate::sorted::{
    lemma_route_bounds, lemma_route_insert, lemma_route_is, lemma_route_split, lemma_route_vs,
    lemma_sorted_subrange, route,
};
use crate::tree::{
    above, at_most, below, child_hi, child_lo, in_subtree, inner_wf, leaf_wf,
    lemma_frame, lemma_siblings_framed, lemma_subtree_in_store, lemma_subtree_pages,
    lemma_wf_child, lookup, node_at, siblings_framed, subtree_wf, tree_map, updated,
};

verus! {

/// The full node at `c` in store `s` was split: in store `t` the page at
/// `c` holds its first half and the page at `sib`, which `s` does not have,
/// its second half; the pages below it are as they were.
pub open spec fn split_pre(
    s: Seq<Seq<u8>>,
    t: Seq<Seq<u8>>,
    c: Offset,
    sib: Offset,
    hc: nat,
    lo: Option<Seq<u8>>,
    hi: Option<Seq<u8>>,
    b: nat,
    min: int,
    root: bool,
) -> bool {
    &&& b >= 2
    &&& subtree_wf(s, c, hc, lo, hi, b, min, root, -1)
    &&& is_full(node_at(s, c), b)
    &&& s.len() <= sib.0 < t.len()
    &&& decode_spec(t[c.0 as int]) is Ok
    &&& decode_spec(t[sib.0 as int]) is Ok
    &&& node_at(t, c).kind == split_left(node_at(s, c), b).kind
    &&& !node_at(t, c).is_root
    &&& node_at(t, sib).kind == split_right(node_at(s, c), b).kind
    &&& !node_at(t, sib).is_root
    &&& forall|p: Offset| #[trigger]
        in_subtree(s, c, hc, p) && p != c ==> p.0 < t.len() && t[p.0 as int] == s[p.0 as int]
}

/// The two halves of a split node are well-formed subtrees on either side
/// of the median, share no page, and hold between them what the node held:
/// the keys up to the median in the first, the others in the second.
pub open spec fn split_post(
    s: Seq<Seq<u8>>,
    t: Seq<Seq<u8>>,
    c: Offset,
    sib: Offset,
    hc: nat,
    lo: Option<Seq<u8>>,
    hi: Option<Seq<u8>>,
    b: nat,
) -> bool {
    let m = split_median(node_at(s, c), b);
    &&& above(lo, m)
    &&& below(m, hi)
    &&& subtree_wf(t, c, hc, lo, Some(m), b, b - 1, false, -1)
    &&& subtree_wf(t, sib, hc, Some(m), hi, b, b - 1, false, -1)
    &&& forall|p: Offset| #[trigger] in_subtree(t, c, hc, p) ==> in_subtree(s, c, hc, p)
    &&& forall|p: Offset| #[trigger]
        in_subtree(t, sib, hc, p) ==> p == sib || (in_subtree(s, c, hc, p) && p != c)
    &&& forall|p: Offset| #[trigger] in_subtree(t, c, hc, p) ==> !in_subtree(t, sib, hc, p)
    &&& forall|key: Seq<u8>|
        #![trigger lookup(t, c, hc, key)]
        #![trigger lookup(t, sib, hc, key)]
        lookup(s, c, hc, key) == if lex_le(key, m) {
            lookup(t, c, hc, key)
        } else {
            lookup(t, sib, hc, key)
        }
}

proof fn lemma_split_leaf(
    s: Seq<Seq<u8>>,
    t: Seq<Seq<u8>>,
    c: Offset,
    sib: Offset,
    lo: Option<Seq<u8>>,
    hi: Option<Seq<u8>>,
    b: nat,
    min: int,
    root: bool,
)
    requires
        split_pre(s, t, c, sib, 0, lo, hi, b, min, root),
    ensures
        split_post(s, t, c, sib, 0, lo, hi, b),
{
    let cn = node_at(s, c);
    let pairs = cn.pairs();
    let ks = pair_keys(pairs);
    let left = node_at(t, c);
    let right = node_at(t, sib);
    let m = split_median(cn, b);
    assert(m == ks[b - 1]);
    assert(pair_keys(left.pairs()) =~= ks.subrange(0, b as int));
    assert(pair_keys(right.pairs()) =~= ks.subrange(b as int, 2 * b - 1));
    lemma_sorted_subrange(ks, 0, b as int);
    lemma_sorted_subrange(ks, b as int, 2 * b - 1);
    assert(above(lo, pairs[b - 1].0));
    assert(at_most(pairs[2 * b - 2].0, hi));
    assert(lex_lt(ks[b - 1], ks[2 * b - 2]));
    if hi is Some {
        lemma_lex_lt_le(m, ks[2 * b - 2], hi->Some_0);
    }
    assert forall|i: int| 0 <= i < left.pairs().len() implies above(
        lo,
        (#[trigger] left.pairs()[i]).0,
    ) && at_most(left.pairs()[i].0, Some(m)) by {
        assert(left.pairs()[i] == pairs[i]);
        if i < b - 1 {
            assert(lex_lt(ks[i], ks[b - 1]));
            lemma_lex_asymmetric(ks[i], ks[b - 1]);
        } else {
            lemma_lex_irreflexive(m);
        }
    }
    assert forall|i: int| 0 <= i < right.pairs().len() implies above(
        Some(m),
        (#[trigger] right.pairs()[i]).0,
    ) && at_most(right.pairs()[i].0, hi) by {
        assert(right.pairs()[i] == pairs[b + i]);
        assert(lex_lt(ks[b - 1], ks[b + i]));
    }
    assert(leaf_wf(left, lo, Some(m)));
    assert(leaf_wf(right, Some(m), hi));
    assert forall|key: Seq<u8>|
        lookup(s, c, 0, key) == if lex_le(key, m) {
            #[trigger] lookup(t, c, 0, key)
        } else {
            lookup(t, sib, 0, key)
        } by {
        lemma_route_vs(ks, key, b - 1);
        lemma_route_split(ks, key, b as int);
        lemma_route_bounds(ks, key);
        let r = route(ks, key);
        if lex_le(key, m) {
            assert(left.pairs()[r] == pairs[r]);
        } else if r < 2 * b - 1 {
            assert(right.pairs()[r - b] == pairs[r]);
        }
    }
}

proof fn lemma_split_inner(
    s: Seq<Seq<u8>>,
    t: Seq<Seq<u8>>,
    c: Offset,
    sib: Offset,
    hc: nat,
    lo: Option<Seq<u8>>,
    hi: Option<Seq<u8>>,
    b: nat,
    min: int,
    root: bool,
)
    requires
        split_pre(s, t, c, sib, hc, lo, hi, b, min, root),
        hc > 0,
    ensures
        split_post(s, t, c, sib, hc, lo, hi, b),
{
    let cn = node_at(s, c);
    let ch = cn.children();
    let ks = cn.keys();
    let left = node_at(t, c);
    let right = node_at(t, sib);
    let m = split_median(cn, b);
    let hh = (hc - 1) as nat;
    assert(m == ks[b - 1]);
    assert(left.keys() == ks.subrange(0, b - 1));
    assert(left.children() == ch.subrange(0, b as int));
    assert(right.keys() == ks.subrange(b as int, 2 * b - 1));
    assert(right.children() == ch.subrange(b as int, 2 * b as int));
    lemma_sorted_subrange(ks, 0, b - 1);
    lemma_sorted_subrange(ks, b as int, 2 * b - 1);
    assert(above(lo, ks[b - 1]) && below(ks[b - 1], hi));
    assert forall|i: int| 0 <= i < left.keys().len() implies above(lo, #[trigger] left.keys()[i])
        && below(left.keys()[i], Some(m)) by {
        assert(left.keys()[i] == ks[i]);
        assert(lex_lt(ks[i], ks[b - 1]));
    }
    assert forall|i: int| 0 <= i < right.keys().len() implies above(
        Some(m),
        #[trigger] right.keys()[i],
    ) && below(right.keys()[i], hi) by {
        assert(right.keys()[i] == ks[b + i]);
        assert(lex_lt(ks[b - 1], ks[b + i]));
    }
    assert(inner_wf(left, lo, Some(m)));
    assert(inner_wf(right, Some(m), hi));
    // The children are what they were.
    assert forall|j: int| 0 <= j < ch.len() implies {
        &&& subtree_wf(
            t,
            #[trigger] ch[j],
            hh,
            child_lo(ks, lo, j),
            child_hi(ks, hi, j),
            b,
            b - 1,
            false,
            -1,
        )
        &&& forall|p: Offset| in_subtree(t, ch[j], hh, p) == in_subtree(s, ch[j], hh, p)
        &&& forall|p: Offset| in_subtree(s, ch[j], hh, p) ==> 0 < p.0 < s.len()
        &&& forall|key: Seq<u8>| lookup(t, ch[j], hh, key) == lookup(s, ch[j], hh, key)
    } by {
        lemma_wf_child(s, c, hc, lo, hi, b, min, root, -1, j);
        assert forall|p: Offset| #[trigger] in_subtree(s, ch[j], hh, p) implies p.0 < t.len()
            && t[p.0 as int] == s[p.0 as int] && 0 < p.0 < s.len() by {
            assert(in_subtree(s, c, hc, p));
            lemma_subtree_in_store(
                s,
                ch[j],
                hh,
                child_lo(ks, lo, j),
                child_hi(ks, hi, j),
                b,
                b - 1,
                false,
                -1,
                p,
            );
        }
        lemma_frame(s, t, ch[j], hh, child_lo(ks, lo, j), child_hi(ks, hi, j), b, b - 1, false, -1);
    }
    assert forall|j: int| 0 <= j < left.children().len() implies subtree_wf(
        t,
        #[trigger] left.children()[j],
        hh,
        child_lo(left.keys(), lo, j),
        child_hi(left.keys(), Some(m), j),
        b,
        b - 1,
        false,
        -1,
    ) && !in_subtree(t, left.children()[j], hh, c) by {
        assert(left.children()[j] == ch[j]);
        if j > 0 {
            assert(left.keys()[j - 1] == ks[j - 1]);
        }
        if j < b - 1 {
            assert(left.keys()[j] == ks[j]);
        }
    }
    assert forall|j: int| 0 <= j < right.children().len() implies subtree_wf(
        t,
        #[trigger] right.children()[j],
        hh,
        child_lo(right.keys(), Some(m), j),
        child_hi(right.keys(), hi, j),
        b,
        b - 1,
        false,
        -1,
    ) && !in_subtree(t, right.children()[j], hh, sib) by {
        assert(right.children()[j] == ch[b + j]);
        if j > 0 {
            assert(right.keys()[j - 1] == ks[b + j - 1]);
        }
        if j < b - 1 {
            assert(right.keys()[j] == ks[b + j]);
        }
    }
    assert forall|i: int, j: int, p: Offset|
        0 <= i < left.children().len() && 0 <= j < left.children().len() && i != j
            && #[trigger] in_subtree(t, left.children()[i], hh, p) implies !in_subtree(
        t,
        #[trigger] left.children()[j],
        hh,
        p,
    ) by {
        assert(left.children()[i] == ch[i]);
        assert(left.children()[j] == ch[j]);
        assert(in_subtree(s, ch[i], hh, p));
    }
    assert forall|i: int, j: int, p: Offset|
        0 <= i < right.children().len() && 0 <= j < right.children().len() && i != j
            && #[trigger] in_subtree(t, right.children()[i], hh, p) implies !in_subtree(
        t,
        #[trigger] right.children()[j],
        hh,
        p,
    ) by {
        assert(right.children()[i] == ch[b + i]);
        assert(right.children()[j] == ch[b + j]);
        assert(in_subtree(s, ch[b + i], hh, p));
    }
    assert(subtree_wf(t, c, hc, lo, Some(m), b, b - 1, false, -1));
    assert(subtree_wf(t, sib, hc, Some(m), hi, b, b - 1, false, -1));
    assert forall|p: Offset| #[trigger] in_subtree(t, c, hc, p) implies in_subtree(s, c, hc, p)
        && !in_subtree(t, sib, hc, p) by {
        if p != c {
            let j = choose|j: int|
                0 <= j < left.children().len() && in_subtree(t, #[trigger] left.children()[j], hh, p);
            assert(left.children()[j] == ch[j]);
            assert(in_subtree(s, ch[j], hh, p));
            if in_subtree(t, sib, hc, p) {
                let k = choose|k: int|
                    0 <= k < right.children().len() && in_subtree(
                        t,
                        #[trigger] right.children()[k],
                        hh,
                        p,
                    );
                assert(right.children()[k] == ch[b + k]);
                assert(in_subtree(s, ch[b + k], hh, p));
            }
        } else {
            if in_subtree(t, sib, hc, p) {
                let k = choose|k: int|
                    0 <= k < right.children().len() && in_subtree(
                        t,
                        #[trigger] right.children()[k],
                        hh,
                        p,
                    );
                assert(right.children()[k] == ch[b + k]);
                assert(in_subtree(s, ch[b + k], hh, p));
            }
        }
    }
    assert forall|p: Offset| #[trigger] in_subtree(t, sib, hc, p) implies p == sib || (in_subtree(
        s,
        c,
        hc,
        p,
    ) && p != c) by {
        if p != sib {
            let k = choose|k: int|
                0 <= k < right.children().len() && in_subtree(
                    t,
                    #[trigger] right.children()[k],
                    hh,
                    p,
                );
            assert(right.children()[k] == ch[b + k]);
            assert(in_subtree(s, ch[b + k], hh, p));
        }
    }
    assert forall|key: Seq<u8>|
        lookup(s, c, hc, key) == if lex_le(key, m) {
            #[trigger] lookup(t, c, hc, key)
        } else {
            lookup(t, sib, hc, key)
        } by {
        lemma_route_vs(ks, key, b - 1);
        lemma_route_split(ks, key, b - 1);
        lemma_route_split(ks, key, b as int);
        lemma_route_bounds(ks, key);
        let r = route(ks, key);
        assert(lookup(s, c, hc, key) == lookup(s, ch[r], hh, key));
        assert(lookup(t, ch[r], hh, key) == lookup(s, ch[r], hh, key));
        if lex_le(key, m) {
            assert(route(left.keys(), key) == r);
            assert(left.children()[r] == ch[r]);
            assert(lookup(t, c, hc, key) == lookup(t, left.children()[r], hh, key));
        } else {
            assert(ks.subrange(b as int, ks.len() as int) == right.keys());
            assert(route(right.keys(), key) == r - b);
            assert(right.children()[r - b] == ch[r]);
            assert(lookup(t, sib, hc, key) == lookup(t, right.children()[r - b], hh, key));
        }
    }
}

/// Splitting a full node gives two well-formed halves that hold what the
/// node held.
pub proof fn lemma_split_node(
    s: Seq<Seq<u8>>,
    t: Seq<Seq<u8>>,
    c: Offset,
    sib: Offset,
    hc: nat,
    lo: Option<Seq<u8>>,
    hi: Option<Seq<u8>>,
    b: nat,
    min: int,
    root: bool,
)
    requires
        split_pre(s, t, c, sib, hc, lo, hi, b, min, root),
    ensures
        split_post(s, t, c, sib, hc, lo, hi, b),
{
    if hc == 0 {
        lemma_split_leaf(s, t, c, sib, lo, hi, b, min, root);
    } else {
        lemma_split_inner(s, t, c, sib, hc, lo, hi, b, min, root);
    }
}


/// Child `i` of the node at `off`, a full node, was split: in store `t`
/// the child holds its first half, the new page `sib` its second half, and
/// the node at `off` has the median among its keys and `sib` among its
/// children, right after child `i`. No other page of `s` has changed.
pub open spec fn split_child_pre(
    s: Seq<Seq<u8>>,
    t: Seq<Seq<u8>>,
    off: Offset,
    h: nat,
    lo: Option<Seq<u8>>,
    hi: Option<Seq<u8>>,
    b: nat,
    min: int,
    root: bool,
    i: int,
    sib: Offset,
) -> bool {
    let n = node_at(s, off);
    let c = n.children()[i];
    let m = split_median(node_at(s, c), b);
    &&& h > 0
    &&& b >= 2
    &&& subtree_wf(s, off, h, lo, hi, b, min, root, -1)
    &&& n.entries() < 2 * b - 1
    &&& 0 <= i < n.children().len()
    &&& is_full(node_at(s, c), b)
    &&& sib.0 == s.len()
    &&& t.len() == s.len() + 1
    &&& decode_spec(t[off.0 as int]) is Ok
    &&& node_at(t, off).kind == KindView::Internal(
        n.children().insert(i + 1, sib),
        n.keys().insert(i, m),
    )
    &&& node_at(t, off).is_root == n.is_root
    &&& decode_spec(t[c.0 as int]) is Ok
    &&& decode_spec(t[sib.0 as int]) is Ok
    &&& node_at(t, c).kind == split_left(node_at(s, c), b).kind
    &&& !node_at(t, c).is_root
    &&& node_at(t, sib).kind == split_right(node_at(s, c), b).kind
    &&& !node_at(t, sib).is_root
    &&& forall|p: Offset|
        p.0 < s.len() && p != off && p != c ==> #[trigger] t[p.0 as int] == s[p.0 as int]
}

/// The keys of the parent of a split child ascend and lie within the
/// parent's bounds.
proof fn lemma_split_child_keys(
    s: Seq<Seq<u8>>,
    t: Seq<Seq<u8>>,
    off: Offset,
    h: nat,
    lo: Option<Seq<u8>>,
    hi: Option<Seq<u8>>,
    b: nat,
    min: int,
    root: bool,
    i: int,
    sib: Offset,
)
    requires
        split_child_pre(s, t, off, h, lo, hi, b, min, root, i, sib),
        above(
            child_lo(node_at(s, off).keys(), lo, i),
            split_median(node_at(s, node_at(s, off).children()[i]), b),
        ),
        below(
            split_median(node_at(s, node_at(s, off).children()[i]), b),
            child_hi(node_at(s, off).keys(), hi, i),
        ),
    ensures
        inner_wf(node_at(t, off), lo, hi),
        node_at(t, off).entries() == node_at(s, off).entries() + 1,
{
    let n = node_at(s, off);
    let ks = n.keys();
    let m = split_median(node_at(s, n.children()[i]), b);
    let n2 = node_at(t, off);
    let ks2 = n2.keys();
    assert(ks2 == ks.insert(i, m));
    assert(n2.children() == n.children().insert(i + 1, sib));
    lemma_route_insert(ks, i, m, m);
    assert(above(lo, m) && below(m, hi)) by {
        if i > 0 {
            assert(above(lo, ks[i - 1]));
            if lo is Some {
                lemma_lex_transitive(lo->Some_0, ks[i - 1], m);
            }
        }
        if i < ks.len() {
            assert(below(ks[i], hi));
            if hi is Some {
                lemma_lex_transitive(m, ks[i], hi->Some_0);
            }
        }
    }
    assert forall|x: int| 0 <= x < ks2.len() implies above(lo, #[trigger] ks2[x]) && below(
        ks2[x],
        hi,
    ) by {
        if x < i {
            assert(ks2[x] == ks[x]);
        } else if x > i {
            assert(ks2[x] == ks[x - 1]);
        }
    }
}

/// The children of the parent of a split child are well-formed subtrees,
/// none of which holds the parent's page.
proof fn lemma_split_child_children(
    s: Seq<Seq<u8>>,
    t: Seq<Seq<u8>>,
    off: Offset,
    h: nat,
    lo: Option<Seq<u8>>,
    hi: Option<Seq<u8>>,
    b: nat,
    min: int,
    root: bool,
    i: int,
    sib: Offset,
)
    requires
        split_child_pre(s, t, off, h, lo, hi, b, min, root, i, sib),
        split_post(
            s,
            t,
            node_at(s, off).children()[i],
            sib,
            (h - 1) as nat,
            child_lo(node_at(s, off).keys(), lo, i),
            child_hi(node_at(s, off).keys(), hi, i),
            b,
        ),
        siblings_framed(s, t, off, h, lo, hi, b, i, i),
    ensures
        forall|x: int|
            0 <= x < node_at(t, off).children().len() ==> subtree_wf(
                t,
                #[trigger] node_at(t, off).children()[x],
                (h - 1) as nat,
                child_lo(node_at(t, off).keys(), lo, x),
                child_hi(node_at(t, off).keys(), hi, x),
                b,
                b - 1,
                false,
                -1,
            ) && !in_subtree(t, node_at(t, off).children()[x], (h - 1) as nat, off),
{
    let n = node_at(s, off);
    let ch = n.children();
    let ks = n.keys();
    let c = ch[i];
    let m = split_median(node_at(s, c), b);
    let hh = (h - 1) as nat;
    let n2 = node_at(t, off);
    let ch2 = n2.children();
    let ks2 = n2.keys();
    assert(ch2 == ch.insert(i + 1, sib));
    assert(ks2 == ks.insert(i, m));
    lemma_wf_child(s, off, h, lo, hi, b, min, root, -1, i);
    assert forall|x: int| 0 <= x < ch2.len() implies subtree_wf(
        t,
        #[trigger] ch2[x],
        hh,
        child_lo(ks2, lo, x),
        child_hi(ks2, hi, x),
        b,
        b - 1,
        false,
        -1,
    ) && !in_subtree(t, ch2[x], hh, off) by {
        if x < i {
            assert(ch2[x] == ch[x]);
            if x > 0 {
                assert(ks2[x - 1] == ks[x - 1]);
            }
            assert(ks2[x] == ks[x]);
            assert(!in_subtree(s, ch[x], hh, off));
        } else if x == i {
            assert(ch2[x] == c);
            if x > 0 {
                assert(ks2[x - 1] == ks[x - 1]);
            }
            assert(ks2[x] == m);
            if in_subtree(t, c, hh, off) {
                assert(in_subtree(s, c, hh, off));
            }
        } else if x == i + 1 {
            assert(ch2[x] == sib);
            assert(ks2[x - 1] == m);
            if x < ks2.len() {
                assert(ks2[x] == ks[i]);
            }
            if in_subtree(t, sib, hh, off) {
                assert(in_subtree(s, c, hh, off));
            }
        } else {
            assert(ch2[x] == ch[x - 1]);
            assert(ks2[x - 1] == ks[x - 2]);
            if x < ks2.len() {
                assert(ks2[x] == ks[x - 1]);
            }
            assert(!in_subtree(s, ch[x - 1], hh, off));
        }
    }
}

/// Where a page of a child of the parent of a split child came from.
proof fn lemma_split_child_origin(
    s: Seq<Seq<u8>>,
    t: Seq<Seq<u8>>,
    off: Offset,
    h: nat,
    lo: Option<Seq<u8>>,
    hi: Option<Seq<u8>>,
    b: nat,
    min: int,
    root: bool,
    i: int,
    sib: Offset,
    x: int,
    p: Offset,
)
    requires
        split_child_pre(s, t, off, h, lo, hi, b, min, root, i, sib),
        split_post(
            s,
            t,
            node_at(s, off).children()[i],
            sib,
            (h - 1) as nat,
            child_lo(node_at(s, off).keys(), lo, i),
            child_hi(node_at(s, off).keys(), hi, i),
            b,
        ),
        siblings_framed(s, t, off, h, lo, hi, b, i, i),
        0 <= x < node_at(t, off).children().len(),
        in_subtree(t, node_at(t, off).children()[x], (h - 1) as nat, p),
    ensures
        x == i + 1 ==> p == sib || (p.0 < s.len() && p != node_at(s, off).children()[i]),
        p == sib ==> x == i + 1,
        p != sib ==> in_subtree(
            s,
            node_at(s, off).children()[if x <= i {
                x
            } else {
                x - 1
            }],
            (h - 1) as nat,
            p,
        ) && 0 < p.0 < s.len(),
{
    let n = node_at(s, off);
    let ch = n.children();
    let c = ch[i];
    let hh = (h - 1) as nat;
    let ch2 = node_at(t, off).children();
    assert(ch2 == ch.insert(i + 1, sib));
    lemma_wf_child(s, off, h, lo, hi, b, min, root, -1, i);
    lemma_subtree_pages(
        s,
        c,
        hh,
        child_lo(n.keys(), lo, i),
        child_hi(n.keys(), hi, i),
        b,
        b - 1,
        false,
        -1,
    );
    if x < i {
        assert(ch2[x] == ch[x]);
        assert(in_subtree(s, ch[x], hh, p));
    } else if x == i {
        assert(ch2[x] == c);
        assert(in_subtree(s, c, hh, p));
    } else if x == i + 1 {
        assert(ch2[x] == sib);
        assert(p == sib || in_subtree(s, c, hh, p));
    } else {
        assert(ch2[x] == ch[x - 1]);
        assert(in_subtree(s, ch[x - 1], hh, p));
    }
}

/// No page belongs to two children of the parent of a split child.
proof fn lemma_split_child_disjoint(
    s: Seq<Seq<u8>>,
    t: Seq<Seq<u8>>,
    off: Offset,
    h: nat,
    lo: Option<Seq<u8>>,
    hi: Option<Seq<u8>>,
    b: nat,
    min: int,
    root: bool,
    i: int,
    sib: Offset,
)
    requires
        split_child_pre(s, t, off, h, lo, hi, b, min, root, i, sib),
        split_post(
            s,
            t,
            node_at(s, off).children()[i],
            sib,
            (h - 1) as nat,
            child_lo(node_at(s, off).keys(), lo, i),
            child_hi(node_at(s, off).keys(), hi, i),
            b,
        ),
        siblings_framed(s, t, off, h, lo, hi, b, i, i),
    ensures
        forall|x: int, y: int, p: Offset|
            0 <= x < node_at(t, off).children().len() && 0 <= y < node_at(t, off).children().len()
                && x != y && #[trigger] in_subtree(
                t,
                node_at(t, off).children()[x],
                (h - 1) as nat,
                p,
            ) ==> !in_subtree(t, #[trigger] node_at(t, off).children()[y], (h - 1) as nat, p),
{
    let n = node_at(s, off);
    let ch = n.children();
    let c = ch[i];
    let hh = (h - 1) as nat;
    let ch2 = node_at(t, off).children();
    assert(ch2 == ch.insert(i + 1, sib));
    assert forall|x: int, y: int, p: Offset|
        0 <= x < ch2.len() && 0 <= y < ch2.len() && x != y && #[trigger] in_subtree(
            t,
            ch2[x],
            hh,
            p,
        ) implies !in_subtree(t, #[trigger] ch2[y], hh, p) by {
        if in_subtree(t, ch2[y], hh, p) {
            lemma_split_child_origin(s, t, off, h, lo, hi, b, min, root, i, sib, x, p);
            lemma_split_child_origin(s, t, off, h, lo, hi, b, min, root, i, sib, y, p);
            let x0 = if x <= i { x } else { x - 1 };
            let y0 = if y <= i { y } else { y - 1 };
            if x0 == y0 {
                assert(ch2[i] == c);
                assert(ch2[i + 1] == sib);
                assert(in_subtree(t, c, hh, p));
                assert(in_subtree(t, sib, hh, p));
            } else {
                assert(in_subtree(s, ch[x0], hh, p));
                assert(in_subtree(s, ch[y0], hh, p));
            }
        }
    }
}

/// A search in the subtree of the parent of a split child finds what it
/// found.
proof fn lemma_split_child_lookup(
    s: Seq<Seq<u8>>,
    t: Seq<Seq<u8>>,
    off: Offset,
    h: nat,
    lo: Option<Seq<u8>>,
    hi: Option<Seq<u8>>,
    b: nat,
    min: int,
    root: bool,
    i: int,
    sib: Offset,
)
    requires
        split_child_pre(s, t, off, h, lo, hi, b, min, root, i, sib),
        split_post(
            s,
            t,
            node_at(s, off).children()[i],
            sib,
            (h - 1) as nat,
            child_lo(node_at(s, off).keys(), lo, i),
            child_hi(node_at(s, off).keys(), hi, i),
            b,
        ),
        siblings_framed(s, t, off, h, lo, hi, b, i, i),
    ensures
        forall|key: Seq<u8>| lookup(t, off, h, key) == lookup(s, off, h, key),
{
    let n = node_at(s, off);
    let ch = n.children();
    let ks = n.keys();
    let c = ch[i];
    let m = split_median(node_at(s, c), b);
    let hh = (h - 1) as nat;
    let ch2 = node_at(t, off).children();
    let ks2 = node_at(t, off).keys();
    assert(ch2 == ch.insert(i + 1, sib));
    assert(ks2 == ks.insert(i, m));
    assert forall|key: Seq<u8>| lookup(t, off, h, key) == lookup(s, off, h, key) by {
        lemma_route_insert(ks, i, m, key);
        lemma_route_bounds(ks, key);
        let r = route(ks, key);
        let r2 = route(ks2, key);
        assert(lookup(s, off, h, key) == lookup(s, ch[r], hh, key));
        assert(lookup(t, off, h, key) == lookup(t, ch2[r2], hh, key));
        if r < i {
            assert(ch2[r2] == ch[r]);
            assert(lookup(t, ch[r], hh, key) == lookup(s, ch[r], hh, key));
        } else if r > i {
            assert(ch2[r2] == ch[r]);
            assert(lookup(t, ch[r], hh, key) == lookup(s, ch[r], hh, key));
        } else if lex_le(key, m) {
            assert(ch2[r2] == c);
            assert(lookup(s, c, hh, key) == lookup(t, c, hh, key));
        } else {
            assert(ch2[r2] == sib);
            assert(lookup(s, c, hh, key) == lookup(t, sib, hh, key));
        }
    }
}

/// Splitting a full child keeps the subtree of its parent well-formed, and
/// a search in it finds what it found.
pub proof fn lemma_split_child(
    s: Seq<Seq<u8>>,
    t: Seq<Seq<u8>>,
    off: Offset,
    h: nat,
    lo: Option<Seq<u8>>,
    hi: Option<Seq<u8>>,
    b: nat,
    min: int,
    root: bool,
    i: int,
    sib: Offset,
)
    requires
        split_child_pre(s, t, off, h, lo, hi, b, min, root, i, sib),
    ensures
        subtree_wf(t, off, h, lo, hi, b, min, root, -1),
        updated(s, t, off, h),
        forall|key: Seq<u8>| lookup(t, off, h, key) == lookup(s, off, h, key),
        tree_map(t, off, h) == tree_map(s, off, h),
        forall|key: Seq<u8>|
            route(node_at(s, off).keys(), key) == i ==> #[trigger] route(
                node_at(t, off).keys(),
                key,
            ) == if lex_le(key, split_median(node_at(s, node_at(s, off).children()[i]), b)) {
                i
            } else {
                i + 1
            },
{
    let n = node_at(s, off);
    let ch = n.children();
    let ks = n.keys();
    let c = ch[i];
    let hh = (h - 1) as nat;
    let lo_i = child_lo(ks, lo, i);
    let hi_i = child_hi(ks, hi, i);
    let ch2 = node_at(t, off).children();
    lemma_wf_child(s, off, h, lo, hi, b, min, root, -1, i);
    assert(in_subtree(s, c, hh, c));
    assert forall|p: Offset| #[trigger] in_subtree(s, c, hh, p) && p != c implies p.0 < t.len()
        && t[p.0 as int] == s[p.0 as int] by {
        lemma_subtree_in_store(s, c, hh, lo_i, hi_i, b, b - 1, false, -1, p);
        assert(!in_subtree(s, c, hh, off));
    }
    assert(split_pre(s, t, c, sib, hh, lo_i, hi_i, b, b - 1, false));
    lemma_split_node(s, t, c, sib, hh, lo_i, hi_i, b, b - 1, false);
    lemma_siblings_framed(s, t, off, h, lo, hi, b, min, root, -1, i, i);
    lemma_split_child_keys(s, t, off, h, lo, hi, b, min, root, i, sib);
    lemma_split_child_children(s, t, off, h, lo, hi, b, min, root, i, sib);
    lemma_split_child_disjoint(s, t, off, h, lo, hi, b, min, root, i, sib);
    lemma_split_child_lookup(s, t, off, h, lo, hi, b, min, root, i, sib);
    assert(subtree_wf(t, off, h, lo, hi, b, min, root, -1));
    assert forall|p: Offset| #[trigger] in_subtree(t, off, h, p) implies in_subtree(s, off, h, p)
        || p.0 >= s.len() by {
        if p != off {
            let x = choose|x: int| 0 <= x < ch2.len() && in_subtree(t, #[trigger] ch2[x], hh, p);
            lemma_split_child_origin(s, t, off, h, lo, hi, b, min, root, i, sib, x, p);
            if p != sib {
                let x0 = if x <= i { x } else { x - 1 };
                assert(in_subtree(s, ch[x0], hh, p));
            }
        }
    }
    assert(tree_map(t, off, h) =~= tree_map(s, off, h));
    let m = split_median(node_at(s, c), b);
    assert(node_at(t, off).keys() == ks.insert(i, m));
    assert forall|key: Seq<u8>| route(ks, key) == i implies #[trigger] route(
        node_at(t, off).keys(),
        key,
    ) == if lex_le(key, m) {
        i
    } else {
        i + 1
    } by {
        lemma_route_insert(ks, i, m, key);
    }
}

/// The full root at `r` was split: in store `t` the page at `r` holds its
/// first half, the new page `sib` its second half, and the new page `nr` a
/// root with the two as children and the median between them. No other
/// page of `s` has changed.
pub open spec fn split_root_pre(
    s: Seq<Seq<u8>>,
    t: Seq<Seq<u8>>,
    r: Offset,
    h: nat,
    b: nat,
    min: int,
    nr: Offset,
    sib: Offset,
) -> bool {
    let m = split_median(node_at(s, r), b);
    &&& b >= 2
    &&& subtree_wf(s, r, h, None, None, b, min, true, -1)
    &&& is_full(node_at(s, r), b)
    &&& nr.0 == s.len()
    &&& sib.0 == s.len() + 1
    &&& t.len() == s.len() + 2
    &&& decode_spec(t[nr.0 as int]) is Ok
    &&& node_at(t, nr).kind == KindView::Internal(seq![r, sib], seq![m])
    &&& node_at(t, nr).is_root
    &&& decode_spec(t[r.0 as int]) is Ok
    &&& decode_spec(t[sib.0 as int]) is Ok
    &&& node_at(t, r).kind == split_left(node_at(s, r), b).kind
    &&& !node_at(t, r).is_root
    &&& node_at(t, sib).kind == split_right(node_at(s, r), b).kind
    &&& !node_at(t, sib).is_root
    &&& forall|p: Offset| p.0 < s.len() && p != r ==> #[trigger] t[p.0 as int] == s[p.0 as int]
}

/// Splitting a full root gives a well-formed tree, one level higher, that
/// holds what the tree held.
pub proof fn lemma_split_root(
    s: Seq<Seq<u8>>,
    t: Seq<Seq<u8>>,
    r: Offset,
    h: nat,
    b: nat,
    min: int,
    nr: Offset,
    sib: Offset,
)
    requires
        split_root_pre(s, t, r, h, b, min, nr, sib),
    ensures
        subtree_wf(t, nr, h + 1, None, None, b, 1, true, -1),
        tree_map(t, nr, h + 1) == tree_map(s, r, h),
{
    let m = split_median(node_at(s, r), b);
    let n2 = node_at(t, nr);
    let ch2 = n2.children();
    let ks2 = n2.keys();
    assert(ch2 == seq![r, sib]);
    assert(ks2 == seq![m]);
    assert(ch2[0] == r && ch2[1] == sib);
    assert(ks2[0] == m);
    assert forall|p: Offset| #[trigger] in_subtree(s, r, h, p) && p != r implies p.0 < t.len()
        && t[p.0 as int] == s[p.0 as int] by {
        lemma_subtree_in_store(s, r, h, None, None, b, min, true, -1, p);
    }
    lemma_split_node(s, t, r, sib, h, None, None, b, min, true);
    assert forall|p: Offset| in_subtree(s, r, h, p) implies 0 < p.0 < s.len() by {
        lemma_subtree_in_store(s, r, h, None, None, b, min, true, -1, p);
    }
    assert(inner_wf(n2, None, None));
    let hh = ((h + 1) - 1) as nat;
    assert(hh == h);
    assert forall|x: int| 0 <= x < ch2.len() implies subtree_wf(
        t,
        #[trigger] ch2[x],
        hh,
        child_lo(ks2, None, x),
        child_hi(ks2, None, x),
        b,
        b - 1,
        false,
        -1,
    ) && !in_subtree(t, ch2[x], hh, nr) by {
        if x == 0 {
            if in_subtree(t, r, h, nr) {
                assert(in_subtree(s, r, h, nr));
            }
        } else {
            if in_subtree(t, sib, h, nr) {
                assert(in_subtree(s, r, h, nr));
            }
        }
    }
    assert forall|x: int, y: int, p: Offset|
        0 <= x < ch2.len() && 0 <= y < ch2.len() && x != y && #[trigger] in_subtree(
            t,
            ch2[x],
            hh,
            p,
        ) implies !in_subtree(t, #[trigger] ch2[y], hh, p) by {
        if in_subtree(t, ch2[y], hh, p) {
            assert(in_subtree(t, r, h, p));
            assert(in_subtree(t, sib, h, p));
        }
    }
    assert(subtree_wf(t, nr, h + 1, None, None, b, 1, true, -1));
    assert forall|key: Seq<u8>| lookup(t, nr, h + 1, key) == lookup(s, r, h, key) by {
        lemma_lex_irreflexive(m);
        if lex_le(key, m) {
            lemma_route_is(ks2, key, 0);
            assert(lookup(t, nr, h + 1, key) == lookup(t, ch2[0], hh, key));
            assert(lookup(s, r, h, key) == lookup(t, r, h, key));
        } else {
            crate::lex::lemma_lex_total(key, m);
            lemma_route_is(ks2, key, 1);
            assert(lookup(t, nr, h + 1, key) == lookup(t, ch2[1], hh, key));
            assert(lookup(s, r, h, key) == lookup(t, sib, h, key));
        }
    }
    assert(tree_map(t, nr, h + 1) =~= tree_map(s, r, h));
}


/// A split child is a split node: its two halves stand in `t` as the
/// split of a node asks.
pub proof fn lemma_split_child_halves(
    s: Seq<Seq<u8>>,
    t: Seq<Seq<u8>>,
    off: Offset,
    h: nat,
    lo: Option<Seq<u8>>,
    hi: Option<Seq<u8>>,
    b: nat,
    min: int,
    root: bool,
    i: int,
    sib: Offset,
)
    requires
        split_child_pre(s, t, off, h, lo, hi, b, min, root, i, sib),
    ensures
        split_pre(
            s,
            t,
            node_at(s, off).children()[i],
            sib,
            (h - 1) as nat,
            child_lo(node_at(s, off).keys(), lo, i),
            child_hi(node_at(s, off).keys(), hi, i),
            b,
            b - 1,
            false,
        ),
{
    let n = node_at(s, off);
    let c = n.children()[i];
    let hh = (h - 1) as nat;
    let lo_i = child_lo(n.keys(), lo, i);
    let hi_i = child_hi(n.keys(), hi, i);
    lemma_wf_child(s, off, h, lo, hi, b, min, root, -1, i);
    assert forall|p: Offset| #[trigger] in_subtree(s, c, hh, p) && p != c implies p.0 < t.len()
        && t[p.0 as int] == s[p.0 as int] by {
        lemma_subtree_in_store(s, c, hh, lo_i, hi_i, b, b - 1, false, -1, p);
        assert(!in_subtree(s, c, hh, off));
    }
}

/// A split root is a split node: its two halves stand in `t` as the split
/// of a node asks.
pub proof fn lemma_split_root_halves(
    s: Seq<Seq<u8>>,
    t: Seq<Seq<u8>>,
    r: Offset,
    h: nat,
    b: nat,
    min: int,
    nr: Offset,
    sib: Offset,
)
    requires
        split_root_pre(s, t, r, h, b, min, nr, sib),
    ensures
        split_pre(s, t, r, sib, h, None, None, b, min, true),
{
    assert forall|p: Offset| #[trigger] in_subtree(s, r, h, p) && p != r implies p.0 < t.len()
        && t[p.0 as int] == s[p.0 as int] by {
        lemma_subtree_in_store(s, r, h, None, None, b, min, true, -1, p);
    }
}

} // verus!
