//! The children of an internal node as a pair of sequences, taken apart
//! and put together: what borrowing and merging rest on.
use vstd::prelude::*;
use crate::lex::{
    lemma_lex_asymmetric, lemma_lex_le_lt, lemma_lex_total,
    lemma_lex_transitive, lex_le, lex_lt,
};
use crate::node::decode_spec;
use crate::node_type::{pair_keys, Offset};
use crate::sorted::{
    lemma_route_bounds, lemma_route_concat, lemma_route_is, lemma_route_split, lemma_route_vs,
    lemma_sorted_concat, lemma_sorted_subrange, route, sorted,
};
use crate::tree::{
    above, below, child_hi, child_lo, in_subtree, leaf_get, lemma_frame,
    lemma_subtree_in_store, lookup, node_at, subtree_wf,
};

verus! {

/// Page `p` belongs to the subtree of one of the children `ch`.
pub open spec fn in_kids(s: Seq<Seq<u8>>, ch: Seq<Offset>, hh: nat, p: Offset) -> bool {
    exists|x: int| 0 <= x < ch.len() && in_subtree(s, #[trigger] ch[x], hh, p)
}

/// The children `ch` with the keys `ks` between them are what a
/// well-formed internal node with bounds `lo` and `hi` has below it.
pub open spec fn kids_wf(
    s: Seq<Seq<u8>>,
    ch: Seq<Offset>,
    ks: Seq<Seq<u8>>,
    hh: nat,
    lo: Option<Seq<u8>>,
    hi: Option<Seq<u8>>,
    b: nat,
) -> bool {
    &&& ch.len() == ks.len() + 1
    &&& sorted(ks)
    &&& forall|x: int| 0 <= x < ks.len() ==> above(lo, #[trigger] ks[x]) && below(ks[x], hi)
    &&& forall|x: int|
        0 <= x < ch.len() ==> subtree_wf(
            s,
            #[trigger] ch[x],
            hh,
            child_lo(ks, lo, x),
            child_hi(ks, hi, x),
            b,
            b - 1,
            false,
            -1,
        )
    &&& forall|x: int, y: int, p: Offset|
        0 <= x < ch.len() && 0 <= y < ch.len() && x != y && #[trigger] in_subtree(s, ch[x], hh, p)
            ==> !in_subtree(s, #[trigger] ch[y], hh, p)
}

/// What a search for `key` finds below the children `ch`.
pub open spec fn kids_lookup(
    s: Seq<Seq<u8>>,
    ch: Seq<Offset>,
    ks: Seq<Seq<u8>>,
    hh: nat,
    key: Seq<u8>,
) -> Option<Seq<u8>> {
    lookup(s, ch[route(ks, key)], hh, key)
}

/// What the well-formedness of a subtree says of the children of its top
/// node.
pub proof fn lemma_kids_of_subtree(
    s: Seq<Seq<u8>>,
    off: Offset,
    h: nat,
    lo: Option<Seq<u8>>,
    hi: Option<Seq<u8>>,
    b: nat,
    min: int,
    root: bool,
)
    requires
        subtree_wf(s, off, h, lo, hi, b, min, root, -1),
        h > 0,
    ensures
        kids_wf(s, node_at(s, off).children(), node_at(s, off).keys(), (h - 1) as nat, lo, hi, b),
        !in_kids(s, node_at(s, off).children(), (h - 1) as nat, off),
        forall|key: Seq<u8>|
            lookup(s, off, h, key) == kids_lookup(
                s,
                node_at(s, off).children(),
                node_at(s, off).keys(),
                (h - 1) as nat,
                key,
            ),
        forall|p: Offset|
            #![trigger in_subtree(s, off, h, p)]
            #![trigger in_kids(s, node_at(s, off).children(), (h - 1) as nat, p)]
            in_subtree(s, off, h, p) == (p == off || in_kids(
                s,
                node_at(s, off).children(),
                (h - 1) as nat,
                p,
            )),
{
}

/// Children that are well-formed below a node make the node's subtree
/// well-formed.
pub proof fn lemma_subtree_of_kids(
    t: Seq<Seq<u8>>,
    off: Offset,
    h: nat,
    lo: Option<Seq<u8>>,
    hi: Option<Seq<u8>>,
    b: nat,
    min: int,
    root: bool,
)
    requires
        h > 0,
        0 < off.0 < t.len(),
        decode_spec(t[off.0 as int]) is Ok,
        node_at(t, off).kind is Internal,
        node_at(t, off).is_root == root,
        min <= node_at(t, off).entries() <= 2 * b - 1,
        kids_wf(t, node_at(t, off).children(), node_at(t, off).keys(), (h - 1) as nat, lo, hi, b),
        !in_kids(t, node_at(t, off).children(), (h - 1) as nat, off),
    ensures
        subtree_wf(t, off, h, lo, hi, b, min, root, -1),
        forall|key: Seq<u8>|
            lookup(t, off, h, key) == kids_lookup(
                t,
                node_at(t, off).children(),
                node_at(t, off).keys(),
                (h - 1) as nat,
                key,
            ),
        forall|p: Offset|
            #![trigger in_subtree(t, off, h, p)]
            #![trigger in_kids(t, node_at(t, off).children(), (h - 1) as nat, p)]
            in_subtree(t, off, h, p) == (p == off || in_kids(
                t,
                node_at(t, off).children(),
                (h - 1) as nat,
                p,
            )),
{
    let n = node_at(t, off);
    assert forall|i: int| 0 <= i < n.children().len() implies !in_subtree(
        t,
        #[trigger] n.children()[i],
        (h - 1) as nat,
        off,
    ) by {}
}

/// Children whose pages are the same in two stores are the same children
/// in both.
pub proof fn lemma_kids_frame(
    s: Seq<Seq<u8>>,
    t: Seq<Seq<u8>>,
    ch: Seq<Offset>,
    ks: Seq<Seq<u8>>,
    hh: nat,
    lo: Option<Seq<u8>>,
    hi: Option<Seq<u8>>,
    b: nat,
)
    requires
        kids_wf(s, ch, ks, hh, lo, hi, b),
        forall|p: Offset| #[trigger]
            in_kids(s, ch, hh, p) ==> p.0 < t.len() && t[p.0 as int] == s[p.0 as int],
    ensures
        kids_wf(t, ch, ks, hh, lo, hi, b),
        forall|p: Offset|
            #![trigger in_kids(t, ch, hh, p)]
            #![trigger in_kids(s, ch, hh, p)]
            in_kids(t, ch, hh, p) == in_kids(s, ch, hh, p),
        forall|key: Seq<u8>| #[trigger]
            kids_lookup(t, ch, ks, hh, key) == kids_lookup(s, ch, ks, hh, key),
{
    assert forall|x: int| 0 <= x < ch.len() implies {
        &&& subtree_wf(
            t,
            #[trigger] ch[x],
            hh,
            child_lo(ks, lo, x),
            child_hi(ks, hi, x),
            b,
            b - 1,
            false,
            -1,
        )
        &&& forall|p: Offset| in_subtree(t, ch[x], hh, p) == in_subtree(s, ch[x], hh, p)
        &&& forall|key: Seq<u8>| lookup(t, ch[x], hh, key) == lookup(s, ch[x], hh, key)
    } by {
        assert forall|p: Offset| #[trigger] in_subtree(s, ch[x], hh, p) implies p.0 < t.len()
            && t[p.0 as int] == s[p.0 as int] by {
            assert(in_kids(s, ch, hh, p));
        }
        lemma_frame(s, t, ch[x], hh, child_lo(ks, lo, x), child_hi(ks, hi, x), b, b - 1, false, -1);
    }
    assert forall|p: Offset| in_kids(t, ch, hh, p) == in_kids(s, ch, hh, p) by {
        if in_kids(t, ch, hh, p) {
            let x = choose|x: int| 0 <= x < ch.len() && in_subtree(t, #[trigger] ch[x], hh, p);
            assert(in_subtree(s, ch[x], hh, p));
        }
        if in_kids(s, ch, hh, p) {
            let x = choose|x: int| 0 <= x < ch.len() && in_subtree(s, #[trigger] ch[x], hh, p);
            assert(in_subtree(t, ch[x], hh, p));
        }
    }
    assert forall|x: int, y: int, p: Offset|
        0 <= x < ch.len() && 0 <= y < ch.len() && x != y && #[trigger] in_subtree(
            t,
            ch[x],
            hh,
            p,
        ) implies !in_subtree(t, #[trigger] ch[y], hh, p) by {
        assert(in_subtree(s, ch[x], hh, p));
    }
    assert forall|key: Seq<u8>|
        kids_lookup(t, ch, ks, hh, key) == kids_lookup(s, ch, ks, hh, key) by {
        lemma_route_bounds(ks, key);
        let r = route(ks, key);
        assert(lookup(t, ch[r], hh, key) == lookup(s, ch[r], hh, key));
    }
}

/// Two runs of children on either side of a key are, joined, the children
/// of one node.
pub proof fn lemma_kids_concat(
    s: Seq<Seq<u8>>,
    ch1: Seq<Offset>,
    ks1: Seq<Seq<u8>>,
    sep: Seq<u8>,
    ch2: Seq<Offset>,
    ks2: Seq<Seq<u8>>,
    hh: nat,
    lo: Option<Seq<u8>>,
    hi: Option<Seq<u8>>,
    b: nat,
)
    requires
        kids_wf(s, ch1, ks1, hh, lo, Some(sep), b),
        kids_wf(s, ch2, ks2, hh, Some(sep), hi, b),
        above(lo, sep),
        below(sep, hi),
        forall|p: Offset| #[trigger] in_kids(s, ch1, hh, p) ==> !in_kids(s, ch2, hh, p),
    ensures
        kids_wf(s, ch1 + ch2, ks1 + seq![sep] + ks2, hh, lo, hi, b),
        forall|key: Seq<u8>|
            kids_lookup(s, ch1 + ch2, ks1 + seq![sep] + ks2, hh, key) == if lex_le(key, sep) {
                kids_lookup(s, ch1, ks1, hh, key)
            } else {
                kids_lookup(s, ch2, ks2, hh, key)
            },
        forall|p: Offset|
            #![trigger in_kids(s, ch1 + ch2, hh, p)]
            #![trigger in_kids(s, ch1, hh, p)]
            #![trigger in_kids(s, ch2, hh, p)]
            in_kids(s, ch1 + ch2, hh, p) == (in_kids(s, ch1, hh, p) || in_kids(s, ch2, hh, p)),
{
    let ch = ch1 + ch2;
    let ks = ks1 + seq![sep] + ks2;
    let split_at = ch1.len() as int;
    assert(ks.len() == ks1.len() + 1 + ks2.len());
    assert forall|i: int| 0 <= i < ks1.len() implies lex_lt(#[trigger] ks1[i], sep) by {
        assert(below(ks1[i], Some(sep)));
    }
    assert forall|i: int| 0 <= i < ks2.len() implies lex_lt(sep, #[trigger] ks2[i]) by {
        assert(above(Some(sep), ks2[i]));
    }
    lemma_route_concat(ks1, sep, ks2, sep);
    assert forall|x: int| 0 <= x < ks.len() implies above(lo, #[trigger] ks[x]) && below(
        ks[x],
        hi,
    ) by {
        if x < ks1.len() {
            assert(ks[x] == ks1[x]);
            assert(above(lo, ks1[x]));
            if hi is Some {
                lemma_lex_transitive(ks1[x], sep, hi->Some_0);
            }
        } else if x > ks1.len() {
            assert(ks[x] == ks2[x - split_at]);
            assert(below(ks2[x - split_at], hi));
            if lo is Some {
                lemma_lex_transitive(lo->Some_0, sep, ks2[x - split_at]);
            }
        }
    }
    assert forall|x: int| 0 <= x < ch.len() implies subtree_wf(
        s,
        #[trigger] ch[x],
        hh,
        child_lo(ks, lo, x),
        child_hi(ks, hi, x),
        b,
        b - 1,
        false,
        -1,
    ) by {
        if x < split_at {
            assert(ch[x] == ch1[x]);
            if x > 0 {
                assert(ks[x - 1] == ks1[x - 1]);
            }
            if x < ks1.len() {
                assert(ks[x] == ks1[x]);
            } else {
                assert(ks[x] == sep);
            }
        } else {
            assert(ch[x] == ch2[x - split_at]);
            if x > split_at {
                assert(ks[x - 1] == ks2[x - split_at - 1]);
            } else {
                assert(ks[x - 1] == sep);
            }
            if x < ks.len() {
                assert(ks[x] == ks2[x - split_at]);
            }
        }
    }
    assert forall|x: int, y: int, p: Offset|
        0 <= x < ch.len() && 0 <= y < ch.len() && x != y && #[trigger] in_subtree(
            s,
            ch[x],
            hh,
            p,
        ) implies !in_subtree(s, #[trigger] ch[y], hh, p) by {
        if in_subtree(s, ch[y], hh, p) {
            if x < split_at {
                assert(ch[x] == ch1[x]);
                assert(in_kids(s, ch1, hh, p));
            } else {
                assert(ch[x] == ch2[x - split_at]);
                assert(in_kids(s, ch2, hh, p));
            }
            if y < split_at {
                assert(ch[y] == ch1[y]);
                assert(in_kids(s, ch1, hh, p));
            } else {
                assert(ch[y] == ch2[y - split_at]);
                assert(in_kids(s, ch2, hh, p));
            }
        }
    }
    assert forall|key: Seq<u8>|
        kids_lookup(s, ch, ks, hh, key) == if lex_le(key, sep) {
            kids_lookup(s, ch1, ks1, hh, key)
        } else {
            kids_lookup(s, ch2, ks2, hh, key)
        } by {
        lemma_route_concat(ks1, sep, ks2, key);
        lemma_route_bounds(ks1, key);
        lemma_route_bounds(ks2, key);
        if lex_le(key, sep) {
            assert(ch[route(ks1, key)] == ch1[route(ks1, key)]);
        } else {
            assert(ch[split_at + route(ks2, key)] == ch2[route(ks2, key)]);
        }
    }
    assert forall|p: Offset|
        in_kids(s, ch, hh, p) == (in_kids(s, ch1, hh, p) || in_kids(s, ch2, hh, p)) by {
        if in_kids(s, ch, hh, p) {
            let x = choose|x: int| 0 <= x < ch.len() && in_subtree(s, #[trigger] ch[x], hh, p);
            if x < split_at {
                assert(ch[x] == ch1[x]);
            } else {
                assert(ch[x] == ch2[x - split_at]);
            }
        }
        if in_kids(s, ch1, hh, p) {
            let x = choose|x: int| 0 <= x < ch1.len() && in_subtree(s, #[trigger] ch1[x], hh, p);
            assert(ch[x] == ch1[x]);
        }
        if in_kids(s, ch2, hh, p) {
            let x = choose|x: int| 0 <= x < ch2.len() && in_subtree(s, #[trigger] ch2[x], hh, p);
            assert(ch[split_at + x] == ch2[x]);
        }
    }
}

/// The children of one node, parted at one of its keys, are two runs of
/// children on either side of that key.
pub proof fn lemma_kids_split(
    s: Seq<Seq<u8>>,
    ch: Seq<Offset>,
    ks: Seq<Seq<u8>>,
    at: int,
    hh: nat,
    lo: Option<Seq<u8>>,
    hi: Option<Seq<u8>>,
    b: nat,
)
    requires
        kids_wf(s, ch, ks, hh, lo, hi, b),
        1 <= at <= ks.len(),
    ensures
        above(lo, ks[at - 1]),
        below(ks[at - 1], hi),
        kids_wf(s, ch.subrange(0, at), ks.subrange(0, at - 1), hh, lo, Some(ks[at - 1]), b),
        kids_wf(
            s,
            ch.subrange(at, ch.len() as int),
            ks.subrange(at, ks.len() as int),
            hh,
            Some(ks[at - 1]),
            hi,
            b,
        ),
        forall|key: Seq<u8>|
            kids_lookup(s, ch, ks, hh, key) == if lex_le(key, ks[at - 1]) {
                kids_lookup(s, ch.subrange(0, at), ks.subrange(0, at - 1), hh, key)
            } else {
                kids_lookup(
                    s,
                    ch.subrange(at, ch.len() as int),
                    ks.subrange(at, ks.len() as int),
                    hh,
                    key,
                )
            },
        forall|p: Offset|
            #![trigger in_kids(s, ch, hh, p)]
            #![trigger in_kids(s, ch.subrange(0, at), hh, p)]
            #![trigger in_kids(s, ch.subrange(at, ch.len() as int), hh, p)]
            in_kids(s, ch, hh, p) == (in_kids(s, ch.subrange(0, at), hh, p) || in_kids(
                s,
                ch.subrange(at, ch.len() as int),
                hh,
                p,
            )),
        forall|p: Offset| #[trigger]
            in_kids(s, ch.subrange(0, at), hh, p) ==> !in_kids(
                s,
                ch.subrange(at, ch.len() as int),
                hh,
                p,
            ),
{
    let ch1 = ch.subrange(0, at);
    let ks1 = ks.subrange(0, at - 1);
    let ch2 = ch.subrange(at, ch.len() as int);
    let ks2 = ks.subrange(at, ks.len() as int);
    let m = ks[at - 1];
    lemma_sorted_subrange(ks, 0, at - 1);
    lemma_sorted_subrange(ks, at, ks.len() as int);
    assert(above(lo, ks[at - 1]) && below(ks[at - 1], hi));
    assert forall|x: int| 0 <= x < ks1.len() implies above(lo, #[trigger] ks1[x]) && below(
        ks1[x],
        Some(m),
    ) by {
        assert(ks1[x] == ks[x]);
        assert(lex_lt(ks[x], ks[at - 1]));
    }
    assert forall|x: int| 0 <= x < ks2.len() implies above(Some(m), #[trigger] ks2[x]) && below(
        ks2[x],
        hi,
    ) by {
        assert(ks2[x] == ks[at + x]);
        assert(lex_lt(ks[at - 1], ks[at + x]));
    }
    assert forall|x: int| 0 <= x < ch1.len() implies subtree_wf(
        s,
        #[trigger] ch1[x],
        hh,
        child_lo(ks1, lo, x),
        child_hi(ks1, Some(m), x),
        b,
        b - 1,
        false,
        -1,
    ) by {
        assert(ch1[x] == ch[x]);
        if x > 0 {
            assert(ks1[x - 1] == ks[x - 1]);
        }
        if x < at - 1 {
            assert(ks1[x] == ks[x]);
        }
    }
    assert forall|x: int| 0 <= x < ch2.len() implies subtree_wf(
        s,
        #[trigger] ch2[x],
        hh,
        child_lo(ks2, Some(m), x),
        child_hi(ks2, hi, x),
        b,
        b - 1,
        false,
        -1,
    ) by {
        assert(ch2[x] == ch[at + x]);
        if x > 0 {
            assert(ks2[x - 1] == ks[at + x - 1]);
        }
        if x < ks2.len() {
            assert(ks2[x] == ks[at + x]);
        }
    }
    assert forall|x: int, y: int, p: Offset|
        0 <= x < ch1.len() && 0 <= y < ch1.len() && x != y && #[trigger] in_subtree(
            s,
            ch1[x],
            hh,
            p,
        ) implies !in_subtree(s, #[trigger] ch1[y], hh, p) by {
        assert(ch1[x] == ch[x]);
        assert(ch1[y] == ch[y]);
        assert(in_subtree(s, ch[x], hh, p));
    }
    assert forall|x: int, y: int, p: Offset|
        0 <= x < ch2.len() && 0 <= y < ch2.len() && x != y && #[trigger] in_subtree(
            s,
            ch2[x],
            hh,
            p,
        ) implies !in_subtree(s, #[trigger] ch2[y], hh, p) by {
        assert(ch2[x] == ch[at + x]);
        assert(ch2[y] == ch[at + y]);
        assert(in_subtree(s, ch[at + x], hh, p));
    }
    assert forall|key: Seq<u8>|
        kids_lookup(s, ch, ks, hh, key) == if lex_le(key, m) {
            kids_lookup(s, ch1, ks1, hh, key)
        } else {
            kids_lookup(s, ch2, ks2, hh, key)
        } by {
        lemma_route_vs(ks, key, at - 1);
        lemma_route_split(ks, key, at - 1);
        lemma_route_split(ks, key, at);
        lemma_route_bounds(ks, key);
        let r = route(ks, key);
        if lex_le(key, m) {
            assert(ch1[r] == ch[r]);
        } else {
            assert(ch2[r - at] == ch[r]);
        }
    }
    assert forall|p: Offset|
        in_kids(s, ch, hh, p) == (in_kids(s, ch1, hh, p) || in_kids(s, ch2, hh, p)) by {
        if in_kids(s, ch, hh, p) {
            let x = choose|x: int| 0 <= x < ch.len() && in_subtree(s, #[trigger] ch[x], hh, p);
            if x < at {
                assert(ch1[x] == ch[x]);
            } else {
                assert(ch2[x - at] == ch[x]);
            }
        }
        if in_kids(s, ch1, hh, p) {
            let x = choose|x: int| 0 <= x < ch1.len() && in_subtree(s, #[trigger] ch1[x], hh, p);
            assert(ch1[x] == ch[x]);
        }
        if in_kids(s, ch2, hh, p) {
            let x = choose|x: int| 0 <= x < ch2.len() && in_subtree(s, #[trigger] ch2[x], hh, p);
            assert(ch2[x] == ch[at + x]);
        }
    }
    assert forall|p: Offset| #[trigger] in_kids(s, ch1, hh, p) implies !in_kids(s, ch2, hh, p) by {
        if in_kids(s, ch2, hh, p) {
            let x = choose|x: int| 0 <= x < ch1.len() && in_subtree(s, #[trigger] ch1[x], hh, p);
            let y = choose|y: int| 0 <= y < ch2.len() && in_subtree(s, #[trigger] ch2[y], hh, p);
            assert(ch1[x] == ch[x]);
            assert(ch2[y] == ch[at + y]);
            assert(in_subtree(s, ch[x], hh, p));
            assert(in_subtree(s, ch[at + y], hh, p));
        }
    }
}

/// Two runs of pairs on either side of a key are, joined, the pairs of one
/// leaf, and a search among them goes to the run on its side of the key.
pub proof fn lemma_leaf_concat(
    first: Seq<(Seq<u8>, Seq<u8>)>,
    sep: Seq<u8>,
    second: Seq<(Seq<u8>, Seq<u8>)>,
)
    requires
        sorted(pair_keys(first)),
        sorted(pair_keys(second)),
        forall|i: int| 0 <= i < first.len() ==> lex_le((#[trigger] first[i]).0, sep),
        forall|i: int| 0 <= i < second.len() ==> lex_lt(sep, (#[trigger] second[i]).0),
    ensures
        sorted(pair_keys(first + second)),
        forall|key: Seq<u8>|
            leaf_get(first + second, key) == if lex_le(key, sep) {
                leaf_get(first, key)
            } else {
                leaf_get(second, key)
            },
{
    let first_keys = pair_keys(first);
    let second_keys = pair_keys(second);
    let whole = first + second;
    let ks = pair_keys(whole);
    let split_at = first.len() as int;
    assert(ks =~= first_keys + second_keys);
    assert forall|i: int, j: int| 0 <= i < first_keys.len() && 0 <= j < second_keys.len() implies lex_lt(
        #[trigger] first_keys[i],
        #[trigger] second_keys[j],
    ) by {
        assert(lex_le(first[i].0, sep));
        assert(lex_lt(sep, second[j].0));
        lemma_lex_le_lt(first_keys[i], sep, second_keys[j]);
    }
    lemma_sorted_concat(first_keys, second_keys);
    assert forall|key: Seq<u8>|
        leaf_get(whole, key) == if lex_le(key, sep) {
            leaf_get(first, key)
        } else {
            leaf_get(second, key)
        } by {
        lemma_route_bounds(first_keys, key);
        lemma_route_bounds(second_keys, key);
        if lex_le(key, sep) {
            let r = route(first_keys, key);
            if r > 0 {
                assert(ks[r - 1] == first_keys[r - 1]);
            }
            if r < split_at {
                assert(ks[r] == first_keys[r]);
                assert(whole[r] == first[r]);
            } else if r < ks.len() {
                assert(ks[r] == second_keys[0]);
                assert(whole[r] == second[0]);
                assert(lex_lt(sep, second[0].0));
                lemma_lex_le_lt(key, sep, second_keys[0]);
                lemma_lex_asymmetric(key, second_keys[0]);
            }
            lemma_route_is(ks, key, r);
        } else {
            lemma_lex_total(key, sep);
            let r = route(second_keys, key);
            if r > 0 {
                assert(ks[split_at + r - 1] == second_keys[r - 1]);
            } else if split_at > 0 {
                assert(ks[split_at - 1] == first_keys[split_at - 1]);
                assert(lex_le(first[split_at - 1].0, sep));
                lemma_lex_le_lt(first_keys[split_at - 1], sep, key);
            }
            if r < second_keys.len() {
                assert(ks[split_at + r] == second_keys[r]);
                assert(whole[split_at + r] == second[r]);
            }
            lemma_route_is(ks, key, split_at + r);
        }
    }
}


/// A node that was rewritten in place with what it held, as the root or
/// not as the root, is the top of a well-formed subtree that holds what
/// it held.
pub proof fn lemma_reflagged(
    s: Seq<Seq<u8>>,
    t: Seq<Seq<u8>>,
    off: Offset,
    h: nat,
    lo: Option<Seq<u8>>,
    hi: Option<Seq<u8>>,
    b: nat,
    min: int,
    root: bool,
    min2: int,
    root2: bool,
)
    requires
        subtree_wf(s, off, h, lo, hi, b, min, root, -1),
        min2 <= min,
        t.len() == s.len(),
        forall|p: Offset| p.0 < s.len() && p != off ==> #[trigger] t[p.0 as int] == s[p.0 as int],
        decode_spec(t[off.0 as int]) is Ok,
        node_at(t, off).kind == node_at(s, off).kind,
        node_at(t, off).is_root == root2,
    ensures
        subtree_wf(t, off, h, lo, hi, b, min2, root2, -1),
        forall|key: Seq<u8>| lookup(t, off, h, key) == lookup(s, off, h, key),
        crate::tree::tree_map(t, off, h) == crate::tree::tree_map(s, off, h),
{
    if h > 0 {
        let n = node_at(s, off);
        let g = (h - 1) as nat;
        lemma_kids_of_subtree(s, off, h, lo, hi, b, min, root);
        assert forall|p: Offset| #[trigger] in_kids(s, n.children(), g, p) implies p.0 < t.len()
            && t[p.0 as int] == s[p.0 as int] by {
            assert(in_subtree(s, off, h, p));
            lemma_subtree_in_store(s, off, h, lo, hi, b, min, root, -1, p);
        }
        lemma_kids_frame(s, t, n.children(), n.keys(), g, lo, hi, b);
        lemma_subtree_of_kids(t, off, h, lo, hi, b, min2, root2);
        assert forall|key: Seq<u8>| lookup(t, off, h, key) == lookup(s, off, h, key) by {
            assert(kids_lookup(t, n.children(), n.keys(), g, key) == kids_lookup(
                s,
                n.children(),
                n.keys(),
                g,
                key,
            ));
        }
    }
    assert(crate::tree::tree_map(t, off, h) =~= crate::tree::tree_map(s, off, h));
}

} // verus!
