//! Telling whether the pages of a store hold a well-formed tree.
use vstd::prelude::*;
use crate::lex::{bytes_lt, lemma_lex_transitive, lex_lt};
use crate::btree::MAX_BRANCHING_FACTOR;
use crate::node::{decode_spec, Node, NodeView};
use crate::node_type::{keys_view, pair_keys, pairs_view, Key, KeyValuePair, NodeType, Offset};
use crate::pager::Pager;
use crate::sorted::sorted;
use crate::tree::{
    above, at_most, below, child_hi, child_lo, in_subtree, inner_wf, leaf_wf, lemma_wf_child,
    lemma_wf_top, node_at, subtree_wf,
};

verus! {

/// The number of pages that are not marked in `v`.
pub open spec fn count_unvisited(v: Seq<bool>) -> nat
    decreases v.len(),
{
    if v.len() == 0 {
        0
    } else {
        count_unvisited(v.drop_last()) + if v.last() {
            0nat
        } else {
            1nat
        }
    }
}

proof fn lemma_count_mark(v: Seq<bool>, i: int)
    requires
        0 <= i < v.len(),
        !v[i],
    ensures
        count_unvisited(v.update(i, true)) == count_unvisited(v) - 1,
    decreases v.len(),
{
    let w = v.update(i, true);
    if i == v.len() - 1 {
        assert(w.drop_last() =~= v.drop_last());
    } else {
        assert(w.drop_last() =~= v.drop_last().update(i, true));
        lemma_count_mark(v.drop_last(), i);
    }
}

proof fn lemma_count_mono(v: Seq<bool>, w: Seq<bool>)
    requires
        v.len() == w.len(),
        forall|i: int| 0 <= i < v.len() ==> (v[i] ==> w[i]),
    ensures
        count_unvisited(w) <= count_unvisited(v),
    decreases v.len(),
{
    if v.len() > 0 {
        lemma_count_mono(v.drop_last(), w.drop_last());
    }
}

proof fn lemma_count_bound(v: Seq<bool>)
    ensures
        count_unvisited(v) <= v.len(),
    decreases v.len(),
{
    if v.len() > 0 {
        lemma_count_bound(v.drop_last());
    }
}

/// A bound as a byte string.
pub open spec fn bound_view(bound: Option<&Vec<u8>>) -> Option<Seq<u8>> {
    match bound {
        Some(key) => Some(key@),
        None => None,
    }
}

/// Tells whether `key` lies above `lo`.
fn is_above(lo: Option<&Vec<u8>>, key: &Vec<u8>) -> (r: bool)
    ensures
        r == above(bound_view(lo), key@),
{
    match lo {
        Some(l) => bytes_lt(l, key),
        None => true,
    }
}

/// Tells whether `key` lies strictly below `hi`.
fn is_below(key: &Vec<u8>, hi: Option<&Vec<u8>>) -> (r: bool)
    ensures
        r == below(key@, bound_view(hi)),
{
    match hi {
        Some(h) => bytes_lt(key, h),
        None => true,
    }
}

/// Tells whether `key` lies at or below `hi`.
fn is_at_most(key: &Vec<u8>, hi: Option<&Vec<u8>>) -> (r: bool)
    ensures
        r == at_most(key@, bound_view(hi)),
{
    match hi {
        Some(h) => !bytes_lt(h, key),
        None => true,
    }
}

/// Tells whether the keys ascend and lie strictly between `lo` and `hi`.
pub fn keys_in_order(keys: &Vec<Key>, lo: Option<&Vec<u8>>, hi: Option<&Vec<u8>>) -> (r: bool)
    ensures
        r == (sorted(keys_view(keys@)) && forall|i: int|
            0 <= i < keys@.len() ==> above(bound_view(lo), #[trigger] keys_view(keys@)[i]) && below(
                keys_view(keys@)[i],
                bound_view(hi),
            )),
{
    let ghost view = keys_view(keys@);
    let mut i: usize = 0;
    while i < keys.len()
        invariant
            i <= keys.len(),
            view == keys_view(keys@),
            forall|x: int, y: int| 0 <= x < y < i ==> lex_lt(#[trigger] view[x], #[trigger] view[y]),
            forall|x: int|
                0 <= x < i ==> above(bound_view(lo), #[trigger] view[x]) && below(
                    view[x],
                    bound_view(hi),
                ),
        decreases keys.len() - i,
    {
        if !is_above(lo, &keys[i].0) || !is_below(&keys[i].0, hi) {
            assert(!(above(bound_view(lo), view[i as int]) && below(view[i as int], bound_view(hi))));
            return false;
        }
        if i > 0 {
            if !bytes_lt(&keys[i - 1].0, &keys[i].0) {
                assert(!lex_lt(view[i - 1], view[i as int]));
                return false;
            }
            proof {
                assert forall|x: int| 0 <= x < i implies lex_lt(#[trigger] view[x], view[i as int]) by {
                    if x < i - 1 {
                        lemma_lex_transitive(view[x], view[i - 1], view[i as int]);
                    }
                }
            }
        }
        i += 1;
    }
    true
}

/// Tells whether the keys of the pairs ascend, lie above `lo` and at or
/// below `hi`.
pub fn pairs_in_order(pairs: &Vec<KeyValuePair>, lo: Option<&Vec<u8>>, hi: Option<&Vec<u8>>) -> (r:
    bool)
    ensures
        r == (sorted(pair_keys(pairs_view(pairs@))) && forall|i: int|
            0 <= i < pairs@.len() ==> above(bound_view(lo), (#[trigger] pairs_view(pairs@)[i]).0)
                && at_most(pairs_view(pairs@)[i].0, bound_view(hi))),
{
    let ghost view = pairs_view(pairs@);
    let ghost ks = pair_keys(view);
    let mut i: usize = 0;
    while i < pairs.len()
        invariant
            i <= pairs.len(),
            view == pairs_view(pairs@),
            ks == pair_keys(view),
            forall|x: int, y: int| 0 <= x < y < i ==> lex_lt(#[trigger] ks[x], #[trigger] ks[y]),
            forall|x: int|
                0 <= x < i ==> above(bound_view(lo), (#[trigger] view[x]).0) && at_most(
                    view[x].0,
                    bound_view(hi),
                ),
        decreases pairs.len() - i,
    {
        if !is_above(lo, &pairs[i].key) || !is_at_most(&pairs[i].key, hi) {
            assert(!(above(bound_view(lo), view[i as int].0) && at_most(
                view[i as int].0,
                bound_view(hi),
            )));
            return false;
        }
        if i > 0 {
            if !bytes_lt(&pairs[i - 1].key, &pairs[i].key) {
                assert(!lex_lt(ks[i - 1], ks[i as int]));
                return false;
            }
            proof {
                assert forall|x: int| 0 <= x < i implies lex_lt(#[trigger] ks[x], ks[i as int]) by {
                    if x < i - 1 {
                        lemma_lex_transitive(ks[x], ks[i - 1], ks[i as int]);
                    }
                }
            }
        }
        i += 1;
    }
    true
}


/// The fewest entries that a node may hold: a node other than the root
/// `b - 1`, an internal root one key, a leaf root none.
pub open spec fn min_entries(b: nat, is_root: bool, h: nat) -> int {
    if !is_root {
        b - 1
    } else if h > 0 {
        1
    } else {
        0
    }
}

/// No page of the subtree at `off` is marked in `v`.
pub open spec fn fresh(s: Seq<Seq<u8>>, off: Offset, h: nat, v: Seq<bool>) -> bool {
    forall|p: Offset| #[trigger] in_subtree(s, off, h, p) ==> p.0 < v.len() && !v[p.0 as int]
}

/// The pages at and below `off` hold a well-formed subtree of height `h`,
/// none of whose pages is marked in `v`.
pub open spec fn valid_at(
    s: Seq<Seq<u8>>,
    off: Offset,
    h: nat,
    lo: Option<Seq<u8>>,
    hi: Option<Seq<u8>>,
    b: nat,
    is_root: bool,
    v: Seq<bool>,
) -> bool {
    subtree_wf(s, off, h, lo, hi, b, min_entries(b, is_root, h), is_root, -1) && fresh(s, off, h, v)
}

/// The marks `w` are the marks `v` and the pages of the subtree at `off`.
pub open spec fn marked(s: Seq<Seq<u8>>, off: Offset, h: nat, v: Seq<bool>, w: Seq<bool>) -> bool {
    &&& w.len() == v.len()
    &&& forall|x: int|
        0 <= x < v.len() ==> #[trigger] w[x] == (v[x] || in_subtree(s, off, h, Offset(x as usize)))
}

/// Page `p` belongs to the subtree of one of the first `i` children `ch`.
pub open spec fn in_first(s: Seq<Seq<u8>>, ch: Seq<Offset>, hc: nat, i: int, p: Offset) -> bool {
    exists|j: int| 0 <= j < i && j < ch.len() && in_subtree(s, #[trigger] ch[j], hc, p)
}

/// The first `i` children of the node `n` at `off` were found to be
/// well-formed subtrees of height `hc` that share no page with one another
/// nor with what was marked before; the marks `v` are the marks `v0` from
/// before, the page `off`, and the pages of those subtrees.
pub open spec fn scanned(
    s: Seq<Seq<u8>>,
    n: NodeView,
    off: Offset,
    lo: Option<Seq<u8>>,
    hi: Option<Seq<u8>>,
    b: nat,
    hc: nat,
    i: int,
    v0: Seq<bool>,
    v: Seq<bool>,
) -> bool {
    &&& v.len() == v0.len()
    &&& v0.len() == s.len()
    &&& 0 <= i <= n.children().len()
    &&& forall|x: int|
        0 <= x < v.len() ==> #[trigger] v[x] == (v0[x] || x == off.0 || in_first(
            s,
            n.children(),
            hc,
            i,
            Offset(x as usize),
        ))
    &&& forall|j: int|
        0 <= j < i ==> subtree_wf(
            s,
            #[trigger] n.children()[j],
            hc,
            child_lo(n.keys(), lo, j),
            child_hi(n.keys(), hi, j),
            b,
            b - 1,
            false,
            -1,
        )
    &&& forall|j: int, p: Offset|
        0 <= j < i && #[trigger] in_subtree(s, n.children()[j], hc, p) ==> p.0 < v0.len()
            && !v0[p.0 as int] && p != off
    &&& forall|j: int, k: int, p: Offset|
        0 <= j < i && 0 <= k < i && j != k && #[trigger] in_subtree(s, n.children()[j], hc, p)
            ==> !in_subtree(s, #[trigger] n.children()[k], hc, p)
    &&& i > 0 ==> hc + 1 < count_unvisited(v0)
    &&& count_unvisited(v) < count_unvisited(v0)
}

/// The node `n` at `off` is an internal node as a well-formed subtree has
/// at its top, and its page is not marked in `v0`.
pub open spec fn inner_top(
    s: Seq<Seq<u8>>,
    n: NodeView,
    off: Offset,
    lo: Option<Seq<u8>>,
    hi: Option<Seq<u8>>,
    b: nat,
    is_root: bool,
    v0: Seq<bool>,
) -> bool {
    &&& 0 < off.0 < s.len()
    &&& v0.len() == s.len()
    &&& v0.len() <= usize::MAX
    &&& !v0[off.0 as int]
    &&& decode_spec(s[off.0 as int]) is Ok
    &&& n == node_at(s, off)
    &&& n.is_root == is_root
    &&& inner_wf(n, lo, hi)
    &&& min_entries(b, is_root, 1) <= n.entries() <= 2 * b - 1
}

/// A well-formed subtree none of whose pages is marked is lower than the
/// number of pages that are not marked: each level of it has a page of its
/// own.
pub proof fn lemma_height_below_marks(
    s: Seq<Seq<u8>>,
    off: Offset,
    h: nat,
    lo: Option<Seq<u8>>,
    hi: Option<Seq<u8>>,
    b: nat,
    min: int,
    root: bool,
    v: Seq<bool>,
)
    requires
        subtree_wf(s, off, h, lo, hi, b, min, root, -1),
        fresh(s, off, h, v),
    ensures
        h < count_unvisited(v),
    decreases h,
{
    assert(in_subtree(s, off, h, off));
    lemma_count_mark(v, off.0 as int);
    if h > 0 {
        let n = node_at(s, off);
        let w = v.update(off.0 as int, true);
        lemma_wf_child(s, off, h, lo, hi, b, min, root, -1, 0);
        let c = n.children()[0];
        assert forall|p: Offset| #[trigger] in_subtree(s, c, (h - 1) as nat, p) implies p.0 < w.len()
            && !w[p.0 as int] by {
            assert(in_subtree(s, off, h, p));
            assert(!in_subtree(s, c, (h - 1) as nat, off));
        }
        lemma_height_below_marks(
            s,
            c,
            (h - 1) as nat,
            child_lo(n.keys(), lo, 0),
            child_hi(n.keys(), hi, 0),
            b,
            b - 1,
            false,
            w,
        );
    }
}

/// A well-formed subtree is lower than the store has pages.
pub proof fn lemma_height_bound(
    s: Seq<Seq<u8>>,
    off: Offset,
    h: nat,
    lo: Option<Seq<u8>>,
    hi: Option<Seq<u8>>,
    b: nat,
    min: int,
    root: bool,
)
    requires
        subtree_wf(s, off, h, lo, hi, b, min, root, -1),
    ensures
        h < s.len(),
{
    let v = Seq::new(s.len(), |i: int| false);
    crate::tree::lemma_subtree_pages(s, off, h, lo, hi, b, min, root, -1);
    lemma_height_below_marks(s, off, h, lo, hi, b, min, root, v);
    lemma_count_bound(v);
}

/// A subtree has one height only.
pub proof fn lemma_height_unique(
    s: Seq<Seq<u8>>,
    off: Offset,
    h1: nat,
    lo1: Option<Seq<u8>>,
    hi1: Option<Seq<u8>>,
    min1: int,
    root1: bool,
    h2: nat,
    lo2: Option<Seq<u8>>,
    hi2: Option<Seq<u8>>,
    min2: int,
    root2: bool,
    b: nat,
)
    requires
        subtree_wf(s, off, h1, lo1, hi1, b, min1, root1, -1),
        subtree_wf(s, off, h2, lo2, hi2, b, min2, root2, -1),
    ensures
        h1 == h2,
    decreases h1,
{
    if h1 > 0 && h2 > 0 {
        let n = node_at(s, off);
        lemma_wf_child(s, off, h1, lo1, hi1, b, min1, root1, -1, 0);
        lemma_wf_child(s, off, h2, lo2, hi2, b, min2, root2, -1, 0);
        lemma_height_unique(
            s,
            n.children()[0],
            (h1 - 1) as nat,
            child_lo(n.keys(), lo1, 0),
            child_hi(n.keys(), hi1, 0),
            b - 1,
            false,
            (h2 - 1) as nat,
            child_lo(n.keys(), lo2, 0),
            child_hi(n.keys(), hi2, 0),
            b - 1,
            false,
            b,
        );
    }
}

/// If the node at `off` were the top of a well-formed subtree with no
/// marked page, its child `i` would be one with no page marked in `v`.
proof fn lemma_scan_child(
    s: Seq<Seq<u8>>,
    n: NodeView,
    off: Offset,
    lo: Option<Seq<u8>>,
    hi: Option<Seq<u8>>,
    b: nat,
    is_root: bool,
    hc: nat,
    i: int,
    v0: Seq<bool>,
    v: Seq<bool>,
    h: nat,
)
    requires
        inner_top(s, n, off, lo, hi, b, is_root, v0),
        scanned(s, n, off, lo, hi, b, hc, i, v0, v),
        i < n.children().len(),
        valid_at(s, off, h, lo, hi, b, is_root, v0),
    ensures
        h > 0,
        i > 0 ==> hc == h - 1,
        valid_at(
            s,
            n.children()[i],
            (h - 1) as nat,
            child_lo(n.keys(), lo, i),
            child_hi(n.keys(), hi, i),
            b,
            false,
            v,
        ),
{
    let c = n.children()[i];
    let hh = (h - 1) as nat;
    lemma_wf_top(s, off, h, lo, hi, b, min_entries(b, is_root, h), is_root, -1);
    lemma_wf_child(s, off, h, lo, hi, b, min_entries(b, is_root, h), is_root, -1, i);
    if i > 0 {
        lemma_wf_child(s, off, h, lo, hi, b, min_entries(b, is_root, h), is_root, -1, 0);
        lemma_height_unique(
            s,
            n.children()[0],
            hc,
            child_lo(n.keys(), lo, 0),
            child_hi(n.keys(), hi, 0),
            b - 1,
            false,
            hh,
            child_lo(n.keys(), lo, 0),
            child_hi(n.keys(), hi, 0),
            b - 1,
            false,
            b,
        );
    }
    assert forall|p: Offset| #[trigger] in_subtree(s, c, hh, p) implies p.0 < v.len() && !v[p.0 as int] by {
        assert(in_subtree(s, off, h, p));
        assert(!in_subtree(s, c, hh, off));
        if in_first(s, n.children(), hc, i, p) {
            let j = choose|j: int|
                0 <= j < i && j < n.children().len() && in_subtree(s, #[trigger] n.children()[j], hc, p);
            assert(in_subtree(s, n.children()[j], hh, p));
        }
        assert(Offset(p.0 as int as usize) == p);
    }
}

/// One child more was found well-formed.
proof fn lemma_scan_step(
    s: Seq<Seq<u8>>,
    n: NodeView,
    off: Offset,
    lo: Option<Seq<u8>>,
    hi: Option<Seq<u8>>,
    b: nat,
    is_root: bool,
    hc: nat,
    i: int,
    v0: Seq<bool>,
    v: Seq<bool>,
    w: Seq<bool>,
    hi_: nat,
)
    requires
        inner_top(s, n, off, lo, hi, b, is_root, v0),
        scanned(s, n, off, lo, hi, b, hc, i, v0, v),
        i < n.children().len(),
        valid_at(s, n.children()[i], hi_, child_lo(n.keys(), lo, i), child_hi(n.keys(), hi, i), b, false, v),
        marked(s, n.children()[i], hi_, v, w),
        hi_ < count_unvisited(v),
        i > 0 ==> hi_ == hc,
    ensures
        scanned(s, n, off, lo, hi, b, hi_, i + 1, v0, w),
{
    let c = n.children()[i];
    let ch = n.children();
    lemma_count_mono(v, w);
    assert(v[off.0 as int]);
    assert forall|p: Offset| #[trigger] in_subtree(s, c, hi_, p) implies p.0 < v0.len()
        && !v0[p.0 as int] && p != off && !in_first(s, ch, hi_, i, p) by {
        assert(!v[p.0 as int]);
        assert(Offset(p.0 as int as usize) == p);
    }
    assert forall|x: int| 0 <= x < w.len() implies #[trigger] w[x] == (v0[x] || x == off.0
        || in_first(s, ch, hi_, i + 1, Offset(x as usize))) by {
        let p = Offset(x as usize);
        if in_first(s, ch, hi_, i + 1, p) {
            let j = choose|j: int|
                0 <= j < i + 1 && j < ch.len() && in_subtree(s, #[trigger] ch[j], hi_, p);
            if j < i {
                assert(in_first(s, ch, hc, i, p));
            }
        }
        if in_first(s, ch, hc, i, p) {
            let j = choose|j: int|
                0 <= j < i && j < ch.len() && in_subtree(s, #[trigger] ch[j], hc, p);
            assert(in_subtree(s, ch[j], hi_, p));
        }
        if in_subtree(s, c, hi_, p) {
            assert(in_subtree(s, ch[i], hi_, p));
        }
    }
    assert forall|j: int, k: int, p: Offset|
        0 <= j < i + 1 && 0 <= k < i + 1 && j != k && #[trigger] in_subtree(
            s,
            ch[j],
            hi_,
            p,
        ) implies !in_subtree(s, #[trigger] ch[k], hi_, p) by {
        if in_subtree(s, ch[k], hi_, p) {
            if j == i {
                assert(in_first(s, ch, hi_, i, p));
            } else if k == i {
                assert(in_first(s, ch, hi_, i, p));
            }
        }
    }
}

/// All children were found well-formed: so is the subtree at `off`.
proof fn lemma_scan_done(
    s: Seq<Seq<u8>>,
    n: NodeView,
    off: Offset,
    lo: Option<Seq<u8>>,
    hi: Option<Seq<u8>>,
    b: nat,
    is_root: bool,
    hc: nat,
    v0: Seq<bool>,
    v: Seq<bool>,
)
    requires
        inner_top(s, n, off, lo, hi, b, is_root, v0),
        scanned(s, n, off, lo, hi, b, hc, n.children().len() as int, v0, v),
    ensures
        valid_at(s, off, hc + 1, lo, hi, b, is_root, v0),
        marked(s, off, hc + 1, v0, v),
        hc + 1 < count_unvisited(v0),
{
    let ch = n.children();
    let h = hc + 1;
    assert((h - 1) as nat == hc);
    assert forall|j: int| 0 <= j < ch.len() implies !in_subtree(s, #[trigger] ch[j], hc, off) by {}
    assert(subtree_wf(s, off, h, lo, hi, b, min_entries(b, is_root, h), is_root, -1));
    assert forall|p: Offset| #[trigger] in_subtree(s, off, h, p) implies p.0 < v0.len()
        && !v0[p.0 as int] by {
        if p != off {
            let j = choose|j: int| 0 <= j < ch.len() && in_subtree(s, #[trigger] ch[j], hc, p);
        }
    }
    assert forall|x: int| 0 <= x < v0.len() implies #[trigger] v[x] == (v0[x] || in_subtree(
        s,
        off,
        h,
        Offset(x as usize),
    )) by {
        let p = Offset(x as usize);
        assert(p.0 == x);
        assert(Offset(off.0) == off);
        assert(in_subtree(s, off, h, off));
        if in_first(s, ch, hc, ch.len() as int, p) {
            let j = choose|j: int|
                0 <= j < ch.len() && j < ch.len() && in_subtree(s, #[trigger] ch[j], hc, p);
            assert(in_subtree(s, off, h, p));
        }
        if in_subtree(s, off, h, p) && p != off {
            let j = choose|j: int| 0 <= j < ch.len() && in_subtree(s, #[trigger] ch[j], hc, p);
            assert(in_first(s, ch, hc, ch.len() as int, p));
        }
    }
}

/// Tells whether the pages at and below `offset` hold a well-formed
/// subtree that shares no page with what is marked in `visited`, and if
/// so, gives its height and marks its pages.
pub fn check_subtree(
    pager: &Pager,
    b: usize,
    offset: Offset,
    is_root: bool,
    lo: Option<&Vec<u8>>,
    hi: Option<&Vec<u8>>,
    visited: &mut Vec<bool>,
) -> (r: Option<usize>)
    requires
        pager.wf(),
        2 <= b <= MAX_BRANCHING_FACTOR,
        old(visited)@.len() == pager@.len(),
    ensures
        final(visited)@.len() == old(visited)@.len(),
        forall|x: int| 0 <= x < old(visited)@.len() && old(visited)@[x] ==> final(visited)@[x],
        r matches Some(h) ==> valid_at(
            pager@,
            offset,
            h as nat,
            bound_view(lo),
            bound_view(hi),
            b as nat,
            is_root,
            old(visited)@,
        ) && marked(pager@, offset, h as nat, old(visited)@, final(visited)@) && h < count_unvisited(
            old(visited)@,
        ),
        r is None ==> forall|h: nat|
            !#[trigger] valid_at(
                pager@,
                offset,
                h,
                bound_view(lo),
                bound_view(hi),
                b as nat,
                is_root,
                old(visited)@,
            ),
    decreases count_unvisited(old(visited)@),
{
    let ghost s = pager@;
    let ghost v0 = visited@;
    let ghost lo_v = bound_view(lo);
    let ghost hi_v = bound_view(hi);
    let ghost bn = b as nat;
    if offset.0 == 0 || offset.0 >= pager.cursor() {
        return None;
    }
    if visited[offset.0] {
        proof {
            assert forall|h: nat| !#[trigger] valid_at(s, offset, h, lo_v, hi_v, bn, is_root, v0) by {
                assert(in_subtree(s, offset, h, offset));
            }
        }
        return None;
    }
    let page = match pager.get_page(&offset) {
        Ok(page) => page,
        Err(_) => {
            return None;
        },
    };
    let node = match Node::decode(&page) {
        Ok(node) => node,
        Err(_) => {
            return None;
        },
    };
    let ghost n = node@;
    if node.is_root != is_root {
        return None;
    }
    visited[offset.0] = true;
    proof {
        lemma_count_mark(v0, offset.0 as int);
        lemma_count_bound(v0);
    }
    match node.node_type {
        NodeType::Leaf(pairs) => {
            let len = pairs.len();
            if len > 2 * b - 1 || (!is_root && len < b - 1) || !pairs_in_order(&pairs, lo, hi) {
                return None;
            }
            proof {
                assert(leaf_wf(n, lo_v, hi_v));
                assert forall|p: Offset| in_subtree(s, offset, 0, p) == (p == offset) by {}
                assert forall|x: int| 0 <= x < v0.len() implies #[trigger] visited@[x] == (v0[x]
                    || in_subtree(s, offset, 0, Offset(x as usize))) by {}
            }
            Some(0)
        },
        NodeType::Internal(children, keys) => {
            if children.len() == 0 || children.len() - 1 != keys.len() {
                return None;
            }
            if keys.len() > 2 * b - 1 || (is_root && keys.len() < 1) || (!is_root && keys.len() < b
                - 1) || !keys_in_order(&keys, lo, hi) {
                return None;
            }
            proof {
                assert(inner_top(s, n, offset, lo_v, hi_v, bn, is_root, v0));
                assert forall|x: int| 0 <= x < v0.len() implies #[trigger] visited@[x] == (v0[x]
                    || x == offset.0 || in_first(s, n.children(), 0, 0, Offset(x as usize))) by {}
                assert(scanned(s, n, offset, lo_v, hi_v, bn, 0, 0, v0, visited@));
            }
            let mut height: usize = 0;
            let mut i: usize = 0;
            while i < children.len()
                invariant
                    pager.wf(),
                    2 <= b <= MAX_BRANCHING_FACTOR,
                    s == pager@,
                    bn == b as nat,
                    lo_v == bound_view(lo),
                    hi_v == bound_view(hi),
                    v0 == old(visited)@,
                    n.children() == children@,
                    n.keys() == keys_view(keys@),
                    children@.len() == keys@.len() + 1,
                    inner_top(s, n, offset, lo_v, hi_v, bn, is_root, v0),
                    scanned(s, n, offset, lo_v, hi_v, bn, height as nat, i as int, v0, visited@),
                    forall|x: int| 0 <= x < v0.len() && v0[x] ==> visited@[x],
                decreases children.len() - i,
            {
                let child_lo_key = if i == 0 {
                    lo
                } else {
                    Some(&keys[i - 1].0)
                };
                let child_hi_key = if i == keys.len() {
                    hi
                } else {
                    Some(&keys[i].0)
                };
                let ghost v = visited@;
                let r = check_subtree(
                    pager,
                    b,
                    children[i],
                    false,
                    child_lo_key,
                    child_hi_key,
                    visited,
                );
                match r {
                    None => {
                        proof {
                            assert forall|h: nat| !#[trigger] valid_at(
                                s,
                                offset,
                                h,
                                lo_v,
                                hi_v,
                                bn,
                                is_root,
                                v0,
                            ) by {
                                if valid_at(s, offset, h, lo_v, hi_v, bn, is_root, v0) {
                                    lemma_scan_child(
                                        s,
                                        n,
                                        offset,
                                        lo_v,
                                        hi_v,
                                        bn,
                                        is_root,
                                        height as nat,
                                        i as int,
                                        v0,
                                        v,
                                        h,
                                    );
                                }
                            }
                        }
                        return None;
                    },
                    Some(child_height) => {
                        if i > 0 && child_height != height {
                            proof {
                                assert forall|h: nat| !#[trigger] valid_at(
                                    s,
                                    offset,
                                    h,
                                    lo_v,
                                    hi_v,
                                    bn,
                                    is_root,
                                    v0,
                                ) by {
                                    if valid_at(s, offset, h, lo_v, hi_v, bn, is_root, v0) {
                                        lemma_scan_child(
                                            s,
                                            n,
                                            offset,
                                            lo_v,
                                            hi_v,
                                            bn,
                                            is_root,
                                            height as nat,
                                            i as int,
                                            v0,
                                            v,
                                            h,
                                        );
                                        lemma_height_unique(
                                            s,
                                            n.children()[i as int],
                                            child_height as nat,
                                            child_lo(n.keys(), lo_v, i as int),
                                            child_hi(n.keys(), hi_v, i as int),
                                            bn - 1,
                                            false,
                                            (h - 1) as nat,
                                            child_lo(n.keys(), lo_v, i as int),
                                            child_hi(n.keys(), hi_v, i as int),
                                            bn - 1,
                                            false,
                                            bn,
                                        );
                                    }
                                }
                            }
                            return None;
                        }
                        proof {
                            lemma_scan_step(
                                s,
                                n,
                                offset,
                                lo_v,
                                hi_v,
                                bn,
                                is_root,
                                height as nat,
                                i as int,
                                v0,
                                v,
                                visited@,
                                child_height as nat,
                            );
                        }
                        height = child_height;
                    },
                }
                i += 1;
            }
            proof {
                lemma_scan_done(s, n, offset, lo_v, hi_v, bn, is_root, height as nat, v0, visited@);
            }
            Some(height + 1)
        },
    }
}

} // verus!
