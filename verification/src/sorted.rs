//! Sequences of keys in strictly ascending order, and the search in them.
use vstd::prelude::*;
use crate::lex::{
    bytes_lt, lemma_lex_asymmetric, lemma_lex_le_lt, lemma_lex_total, lemma_lex_transitive, lex_le, lex_lt,
};
use crate::node_type::{keys_view, pair_keys, pairs_view, Key, KeyValuePair};

verus! {

/// The keys stand in strictly ascending order.
pub open spec fn sorted(keys: Seq<Seq<u8>>) -> bool {
    forall|i: int, j: int| 0 <= i < j < keys.len() ==> lex_lt(#[trigger] keys[i], #[trigger] keys[j])
}

/// The first index from `from` on whose key is not below `key`, or the
/// length of `keys` if there is none.
pub open spec fn route_from(keys: Seq<Seq<u8>>, key: Seq<u8>, from: int) -> int
    decreases keys.len() - from,
{
    if from >= keys.len() {
        keys.len() as int
    } else if lex_le(key, keys[from]) {
        from
    } else {
        route_from(keys, key, from + 1)
    }
}

/// The first index whose key is not below `key`, or the length of `keys` if
/// there is none: the child to descend into, and the place of `key` among
/// the pairs of a leaf.
pub open spec fn route(keys: Seq<Seq<u8>>, key: Seq<u8>) -> int {
    route_from(keys, key, 0)
}

proof fn lemma_route_from_bounds(keys: Seq<Seq<u8>>, key: Seq<u8>, from: int)
    requires
        0 <= from <= keys.len(),
    ensures
        from <= route_from(keys, key, from) <= keys.len(),
        forall|j: int| from <= j < route_from(keys, key, from) ==> lex_lt(#[trigger] keys[j], key),
        route_from(keys, key, from) < keys.len() ==> lex_le(
            key,
            keys[route_from(keys, key, from)],
        ),
    decreases keys.len() - from,
{
    if from < keys.len() && !lex_le(key, keys[from]) {
        lemma_route_from_bounds(keys, key, from + 1);
    }
}

/// Every key before the route is below `key`, and the key at the route is not.
pub proof fn lemma_route_bounds(keys: Seq<Seq<u8>>, key: Seq<u8>)
    ensures
        0 <= route(keys, key) <= keys.len(),
        forall|j: int| 0 <= j < route(keys, key) ==> lex_lt(#[trigger] keys[j], key),
        route(keys, key) < keys.len() ==> lex_le(key, keys[route(keys, key)]),
{
    lemma_route_from_bounds(keys, key, 0);
}

/// In a sorted sequence the route is the one index that parts the keys below
/// `key` from the others.
pub proof fn lemma_route_is(keys: Seq<Seq<u8>>, key: Seq<u8>, i: int)
    requires
        sorted(keys),
        0 <= i <= keys.len(),
        i > 0 ==> lex_lt(keys[i - 1], key),
        i < keys.len() ==> lex_le(key, keys[i]),
    ensures
        route(keys, key) == i,
{
    lemma_route_bounds(keys, key);
    let r = route(keys, key);
    if r < i {
        // key <= keys[r] <= keys[i - 1] < key
        if r < i - 1 {
            lemma_lex_transitive(keys[r], keys[i - 1], key);
        }
        lemma_lex_le_lt(key, keys[r], key);
    } else if r > i {
        assert(lex_lt(keys[i], key));
    }
}

/// A key of a sorted sequence is found at its own index.
pub proof fn lemma_route_of_member(keys: Seq<Seq<u8>>, i: int)
    requires
        sorted(keys),
        0 <= i < keys.len(),
    ensures
        route(keys, keys[i]) == i,
{
    crate::lex::lemma_lex_irreflexive(keys[i]);
    lemma_route_is(keys, keys[i], i);
}

/// A sorted sequence stays sorted when a key is put between its neighbours.
pub proof fn lemma_sorted_insert(keys: Seq<Seq<u8>>, i: int, key: Seq<u8>)
    requires
        sorted(keys),
        0 <= i <= keys.len(),
        i > 0 ==> lex_lt(keys[i - 1], key),
        i < keys.len() ==> lex_lt(key, keys[i]),
    ensures
        sorted(keys.insert(i, key)),
{
    let new = keys.insert(i, key);
    assert forall|x: int, y: int| 0 <= x < y < new.len() implies lex_lt(
        #[trigger] new[x],
        #[trigger] new[y],
    ) by {
        if y == i {
            if x < i - 1 {
                lemma_lex_transitive(keys[x], keys[i - 1], key);
            }
        } else if x == i {
            if y - 1 > i {
                lemma_lex_transitive(key, keys[i], keys[y - 1]);
            }
        } else if x < i && y > i {
            assert(lex_lt(keys[x], keys[y - 1]));
        } else if x < i {
            assert(lex_lt(keys[x], keys[y]));
        } else {
            assert(lex_lt(keys[x - 1], keys[y - 1]));
        }
    }
}

/// A part of a sorted sequence is sorted.
pub proof fn lemma_sorted_subrange(keys: Seq<Seq<u8>>, from: int, to: int)
    requires
        sorted(keys),
        0 <= from <= to <= keys.len(),
    ensures
        sorted(keys.subrange(from, to)),
{
    let part = keys.subrange(from, to);
    assert forall|x: int, y: int| 0 <= x < y < part.len() implies lex_lt(
        #[trigger] part[x],
        #[trigger] part[y],
    ) by {
        assert(lex_lt(keys[from + x], keys[from + y]));
    }
}

/// A sorted sequence stays sorted when a key is taken out.
pub proof fn lemma_sorted_remove(keys: Seq<Seq<u8>>, i: int)
    requires
        sorted(keys),
        0 <= i < keys.len(),
    ensures
        sorted(keys.remove(i)),
{
    let new = keys.remove(i);
    assert forall|x: int, y: int| 0 <= x < y < new.len() implies lex_lt(
        #[trigger] new[x],
        #[trigger] new[y],
    ) by {
        let x0 = if x < i { x } else { x + 1 };
        let y0 = if y < i { y } else { y + 1 };
        assert(lex_lt(keys[x0], keys[y0]));
    }
}

/// Two sorted sequences, the first wholly below the second, are sorted when
/// joined.
pub proof fn lemma_sorted_concat(a: Seq<Seq<u8>>, b: Seq<Seq<u8>>)
    requires
        sorted(a),
        sorted(b),
        forall|i: int, j: int| 0 <= i < a.len() && 0 <= j < b.len() ==> lex_lt(
            #[trigger] a[i],
            #[trigger] b[j],
        ),
    ensures
        sorted(a + b),
{
    let new = a + b;
    assert forall|x: int, y: int| 0 <= x < y < new.len() implies lex_lt(
        #[trigger] new[x],
        #[trigger] new[y],
    ) by {
        if y < a.len() {
            assert(lex_lt(a[x], a[y]));
        } else if x >= a.len() {
            assert(lex_lt(b[x - a.len()], b[y - a.len()]));
        } else {
            assert(lex_lt(a[x], b[y - a.len()]));
        }
    }
}

/// `key` is at most the key at `j` exactly when its route is at most `j`.
pub proof fn lemma_route_vs(keys: Seq<Seq<u8>>, key: Seq<u8>, j: int)
    requires
        sorted(keys),
        0 <= j < keys.len(),
    ensures
        lex_le(key, keys[j]) <==> route(keys, key) <= j,
{
    lemma_route_bounds(keys, key);
    let r = route(keys, key);
    if r < j {
        lemma_lex_le_lt(key, keys[r], keys[j]);
        lemma_lex_asymmetric(key, keys[j]);
    } else if r > j {
        assert(lex_lt(keys[j], key));
    }
}

/// The route in a sorted sequence, told from the routes in its two parts.
pub proof fn lemma_route_split(keys: Seq<Seq<u8>>, key: Seq<u8>, at: int)
    requires
        sorted(keys),
        0 <= at <= keys.len(),
    ensures
        route(keys, key) <= at ==> route(keys.subrange(0, at), key) == route(keys, key),
        route(keys, key) >= at ==> route(keys.subrange(at, keys.len() as int), key) == route(
            keys,
            key,
        ) - at,
{
    lemma_route_bounds(keys, key);
    let r = route(keys, key);
    if r <= at {
        let part = keys.subrange(0, at);
        lemma_sorted_subrange(keys, 0, at);
        if r < at {
            assert(part[r] == keys[r]);
        }
        if r > 0 {
            assert(part[r - 1] == keys[r - 1]);
        }
        lemma_route_is(part, key, r);
    }
    if r >= at {
        let part = keys.subrange(at, keys.len() as int);
        lemma_sorted_subrange(keys, at, keys.len() as int);
        if r < keys.len() {
            assert(part[r - at] == keys[r]);
        }
        if r > at {
            assert(part[r - at - 1] == keys[r - 1]);
        }
        lemma_route_is(part, key, r - at);
    }
}

/// The route in a sorted sequence after a key was put in at `i`.
pub proof fn lemma_route_insert(keys: Seq<Seq<u8>>, i: int, sep: Seq<u8>, key: Seq<u8>)
    requires
        sorted(keys),
        0 <= i <= keys.len(),
        i > 0 ==> lex_lt(keys[i - 1], sep),
        i < keys.len() ==> lex_lt(sep, keys[i]),
    ensures
        sorted(keys.insert(i, sep)),
        route(keys.insert(i, sep), key) == if route(keys, key) < i {
            route(keys, key)
        } else if route(keys, key) > i {
            route(keys, key) + 1
        } else if lex_le(key, sep) {
            i
        } else {
            i + 1
        },
{
    lemma_sorted_insert(keys, i, sep);
    lemma_route_bounds(keys, key);
    let new = keys.insert(i, sep);
    let r = route(keys, key);
    if r < i {
        assert(new[r] == keys[r]);
        if r > 0 {
            assert(new[r - 1] == keys[r - 1]);
        }
        lemma_route_is(new, key, r);
    } else if r > i {
        assert(new[r] == keys[r - 1]);
        if r < keys.len() {
            assert(new[r + 1] == keys[r]);
        }
        lemma_route_is(new, key, r + 1);
    } else if lex_le(key, sep) {
        assert(new[i] == sep);
        if i > 0 {
            assert(new[i - 1] == keys[i - 1]);
        }
        lemma_route_is(new, key, i);
    } else {
        assert(new[i] == sep);
        lemma_lex_total(key, sep);
        if i < keys.len() {
            assert(new[i + 1] == keys[i]);
        }
        lemma_route_is(new, key, i + 1);
    }
}

/// The route in a sorted sequence after the key at `i` was taken out.
pub proof fn lemma_route_remove(keys: Seq<Seq<u8>>, i: int, key: Seq<u8>)
    requires
        sorted(keys),
        0 <= i < keys.len(),
    ensures
        sorted(keys.remove(i)),
        route(keys.remove(i), key) == if route(keys, key) <= i {
            route(keys, key)
        } else {
            route(keys, key) - 1
        },
{
    lemma_sorted_remove(keys, i);
    lemma_route_bounds(keys, key);
    let new = keys.remove(i);
    let r = route(keys, key);
    if r <= i {
        if r > 0 {
            assert(new[r - 1] == keys[r - 1]);
        }
        if r < new.len() {
            if r < i {
                assert(new[r] == keys[r]);
            } else {
                assert(new[r] == keys[r + 1]);
                lemma_lex_le_lt(key, keys[r], keys[r + 1]);
                lemma_lex_asymmetric(key, keys[r + 1]);
            }
        }
        lemma_route_is(new, key, r);
    } else {
        if r - 1 > 0 {
            if r - 1 > i {
                assert(new[r - 2] == keys[r - 1]);
            } else {
                assert(new[r - 2] == keys[r - 2]);
                assert(lex_lt(keys[r - 2], keys[r - 1]));
                lemma_lex_transitive(keys[r - 2], keys[r - 1], key);
            }
        }
        if r - 1 < new.len() {
            assert(new[r - 1] == keys[r]);
        }
        lemma_route_is(new, key, r - 1);
    }
}

/// The route in two sorted sequences joined around a key that parts them.
pub proof fn lemma_route_concat(a: Seq<Seq<u8>>, sep: Seq<u8>, b: Seq<Seq<u8>>, key: Seq<u8>)
    requires
        sorted(a),
        sorted(b),
        forall|i: int| 0 <= i < a.len() ==> lex_lt(#[trigger] a[i], sep),
        forall|i: int| 0 <= i < b.len() ==> lex_lt(sep, #[trigger] b[i]),
    ensures
        sorted(a + seq![sep] + b),
        route(a + seq![sep] + b, key) == if lex_le(key, sep) {
            route(a, key)
        } else {
            a.len() + 1 + route(b, key)
        },
{
    let whole = a + seq![sep] + b;
    let n = a.len() as int;
    assert forall|x: int, y: int| 0 <= x < y < whole.len() implies lex_lt(
        #[trigger] whole[x],
        #[trigger] whole[y],
    ) by {
        if y < n {
            assert(lex_lt(a[x], a[y]));
        } else if y == n {
            assert(lex_lt(a[x], sep));
        } else if x < n {
            assert(lex_lt(a[x], sep));
            assert(lex_lt(sep, b[y - n - 1]));
            lemma_lex_transitive(a[x], sep, b[y - n - 1]);
        } else if x == n {
            assert(lex_lt(sep, b[y - n - 1]));
        } else {
            assert(lex_lt(b[x - n - 1], b[y - n - 1]));
        }
    }
    lemma_route_bounds(a, key);
    lemma_route_bounds(b, key);
    if lex_le(key, sep) {
        let r = route(a, key);
        if r > 0 {
            assert(whole[r - 1] == a[r - 1]);
        }
        if r < n {
            assert(whole[r] == a[r]);
        } else {
            assert(whole[r] == sep);
        }
        lemma_route_is(whole, key, r);
    } else {
        lemma_lex_total(key, sep);
        let r = route(b, key);
        if r > 0 {
            assert(whole[n + r] == b[r - 1]);
        } else {
            assert(whole[n + r] == sep);
        }
        if r < b.len() {
            assert(whole[n + 1 + r] == b[r]);
        }
        lemma_route_is(whole, key, n + 1 + r);
    }
}

/// The route in a sorted sequence after the key at `j` was replaced by
/// another that fits between its neighbours.
pub proof fn lemma_route_update(keys: Seq<Seq<u8>>, j: int, sep: Seq<u8>, key: Seq<u8>)
    requires
        sorted(keys),
        0 <= j < keys.len(),
        j > 0 ==> lex_lt(keys[j - 1], sep),
        j + 1 < keys.len() ==> lex_lt(sep, keys[j + 1]),
    ensures
        sorted(keys.update(j, sep)),
        route(keys.update(j, sep), key) == if route(keys, key) < j || route(keys, key) > j + 1 {
            route(keys, key)
        } else if lex_le(key, sep) {
            j
        } else {
            j + 1
        },
{
    let new = keys.update(j, sep);
    assert forall|x: int, y: int| 0 <= x < y < new.len() implies lex_lt(
        #[trigger] new[x],
        #[trigger] new[y],
    ) by {
        if y == j {
            if x < j - 1 {
                assert(lex_lt(keys[x], keys[j - 1]));
                lemma_lex_transitive(keys[x], keys[j - 1], sep);
            }
        } else if x == j {
            if y > j + 1 {
                assert(lex_lt(keys[j + 1], keys[y]));
                lemma_lex_transitive(sep, keys[j + 1], keys[y]);
            }
        } else {
            assert(lex_lt(keys[x], keys[y]));
        }
    }
    lemma_route_bounds(keys, key);
    let r = route(keys, key);
    if r < j {
        if r > 0 {
            assert(new[r - 1] == keys[r - 1]);
        }
        assert(new[r] == keys[r]);
        lemma_route_is(new, key, r);
    } else if r > j + 1 {
        assert(new[r - 1] == keys[r - 1]);
        if r < keys.len() {
            assert(new[r] == keys[r]);
        }
        lemma_route_is(new, key, r);
    } else {
        if j > 0 {
            assert(lex_lt(keys[j - 1], key));
        }
        if j + 1 < keys.len() {
            if r == j {
                assert(lex_lt(keys[j], keys[j + 1]));
                lemma_lex_le_lt(key, keys[j], keys[j + 1]);
                lemma_lex_asymmetric(key, keys[j + 1]);
            }
            assert(lex_le(key, keys[j + 1]));
        }
        if lex_le(key, sep) {
            if j > 0 {
                assert(new[j - 1] == keys[j - 1]);
            }
            assert(new[j] == sep);
            lemma_route_is(new, key, j);
        } else {
            lemma_lex_total(key, sep);
            assert(new[j] == sep);
            if j + 1 < keys.len() {
                assert(new[j + 1] == keys[j + 1]);
            }
            lemma_route_is(new, key, j + 1);
        }
    }
}

/// The index that a binary search for `key` among `keys` between `low` and
/// `high` ends at: it looks at the key in the middle, goes on above it if
/// that key is below `key`, and below it otherwise. Among keys in
/// ascending order this is the route; among other keys it is where the
/// search ends all the same.
pub open spec fn bisect(keys: Seq<Seq<u8>>, key: Seq<u8>, low: int, high: int) -> int
    decreases high - low,
{
    if low >= high {
        low
    } else {
        let mid = low + (high - low) / 2;
        if lex_lt(keys[mid], key) {
            bisect(keys, key, mid + 1, high)
        } else {
            bisect(keys, key, low, mid)
        }
    }
}

/// Among keys in ascending order a binary search ends at the route.
pub proof fn lemma_bisect_is_route(keys: Seq<Seq<u8>>, key: Seq<u8>, low: int, high: int)
    requires
        sorted(keys),
        0 <= low <= high <= keys.len(),
        low > 0 ==> lex_lt(keys[low - 1], key),
        high < keys.len() ==> lex_le(key, keys[high]),
    ensures
        bisect(keys, key, low, high) == route(keys, key),
    decreases high - low,
{
    if low >= high {
        lemma_route_is(keys, key, low);
    } else {
        let mid = low + (high - low) / 2;
        if lex_lt(keys[mid], key) {
            lemma_bisect_is_route(keys, key, mid + 1, high);
        } else {
            lemma_bisect_is_route(keys, key, low, mid);
        }
    }
}

/// The index at which a binary search for `key` among `keys` ends: among
/// keys in ascending order, the index of the first key that is not below
/// `key`.
pub fn find_key_index(keys: &Vec<Key>, key: &Vec<u8>) -> (r: usize)
    ensures
        r == bisect(keys_view(keys@), key@, 0, keys@.len() as int),
        r <= keys@.len(),
        sorted(keys_view(keys@)) ==> r == route(keys_view(keys@), key@),
{
    let ghost view = keys_view(keys@);
    let mut low: usize = 0;
    let mut high: usize = keys.len();
    while low < high
        invariant
            0 <= low <= high <= keys.len(),
            view == keys_view(keys@),
            bisect(view, key@, low as int, high as int) == bisect(view, key@, 0, keys@.len() as int),
        decreases high - low,
    {
        let mid = low + (high - low) / 2;
        if bytes_lt(&keys[mid].0, key) {
            low = mid + 1;
        } else {
            high = mid;
        }
    }
    proof {
        if sorted(view) {
            lemma_bisect_is_route(view, key@, 0, keys@.len() as int);
        }
    }
    low
}

/// The index at which a binary search for `key` among the keys of `pairs`
/// ends: among pairs in ascending order of their keys, the index of the
/// first pair whose key is not below `key`.
pub fn find_pair_index(pairs: &Vec<KeyValuePair>, key: &Vec<u8>) -> (r: usize)
    ensures
        r == bisect(pair_keys(pairs_view(pairs@)), key@, 0, pairs@.len() as int),
        r <= pairs@.len(),
        sorted(pair_keys(pairs_view(pairs@))) ==> r == route(pair_keys(pairs_view(pairs@)), key@),
{
    let ghost view = pair_keys(pairs_view(pairs@));
    let mut low: usize = 0;
    let mut high: usize = pairs.len();
    while low < high
        invariant
            0 <= low <= high <= pairs.len(),
            view == pair_keys(pairs_view(pairs@)),
            bisect(view, key@, low as int, high as int) == bisect(view, key@, 0, pairs@.len() as int),
        decreases high - low,
    {
        let mid = low + (high - low) / 2;
        if bytes_lt(&pairs[mid].key, key) {
            low = mid + 1;
        } else {
            high = mid;
        }
    }
    proof {
        if sorted(view) {
            lemma_bisect_is_route(view, key@, 0, pairs@.len() as int);
        }
    }
    low
}

} // verus!
