//! The tree as a map from keys to values: what each operation answers and
//! what it leaves behind.
use vstd::prelude::*;
use crate::error::Error;
use crate::page_layout::{MAX_KEY_LEN, MAX_VALUE_LEN};

verus! {

/// What a search for `key` answers in a tree that holds `map`: the pair
/// under the key, or `KeyNotFound`.
pub open spec fn search_result(map: Map<Seq<u8>, Seq<u8>>, key: Seq<u8>) -> Result<
    (Seq<u8>, Seq<u8>),
    Error,
> {
    if map.contains_key(key) {
        Ok((key, map[key]))
    } else {
        Err(Error::KeyNotFound)
    }
}

/// Why an insertion of the pair `(k, v)` into a tree that holds `map`
/// fails, if it does: the key or the value is too long for its cell, or
/// the tree holds the key already.
pub open spec fn insert_error(map: Map<Seq<u8>, Seq<u8>>, k: Seq<u8>, v: Seq<u8>) -> Option<
    Error,
> {
    if k.len() > MAX_KEY_LEN {
        Some(Error::KeyOverflow)
    } else if v.len() > MAX_VALUE_LEN {
        Some(Error::ValueOverflow)
    } else if map.contains_key(k) {
        Some(Error::DuplicateKey)
    } else {
        None
    }
}

/// What an insertion of the pair `(k, v)` answers.
pub open spec fn insert_result(map: Map<Seq<u8>, Seq<u8>>, k: Seq<u8>, v: Seq<u8>) -> Result<
    (),
    Error,
> {
    match insert_error(map, k, v) {
        Some(e) => Err(e),
        None => Ok(()),
    }
}

/// What a tree that held `map` holds after an insertion of the pair
/// `(k, v)`: the pair besides, unless the insertion fails.
pub open spec fn after_insert(map: Map<Seq<u8>, Seq<u8>>, k: Seq<u8>, v: Seq<u8>) -> Map<
    Seq<u8>,
    Seq<u8>,
> {
    if insert_error(map, k, v) is None {
        map.insert(k, v)
    } else {
        map
    }
}

/// What a deletion of `key` answers: `KeyNotFound` if the tree does not
/// hold the key.
pub open spec fn delete_result(map: Map<Seq<u8>, Seq<u8>>, key: Seq<u8>) -> Result<(), Error> {
    if map.contains_key(key) {
        Ok(())
    } else {
        Err(Error::KeyNotFound)
    }
}

/// What a tree that held `map` holds after a deletion of `key`.
pub open spec fn after_delete(map: Map<Seq<u8>, Seq<u8>>, key: Seq<u8>) -> Map<Seq<u8>, Seq<u8>> {
    map.remove(key)
}

/// What a tree holds after the pairs of `pairs` were inserted one after
/// the other into a tree that held `map`.
pub open spec fn after_inserts(map: Map<Seq<u8>, Seq<u8>>, pairs: Seq<(Seq<u8>, Seq<u8>)>) -> Map<
    Seq<u8>,
    Seq<u8>,
>
    decreases pairs.len(),
{
    if pairs.len() == 0 {
        map
    } else {
        after_insert(after_inserts(map, pairs.drop_last()), pairs.last().0, pairs.last().1)
    }
}

/// After pairs with keys that differ from one another, and that fit their
/// cells, were inserted into an empty tree, a search for the key of any of
/// them answers the pair, and a search for any other key answers
/// `KeyNotFound`.
pub proof fn lemma_search_after_inserts(pairs: Seq<(Seq<u8>, Seq<u8>)>)
    requires
        forall|i: int|
            0 <= i < pairs.len() ==> (#[trigger] pairs[i]).0.len() <= MAX_KEY_LEN && pairs[i].1.len()
                <= MAX_VALUE_LEN,
        forall|i: int, j: int|
            0 <= i < pairs.len() && 0 <= j < pairs.len() && i != j ==> (#[trigger] pairs[i]).0
                != (#[trigger] pairs[j]).0,
    ensures
        forall|i: int|
            0 <= i < pairs.len() ==> search_result(
                after_inserts(Map::empty(), pairs),
                (#[trigger] pairs[i]).0,
            ) == Ok::<(Seq<u8>, Seq<u8>), Error>(pairs[i]),
        forall|key: Seq<u8>|
            (forall|i: int| 0 <= i < pairs.len() ==> (#[trigger] pairs[i]).0 != key)
                ==> #[trigger] search_result(after_inserts(Map::empty(), pairs), key) == Err::<
                (Seq<u8>, Seq<u8>),
                Error,
            >(Error::KeyNotFound),
    decreases pairs.len(),
{
    if pairs.len() > 0 {
        let rest = pairs.drop_last();
        let last = pairs.last();
        let before = after_inserts(Map::empty(), rest);
        let m = after_inserts(Map::empty(), pairs);
        assert forall|i: int| 0 <= i < rest.len() implies (#[trigger] rest[i]).0.len()
            <= MAX_KEY_LEN && rest[i].1.len() <= MAX_VALUE_LEN by {
            assert(rest[i] == pairs[i]);
        }
        assert forall|i: int, j: int|
            0 <= i < rest.len() && 0 <= j < rest.len() && i != j implies (#[trigger] rest[i]).0
            != (#[trigger] rest[j]).0 by {
            assert(rest[i] == pairs[i]);
            assert(rest[j] == pairs[j]);
        }
        lemma_search_after_inserts(rest);
        assert forall|i: int| 0 <= i < rest.len() implies (#[trigger] rest[i]).0 != last.0 by {
            assert(rest[i] == pairs[i]);
            assert(last == pairs[pairs.len() - 1]);
        }
        assert(search_result(before, last.0) == Err::<(Seq<u8>, Seq<u8>), Error>(
            Error::KeyNotFound,
        ));
        assert(m == before.insert(last.0, last.1));
        assert forall|i: int| 0 <= i < pairs.len() implies search_result(
            m,
            (#[trigger] pairs[i]).0,
        ) == Ok::<(Seq<u8>, Seq<u8>), Error>(pairs[i]) by {
            if i < rest.len() {
                assert(rest[i] == pairs[i]);
                assert(search_result(before, rest[i].0) == Ok::<(Seq<u8>, Seq<u8>), Error>(
                    rest[i],
                ));
            }
        }
        assert forall|key: Seq<u8>|
            (forall|i: int|
                0 <= i < pairs.len() ==> (#[trigger] pairs[i]).0 != key) implies #[trigger] search_result(
            m,
            key,
        ) == Err::<(Seq<u8>, Seq<u8>), Error>(Error::KeyNotFound) by {
            assert forall|i: int| 0 <= i < rest.len() implies (#[trigger] rest[i]).0 != key by {
                assert(rest[i] == pairs[i]);
            }
            assert(pairs[pairs.len() - 1].0 != key);
            assert(search_result(before, key) == Err::<(Seq<u8>, Seq<u8>), Error>(
                Error::KeyNotFound,
            ));
        }
    }
}

/// A deletion of a key that the tree holds takes that key out and leaves
/// every other key with its value; a deletion of a key that the tree does
/// not hold fails and leaves the tree holding what it held.
pub proof fn lemma_delete_removes_one(map: Map<Seq<u8>, Seq<u8>>, key: Seq<u8>)
    ensures
        !after_delete(map, key).contains_key(key),
        forall|other: Seq<u8>|
            other != key ==> after_delete(map, key).contains_key(other) == map.contains_key(other)
                && (map.contains_key(other) ==> after_delete(map, key)[other] == map[other]),
        !map.contains_key(key) ==> delete_result(map, key) == Err::<(), Error>(Error::KeyNotFound)
            && after_delete(map, key) == map,
        map.contains_key(key) && map.dom().finite() ==> after_delete(map, key).dom().len()
            == map.dom().len() - 1,
{
    if !map.contains_key(key) {
        assert(map.remove(key) =~= map);
    }
}

} // verus!
