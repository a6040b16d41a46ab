//! The values a node is made of: offsets, keys and key-value pairs.
use vstd::prelude::*;
use crate::lex::copy_bytes;

verus! {

/// The position of a page in the backing file, counted in pages.
#[derive(Clone, Copy, Debug, PartialEq, Eq, Structural)]
pub struct Offset(pub usize);

/// A key: a short byte string, ordered byte by byte.
#[derive(Clone, Debug, PartialEq, Eq)]
pub struct Key(pub Vec<u8>);

impl View for Key {
    type V = Seq<u8>;

    open spec fn view(&self) -> Seq<u8> {
        self.0@
    }
}

impl Key {
    /// A copy of the key.
    pub fn copy(&self) -> (key: Key)
        ensures
            key@ == self@,
    {
        Key(copy_bytes(&self.0))
    }
}

/// A key and the value stored under it.
#[derive(Clone, Debug, PartialEq, Eq)]
pub struct KeyValuePair {
    pub key: Vec<u8>,
    pub value: Vec<u8>,
}

impl View for KeyValuePair {
    type V = (Seq<u8>, Seq<u8>);

    open spec fn view(&self) -> (Seq<u8>, Seq<u8>) {
        (self.key@, self.value@)
    }
}

impl KeyValuePair {
    /// The pair of `key` and `value`.
    pub fn new(key: Vec<u8>, value: Vec<u8>) -> (pair: KeyValuePair)
        ensures
            pair@ == (key@, value@),
    {
        KeyValuePair { key, value }
    }

    /// A copy of the pair.
    pub fn copy(&self) -> (pair: KeyValuePair)
        ensures
            pair@ == self@,
    {
        KeyValuePair { key: copy_bytes(&self.key), value: copy_bytes(&self.value) }
    }
}

/// What a node holds, by kind.
#[derive(Clone, Debug, PartialEq, Eq)]
pub enum NodeType {
    /// The offsets of the children, and the keys that separate them: child
    /// `i` holds the keys above `keys[i - 1]` and up to `keys[i]`.
    Internal(Vec<Offset>, Vec<Key>),
    /// The pairs, in ascending order of their keys.
    Leaf(Vec<KeyValuePair>),
}

/// The keys of `keys` as byte strings.
pub open spec fn keys_view(keys: Seq<Key>) -> Seq<Seq<u8>> {
    Seq::new(keys.len(), |i: int| keys[i]@)
}

/// The pairs of `pairs` as pairs of byte strings.
pub open spec fn pairs_view(pairs: Seq<KeyValuePair>) -> Seq<(Seq<u8>, Seq<u8>)> {
    Seq::new(pairs.len(), |i: int| pairs[i]@)
}

/// The keys of a sequence of pairs.
pub open spec fn pair_keys(pairs: Seq<(Seq<u8>, Seq<u8>)>) -> Seq<Seq<u8>> {
    Seq::new(pairs.len(), |i: int| pairs[i].0)
}

/// What a node holds, as mathematical sequences.
pub enum KindView {
    Internal(Seq<Offset>, Seq<Seq<u8>>),
    Leaf(Seq<(Seq<u8>, Seq<u8>)>),
}

impl View for NodeType {
    type V = KindView;

    open spec fn view(&self) -> KindView {
        match self {
            NodeType::Internal(children, keys) => KindView::Internal(children@, keys_view(keys@)),
            NodeType::Leaf(pairs) => KindView::Leaf(pairs_view(pairs@)),
        }
    }
}

} // verus!
