//! The B+Tree engine: configuration, search, insertion and deletion.
use vstd::prelude::*;
use vstd::bytes::{lemma_auto_spec_u64_to_from_le_bytes, spec_u64_to_le_bytes};
use crate::error::Error;
use crate::lex::{bytes_eq, bytes_lt, lex_le};
use crate::model::{after_delete, after_insert, delete_result, insert_result, search_result};
use crate::node::{
    encode_bytes, encode_error, is_full, lemma_decode_encode, lemma_decoded_fits,
    lemma_inner_insert_fits, lemma_inner_remove_fits, lemma_inner_update_fits,
    lemma_leaf_insert_fits, lemma_leaf_remove_fits, lemma_merged_fits, lemma_repartition_fits,
    merged, node_fits, repartitioned, lemma_split_fits, split_left, split_median, split_right,
    word_at, Node, NodeView,
};
use crate::node_type::{keys_view, pair_keys, pairs_view, Key, KeyValuePair, KindView, NodeType, Offset};
use crate::page::{overwrite, Page};
use crate::page_layout::{
    INTERNAL_NODE_MAX_CHILDREN, LEAF_NODE_MAX_PAIRS, MAX_KEY_LEN, MAX_VALUE_LEN, PAGE_SIZE,
    SUPERBLOCK_B_OFFSET, SUPERBLOCK_ROOT_OFFSET,
};
use crate::descent::{
    after_child_split, descent_target, insert_into, inserted, is_full_at, leaf_with,
    lemma_inserted_below, lemma_root_split_path, lemma_walk_is_lookup, node_with_split, on_path,
    search_walk, splits_below, walk_node,
};
use crate::kids::lemma_reflagged;
use crate::removal::{
    after_merge, after_rotation, as_root, delete_from, leaf_without, repaired, with_key,
    without_child,
};
use crate::rebalance::{
    lemma_merged_child, lemma_pair_of_parent, lemma_rotated, merge_pre, rotate_pre,
};
use crate::split::{lemma_split_child, lemma_split_root, split_child_pre, split_root_pre};
use crate::pager::Pager;
use crate::sorted::{find_key_index, find_pair_index, lemma_route_bounds, route, sorted};
use crate::traversal::{lemma_traversal, lemma_traversal_size, subtree_pairs};
use crate::validate::{check_subtree, lemma_height_bound, lemma_height_unique, valid_at};
use crate::tree::{
    above, at_most, child_hi, child_lo, children_kept, in_subtree, lemma_children_kept, leaf_get, lemma_descended, lemma_leaf_erased,
    lemma_leaf_written, lemma_min_change, lemma_node_bounds, lemma_parent_map,
    lemma_superblock_frame, lemma_superblock_outside, lemma_updated_trans, lemma_weak_ok,
    lemma_wf_child,
    lemma_wf_top, lookup,
    node_at, subtree_wf, tree_map, updated,
};

verus! {

/// The largest branching parameter whose nodes fit a page.
pub const MAX_BRANCHING_FACTOR: usize = 102;

/// The most keys or pairs that a node of any tree holds.
pub const NODE_KEYS_LIMIT: usize = 2 * MAX_BRANCHING_FACTOR - 1;

/// The fewest entries that the root of a tree of height `h` holds: an
/// internal root has at least one key, a leaf root may be empty.
pub open spec fn root_min(h: nat) -> int {
    if h > 0 {
        1
    } else {
        0
    }
}

/// The engine of the tree: the store with the root, the branching
/// parameter and the height, and the operations on them. What has to hold
/// of it for the pages to be a tree is the predicate `wf`, which every
/// operation asks for and keeps. Every node lies in a page of the store;
/// the leaves hold the values. Page 0 is the superblock: it records where
/// the root lies and the branching parameter.
pub struct Engine {
    pager: Pager,
    b: usize,
    fan: usize,
    root_offset: Offset,
    path: &'static str,
    height: Ghost<nat>,
}

/// A builder for `BTree`.
pub struct BTreeBuilder {
    /// The path of the tree's file.
    path: &'static str,
    /// The branching parameter: a node other than the root holds no fewer
    /// than `b - 1` and no more than `2 * b - 1` keys, an internal one no
    /// fewer than `b` and no more than `2 * b` children. With the
    /// branching parameter 1 the nodes are kept as with 2.
    b: usize,
}

/// The branching parameter that the nodes of a tree are kept by: `b`
/// itself, but 2 where `b` is 1. With 1 a node would be full with one
/// entry and the first half of a split leaf full again, with no room for
/// the pair that the split was made for; so a tree with the branching
/// parameter 1 keeps its nodes as a tree with 2 does.
pub open spec fn effective_b(b: usize) -> usize {
    if b < 2 {
        2
    } else {
        b
    }
}

/// The branching parameter that the nodes of a tree are kept by.
fn effective(b: usize) -> (fan: usize)
    ensures
        fan == effective_b(b),
{
    if b < 2 {
        2
    } else {
        b
    }
}

/// Tells whether the nodes of a tree with branching parameter `b` fit a page.
fn fits_page(b: usize) -> (r: bool)
    ensures
        r == (b <= MAX_BRANCHING_FACTOR),
{
    b == 0 || (b <= LEAF_NODE_MAX_PAIRS && 2 * b - 1 <= LEAF_NODE_MAX_PAIRS && 2 * b
        <= INTERNAL_NODE_MAX_CHILDREN)
}

impl BTreeBuilder {
    /// The path that the builder was given.
    pub closed spec fn path_spec(&self) -> Seq<char> {
        self.path@
    }

    /// The branching parameter that the builder was given.
    pub closed spec fn b_spec(&self) -> usize {
        self.b
    }

    /// A builder with an empty path and a branching parameter of 0, both of
    /// which have to be set before `build`.
    pub fn new() -> (builder: BTreeBuilder)
        ensures
            builder.path_spec() == Seq::<char>::empty(),
            builder.b_spec() == 0,
    {
        let path = "";
        proof {
            reveal_strlit("");
        }
        assert(path@ =~= Seq::<char>::empty());
        BTreeBuilder { path, b: 0 }
    }

    /// Sets the path of the tree's file.
    pub fn path(self, path: &'static str) -> (builder: BTreeBuilder)
        ensures
            builder.path_spec() == path@,
            builder.b_spec() == self.b_spec(),
    {
        BTreeBuilder { path, b: self.b }
    }

    /// Sets the branching parameter.
    pub fn b_parameter(self, b: usize) -> (builder: BTreeBuilder)
        ensures
            builder.path_spec() == self.path_spec(),
            builder.b_spec() == b,
    {
        BTreeBuilder { path: self.path, b }
    }

    /// Whether `build` accepts a path and a branching parameter: the path
    /// is not empty, and the parameter is at least 1 and small enough for a
    /// full node to fit a page.
    pub open spec fn accepts(path: Seq<char>, b: usize) -> bool {
        path.len() > 0 && 1 <= b <= MAX_BRANCHING_FACTOR
    }

    /// A new tree: a store that holds the superblock and an empty root leaf.
    pub fn build(&self) -> (r: Result<BTree, Error>)
        ensures
            r is Ok <==> Self::accepts(self.path_spec(), self.b_spec()),
            r matches Ok(tree) ==> {
                &&& tree.wf()
                &&& tree.whole()
                &&& tree@ == Map::<Seq<u8>, Seq<u8>>::empty()
                &&& tree.b_spec() == self.b_spec()
                &&& tree.fan_spec() == effective_b(self.b_spec())
                &&& tree.path_spec() == self.path_spec()
                &&& tree.pages().len() == 2
                &&& tree.root_spec() == Offset(1)
                &&& tree.height_spec() == 0
                &&& tree.node_spec(Offset(1)) == (NodeView {
                    kind: KindView::Leaf(Seq::empty()),
                    is_root: true,
                    parent: None,
                })
            },
            r matches Err(e) ==> e == Error::ConfigError,
    {
        if self.path.is_empty() {
            return Err(Error::ConfigError);
        }
        if self.b < 1 || !fits_page(self.b) {
            return Err(Error::ConfigError);
        }
        let mut pager = Pager::new();
        let root_offset = Offset(1);
        let superblock = superblock_page(root_offset, self.b);
        pager.write_page(superblock)?;
        let root = Node::new(NodeType::Leaf(Vec::new()), true, None);
        proof {
            assert(pairs_view(Seq::<KeyValuePair>::empty()) =~= Seq::empty());
            assert(encode_error(root@) is None);
            lemma_decode_encode(root@);
        }
        let page = root.encode()?;
        pager.write_page(page)?;
        let core = Engine {
            pager,
            b: self.b,
            fan: effective(self.b),
            root_offset,
            path: self.path,
            height: Ghost(0),
        };
        proof {
            assert(node_at(core.pager@, root_offset) == root@);
            assert(pair_keys(root@.pairs()) =~= Seq::empty());
            assert(core@ =~= Map::<Seq<u8>, Seq<u8>>::empty()) by {
                assert forall|key: Seq<u8>| lookup(core.pager@, root_offset, 0, key) is None by {
                    lemma_route_bounds(pair_keys(root@.pairs()), key);
                }
            }
        }
        Ok(BTree { core })
    }
}

impl Default for BTreeBuilder {
    /// A builder with the branching parameter 200 and the path `/tmp/db`.
    /// Nodes of that size do not fit a page of this layout, so `build`
    /// refuses the builder until a branching parameter of at most
    /// `MAX_BRANCHING_FACTOR` is set.
    fn default() -> (builder: BTreeBuilder)
        ensures
            builder.b_spec() == 200,
            builder.path_spec() == "/tmp/db"@,
            !BTreeBuilder::accepts(builder.path_spec(), builder.b_spec()),
    {
        BTreeBuilder::new().b_parameter(200).path("/tmp/db")
    }
}

/// The root offset that a superblock records.
pub open spec fn superblock_root(page: Seq<u8>) -> u64 {
    word_at(page, SUPERBLOCK_ROOT_OFFSET as int)
}

/// The branching parameter that a superblock records.
pub open spec fn superblock_b(page: Seq<u8>) -> u64 {
    word_at(page, SUPERBLOCK_B_OFFSET as int)
}

/// The bytes of the superblock of a tree with its root at `root` and
/// branching parameter `b`: the two numbers, one after the other, and
/// zeros.
pub open spec fn superblock_bytes(root: u64, b: u64) -> Seq<u8> {
    overwrite(
        overwrite(
            Seq::new(PAGE_SIZE as nat, |i: int| 0u8),
            SUPERBLOCK_ROOT_OFFSET as int,
            spec_u64_to_le_bytes(root),
        ),
        SUPERBLOCK_B_OFFSET as int,
        spec_u64_to_le_bytes(b),
    )
}

/// An internal node without children: what the page of a new root holds
/// before the halves of the old root are known.
pub open spec fn empty_root() -> NodeView {
    NodeView { kind: KindView::Internal(Seq::empty(), Seq::empty()), is_root: true, parent: None }
}

/// The old root `n` as a child of the new root at `nr`.
pub open spec fn moved_root(n: NodeView, nr: Offset) -> NodeView {
    NodeView { kind: n.kind, is_root: false, parent: Some(nr) }
}

/// The new root over the two halves of the old root at `r` and `sib`,
/// with the median `m` between them.
pub open spec fn new_root(r: Offset, m: Seq<u8>, sib: Offset) -> NodeView {
    NodeView { kind: KindView::Internal(seq![r, sib], seq![m]), is_root: true, parent: None }
}

/// The store after the full root at `r` was split: a first new page holds
/// the new root, the page at `r` the first half of the old root, a second
/// new page its second half, and the superblock tells the new root. The
/// nodes are kept by `b`; `told` is the branching parameter that the
/// superblock tells.
pub open spec fn after_root_split(s: Seq<Seq<u8>>, r: Offset, b: nat, told: usize) -> Seq<Seq<u8>> {
    let nr = Offset(s.len() as usize);
    let sib = Offset((s.len() + 1) as usize);
    let old = moved_root(node_at(s, r), nr);
    s.push(encode_bytes(empty_root())).update(r.0 as int, encode_bytes(split_left(old, b))).push(
        encode_bytes(split_right(old, b)),
    ).update(nr.0 as int, encode_bytes(new_root(r, split_median(old, b), sib))).update(
        0,
        superblock_bytes(nr.0 as u64, told as u64),
    )
}

/// The store after an insertion of the pair `(k, v)` into the tree of
/// height `h` with its root at `root`. A pair that does not fit its cells
/// leaves the store as it was. A full root is split first, and the pair
/// goes into the tree under the new root.
pub open spec fn insert_pages(
    s: Seq<Seq<u8>>,
    root: Offset,
    h: nat,
    b: nat,
    told: usize,
    k: Seq<u8>,
    v: Seq<u8>,
) -> Seq<Seq<u8>> {
    if k.len() > MAX_KEY_LEN || v.len() > MAX_VALUE_LEN {
        s
    } else if is_full_at(s, root, b) {
        insert_into(after_root_split(s, root, b, told), Offset(s.len() as usize), h + 1, b, k, v)
    } else {
        insert_into(s, root, h, b, k, v)
    }
}

/// The store after a deletion of `key` from the tree of height `h` with
/// its root at `root`: the key is taken out of the tree under the root,
/// and a root that is left as an internal node without a key gives way to
/// its one child, which is rewritten as the root, and which the superblock
/// then tells.
pub open spec fn delete_pages(
    s: Seq<Seq<u8>>,
    root: Offset,
    h: nat,
    b: nat,
    told: usize,
    key: Seq<u8>,
) -> Seq<Seq<u8>> {
    let t = delete_from(s, root, h, b, key);
    let top = node_at(t, root);
    if top.kind is Internal && top.keys().len() == 0 {
        let c = top.children()[0];
        t.update(c.0 as int, encode_bytes(as_root(node_at(t, c)))).update(
            0,
            superblock_bytes(c.0 as u64, told as u64),
        )
    } else {
        t
    }
}

/// The superblock of a tree with its root at `root` and branching parameter `b`.
fn superblock_page(root: Offset, b: usize) -> (page: Page)
    ensures
        page.wf(),
        page@ == superblock_bytes(root.0 as u64, b as u64),
        superblock_root(page@) == root.0,
        superblock_b(page@) == b,
{
    let mut page = Page::new();
    proof {
        lemma_auto_spec_u64_to_from_le_bytes();
    }
    let r1 = page.write_u64(SUPERBLOCK_ROOT_OFFSET, root.0 as u64);
    let r2 = page.write_u64(SUPERBLOCK_B_OFFSET, b as u64);
    proof {
        page.lemma_wf_len();
        assert(page@.subrange(0, 8) =~= spec_u64_to_le_bytes(root.0 as u64));
        assert(page@.subrange(8, 16) =~= spec_u64_to_le_bytes(b as u64));
    }
    page
}

/// Whether the pages of a store hold a tree: the superblock tells a
/// branching parameter that `build` accepts and a root under which the
/// pages hold a well-formed tree of some height.
pub open spec fn holds_tree(s: Seq<Seq<u8>>) -> bool {
    &&& s.len() > 0
    &&& 1 <= superblock_b(s[0]) <= MAX_BRANCHING_FACTOR
    &&& superblock_root(s[0]) <= usize::MAX
    &&& exists|h: nat| #[trigger]
        subtree_wf(
            s,
            Offset(superblock_root(s[0]) as usize),
            h,
            None,
            None,
            effective_b(superblock_b(s[0]) as usize) as nat,
            root_min(h),
            true,
            -1,
        )
}

impl View for Engine {
    type V = Map<Seq<u8>, Seq<u8>>;

    /// The keys of the tree with their values.
    closed spec fn view(&self) -> Map<Seq<u8>, Seq<u8>> {
        tree_map(self.pager@, self.root_offset, self.height@)
    }
}

impl Engine {
    /// The pages of the store hold a well-formed tree under the root, and
    /// the superblock records the root and the branching parameter.
    pub closed spec fn wf(&self) -> bool {
        &&& self.pager.wf()
        &&& 1 <= self.b <= MAX_BRANCHING_FACTOR
        &&& self.fan == effective_b(self.b)
        &&& subtree_wf(
            self.pager@,
            self.root_offset,
            self.height@,
            None,
            None,
            self.fan as nat,
            root_min(self.height@),
            true,
            -1,
        )
        &&& superblock_root(self.pager@[0]) == self.root_offset.0
        &&& superblock_b(self.pager@[0]) == self.b
    }

    /// The branching parameter.
    pub closed spec fn b_spec(&self) -> usize {
        self.b
    }

    /// The branching parameter that the nodes are kept by: the branching
    /// parameter itself, but 2 where that is 1.
    pub closed spec fn fan_spec(&self) -> usize {
        self.fan
    }

    /// The path of the tree's file.
    pub closed spec fn path_spec(&self) -> Seq<char> {
        self.path@
    }

    /// The pages of the store.
    pub closed spec fn pages(&self) -> Seq<Seq<u8>> {
        self.pager@
    }

    /// The offset of the root.
    pub closed spec fn root_spec(&self) -> Offset {
        self.root_offset
    }

    /// The height of the tree: 0 if the root is a leaf.
    pub closed spec fn height_spec(&self) -> nat {
        self.height@
    }

    /// The engine holds no pages: it stands in for the engine of a tree
    /// while an operation works on that.
    pub closed spec fn detached(&self) -> bool {
        self.pager@.len() == 0
    }

    /// An engine without pages.
    fn placeholder() -> (core: Engine)
        ensures
            core.detached(),
            core.whole(),
    {
        Engine {
            pager: Pager::new(),
            b: 0,
            fan: 0,
            root_offset: Offset(0),
            path: "",
            height: Ghost(0),
        }
    }

    /// Tells whether the engine holds no pages.
    fn is_detached(&self) -> (r: bool)
        ensures
            r == self.detached(),
    {
        self.pager.cursor() == 0
    }

    /// Every page of the store is a whole page.
    pub closed spec fn whole(&self) -> bool {
        self.pager.wf()
    }

    /// What a search for `key` answers: what it meets on its way down from
    /// the root, through as many levels as the store has pages at most.
    pub open spec fn search_answer(&self, key: Seq<u8>) -> Result<(Seq<u8>, Seq<u8>), Error> {
        search_walk(self.pages(), self.root_spec(), self.pages().len(), key)
    }

    /// The children of the root; a root that is a leaf has none.
    pub open spec fn root_children(&self) -> Seq<Offset> {
        self.node_spec(self.root_spec()).children()
    }

    /// The root holds as many entries as a node may.
    pub open spec fn root_is_full(&self) -> bool {
        self.node_spec(self.root_spec()).entries() == 2 * self.fan_spec() - 1
    }

    /// The pairs of the tree, leaf after leaf from left to right.
    pub closed spec fn pairs(&self) -> Seq<(Seq<u8>, Seq<u8>)> {
        subtree_pairs(self.pager@, self.root_offset, self.height@)
    }

    /// Page `p` holds a node of the tree.
    pub closed spec fn holds_page(&self, p: Offset) -> bool {
        in_subtree(self.pager@, self.root_offset, self.height@, p)
    }

    /// The node that page `p` holds.
    pub closed spec fn node_spec(&self, p: Offset) -> NodeView {
        node_at(self.pager@, p)
    }

    /// What it means for a tree to be well-formed and to hold a map: the
    /// pages under the root are a well-formed subtree without bounds, the
    /// superblock records the root and the branching parameter, and the
    /// tree maps each key to what a search from the root finds for it.
    pub proof fn lemma_tree_meaning(&self)
        ensures
            self.wf() ==> {
                &&& self.whole()
                &&& 1 <= self.b_spec() <= MAX_BRANCHING_FACTOR
                &&& self.fan_spec() == effective_b(self.b_spec())
                &&& subtree_wf(
                    self.pages(),
                    self.root_spec(),
                    self.height_spec(),
                    None,
                    None,
                    self.fan_spec() as nat,
                    root_min(self.height_spec()),
                    true,
                    -1,
                )
                &&& superblock_root(self.pages()[0]) == self.root_spec().0
                &&& superblock_b(self.pages()[0]) == self.b_spec()
                &&& holds_tree(self.pages())
            },
            self@ == tree_map(self.pages(), self.root_spec(), self.height_spec()),
            self.pairs() == subtree_pairs(self.pages(), self.root_spec(), self.height_spec()),
            forall|p: Offset|
                self.holds_page(p) == in_subtree(
                    self.pages(),
                    self.root_spec(),
                    self.height_spec(),
                    p,
                ),
            forall|p: Offset| self.node_spec(p) == node_at(self.pages(), p),
    {
        if self.wf() {
            let s = self.pager@;
            assert(Offset(superblock_root(s[0]) as usize) == self.root_offset);
            assert(subtree_wf(
                s,
                Offset(superblock_root(s[0]) as usize),
                self.height@,
                None,
                None,
                effective_b(superblock_b(s[0]) as usize) as nat,
                root_min(self.height@),
                true,
                -1,
            ));
        }
    }

    /// The keys of a well-formed tree, leaf after leaf from left to right,
    /// ascend strictly.
    pub proof fn lemma_pairs_ascend(&self)
        requires
            self.wf(),
        ensures
            sorted(pair_keys(self.pairs())),
    {
        lemma_traversal(
            self.pager@,
            self.root_offset,
            self.height@,
            None,
            None,
            self.fan as nat,
            root_min(self.height@),
            true,
            -1,
        );
    }

    /// The leaves of a well-formed tree hold the keys of the tree with
    /// their values, each once: as many pairs as the tree has keys.
    pub proof fn lemma_pairs_are_map(&self)
        requires
            self.wf(),
        ensures
            forall|key: Seq<u8>|
                self@.contains_key(key) == (#[trigger] leaf_get(self.pairs(), key) is Some),
            forall|key: Seq<u8>|
                self@.contains_key(key) ==> leaf_get(self.pairs(), key) == Some(
                    #[trigger] self@[key],
                ),
            forall|i: int|
                0 <= i < self.pairs().len() ==> self@.contains_key((#[trigger] self.pairs()[i]).0)
                    && self@[self.pairs()[i].0] == self.pairs()[i].1,
            self@.dom().finite(),
            self@.dom().len() == self.pairs().len(),
    {
        lemma_traversal(
            self.pager@,
            self.root_offset,
            self.height@,
            None,
            None,
            self.fan as nat,
            root_min(self.height@),
            true,
            -1,
        );
        lemma_traversal_size(self.pairs(), self@);
        let ks = pair_keys(self.pairs());
        assert forall|i: int| 0 <= i < self.pairs().len() implies self@.contains_key(
            (#[trigger] self.pairs()[i]).0,
        ) && self@[self.pairs()[i].0] == self.pairs()[i].1 by {
            crate::sorted::lemma_route_of_member(ks, i);
            assert(ks[i] == self.pairs()[i].0);
            assert(leaf_get(self.pairs(), ks[i]) == Some(self.pairs()[i].1));
        }
    }

    /// In a well-formed tree every node but the root holds between `b - 1`
    /// and `2b - 1` entries, an internal one with one child more than
    /// keys, and does not say that it is the root.
    pub proof fn lemma_branching(&self, p: Offset)
        requires
            self.wf(),
            self.holds_page(p),
            p != self.root_spec(),
        ensures
            self.fan_spec() - 1 <= self.node_spec(p).entries() <= 2 * self.fan_spec() - 1,
            self.b_spec() >= 2 ==> self.b_spec() - 1 <= self.node_spec(p).entries() <= 2
                * self.b_spec() - 1,
            self.node_spec(p).kind is Internal ==> self.node_spec(p).children().len()
                == self.node_spec(p).keys().len() + 1,
            !self.node_spec(p).is_root,
    {
        lemma_node_bounds(
            self.pager@,
            self.root_offset,
            self.height@,
            None,
            None,
            self.fan as nat,
            root_min(self.height@),
            true,
            p,
        );
    }

    /// A deletion of a key that the tree holds leaves one pair less in the
    /// leaves, and every other key with its value.
    pub proof fn lemma_delete_one_pair_less(&self, after: &Engine, key: Seq<u8>)
        requires
            self.wf(),
            after.wf(),
            self@.contains_key(key),
            after@ == after_delete(self@, key),
        ensures
            after.pairs().len() == self.pairs().len() - 1,
            forall|other: Seq<u8>|
                other != key ==> after@.contains_key(other) == self@.contains_key(other) && (
                self@.contains_key(other) ==> after@[other] == self@[other]),
    {
        self.lemma_pairs_are_map();
        after.lemma_pairs_are_map();
        crate::model::lemma_delete_removes_one(self@, key);
    }

    /// The branching parameter.
    pub fn b(&self) -> (b: usize)
        ensures
            b == self.b_spec(),
    {
        self.b
    }

    /// The path of the tree's file.
    pub fn path(&self) -> (path: &'static str)
        ensures
            path@ == self.path_spec(),
    {
        self.path
    }

    /// The offset of the root.
    pub fn root_offset(&self) -> (offset: Offset)
        ensures
            offset == self.root_spec(),
    {
        self.root_offset
    }

    /// The store, for writing its pages to the tree's file.
    pub fn pager(&self) -> (pager: &Pager)
        ensures
            pager@ == self.pages(),
            self.whole() ==> pager.wf(),
    {
        &self.pager
    }

    /// The tree that the pages of `pager` hold, for the file at `path`. The
    /// superblock tells the root and the branching parameter; every page
    /// under the root is read and held against the rules of the tree. A
    /// store that breaks one of them is refused as corrupt.
    pub fn open(path: &'static str, pager: Pager) -> (r: Result<Engine, Error>)
        requires
            pager.wf(),
        ensures
            r is Ok <==> path@.len() > 0 && holds_tree(pager@),
            r matches Ok(tree) ==> {
                &&& tree.wf()
                &&& tree.whole()
                &&& tree.pages() == pager@
                &&& tree.path_spec() == path@
                &&& tree.b_spec() == superblock_b(pager@[0])
                &&& tree.fan_spec() == effective_b(tree.b_spec())
                &&& tree.root_spec().0 == superblock_root(pager@[0])
            },
            r matches Err(e) ==> e == if path@.len() == 0 {
                Error::ConfigError
            } else {
                Error::CorruptPage
            },
    {
        if path.is_empty() {
            return Err(Error::ConfigError);
        }
        let count = pager.cursor();
        if count == 0 {
            return Err(Error::CorruptPage);
        }
        let superblock = match pager.get_page(&Offset(0)) {
            Ok(page) => page,
            Err(_) => {
                return Err(Error::CorruptPage);
            },
        };
        proof {
            superblock.lemma_wf_len();
        }
        let root_word = match superblock.read_u64(SUPERBLOCK_ROOT_OFFSET) {
            Ok(word) => word,
            Err(_) => {
                return Err(Error::CorruptPage);
            },
        };
        let b_word = match superblock.read_u64(SUPERBLOCK_B_OFFSET) {
            Ok(word) => word,
            Err(_) => {
                return Err(Error::CorruptPage);
            },
        };
        if b_word < 1 || b_word > MAX_BRANCHING_FACTOR as u64 || root_word > usize::MAX as u64 {
            return Err(Error::CorruptPage);
        }
        let b = b_word as usize;
        let fan = effective(b);
        let root_offset = Offset(root_word as usize);
        let mut visited: Vec<bool> = Vec::with_capacity(count);
        let mut i: usize = 0;
        while i < count
            invariant
                i <= count,
                visited@.len() == i,
                forall|x: int| 0 <= x < i ==> !visited@[x],
            decreases count - i,
        {
            visited.push(false);
            i += 1;
        }
        let ghost s = pager@;
        let ghost v0 = visited@;
        match check_subtree(&pager, fan, root_offset, true, None, None, &mut visited) {
            None => {
                proof {
                    assert forall|h: nat|
                        !#[trigger] subtree_wf(
                            s,
                            root_offset,
                            h,
                            None,
                            None,
                            fan as nat,
                            root_min(h),
                            true,
                            -1,
                        ) by {
                        if subtree_wf(s, root_offset, h, None, None, fan as nat, root_min(h), true, -1) {
                            crate::tree::lemma_subtree_pages(
                                s,
                                root_offset,
                                h,
                                None,
                                None,
                                fan as nat,
                                root_min(h),
                                true,
                                -1,
                            );
                            assert(valid_at(s, root_offset, h, None, None, fan as nat, true, v0));
                        }
                    }
                    assert(Offset(superblock_root(s[0]) as usize) == root_offset);
                    assert(effective_b(superblock_b(s[0]) as usize) == fan);
                    assert(!holds_tree(s));
                }
                Err(Error::CorruptPage)
            },
            Some(height) => {
                proof {
                    assert(subtree_wf(
                        s,
                        root_offset,
                        height as nat,
                        None,
                        None,
                        fan as nat,
                        root_min(height as nat),
                        true,
                        -1,
                    ));
                    assert(Offset(superblock_root(s[0]) as usize) == root_offset);
                    assert(effective_b(superblock_b(s[0]) as usize) == fan);
                    assert(holds_tree(s));
                }
                Ok(Engine { pager, b, fan, root_offset, path, height: Ghost(height as nat) })
            },
        }
    }

    /// Two well-formed trees over the same pages are the same tree: the
    /// superblock tells the root and the branching parameter, and the
    /// pages under the root tell the rest. A tree opened from the pages of
    /// another holds what that one holds.
    pub proof fn lemma_same_pages_same_tree(&self, other: &Engine)
        requires
            self.wf(),
            other.wf(),
            self.pages() == other.pages(),
        ensures
            self.root_spec() == other.root_spec(),
            self.b_spec() == other.b_spec(),
            self.height_spec() == other.height_spec(),
            self@ == other@,
            self.pairs() == other.pairs(),
    {
        assert(self.root_offset.0 == other.root_offset.0);
        lemma_height_unique(
            self.pager@,
            self.root_offset,
            self.height@,
            None,
            None,
            root_min(self.height@),
            true,
            other.height@,
            None,
            None,
            root_min(other.height@),
            true,
            self.fan as nat,
        );
    }

    /// The pair stored under `key`, or `KeyNotFound`. Nothing changes. The
    /// answer is told for any pages: where they do not hold a well-formed
    /// tree, the search ends with the error that it meets on its way.
    pub fn search(&self, key: Vec<u8>) -> (r: Result<KeyValuePair, Error>)
        requires
            self.whole(),
        ensures
            self.search_answer(key@) matches Ok(found) ==> (r matches Ok(pair) && pair@ == found),
            self.search_answer(key@) matches Err(e) ==> r == Err::<KeyValuePair, Error>(e),
            self.wf() ==> self.search_answer(key@) == search_result(self@, key@),
    {
        proof {
            if self.wf() {
                lemma_height_bound(
                    self.pager@,
                    self.root_offset,
                    self.height@,
                    None,
                    None,
                    self.fan as nat,
                    root_min(self.height@),
                    true,
                );
                lemma_walk_is_lookup(
                    self.pager@,
                    self.root_offset,
                    self.height@,
                    None,
                    None,
                    self.fan as nat,
                    root_min(self.height@),
                    true,
                    self.pager@.len(),
                    key@,
                );
            }
        }
        let root_page = self.pager.get_page(&self.root_offset)?;
        let root = Node::decode(&root_page)?;
        self.search_node(root, &key, self.pager.cursor())
    }

    /// Searches the subtree under `node` for `search`, at most `fuel`
    /// levels down: as many as the store has pages are enough for any
    /// tree, and a way down that is longer does not end.
    fn search_node(&self, node: Node, search: &Vec<u8>, fuel: usize) -> (r: Result<
        KeyValuePair,
        Error,
    >)
        requires
            self.pager.wf(),
        ensures
            walk_node(self.pager@, node@, fuel as nat, search@) matches Ok(found) ==> (r matches Ok(
                pair,
            ) && pair@ == found),
            walk_node(self.pager@, node@, fuel as nat, search@) matches Err(e) ==> r == Err::<
                KeyValuePair,
                Error,
            >(e),
        decreases fuel,
    {
        match node.node_type {
            NodeType::Internal(children, keys) => {
                let idx = find_key_index(&keys, search);
                if idx >= children.len() || fuel == 0 {
                    return Err(Error::TreeInvariantViolation);
                }
                let child_offset = children[idx];
                let page = self.pager.get_page(&child_offset)?;
                let child = Node::decode(&page)?;
                self.search_node(child, search, fuel - 1)
            },
            NodeType::Leaf(pairs) => {
                let idx = find_pair_index(&pairs, search);
                if idx < pairs.len() && bytes_eq(&pairs[idx].key, search) {
                    Ok(pairs[idx].copy())
                } else {
                    Err(Error::KeyNotFound)
                }
            },
        }
    }

    /// Tells whether `node` holds as many entries as a node may.
    fn is_node_full(&self, node: &Node) -> (r: bool)
        requires
            1 <= self.fan <= MAX_BRANCHING_FACTOR,
        ensures
            r == (node@.entries() == 2 * self.fan - 1),
    {
        match &node.node_type {
            NodeType::Leaf(pairs) => pairs.len() == 2 * self.fan - 1,
            NodeType::Internal(_, keys) => keys.len() == 2 * self.fan - 1,
        }
    }

    /// Tells whether `node` holds fewer entries than a node other than the
    /// root may. The root may hold fewer.
    fn is_node_underflow(&self, node: &Node) -> (r: bool)
        requires
            1 <= self.fan <= MAX_BRANCHING_FACTOR,
        ensures
            r == (node@.entries() < self.fan - 1 && !node@.is_root),
    {
        match &node.node_type {
            NodeType::Leaf(pairs) => pairs.len() < self.fan - 1 && !node.is_root,
            NodeType::Internal(_, keys) => keys.len() < self.fan - 1 && !node.is_root,
        }
    }

    /// The tree `other` has the branching parameter and the path of this one.
    pub open spec fn same_config(&self, other: &Engine) -> bool {
        self.b_spec() == other.b_spec() && self.path_spec() == other.path_spec()
            && self.fan_spec() == other.fan_spec()
    }

    /// Records the offset of the root and the branching parameter in the
    /// superblock.
    fn write_superblock(&mut self) -> (r: Result<(), Error>)
        requires
            old(self).pager.wf(),
            old(self).pager@.len() > 0,
        ensures
            r is Ok,
            final(self).pager.wf(),
            final(self).same_config(old(self)),
            final(self).root_offset == old(self).root_offset,
            final(self).height == old(self).height,
            final(self).fan == old(self).fan,
            final(self).pager@.len() == old(self).pager@.len(),
            forall|p: Offset|
                0 < p.0 < old(self).pager@.len() ==> #[trigger] final(self).pager@[p.0 as int]
                    == old(self).pager@[p.0 as int],
            superblock_root(final(self).pager@[0]) == final(self).root_offset.0,
            superblock_b(final(self).pager@[0]) == final(self).b,
            final(self).pager@ == old(self).pager@.update(
                0,
                superblock_bytes(old(self).root_offset.0 as u64, old(self).b as u64),
            ),
    {
        let page = superblock_page(self.root_offset, self.b);
        self.pager.write_page_at_offset(page, &Offset(0))?;
        Ok(())
    }

    /// Puts a pair into the tree, splitting full nodes on the way down. A
    /// key or a value that is too long for its cell, or a key that the
    /// tree holds already, is refused, and the tree holds what it held.
    pub fn insert(&mut self, kv: KeyValuePair) -> (r: Result<(), Error>)
        requires
            old(self).wf(),
        ensures
            final(self).wf(),
            final(self).whole(),
            final(self).same_config(old(self)),
            r == insert_result(old(self)@, kv@.0, kv@.1),
            final(self)@ == after_insert(old(self)@, kv@.0, kv@.1),
            old(self).pages().len() <= final(self).pages().len(),
            r matches Err(e) && e != Error::DuplicateKey ==> final(self).pages() == old(self).pages()
                && final(self).root_spec() == old(self).root_spec() && final(self).height_spec()
                == old(self).height_spec(),
            // The tree grows by one level exactly when its root is full,
            // and the new root then lies in the first new page.
            r is Ok || r == Err::<(), Error>(Error::DuplicateKey) ==> if old(self).root_is_full() {
                final(self).height_spec() == old(self).height_spec() + 1
                    && final(self).root_spec().0 == old(self).pages().len()
            } else {
                final(self).height_spec() == old(self).height_spec()
                    && final(self).root_spec() == old(self).root_spec()
            },
            // The pages, one by one.
            final(self).pages() == insert_pages(
                old(self).pages(),
                old(self).root_spec(),
                old(self).height_spec(),
                old(self).fan_spec() as nat,
                old(self).b_spec(),
                kv@.0,
                kv@.1,
            ),
            // One page is appended for each full node on the way down, and
            // one more for the new root if the root is full.
            r is Ok || r == Err::<(), Error>(Error::DuplicateKey) ==> final(self).pages().len()
                == old(self).pages().len() + (if old(self).root_is_full() {
                2nat
            } else {
                0nat
            }) + splits_below(
                old(self).pages(),
                old(self).root_spec(),
                old(self).height_spec(),
                old(self).fan_spec() as nat,
                kv@.0,
            ),
            // A page off the way down stays as it was, and so does the
            // superblock unless the root is split.
            forall|p: Offset|
                0 < p.0 < old(self).pages().len() && !on_path(
                    old(self).pages(),
                    old(self).root_spec(),
                    old(self).height_spec(),
                    kv@.0,
                    p,
                ) ==> #[trigger] final(self).pages()[p.0 as int] == old(self).pages()[p.0 as int],
            !old(self).root_is_full() ==> final(self).pages()[0] == old(self).pages()[0],
            // A full root gives way to a new root over its two halves with
            // its median between them; the old root names the new root as
            // its parent and is the root no more.
            (r is Ok || r == Err::<(), Error>(Error::DuplicateKey)) && old(self).root_is_full() ==> {
                &&& final(self).node_spec(final(self).root_spec()) == new_root(
                    old(self).root_spec(),
                    split_median(
                        old(self).node_spec(old(self).root_spec()),
                        old(self).fan_spec() as nat,
                    ),
                    Offset((old(self).pages().len() + 1) as usize),
                )
                &&& !final(self).node_spec(old(self).root_spec()).is_root
                &&& final(self).node_spec(old(self).root_spec()).parent == Some(
                    final(self).root_spec(),
                )
            },
    {
        if kv.key.len() > MAX_KEY_LEN {
            return Err(Error::KeyOverflow);
        }
        if kv.value.len() > MAX_VALUE_LEN {
            return Err(Error::ValueOverflow);
        }
        let ghost s = self.pager@;
        let ghost h = self.height@;
        let ghost b = self.fan as nat;
        let old_root_offset = self.root_offset;
        proof {
            lemma_wf_top(s, old_root_offset, h, None, None, b, root_min(h), true, -1);
            lemma_decoded_fits(s[old_root_offset.0 as int]);
        }
        let root_page = self.pager.get_page(&self.root_offset)?;
        let mut root = Node::decode(&root_page)?;
        let ghost old_root = root@;
        let ghost k = kv@.0;
        let ghost v = kv@.1;
        let ghost mut t4 = s;
        let ghost mut sib = old_root_offset;
        let full = self.is_node_full(&root);
        if full {
            let empty_root = Node::new(NodeType::Internal(Vec::new(), Vec::new()), true, None);
            proof {
                assert(keys_view(Seq::<Key>::empty()) =~= Seq::<Seq<u8>>::empty());
                assert(empty_root@ == self::empty_root());
            }
            let page = empty_root.encode()?;
            let new_root_offset = self.pager.write_page(page)?;
            root.parent_offset = Some(new_root_offset);
            root.is_root = false;
            proof {
                assert(old_root == node_at(s, old_root_offset));
                assert(node_fits(old_root));
                assert(root@.kind == old_root.kind);
                assert(new_root_offset.0 == s.len());
                assert(node_fits(root@));
                assert(root@ == moved_root(old_root, new_root_offset));
                lemma_split_fits(root@, b);
                lemma_decode_encode(split_left(root@, b));
                lemma_decode_encode(split_right(root@, b));
            }
            let (median, sibling) = root.split(self.fan)?;
            let page = root.encode()?;
            self.pager.write_page_at_offset(page, &old_root_offset)?;
            let page = sibling.encode()?;
            let sibling_offset = self.pager.write_page(page)?;
            let mut children: Vec<Offset> = Vec::new();
            children.push(old_root_offset);
            children.push(sibling_offset);
            let mut keys: Vec<Key> = Vec::new();
            keys.push(median);
            let new_root = Node::new(NodeType::Internal(children, keys), true, None);
            proof {
                assert(keys_view(keys@) =~= seq![split_median(old_root, b)]);
                assert(children@ =~= seq![old_root_offset, sibling_offset]);
                assert(encode_error(new_root@) is None);
                lemma_decode_encode(new_root@);
                assert(new_root@ == self::new_root(
                    old_root_offset,
                    split_median(old_root, b),
                    sibling_offset,
                ));
                sib = sibling_offset;
            }
            let page = new_root.encode()?;
            self.pager.write_page_at_offset(page, &new_root_offset)?;
            self.root_offset = new_root_offset;
            self.height = Ghost(h + 1);
            proof {
                let t = self.pager@;
                assert(split_root_pre(
                    s,
                    t,
                    old_root_offset,
                    h,
                    b,
                    root_min(h),
                    new_root_offset,
                    sibling_offset,
                ));
                lemma_split_root(
                    s,
                    t,
                    old_root_offset,
                    h,
                    b,
                    root_min(h),
                    new_root_offset,
                    sibling_offset,
                );
            }
            let ghost t = self.pager@;
            proof {
                t4 = t;
            }
            self.write_superblock()?;
            proof {
                assert(self.pager@ == after_root_split(s, old_root_offset, b, self.b));
                lemma_superblock_frame(
                    t,
                    self.pager@,
                    new_root_offset,
                    h + 1,
                    None,
                    None,
                    b,
                    1,
                    true,
                    -1,
                );
            }
            root = new_root;
        }
        let ghost s2 = self.pager@;
        let ghost h2 = self.height@;
        proof {
            assert(tree_map(s2, self.root_offset, h2) == tree_map(s, old_root_offset, h));
            lemma_superblock_outside(
                s2,
                self.root_offset,
                h2,
                None,
                None,
                b,
                root_min(h2),
                true,
                -1,
            );
        }
        let root_offset = self.root_offset;
        let r = self.insert_non_full(
            root,
            root_offset,
            kv,
            Ghost(h2),
            Ghost(None),
            Ghost(None),
            Ghost(root_min(h2)),
            Ghost(true),
        );
        proof {
            let u = self.pager@;
            assert(u[Offset(0).0 as int] == s2[Offset(0).0 as int]);
            assert(on_path(s, old_root_offset, h, k, old_root_offset));
            if full {
                lemma_root_split_path(
                    s,
                    t4,
                    s2,
                    old_root_offset,
                    h,
                    b,
                    root_min(h),
                    root_offset,
                    sib,
                    k,
                );
                assert forall|p: Offset|
                    0 < p.0 < s.len() && !on_path(
                        s,
                        old_root_offset,
                        h,
                        k,
                        p,
                    ) implies #[trigger] u[p.0 as int] == s[p.0 as int] by {
                    assert(p != old_root_offset);
                    assert(!on_path(s2, root_offset, h2, k, p));
                    assert(s2[p.0 as int] == t4[p.0 as int]);
                    assert(t4[p.0 as int] == s[p.0 as int]);
                }
                assert(u[root_offset.0 as int] == s2[root_offset.0 as int]);
                if !on_path(s2, root_offset, h2, k, old_root_offset) {
                    assert(u[old_root_offset.0 as int] == s2[old_root_offset.0 as int]);
                }
                assert(!node_at(u, old_root_offset).is_root);
                assert(node_at(u, old_root_offset).parent == Some(root_offset));
            }
        }
        match r {
            Ok(()) => Ok(()),
            Err(e) => Err(e),
        }
    }

    /// Splits the full child `idx` of a node that is not full: the child
    /// keeps its first half, a new page takes the second, and the node
    /// takes the median and the new page in. All three are written.
    fn split_child(
        &mut self,
        children: Vec<Offset>,
        keys: Vec<Key>,
        is_root: bool,
        parent_offset: Option<Offset>,
        node_offset: Offset,
        idx: usize,
        child: Node,
        Ghost(h): Ghost<nat>,
        Ghost(lo): Ghost<Option<Seq<u8>>>,
        Ghost(hi): Ghost<Option<Seq<u8>>>,
        Ghost(min): Ghost<int>,
        Ghost(root): Ghost<bool>,
    ) -> (r: Result<SplitChild, Error>)
        requires
            old(self).pager.wf(),
            2 <= old(self).fan <= MAX_BRANCHING_FACTOR,
            h > 0,
            subtree_wf(old(self).pager@, node_offset, h, lo, hi, old(self).fan as nat, min, root, -1),
            node_at(old(self).pager@, node_offset) == (NodeView {
                kind: KindView::Internal(children@, keys_view(keys@)),
                is_root,
                parent: parent_offset,
            }),
            keys@.len() < 2 * old(self).fan - 1,
            idx < children@.len(),
            child@ == node_at(old(self).pager@, children@[idx as int]),
            child@.entries() == 2 * old(self).fan - 1,
        ensures
            final(self).pager.wf(),
            final(self).same_config(old(self)),
            final(self).root_offset == old(self).root_offset,
            final(self).height == old(self).height,
            r matches Ok(out) && {
                let s = old(self).pager@;
                let t = final(self).pager@;
                &&& subtree_wf(t, node_offset, h, lo, hi, old(self).fan as nat, min, root, -1)
                &&& updated(s, t, node_offset, h)
                &&& tree_map(t, node_offset, h) == tree_map(s, node_offset, h)
                &&& node_at(t, node_offset).keys().len() == keys@.len() + 1
                &&& node_at(t, node_offset).children().len() == children@.len() + 1
                &&& node_at(t, node_offset).children()[idx as int] == children@[idx as int]
                &&& node_at(t, node_offset).children()[idx + 1] == out.sibling_offset
                &&& out.child@ == node_at(t, children@[idx as int])
                &&& out.sibling@ == node_at(t, out.sibling_offset)
                &&& out.child@.entries() <= old(self).fan
                &&& out.sibling@.entries() < old(self).fan
                &&& out.sibling_offset == Offset(s.len() as usize)
                &&& out.median@ == split_median(child@, old(self).fan as nat)
                &&& out.child@ == split_left(child@, old(self).fan as nat)
                &&& out.sibling@ == split_right(child@, old(self).fan as nat)
                &&& node_at(t, node_offset) == node_with_split(
                    node_at(s, node_offset),
                    idx as int,
                    split_median(child@, old(self).fan as nat),
                    Offset(s.len() as usize),
                )
                &&& t == after_child_split(s, node_offset, idx as int, old(self).fan as nat)
                &&& split_child_pre(
                    s,
                    t,
                    node_offset,
                    h,
                    lo,
                    hi,
                    old(self).fan as nat,
                    min,
                    root,
                    idx as int,
                    Offset(s.len() as usize),
                )
                &&& forall|key: Seq<u8>|
                    route(keys_view(keys@), key) == idx ==> #[trigger] route(
                        node_at(t, node_offset).keys(),
                        key,
                    ) == if lex_le(key, out.median@) {
                        idx as int
                    } else {
                        idx + 1
                    }
            },
    {
        let ghost s = self.pager@;
        let ghost n = node_at(s, node_offset);
        let ghost b = self.fan as nat;
        let ghost cn = child@;
        let child_offset = children[idx];
        let mut child = child;
        let mut children = children;
        let mut keys = keys;
        proof {
            lemma_wf_top(s, node_offset, h, lo, hi, b, min, root, -1);
            lemma_decoded_fits(s[node_offset.0 as int]);
            lemma_wf_child(s, node_offset, h, lo, hi, b, min, root, -1, idx as int);
            lemma_decoded_fits(s[child_offset.0 as int]);
            assert(is_full(cn, b));
            lemma_split_fits(cn, b);
            lemma_decode_encode(split_left(cn, b));
            lemma_decode_encode(split_right(cn, b));
        }
        let (median, sibling) = child.split(self.fan)?;
        let page = child.encode()?;
        self.pager.write_page_at_offset(page, &child_offset)?;
        let page = sibling.encode()?;
        let sibling_offset = self.pager.write_page(page)?;
        children.insert(idx + 1, sibling_offset);
        keys.insert(idx, median.copy());
        let parent = Node::new(NodeType::Internal(children, keys), is_root, parent_offset);
        proof {
            assert(keys_view(keys@) =~= n.keys().insert(idx as int, median@));
            lemma_inner_insert_fits(n, idx as int, median@, sibling_offset, parent@);
            lemma_decode_encode(parent@);
        }
        let page = parent.encode()?;
        self.pager.write_page_at_offset(page, &node_offset)?;
        proof {
            let t = self.pager@;
            assert(node_at(t, node_offset) == parent@);
            assert(node_at(t, child_offset) == child@);
            assert(node_at(t, sibling_offset) == sibling@);
            assert(split_child_pre(
                s,
                t,
                node_offset,
                h,
                lo,
                hi,
                b,
                min,
                root,
                idx as int,
                sibling_offset,
            ));
            lemma_split_child(s, t, node_offset, h, lo, hi, b, min, root, idx as int, sibling_offset);
        }
        Ok(SplitChild { child, sibling, sibling_offset, median })
    }

    /// Puts a pair into the subtree under `node`, which is not full. A
    /// full child on the way is split before the descent into it.
    fn insert_non_full(
        &mut self,
        node: Node,
        node_offset: Offset,
        kv: KeyValuePair,
        Ghost(h): Ghost<nat>,
        Ghost(lo): Ghost<Option<Seq<u8>>>,
        Ghost(hi): Ghost<Option<Seq<u8>>>,
        Ghost(min): Ghost<int>,
        Ghost(root): Ghost<bool>,
    ) -> (r: Result<(), Error>)
        requires
            old(self).pager.wf(),
            2 <= old(self).fan <= MAX_BRANCHING_FACTOR,
            subtree_wf(old(self).pager@, node_offset, h, lo, hi, old(self).fan as nat, min, root, -1),
            node@ == node_at(old(self).pager@, node_offset),
            node@.entries() < 2 * old(self).fan - 1,
            above(lo, kv@.0),
            at_most(kv@.0, hi),
            kv@.0.len() <= MAX_KEY_LEN,
            kv@.1.len() <= MAX_VALUE_LEN,
        ensures
            final(self).pager.wf(),
            final(self).same_config(old(self)),
            final(self).root_offset == old(self).root_offset,
            final(self).height == old(self).height,
            updated(old(self).pager@, final(self).pager@, node_offset, h),
            subtree_wf(
                final(self).pager@,
                node_offset,
                h,
                lo,
                hi,
                old(self).fan as nat,
                min,
                root,
                -1,
            ),
            r is Ok <==> !tree_map(old(self).pager@, node_offset, h).contains_key(kv@.0),
            r is Ok ==> tree_map(final(self).pager@, node_offset, h) == tree_map(
                old(self).pager@,
                node_offset,
                h,
            ).insert(kv@.0, kv@.1),
            r matches Err(e) ==> e == Error::DuplicateKey && tree_map(
                final(self).pager@,
                node_offset,
                h,
            ) == tree_map(old(self).pager@, node_offset, h),
            inserted(
                old(self).pager@,
                final(self).pager@,
                node_offset,
                h,
                old(self).fan as nat,
                kv@.0,
                kv@.1,
            ),
        decreases h,
    {
        let ghost s = self.pager@;
        let ghost n = node@;
        let ghost b = self.fan as nat;
        let ghost k = kv@.0;
        let ghost v = kv@.1;
        let is_root = node.is_root;
        let parent_offset = node.parent_offset;
        proof {
            lemma_wf_top(s, node_offset, h, lo, hi, b, min, root, -1);
            lemma_decoded_fits(s[node_offset.0 as int]);
        }
        match node.node_type {
            NodeType::Leaf(mut pairs) => {
                let idx = find_pair_index(&pairs, &kv.key);
                proof {
                    lemma_route_bounds(pair_keys(n.pairs()), k);
                }
                if idx < pairs.len() && bytes_eq(&pairs[idx].key, &kv.key) {
                    proof {
                        assert(n.pairs()[idx as int].0 == k);
                        assert(leaf_get(n.pairs(), k) is Some);
                        assert(inserted(s, s, node_offset, h, b, k, v));
                    }
                    return Err(Error::DuplicateKey);
                }
                pairs.insert(idx, kv);
                let new_node = Node::new(NodeType::Leaf(pairs), is_root, parent_offset);
                proof {
                    assert(pairs_view(pairs@) =~= n.pairs().insert(idx as int, (k, v)));
                    lemma_leaf_insert_fits(n, idx as int, k, v, new_node@);
                    lemma_decode_encode(new_node@);
                }
                let page = new_node.encode()?;
                self.pager.write_page_at_offset(page, &node_offset)?;
                proof {
                    lemma_leaf_written(s, self.pager@, node_offset, lo, hi, b, min, root, k, v);
                    assert(new_node@ == leaf_with(n, k, v));
                    assert(node_at(self.pager@, node_offset) == new_node@);
                    assert(inserted(s, self.pager@, node_offset, h, b, k, v));
                }
                Ok(())
            },
            NodeType::Internal(children, keys) => {
                let idx = find_key_index(&keys, &kv.key);
                proof {
                    lemma_route_bounds(n.keys(), k);
                }
                if idx >= children.len() {
                    return Err(Error::TreeInvariantViolation);
                }
                let child_offset = children[idx];
                proof {
                    lemma_wf_child(s, node_offset, h, lo, hi, b, min, root, -1, idx as int);
                }
                let child_page = self.pager.get_page(&child_offset)?;
                let child = Node::decode(&child_page)?;
                let (target, target_offset) = if self.is_node_full(&child) {
                    let out = self.split_child(
                        children,
                        keys,
                        is_root,
                        parent_offset,
                        node_offset,
                        idx,
                        child,
                        Ghost(h),
                        Ghost(lo),
                        Ghost(hi),
                        Ghost(min),
                        Ghost(root),
                    )?;
                    if !bytes_lt(&out.median.0, &kv.key) {
                        (out.child, child_offset)
                    } else {
                        (out.sibling, out.sibling_offset)
                    }
                } else {
                    proof {
                        crate::tree::lemma_updated_refl(s, node_offset, h);
                    }
                    (child, child_offset)
                };
                let ghost t = self.pager@;
                let ghost ks = node_at(t, node_offset).keys();
                let ghost i = route(ks, k);
                proof {
                    lemma_route_bounds(ks, k);
                    lemma_wf_child(t, node_offset, h, lo, hi, b, min, root, -1, i);
                }
                let r = self.insert_non_full(
                    target,
                    target_offset,
                    kv,
                    Ghost((h - 1) as nat),
                    Ghost(child_lo(ks, lo, i)),
                    Ghost(child_hi(ks, hi, i)),
                    Ghost(b - 1),
                    Ghost(false),
                );
                proof {
                    lemma_descended(
                        s,
                        t,
                        self.pager@,
                        node_offset,
                        h,
                        lo,
                        hi,
                        b,
                        min,
                        root,
                        i,
                        -1,
                        k,
                        v,
                    );
                    assert(target_offset == descent_target(s, node_offset, b, k));
                    lemma_inserted_below(
                        s,
                        t,
                        self.pager@,
                        node_offset,
                        h,
                        lo,
                        hi,
                        b,
                        min,
                        root,
                        k,
                        v,
                    );
                }
                r
            },
        }
    }

    /// Writes back two neighbouring children between which entries have
    /// moved, and their parent with the new key between the two.
    fn write_rotated(
        &mut self,
        children: Vec<Offset>,
        keys: Vec<Key>,
        is_root: bool,
        parent_offset: Option<Offset>,
        node_offset: Offset,
        j: usize,
        left: Node,
        sep: Key,
        right: Node,
        Ghost(h): Ghost<nat>,
        Ghost(lo): Ghost<Option<Seq<u8>>>,
        Ghost(hi): Ghost<Option<Seq<u8>>>,
        Ghost(min): Ghost<int>,
        Ghost(root): Ghost<bool>,
        Ghost(weak): Ghost<int>,
    ) -> (r: Result<(), Error>)
        requires
            old(self).pager.wf(),
            2 <= old(self).fan <= MAX_BRANCHING_FACTOR,
            h > 0,
            subtree_wf(old(self).pager@, node_offset, h, lo, hi, old(self).fan as nat, min, root, weak),
            node_at(old(self).pager@, node_offset) == (NodeView {
                kind: KindView::Internal(children@, keys_view(keys@)),
                is_root,
                parent: parent_offset,
            }),
            j < keys@.len(),
            weak == -1 || weak == j || weak == j + 1,
            repartitioned(
                (h - 1) as nat,
                node_at(old(self).pager@, children@[j as int]),
                keys@[j as int]@,
                node_at(old(self).pager@, children@[j + 1]),
                left@,
                sep@,
                right@,
            ),
            !left@.is_root,
            !right@.is_root,
            left@.parent == node_at(old(self).pager@, children@[j as int]).parent,
            right@.parent == node_at(old(self).pager@, children@[j + 1]).parent,
            old(self).fan - 1 <= left@.entries() <= 2 * old(self).fan - 1,
            old(self).fan - 1 <= right@.entries() <= 2 * old(self).fan - 1,
        ensures
            final(self).pager.wf(),
            final(self).same_config(old(self)),
            final(self).root_offset == old(self).root_offset,
            final(self).height == old(self).height,
            r is Ok,
            subtree_wf(final(self).pager@, node_offset, h, lo, hi, old(self).fan as nat, min, root, -1),
            final(self).pager@.len() == old(self).pager@.len(),
            updated(old(self).pager@, final(self).pager@, node_offset, h),
            tree_map(final(self).pager@, node_offset, h) == tree_map(
                old(self).pager@,
                node_offset,
                h,
            ),
            node_at(final(self).pager@, node_offset).children() == children@,
            final(self).pager@ == after_rotation(
                old(self).pager@,
                node_offset,
                j as int,
                left@,
                sep@,
                right@,
            ),
    {
        let ghost s = self.pager@;
        let ghost n = node_at(s, node_offset);
        let ghost b = self.fan as nat;
        let ghost hh = (h - 1) as nat;
        let a = children[j];
        let b_ = children[j + 1];
        let mut keys = keys;
        proof {
            lemma_wf_top(s, node_offset, h, lo, hi, b, min, root, weak);
            lemma_decoded_fits(s[node_offset.0 as int]);
            lemma_wf_child(s, node_offset, h, lo, hi, b, min, root, weak, j as int);
            lemma_wf_child(s, node_offset, h, lo, hi, b, min, root, weak, j + 1);
            lemma_decoded_fits(s[a.0 as int]);
            lemma_decoded_fits(s[b_.0 as int]);
            lemma_pair_of_parent(s, s, node_offset, h, lo, hi, b, min, root, weak, j as int);
            assert(n.keys()[j as int] == keys@[j as int]@);
            assert(n.keys()[j as int].len() <= MAX_KEY_LEN);
            lemma_repartition_fits(
                hh,
                node_at(s, a),
                n.keys()[j as int],
                node_at(s, b_),
                left@,
                sep@,
                right@,
            );
            lemma_decode_encode(left@);
            lemma_decode_encode(right@);
        }
        let page = left.encode()?;
        self.pager.write_page_at_offset(page, &a)?;
        let page = right.encode()?;
        self.pager.write_page_at_offset(page, &b_)?;
        keys[j] = sep;
        let parent = Node::new(NodeType::Internal(children, keys), is_root, parent_offset);
        proof {
            assert(keys_view(keys@) =~= n.keys().update(j as int, sep@));
            lemma_inner_update_fits(n, j as int, sep@, parent@);
            lemma_decode_encode(parent@);
        }
        let page = parent.encode()?;
        self.pager.write_page_at_offset(page, &node_offset)?;
        proof {
            let t = self.pager@;
            assert(node_at(t, node_offset) == parent@);
            assert(parent@ == with_key(n, j as int, sep@));
            assert(node_at(t, a) == left@);
            assert(node_at(t, b_) == right@);
            assert(rotate_pre(s, t, node_offset, h, lo, hi, b, min, root, weak, j as int, sep@));
            lemma_rotated(s, t, node_offset, h, lo, hi, b, min, root, weak, j as int, sep@);
        }
        Ok(())
    }

    /// Writes back the node that two neighbouring children were merged
    /// into, in the place of the first, and their parent without the key
    /// between the two and without the second.
    fn write_merged(
        &mut self,
        children: Vec<Offset>,
        keys: Vec<Key>,
        is_root: bool,
        parent_offset: Option<Offset>,
        node_offset: Offset,
        j: usize,
        node: Node,
        Ghost(h): Ghost<nat>,
        Ghost(lo): Ghost<Option<Seq<u8>>>,
        Ghost(hi): Ghost<Option<Seq<u8>>>,
        Ghost(min): Ghost<int>,
        Ghost(root): Ghost<bool>,
        Ghost(weak): Ghost<int>,
    ) -> (r: Result<(), Error>)
        requires
            old(self).pager.wf(),
            2 <= old(self).fan <= MAX_BRANCHING_FACTOR,
            h > 0,
            subtree_wf(old(self).pager@, node_offset, h, lo, hi, old(self).fan as nat, min, root, weak),
            node_at(old(self).pager@, node_offset) == (NodeView {
                kind: KindView::Internal(children@, keys_view(keys@)),
                is_root,
                parent: parent_offset,
            }),
            j < keys@.len(),
            weak == -1 || weak == j || weak == j + 1,
            merged(
                (h - 1) as nat,
                node_at(old(self).pager@, children@[j as int]),
                keys@[j as int]@,
                node_at(old(self).pager@, children@[j + 1]),
                node@,
            ),
            !node@.is_root,
            node@.parent == node_at(old(self).pager@, children@[j as int]).parent,
            old(self).fan - 1 <= node@.entries() <= 2 * old(self).fan - 1,
        ensures
            final(self).pager.wf(),
            final(self).same_config(old(self)),
            final(self).root_offset == old(self).root_offset,
            final(self).height == old(self).height,
            r is Ok,
            subtree_wf(
                final(self).pager@,
                node_offset,
                h,
                lo,
                hi,
                old(self).fan as nat,
                min - 1,
                root,
                -1,
            ),
            final(self).pager@.len() == old(self).pager@.len(),
            updated(old(self).pager@, final(self).pager@, node_offset, h),
            tree_map(final(self).pager@, node_offset, h) == tree_map(
                old(self).pager@,
                node_offset,
                h,
            ),
            node_at(final(self).pager@, node_offset).children() == children@.remove(j + 1),
            final(self).pager@ == after_merge(old(self).pager@, node_offset, j as int, node@),
    {
        let ghost s = self.pager@;
        let ghost n = node_at(s, node_offset);
        let ghost b = self.fan as nat;
        let ghost hh = (h - 1) as nat;
        let a = children[j];
        let ghost b_ = children@[j + 1];
        let mut keys = keys;
        let mut children = children;
        proof {
            lemma_wf_top(s, node_offset, h, lo, hi, b, min, root, weak);
            lemma_decoded_fits(s[node_offset.0 as int]);
            lemma_wf_child(s, node_offset, h, lo, hi, b, min, root, weak, j as int);
            lemma_wf_child(s, node_offset, h, lo, hi, b, min, root, weak, j + 1);
            lemma_decoded_fits(s[a.0 as int]);
            lemma_decoded_fits(s[b_.0 as int]);
            lemma_pair_of_parent(s, s, node_offset, h, lo, hi, b, min, root, weak, j as int);
            assert(n.keys()[j as int] == keys@[j as int]@);
            assert(n.keys()[j as int].len() <= MAX_KEY_LEN);
            lemma_merged_fits(hh, node_at(s, a), n.keys()[j as int], node_at(s, b_), node@);
            lemma_decode_encode(node@);
        }
        let page = node.encode()?;
        self.pager.write_page_at_offset(page, &a)?;
        keys.remove(j);
        children.remove(j + 1);
        let parent = Node::new(NodeType::Internal(children, keys), is_root, parent_offset);
        proof {
            assert(keys_view(keys@) =~= n.keys().remove(j as int));
            lemma_inner_remove_fits(n, j as int, parent@);
            lemma_decode_encode(parent@);
        }
        let page = parent.encode()?;
        self.pager.write_page_at_offset(page, &node_offset)?;
        proof {
            let t = self.pager@;
            assert(node_at(t, node_offset) == parent@);
            assert(parent@ == without_child(n, j as int));
            assert(node_at(t, a) == node@);
            assert(merge_pre(s, t, node_offset, h, lo, hi, b, min, root, weak, j as int));
            lemma_merged_child(s, t, node_offset, h, lo, hi, b, min, root, weak, j as int);
        }
        Ok(())
    }

    /// Repairs child `idx` of a node, which holds one entry less than a
    /// node may: it borrows the last entry of its left neighbour if that
    /// one has an entry to spare, else the first entry of its right
    /// neighbour if that one has, else it is merged with its left
    /// neighbour, or with its right neighbour if it has no left one.
    fn rebalance(
        &mut self,
        children: Vec<Offset>,
        keys: Vec<Key>,
        is_root: bool,
        parent_offset: Option<Offset>,
        node_offset: Offset,
        idx: usize,
        child: Node,
        Ghost(h): Ghost<nat>,
        Ghost(lo): Ghost<Option<Seq<u8>>>,
        Ghost(hi): Ghost<Option<Seq<u8>>>,
        Ghost(min): Ghost<int>,
        Ghost(root): Ghost<bool>,
    ) -> (r: Result<(), Error>)
        requires
            old(self).pager.wf(),
            2 <= old(self).fan <= MAX_BRANCHING_FACTOR,
            h > 0,
            subtree_wf(old(self).pager@, node_offset, h, lo, hi, old(self).fan as nat, min, root, idx as int),
            node_at(old(self).pager@, node_offset) == (NodeView {
                kind: KindView::Internal(children@, keys_view(keys@)),
                is_root,
                parent: parent_offset,
            }),
            keys@.len() >= 1,
            idx < children@.len(),
            child@ == node_at(old(self).pager@, children@[idx as int]),
            child@.entries() == old(self).fan - 2,
        ensures
            final(self).pager.wf(),
            final(self).same_config(old(self)),
            final(self).root_offset == old(self).root_offset,
            final(self).height == old(self).height,
            r is Ok,
            subtree_wf(
                final(self).pager@,
                node_offset,
                h,
                lo,
                hi,
                old(self).fan as nat,
                min - 1,
                root,
                -1,
            ),
            final(self).pager@.len() == old(self).pager@.len(),
            updated(old(self).pager@, final(self).pager@, node_offset, h),
            tree_map(final(self).pager@, node_offset, h) == tree_map(
                old(self).pager@,
                node_offset,
                h,
            ),
            children_kept(children@, node_at(final(self).pager@, node_offset).children()),
            final(self).pager@ == repaired(
                old(self).pager@,
                node_offset,
                idx as int,
                old(self).fan as nat,
            ),
    {
        let ghost s = self.pager@;
        let ghost n = node_at(s, node_offset);
        let ghost b = self.fan as nat;
        let ghost hh = (h - 1) as nat;
        let ghost weak = idx as int;
        proof {
            lemma_wf_top(s, node_offset, h, lo, hi, b, min, root, weak);
            lemma_children_kept(children@, 0);
            if children@.len() > 1 {
                lemma_children_kept(children@, 1);
            }
            if idx > 0 {
                lemma_children_kept(children@, idx as int);
            }
            lemma_wf_child(s, node_offset, h, lo, hi, b, min, root, weak, idx as int);
        }
        if idx > 0 {
            let left_offset = children[idx - 1];
            proof {
                lemma_wf_child(s, node_offset, h, lo, hi, b, min, root, weak, idx - 1);
            }
            let left_page = self.pager.get_page(&left_offset)?;
            let left = Node::decode(&left_page)?;
            if left.entries() > self.fan - 1 {
                let sep = keys[idx - 1].copy();
                let (left2, sep2, child2) = child.borrow_from_left(left, sep)?;
                let r = self.write_rotated(
                    children,
                    keys,
                    is_root,
                    parent_offset,
                    node_offset,
                    idx - 1,
                    left2,
                    sep2,
                    child2,
                    Ghost(h),
                    Ghost(lo),
                    Ghost(hi),
                    Ghost(min),
                    Ghost(root),
                    Ghost(weak),
                );
                proof {
                    lemma_min_change(
                        self.pager@,
                        node_offset,
                        h,
                        lo,
                        hi,
                        b,
                        min,
                        root,
                        -1,
                        min - 1,
                    );
                }
                return r;
            }
            if idx + 1 < children.len() {
                let right_offset = children[idx + 1];
                proof {
                    lemma_wf_child(s, node_offset, h, lo, hi, b, min, root, weak, idx + 1);
                }
                let right_page = self.pager.get_page(&right_offset)?;
                let right = Node::decode(&right_page)?;
                if right.entries() > self.fan - 1 {
                    let sep = keys[idx].copy();
                    let (child2, sep2, right2) = child.borrow_from_right(right, sep)?;
                    let r = self.write_rotated(
                        children,
                        keys,
                        is_root,
                        parent_offset,
                        node_offset,
                        idx,
                        child2,
                        sep2,
                        right2,
                        Ghost(h),
                        Ghost(lo),
                        Ghost(hi),
                        Ghost(min),
                        Ghost(root),
                        Ghost(weak),
                    );
                    proof {
                        lemma_min_change(
                            self.pager@,
                            node_offset,
                            h,
                            lo,
                            hi,
                            b,
                            min,
                            root,
                            -1,
                            min - 1,
                        );
                    }
                    return r;
                }
            }
            let sep = keys[idx - 1].copy();
            let node = left.merge(child, sep)?;
            self.write_merged(
                children,
                keys,
                is_root,
                parent_offset,
                node_offset,
                idx - 1,
                node,
                Ghost(h),
                Ghost(lo),
                Ghost(hi),
                Ghost(min),
                Ghost(root),
                Ghost(weak),
            )
        } else {
            let right_offset = children[1];
            proof {
                lemma_wf_child(s, node_offset, h, lo, hi, b, min, root, weak, 1);
            }
            let right_page = self.pager.get_page(&right_offset)?;
            let right = Node::decode(&right_page)?;
            let sep = keys[0].copy();
            if right.entries() > self.fan - 1 {
                let (child2, sep2, right2) = child.borrow_from_right(right, sep)?;
                let r = self.write_rotated(
                    children,
                    keys,
                    is_root,
                    parent_offset,
                    node_offset,
                    0,
                    child2,
                    sep2,
                    right2,
                    Ghost(h),
                    Ghost(lo),
                    Ghost(hi),
                    Ghost(min),
                    Ghost(root),
                    Ghost(weak),
                );
                proof {
                    lemma_min_change(
                        self.pager@,
                        node_offset,
                        h,
                        lo,
                        hi,
                        b,
                        min,
                        root,
                        -1,
                        min - 1,
                    );
                }
                r
            } else {
                let node = child.merge(right, sep)?;
                self.write_merged(
                    children,
                    keys,
                    is_root,
                    parent_offset,
                    node_offset,
                    0,
                    node,
                    Ghost(h),
                    Ghost(lo),
                    Ghost(hi),
                    Ghost(min),
                    Ghost(root),
                    Ghost(weak),
                )
            }
        }
    }

    /// Takes `key` out of the subtree at `offset`: out of the leaf that
    /// holds it, and then, on the way back up, repairs each node that the
    /// loss has left with too few entries. The node at `offset` itself
    /// may be left with one entry less than it had to have. If no leaf
    /// holds `key`, nothing is written.
    fn delete_key_from_subtree(
        &mut self,
        key: Key,
        offset: &Offset,
        Ghost(h): Ghost<nat>,
        Ghost(lo): Ghost<Option<Seq<u8>>>,
        Ghost(hi): Ghost<Option<Seq<u8>>>,
        Ghost(min): Ghost<int>,
        Ghost(root): Ghost<bool>,
    ) -> (r: Result<(), Error>)
        requires
            old(self).pager.wf(),
            2 <= old(self).fan <= MAX_BRANCHING_FACTOR,
            subtree_wf(old(self).pager@, *offset, h, lo, hi, old(self).fan as nat, min, root, -1),
            h > 0 ==> min >= 1,
        ensures
            final(self).pager.wf(),
            final(self).same_config(old(self)),
            final(self).root_offset == old(self).root_offset,
            final(self).height == old(self).height,
            final(self).pager@.len() == old(self).pager@.len(),
            updated(old(self).pager@, final(self).pager@, *offset, h),
            r is Ok <==> tree_map(old(self).pager@, *offset, h).contains_key(key@),
            r is Ok ==> subtree_wf(
                final(self).pager@,
                *offset,
                h,
                lo,
                hi,
                old(self).fan as nat,
                min - 1,
                root,
                -1,
            ) && tree_map(final(self).pager@, *offset, h) == tree_map(
                old(self).pager@,
                *offset,
                h,
            ).remove(key@),
            r matches Err(e) ==> e == Error::KeyNotFound && final(self).pager@ == old(self).pager@,
            r is Ok && h > 0 ==> children_kept(
                node_at(old(self).pager@, *offset).children(),
                node_at(final(self).pager@, *offset).children(),
            ),
            final(self).pager@ == delete_from(
                old(self).pager@,
                *offset,
                h,
                old(self).fan as nat,
                key@,
            ),
        decreases h,
    {
        let ghost s = self.pager@;
        let ghost b = self.fan as nat;
        let ghost k = key@;
        let node_offset = *offset;
        proof {
            lemma_wf_top(s, node_offset, h, lo, hi, b, min, root, -1);
            lemma_decoded_fits(s[node_offset.0 as int]);
            crate::tree::lemma_updated_refl(s, node_offset, h);
        }
        let page = self.pager.get_page(offset)?;
        let node = Node::decode(&page)?;
        let ghost n = node@;
        let is_root = node.is_root;
        let parent_offset = node.parent_offset;
        match node.node_type {
            NodeType::Leaf(mut pairs) => {
                let idx = find_pair_index(&pairs, &key.0);
                proof {
                    lemma_route_bounds(pair_keys(n.pairs()), k);
                }
                if !(idx < pairs.len() && bytes_eq(&pairs[idx].key, &key.0)) {
                    proof {
                        assert(leaf_get(n.pairs(), k) is None);
                        assert(delete_from(s, node_offset, h, b, k) == s);
                    }
                    return Err(Error::KeyNotFound);
                }
                pairs.remove(idx);
                let new_node = Node::new(NodeType::Leaf(pairs), is_root, parent_offset);
                proof {
                    assert(n.pairs()[idx as int].0 == k);
                    assert(pairs_view(pairs@) =~= n.pairs().remove(idx as int));
                    lemma_leaf_remove_fits(n, idx as int, new_node@);
                    lemma_decode_encode(new_node@);
                }
                let page = new_node.encode()?;
                self.pager.write_page_at_offset(page, &node_offset)?;
                proof {
                    lemma_leaf_erased(s, self.pager@, node_offset, lo, hi, b, min, root, idx as int);
                    assert(new_node@ == leaf_without(n, idx as int));
                    assert(self.pager@ == delete_from(s, node_offset, h, b, k));
                }
                Ok(())
            },
            NodeType::Internal(children, keys) => {
                let idx = find_key_index(&keys, &key.0);
                proof {
                    lemma_route_bounds(n.keys(), k);
                }
                if idx >= children.len() {
                    return Err(Error::TreeInvariantViolation);
                }
                let child_offset = children[idx];
                proof {
                    lemma_wf_child(s, node_offset, h, lo, hi, b, min, root, -1, idx as int);
                    lemma_parent_map(s, s, node_offset, h, idx as int, k, k);
                }
                let r = self.delete_key_from_subtree(
                    key,
                    &child_offset,
                    Ghost((h - 1) as nat),
                    Ghost(child_lo(n.keys(), lo, idx as int)),
                    Ghost(child_hi(n.keys(), hi, idx as int)),
                    Ghost(b - 1),
                    Ghost(false),
                );
                match r {
                    Err(e) => {
                        proof {
                            assert(delete_from(s, child_offset, (h - 1) as nat, b, k) == s);
                            assert(delete_from(s, node_offset, h, b, k) == s);
                        }
                        return Err(e);
                    },
                    Ok(()) => {},
                }
                let ghost t = self.pager@;
                proof {
                    lemma_descended(
                        s,
                        s,
                        t,
                        node_offset,
                        h,
                        lo,
                        hi,
                        b,
                        min,
                        root,
                        idx as int,
                        idx as int,
                        k,
                        k,
                    );
                    lemma_wf_child(t, node_offset, h, lo, hi, b, min, root, idx as int, idx as int);
                }
                let child_page = self.pager.get_page(&child_offset)?;
                let child = Node::decode(&child_page)?;
                if self.is_node_underflow(&child) {
                    let r = self.rebalance(
                        children,
                        keys,
                        is_root,
                        parent_offset,
                        node_offset,
                        idx,
                        child,
                        Ghost(h),
                        Ghost(lo),
                        Ghost(hi),
                        Ghost(min),
                        Ghost(root),
                    );
                    proof {
                        lemma_updated_trans(s, t, self.pager@, node_offset, h);
                        assert(self.pager@ == delete_from(s, node_offset, h, b, k));
                    }
                    r
                } else {
                    proof {
                        lemma_weak_ok(t, node_offset, h, lo, hi, b, min, root, idx as int);
                        lemma_min_change(t, node_offset, h, lo, hi, b, min, root, -1, min - 1);
                        lemma_children_kept(n.children(), idx as int);
                        assert(t == delete_from(s, node_offset, h, b, k));
                    }
                    Ok(())
                }
            },
        }
    }

    /// Takes `key` out of the tree. A node that the loss leaves with too
    /// few entries borrows from a neighbour or is merged with one, up to
    /// the root; a root that is left with a single child gives way to
    /// that child. If the tree does not hold `key`, nothing changes.
    pub fn delete(&mut self, key: Key) -> (r: Result<(), Error>)
        requires
            old(self).wf(),
        ensures
            final(self).wf(),
            final(self).whole(),
            final(self).same_config(old(self)),
            r == delete_result(old(self)@, key@),
            final(self)@ == after_delete(old(self)@, key@),
            final(self).pages().len() == old(self).pages().len(),
            r is Err ==> final(self).pages() == old(self).pages() && final(self).root_spec()
                == old(self).root_spec() && final(self).height_spec() == old(self).height_spec(),
            // The tree loses a level only when its root gives way to the one
            // child that it is left with.
            r is Ok ==> final(self).height_spec() == old(self).height_spec() || (
            final(self).height_spec() == old(self).height_spec() - 1
                && final(self).root_spec() != old(self).root_spec()),
            final(self).root_spec() == old(self).root_spec() ==> final(self).height_spec()
                == old(self).height_spec(),
            // The pages, one by one.
            final(self).pages() == delete_pages(
                old(self).pages(),
                old(self).root_spec(),
                old(self).height_spec(),
                old(self).fan_spec() as nat,
                old(self).b_spec(),
                key@,
            ),
            // The root of a tree that has lost a level was a child of the
            // old root.
            r is Ok && final(self).height_spec() != old(self).height_spec() ==> old(self).root_children().contains(
                final(self).root_spec(),
            ),
    {
        let ghost s = self.pager@;
        let ghost h = self.height@;
        let ghost b = self.fan as nat;
        let root_offset = self.root_offset;
        proof {
            lemma_superblock_outside(s, root_offset, h, None, None, b, root_min(h), true, -1);
        }
        let r = self.delete_key_from_subtree(
            key,
            &root_offset,
            Ghost(h),
            Ghost(None),
            Ghost(None),
            Ghost(root_min(h)),
            Ghost(true),
        );
        match r {
            Err(e) => {
                proof {
                    assert(old(self)@.remove(key@) =~= old(self)@);
                    lemma_wf_top(s, root_offset, h, None, None, b, root_min(h), true, -1);
                    assert(delete_pages(s, root_offset, h, b, self.b, key@) == s);
                }
                return Err(e);
            },
            Ok(()) => {},
        }
        let ghost t = self.pager@;
        proof {
            assert(t[Offset(0).0 as int] == s[Offset(0).0 as int]);
            lemma_wf_top(t, root_offset, h, None, None, b, root_min(h) - 1, true, -1);
        }
        let root_page = self.pager.get_page(&root_offset)?;
        let root = Node::decode(&root_page)?;
        match root.node_type {
            NodeType::Internal(children, keys) => {
                if keys.len() == 0 {
                    if children.len() != 1 {
                        return Err(Error::TreeInvariantViolation);
                    }
                    let child_offset = children[0];
                    proof {
                        lemma_wf_child(
                            t,
                            root_offset,
                            h,
                            None,
                            None,
                            b,
                            root_min(h) - 1,
                            true,
                            -1,
                            0,
                        );
                        lemma_decoded_fits(t[child_offset.0 as int]);
                    }
                    let child_page = self.pager.get_page(&child_offset)?;
                    let mut child = Node::decode(&child_page)?;
                    child.is_root = true;
                    child.parent_offset = None;
                    proof {
                        assert(encode_error(child@) is None);
                        lemma_decode_encode(child@);
                        assert(child@ == as_root(node_at(t, child_offset)));
                    }
                    let page = child.encode()?;
                    self.pager.write_page_at_offset(page, &child_offset)?;
                    self.root_offset = child_offset;
                    self.height = Ghost((h - 1) as nat);
                    let ghost u = self.pager@;
                    proof {
                        lemma_reflagged(
                            t,
                            u,
                            child_offset,
                            (h - 1) as nat,
                            None,
                            None,
                            b,
                            b - 1,
                            false,
                            root_min((h - 1) as nat),
                            true,
                        );
                        assert(tree_map(t, root_offset, h) =~= tree_map(
                            t,
                            child_offset,
                            (h - 1) as nat,
                        )) by {
                            assert forall|key2: Seq<u8>|
                                lookup(t, root_offset, h, key2) == lookup(
                                    t,
                                    child_offset,
                                    (h - 1) as nat,
                                    key2,
                                ) by {
                                lemma_route_bounds(node_at(t, root_offset).keys(), key2);
                            }
                        }
                    }
                    self.write_superblock()?;
                    proof {
                        lemma_superblock_frame(
                            u,
                            self.pager@,
                            child_offset,
                            (h - 1) as nat,
                            None,
                            None,
                            b,
                            root_min((h - 1) as nat),
                            true,
                            -1,
                        );
                    }
                } else {
                    proof {
                        lemma_min_change(
                            t,
                            root_offset,
                            h,
                            None,
                            None,
                            b,
                            root_min(h) - 1,
                            true,
                            -1,
                            root_min(h),
                        );
                    }
                }
            },
            NodeType::Leaf(_) => {
                proof {
                    lemma_min_change(
                        t,
                        root_offset,
                        h,
                        None,
                        None,
                        b,
                        root_min(h) - 1,
                        true,
                        -1,
                        root_min(h),
                    );
                }
            },
        }
        Ok(())
    }
}

/// An on-disk B+Tree. Every node lies in a page of the store; the leaves
/// hold the values. Page 0 is the superblock: it records where the root
/// lies and the branching parameter.
///
/// The pages of a tree are well-formed at all times: that is an invariant
/// of the type, so no operation asks its caller for it. The one tree that
/// is not well-formed is a tree without pages, which is what is left of a
/// tree if an operation on it was broken off; it answers every change with
/// `TreeInvariantViolation`.
pub struct BTree {
    core: Engine,
}

impl View for BTree {
    type V = Map<Seq<u8>, Seq<u8>>;

    /// The keys of the tree with their values.
    closed spec fn view(&self) -> Map<Seq<u8>, Seq<u8>> {
        self.core@
    }
}

impl BTree {
    /// What holds of every tree: its pages are whole pages, and they hold
    /// a well-formed tree unless there are none.
    #[verifier::type_invariant]
    spec fn admitted(self) -> bool {
        self.core.whole() && (self.core.detached() || self.core.wf())
    }

    /// The pages of the store hold a well-formed tree under the root, and
    /// the superblock records the root and the branching parameter.
    pub closed spec fn wf(&self) -> bool {
        self.core.wf()
    }

    /// The branching parameter.
    pub closed spec fn b_spec(&self) -> usize {
        self.core.b_spec()
    }

    /// The branching parameter that the nodes are kept by: the branching
    /// parameter itself, but 2 where that is 1.
    pub closed spec fn fan_spec(&self) -> usize {
        self.core.fan_spec()
    }

    /// The path of the tree's file.
    pub closed spec fn path_spec(&self) -> Seq<char> {
        self.core.path_spec()
    }

    /// The pages of the store.
    pub closed spec fn pages(&self) -> Seq<Seq<u8>> {
        self.core.pages()
    }

    /// The offset of the root.
    pub closed spec fn root_spec(&self) -> Offset {
        self.core.root_spec()
    }

    /// The height of the tree: 0 if the root is a leaf.
    pub closed spec fn height_spec(&self) -> nat {
        self.core.height_spec()
    }

    /// Every page of the store is a whole page.
    pub closed spec fn whole(&self) -> bool {
        self.core.whole()
    }

    /// The pairs of the tree, leaf after leaf from left to right.
    pub closed spec fn pairs(&self) -> Seq<(Seq<u8>, Seq<u8>)> {
        self.core.pairs()
    }

    /// Page `p` holds a node of the tree.
    pub closed spec fn holds_page(&self, p: Offset) -> bool {
        self.core.holds_page(p)
    }

    /// The node that page `p` holds.
    pub closed spec fn node_spec(&self, p: Offset) -> NodeView {
        self.core.node_spec(p)
    }

    /// What a search for `key` answers: what it meets on its way down from
    /// the root, through as many levels as the store has pages at most.
    pub open spec fn search_answer(&self, key: Seq<u8>) -> Result<(Seq<u8>, Seq<u8>), Error> {
        search_walk(self.pages(), self.root_spec(), self.pages().len(), key)
    }

    /// The children of the root; a root that is a leaf has none.
    pub open spec fn root_children(&self) -> Seq<Offset> {
        self.node_spec(self.root_spec()).children()
    }

    /// The root holds as many entries as a node may.
    pub open spec fn root_is_full(&self) -> bool {
        self.node_spec(self.root_spec()).entries() == 2 * self.fan_spec() - 1
    }

    /// The tree `other` has the branching parameter and the path of this one.
    pub open spec fn same_config(&self, other: &BTree) -> bool {
        self.b_spec() == other.b_spec() && self.path_spec() == other.path_spec()
            && self.fan_spec() == other.fan_spec()
    }

    /// What it means for a tree to be well-formed and to hold a map: the
    /// pages under the root are a well-formed subtree without bounds, the
    /// superblock records the root and the branching parameter, and the
    /// tree maps each key to what a search from the root finds for it.
    pub proof fn lemma_tree_meaning(&self)
        ensures
            self.wf() ==> {
                &&& self.whole()
                &&& 1 <= self.b_spec() <= MAX_BRANCHING_FACTOR
                &&& self.fan_spec() == effective_b(self.b_spec())
                &&& subtree_wf(
                    self.pages(),
                    self.root_spec(),
                    self.height_spec(),
                    None,
                    None,
                    self.fan_spec() as nat,
                    root_min(self.height_spec()),
                    true,
                    -1,
                )
                &&& superblock_root(self.pages()[0]) == self.root_spec().0
                &&& superblock_b(self.pages()[0]) == self.b_spec()
                &&& holds_tree(self.pages())
            },
            self@ == tree_map(self.pages(), self.root_spec(), self.height_spec()),
            self.pairs() == subtree_pairs(self.pages(), self.root_spec(), self.height_spec()),
            forall|p: Offset|
                self.holds_page(p) == in_subtree(
                    self.pages(),
                    self.root_spec(),
                    self.height_spec(),
                    p,
                ),
            forall|p: Offset| self.node_spec(p) == node_at(self.pages(), p),
    {
        self.core.lemma_tree_meaning();
    }

    /// The keys of a well-formed tree, leaf after leaf from left to right,
    /// ascend strictly.
    pub proof fn lemma_pairs_ascend(&self)
        requires
            self.wf(),
        ensures
            sorted(pair_keys(self.pairs())),
    {
        self.core.lemma_pairs_ascend();
    }

    /// The leaves of a well-formed tree hold the keys of the tree with
    /// their values, each once: as many pairs as the tree has keys.
    pub proof fn lemma_pairs_are_map(&self)
        requires
            self.wf(),
        ensures
            forall|key: Seq<u8>|
                self@.contains_key(key) == (#[trigger] leaf_get(self.pairs(), key) is Some),
            forall|key: Seq<u8>|
                self@.contains_key(key) ==> leaf_get(self.pairs(), key) == Some(
                    #[trigger] self@[key],
                ),
            forall|i: int|
                0 <= i < self.pairs().len() ==> self@.contains_key((#[trigger] self.pairs()[i]).0)
                    && self@[self.pairs()[i].0] == self.pairs()[i].1,
            self@.dom().finite(),
            self@.dom().len() == self.pairs().len(),
    {
        self.core.lemma_pairs_are_map();
    }

    /// In a well-formed tree every node but the root holds between
    /// `fan - 1` and `2 * fan - 1` entries, where `fan` is the branching
    /// parameter that the nodes are kept by: the branching parameter `b`
    /// itself wherever that is at least 2. An internal node has one child
    /// more than keys, and no node but the root says that it is the root.
    pub proof fn lemma_branching(&self, p: Offset)
        requires
            self.wf(),
            self.holds_page(p),
            p != self.root_spec(),
        ensures
            self.fan_spec() - 1 <= self.node_spec(p).entries() <= 2 * self.fan_spec() - 1,
            self.b_spec() >= 2 ==> self.b_spec() - 1 <= self.node_spec(p).entries() <= 2
                * self.b_spec() - 1,
            self.node_spec(p).kind is Internal ==> self.node_spec(p).children().len()
                == self.node_spec(p).keys().len() + 1,
            !self.node_spec(p).is_root,
    {
        self.core.lemma_branching(p);
    }

    /// A deletion of a key that the tree holds leaves one pair less in the
    /// leaves, and every other key with its value.
    pub proof fn lemma_delete_one_pair_less(&self, after: &BTree, key: Seq<u8>)
        requires
            self.wf(),
            after.wf(),
            self@.contains_key(key),
            after@ == after_delete(self@, key),
        ensures
            after.pairs().len() == self.pairs().len() - 1,
            forall|other: Seq<u8>|
                other != key ==> after@.contains_key(other) == self@.contains_key(other) && (
                self@.contains_key(other) ==> after@[other] == self@[other]),
    {
        self.core.lemma_delete_one_pair_less(&after.core, key);
    }

    /// Two well-formed trees over the same pages are the same tree: the
    /// superblock tells the root and the branching parameter, and the
    /// pages under the root tell the rest. A tree opened from the pages of
    /// another holds what that one holds.
    pub proof fn lemma_same_pages_same_tree(&self, other: &BTree)
        requires
            self.wf(),
            other.wf(),
            self.pages() == other.pages(),
        ensures
            self.root_spec() == other.root_spec(),
            self.b_spec() == other.b_spec(),
            self.height_spec() == other.height_spec(),
            self@ == other@,
            self.pairs() == other.pairs(),
    {
        self.core.lemma_same_pages_same_tree(&other.core);
    }

    /// The branching parameter.
    pub fn b(&self) -> (b: usize)
        ensures
            b == self.b_spec(),
    {
        self.core.b()
    }

    /// The path of the tree's file.
    pub fn path(&self) -> (path: &'static str)
        ensures
            path@ == self.path_spec(),
    {
        self.core.path()
    }

    /// The offset of the root.
    pub fn root_offset(&self) -> (offset: Offset)
        ensures
            offset == self.root_spec(),
    {
        self.core.root_offset()
    }

    /// The store, for writing its pages to the tree's file.
    pub fn pager(&self) -> (pager: &Pager)
        ensures
            pager@ == self.pages(),
            pager.wf(),
    {
        proof {
            use_type_invariant(self);
        }
        self.core.pager()
    }

    /// The tree that the pages of `pager` hold, for the file at `path`. The
    /// superblock tells the root and the branching parameter; every page
    /// under the root is read and held against the rules of the tree. A
    /// store that breaks one of them is refused as corrupt.
    pub fn open(path: &'static str, pager: Pager) -> (r: Result<BTree, Error>)
        requires
            pager.wf(),
        ensures
            r is Ok <==> path@.len() > 0 && holds_tree(pager@),
            r matches Ok(tree) ==> {
                &&& tree.wf()
                &&& tree.whole()
                &&& tree.pages() == pager@
                &&& tree.path_spec() == path@
                &&& tree.b_spec() == superblock_b(pager@[0])
                &&& tree.fan_spec() == effective_b(tree.b_spec())
                &&& tree.root_spec().0 == superblock_root(pager@[0])
            },
            r matches Err(e) ==> e == if path@.len() == 0 {
                Error::ConfigError
            } else {
                Error::CorruptPage
            },
    {
        match Engine::open(path, pager) {
            Ok(core) => Ok(BTree { core }),
            Err(e) => Err(e),
        }
    }

    /// The pair stored under `key`, or `KeyNotFound`. Nothing changes.
    pub fn search(&self, key: Vec<u8>) -> (r: Result<KeyValuePair, Error>)
        ensures
            self.search_answer(key@) matches Ok(found) ==> (r matches Ok(pair) && pair@ == found),
            self.search_answer(key@) matches Err(e) ==> r == Err::<KeyValuePair, Error>(e),
            self.wf() ==> self.search_answer(key@) == search_result(self@, key@),
    {
        proof {
            use_type_invariant(self);
        }
        self.core.search(key)
    }

    /// Puts a pair into the tree, splitting full nodes on the way down. A
    /// key or a value that is too long for its cell, or a key that the
    /// tree holds already, is refused, and the tree holds what it held.
    pub fn insert(&mut self, kv: KeyValuePair) -> (r: Result<(), Error>)
        ensures
            final(self).wf() == old(self).wf(),
            final(self).whole(),
            final(self).same_config(old(self)),
            // A tree that an operation was broken off in stays as it is.
            !old(self).wf() ==> r == Err::<(), Error>(Error::TreeInvariantViolation) && final(self).pages() == old(self).pages() && final(self).root_spec() == old(self).root_spec(),
            old(self).wf() ==> r == insert_result(old(self)@, kv@.0, kv@.1),
            old(self).wf() ==> final(self)@ == after_insert(old(self)@, kv@.0, kv@.1),
            old(self).pages().len() <= final(self).pages().len(),
            r matches Err(e) && e != Error::DuplicateKey ==> final(self).pages() == old(self).pages()
                && final(self).root_spec() == old(self).root_spec() && final(self).height_spec()
                == old(self).height_spec(),
            // The tree grows by one level exactly when its root is full,
            // and the new root then lies in the first new page.
            r is Ok || r == Err::<(), Error>(Error::DuplicateKey) ==> if old(self).root_is_full() {
                final(self).height_spec() == old(self).height_spec() + 1
                    && final(self).root_spec().0 == old(self).pages().len()
            } else {
                final(self).height_spec() == old(self).height_spec()
                    && final(self).root_spec() == old(self).root_spec()
            },
            // The pages, one by one.
            old(self).wf() ==> final(self).pages() == insert_pages(
                old(self).pages(),
                old(self).root_spec(),
                old(self).height_spec(),
                old(self).fan_spec() as nat,
                old(self).b_spec(),
                kv@.0,
                kv@.1,
            ),
            // One page is appended for each full node on the way down, and
            // one more for the new root if the root is full.
            r is Ok || r == Err::<(), Error>(Error::DuplicateKey) ==> final(self).pages().len()
                == old(self).pages().len() + (if old(self).root_is_full() {
                2nat
            } else {
                0nat
            }) + splits_below(
                old(self).pages(),
                old(self).root_spec(),
                old(self).height_spec(),
                old(self).fan_spec() as nat,
                kv@.0,
            ),
            // A page off the way down stays as it was, and so does the
            // superblock unless the root is split.
            forall|p: Offset|
                0 < p.0 < old(self).pages().len() && !on_path(
                    old(self).pages(),
                    old(self).root_spec(),
                    old(self).height_spec(),
                    kv@.0,
                    p,
                ) ==> #[trigger] final(self).pages()[p.0 as int] == old(self).pages()[p.0 as int],
            old(self).wf() && !old(self).root_is_full() ==> final(self).pages()[0] == old(self).pages()[0],
            // A full root gives way to a new root over its two halves with
            // its median between them; the old root names the new root as
            // its parent and is the root no more.
            (r is Ok || r == Err::<(), Error>(Error::DuplicateKey)) && old(self).root_is_full() ==> {
                &&& final(self).node_spec(final(self).root_spec()) == new_root(
                    old(self).root_spec(),
                    split_median(
                        old(self).node_spec(old(self).root_spec()),
                        old(self).fan_spec() as nat,
                    ),
                    Offset((old(self).pages().len() + 1) as usize),
                )
                &&& !final(self).node_spec(old(self).root_spec()).is_root
                &&& final(self).node_spec(old(self).root_spec()).parent == Some(
                    final(self).root_spec(),
                )
            },
    {
        proof {
            use_type_invariant(&*self);
        }
        if self.core.is_detached() {
            return Err(Error::TreeInvariantViolation);
        }
        let mut core = Engine::placeholder();
        std::mem::swap(&mut core, &mut self.core);
        let r = core.insert(kv);
        std::mem::swap(&mut core, &mut self.core);
        r
    }

    /// Takes `key` out of the tree. A node that the loss leaves with too
    /// few entries borrows from a neighbour or is merged with one, up to
    /// the root; a root that is left with a single child gives way to
    /// that child. If the tree does not hold `key`, nothing changes.
    pub fn delete(&mut self, key: Key) -> (r: Result<(), Error>)
        ensures
            final(self).wf() == old(self).wf(),
            final(self).whole(),
            final(self).same_config(old(self)),
            // A tree that an operation was broken off in stays as it is.
            !old(self).wf() ==> r == Err::<(), Error>(Error::TreeInvariantViolation),
            old(self).wf() ==> r == delete_result(old(self)@, key@),
            old(self).wf() ==> final(self)@ == after_delete(old(self)@, key@),
            final(self).pages().len() == old(self).pages().len(),
            r is Err ==> final(self).pages() == old(self).pages() && final(self).root_spec()
                == old(self).root_spec() && final(self).height_spec() == old(self).height_spec(),
            // The tree loses a level only when its root gives way to the one
            // child that it is left with.
            r is Ok ==> final(self).height_spec() == old(self).height_spec() || (
            final(self).height_spec() == old(self).height_spec() - 1
                && final(self).root_spec() != old(self).root_spec()),
            final(self).root_spec() == old(self).root_spec() ==> final(self).height_spec()
                == old(self).height_spec(),
            // The pages, one by one.
            old(self).wf() ==> final(self).pages() == delete_pages(
                old(self).pages(),
                old(self).root_spec(),
                old(self).height_spec(),
                old(self).fan_spec() as nat,
                old(self).b_spec(),
                key@,
            ),
            // The root of a tree that has lost a level was a child of the
            // old root.
            r is Ok && final(self).height_spec() != old(self).height_spec() ==> old(self).root_children().contains(final(self).root_spec()),
    {
        proof {
            use_type_invariant(&*self);
        }
        if self.core.is_detached() {
            return Err(Error::TreeInvariantViolation);
        }
        let mut core = Engine::placeholder();
        std::mem::swap(&mut core, &mut self.core);
        let r = core.delete(key);
        std::mem::swap(&mut core, &mut self.core);
        r
    }
}

/// What splitting a child gives: the child with its first half, the new
/// sibling with the second, where the sibling was written, and the key
/// that parts the two.
struct SplitChild {
    child: Node,
    sibling: Node,
    sibling_offset: Offset,
    median: Key,
}

} // verus!
