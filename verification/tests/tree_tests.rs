use btree::btree::{BTree, BTreeBuilder, MAX_BRANCHING_FACTOR, NODE_KEYS_LIMIT};
use btree::error::Error;
use btree::node::Node;
use btree::node_type::{Key, KeyValuePair, NodeType, Offset};

fn k(s: &str) -> Vec<u8> {
    s.as_bytes().to_vec()
}

fn kv(key: &str, value: &str) -> KeyValuePair {
    KeyValuePair::new(k(key), k(value))
}

fn tree(b: usize) -> BTree {
    match BTreeBuilder::new().path("/tmp/db").b_parameter(b).build() {
        Ok(tree) => tree,
        Err(e) => panic!("build failed: {:?}", e),
    }
}

fn node_at(tree: &BTree, offset: Offset) -> Node {
    let page = tree.pager().get_page(&offset).unwrap();
    Node::decode(&page).unwrap()
}

/// Walks the subtree at `offset`, checks every rule of the tree on the way,
/// appends the pairs of its leaves to `out`, and gives the height.
fn walk(
    tree: &BTree,
    offset: Offset,
    is_root: bool,
    lo: Option<Vec<u8>>,
    hi: Option<Vec<u8>>,
    out: &mut Vec<KeyValuePair>,
) -> usize {
    // A tree with the branching parameter 1 keeps its nodes as one with 2 does.
    let b = if tree.b() < 2 { 2 } else { tree.b() };
    let node = node_at(tree, offset);
    assert_eq!(node.is_root, is_root);
    match node.node_type {
        NodeType::Leaf(pairs) => {
            assert!(pairs.len() <= 2 * b - 1);
            if !is_root {
                assert!(pairs.len() >= b - 1);
            }
            for i in 0..pairs.len() {
                if i > 0 {
                    assert!(pairs[i - 1].key < pairs[i].key);
                }
                if let Some(l) = &lo {
                    assert!(l < &pairs[i].key);
                }
                if let Some(h) = &hi {
                    assert!(&pairs[i].key <= h);
                }
                out.push(pairs[i].clone());
            }
            0
        }
        NodeType::Internal(children, keys) => {
            assert_eq!(children.len(), keys.len() + 1);
            assert!(keys.len() <= 2 * b - 1);
            if is_root {
                assert!(keys.len() >= 1);
            } else {
                assert!(keys.len() >= b - 1);
            }
            for i in 1..keys.len() {
                assert!(keys[i - 1].0 < keys[i].0);
            }
            let mut height = None;
            for i in 0..children.len() {
                let child_lo = if i == 0 { lo.clone() } else { Some(keys[i - 1].0.clone()) };
                let child_hi = if i == keys.len() { hi.clone() } else { Some(keys[i].0.clone()) };
                let h = walk(tree, children[i], false, child_lo, child_hi, out);
                match height {
                    None => height = Some(h),
                    Some(first) => assert_eq!(first, h),
                }
            }
            height.unwrap() + 1
        }
    }
}

fn check(tree: &BTree) -> Vec<KeyValuePair> {
    let mut out = Vec::new();
    walk(tree, tree.root_offset(), true, None, None, &mut out);
    for i in 1..out.len() {
        assert!(out[i - 1].key < out[i].key);
    }
    out
}

fn leaf_keys(node: &Node) -> Vec<Vec<u8>> {
    match &node.node_type {
        NodeType::Leaf(pairs) => pairs.iter().map(|p| p.key.clone()).collect(),
        NodeType::Internal(_, _) => panic!("not a leaf"),
    }
}

fn parts(node: &Node) -> (Vec<Offset>, Vec<Vec<u8>>) {
    match &node.node_type {
        NodeType::Internal(children, keys) => {
            (children.clone(), keys.iter().map(|key| key.0.clone()).collect())
        }
        NodeType::Leaf(_) => panic!("not an internal node"),
    }
}

fn seven(b: usize) -> BTree {
    let mut t = tree(b);
    for key in ["4", "2", "6", "1", "3", "5", "7"] {
        assert_eq!(t.insert(kv(key, &format!("v{}", key))), Ok(()));
    }
    t
}

#[test]
fn scenario_seven_keys() {
    let mut t = tree(2);
    for key in ["4", "2", "6"] {
        assert_eq!(t.insert(kv(key, &format!("v{}", key))), Ok(()));
    }
    // Three pairs fill the root leaf.
    let root = node_at(&t, t.root_offset());
    assert!(root.is_root);
    assert_eq!(leaf_keys(&root), vec![k("2"), k("4"), k("6")]);
    // The fourth insertion splits the root.
    assert_eq!(t.insert(kv("1", "v1")), Ok(()));
    let root = node_at(&t, t.root_offset());
    let (children, keys) = parts(&root);
    assert!(root.is_root);
    assert_eq!(keys, vec![k("4")]);
    assert_eq!(children.len(), 2);
    assert_eq!(leaf_keys(&node_at(&t, children[0])), vec![k("1"), k("2"), k("4")]);
    assert_eq!(leaf_keys(&node_at(&t, children[1])), vec![k("6")]);
    for key in ["3", "5", "7"] {
        assert_eq!(t.insert(kv(key, &format!("v{}", key))), Ok(()));
    }
    let root = node_at(&t, t.root_offset());
    let (children, keys) = parts(&root);
    assert_eq!(keys, vec![k("2"), k("4")]);
    assert_eq!(leaf_keys(&node_at(&t, children[0])), vec![k("1"), k("2")]);
    assert_eq!(leaf_keys(&node_at(&t, children[1])), vec![k("3"), k("4")]);
    assert_eq!(leaf_keys(&node_at(&t, children[2])), vec![k("5"), k("6"), k("7")]);
    assert_eq!(t.search(k("5")), Ok(kv("5", "v5")));
    assert_eq!(check(&t).len(), 7);
    assert_eq!(t.delete(Key(k("4"))), Ok(()));
    assert_eq!(t.search(k("4")), Err(Error::KeyNotFound));
    let left = check(&t);
    assert_eq!(left.len(), 6);
    for key in ["1", "2", "3", "5", "6", "7"] {
        assert_eq!(t.search(k(key)), Ok(kv(key, &format!("v{}", key))));
    }
}

#[test]
fn fresh_tree_is_an_empty_root_leaf() {
    let t = tree(2);
    assert_eq!(t.b(), 2);
    assert_eq!(t.path(), "/tmp/db");
    assert_eq!(t.root_offset(), Offset(1));
    assert_eq!(t.pager().cursor(), 2);
    let root = node_at(&t, Offset(1));
    assert!(root.is_root);
    assert_eq!(root.parent_offset, None);
    assert_eq!(root.node_type, NodeType::Leaf(vec![]));
    assert_eq!(t.search(k("a")), Err(Error::KeyNotFound));
}

#[test]
fn superblock_records_root_and_b() {
    let mut t = tree(2);
    let sb = t.pager().get_page(&Offset(0)).unwrap();
    assert_eq!(sb.read_u64(0), Ok(1));
    assert_eq!(sb.read_u64(8), Ok(2));
    for key in ["4", "2", "6", "1"] {
        t.insert(kv(key, "v")).unwrap();
    }
    // The root was split: the new root lies in the first page after the old ones.
    assert_eq!(t.root_offset(), Offset(2));
    let sb = t.pager().get_page(&Offset(0)).unwrap();
    assert_eq!(sb.read_u64(0), Ok(2));
    assert_eq!(sb.read_u64(8), Ok(2));
    // The old root kept its page, its sibling took the next new one.
    let (children, _) = parts(&node_at(&t, t.root_offset()));
    assert_eq!(children, vec![Offset(1), Offset(3)]);
    assert_eq!(node_at(&t, Offset(1)).parent_offset, Some(Offset(2)));
    assert_eq!(node_at(&t, Offset(3)).parent_offset, Some(Offset(2)));
    assert!(!node_at(&t, Offset(1)).is_root);
}

#[test]
fn build_rejects_empty_path() {
    assert!(matches!(BTreeBuilder::new().b_parameter(2).build(), Err(Error::ConfigError)));
}

#[test]
fn build_rejects_zero_b() {
    assert!(matches!(BTreeBuilder::new().path("/tmp/db").build(), Err(Error::ConfigError)));
    assert!(matches!(
        BTreeBuilder::new().path("/tmp/db").b_parameter(0).build(),
        Err(Error::ConfigError)
    ));
}

#[test]
fn build_accepts_b_one() {
    let mut t = tree(1);
    assert_eq!(t.b(), 1);
    assert_eq!(t.root_offset(), Offset(1));
    let sb = t.pager().get_page(&Offset(0)).unwrap();
    assert_eq!(sb.read_u64(8), Ok(1));
    for i in 0..100u32 {
        let key = format!("{:03}", (i * 37) % 100);
        assert_eq!(t.insert(kv(&key, &format!("v{}", key))), Ok(()));
        assert_eq!(check(&t).len(), i as usize + 1);
    }
    for i in 0..100u32 {
        let key = format!("{:03}", i);
        assert_eq!(t.search(k(&key)), Ok(kv(&key, &format!("v{}", key))));
    }
    assert_eq!(t.insert(kv("050", "w")), Err(Error::DuplicateKey));
    assert_eq!(t.search(k("100")), Err(Error::KeyNotFound));
    for i in 0..100u32 {
        let key = format!("{:03}", (i * 53) % 100);
        assert_eq!(t.delete(Key(k(&key))), Ok(()));
        assert_eq!(t.search(k(&key)), Err(Error::KeyNotFound));
        assert_eq!(check(&t).len(), 99 - i as usize);
    }
    assert_eq!(t.delete(Key(k("000"))), Err(Error::KeyNotFound));
    // The superblock still tells 1.
    let sb = t.pager().get_page(&Offset(0)).unwrap();
    assert_eq!(sb.read_u64(8), Ok(1));
}

#[test]
fn tree_with_b_one_splits_as_with_b_two() {
    let mut one = tree(1);
    let mut two = tree(2);
    for key in ["4", "2", "6", "1", "3", "5", "7"] {
        one.insert(kv(key, "v")).unwrap();
        two.insert(kv(key, "v")).unwrap();
    }
    assert_eq!(one.root_offset(), two.root_offset());
    assert_eq!(one.pager().cursor(), two.pager().cursor());
    for i in 1..one.pager().cursor() {
        assert_eq!(
            one.pager().get_page(&Offset(i)).unwrap().to_bytes(),
            two.pager().get_page(&Offset(i)).unwrap().to_bytes()
        );
    }
}

#[test]
fn build_rejects_b_too_large_for_a_page() {
    assert_eq!(MAX_BRANCHING_FACTOR, 102);
    assert_eq!(NODE_KEYS_LIMIT, 203);
    assert!(matches!(
        BTreeBuilder::new().path("/tmp/db").b_parameter(MAX_BRANCHING_FACTOR + 1).build(),
        Err(Error::ConfigError)
    ));
    assert!(matches!(
        BTreeBuilder::new().path("/tmp/db").b_parameter(usize::MAX).build(),
        Err(Error::ConfigError)
    ));
    assert!(BTreeBuilder::new().path("/tmp/db").b_parameter(MAX_BRANCHING_FACTOR).build().is_ok());
}

#[test]
fn default_builder_asks_for_more_than_a_page_holds() {
    // The default branching parameter is 200, which a page of 4096 bytes does
    // not hold; the default path is /tmp/db.
    assert!(matches!(BTreeBuilder::default().build(), Err(Error::ConfigError)));
    let t = match BTreeBuilder::default().b_parameter(MAX_BRANCHING_FACTOR).build() {
        Ok(t) => t,
        Err(e) => panic!("{:?}", e),
    };
    assert_eq!(t.b(), MAX_BRANCHING_FACTOR);
    assert_eq!(t.path(), "/tmp/db");
    assert!(matches!(BTreeBuilder::default().b_parameter(199).build(), Err(Error::ConfigError)));
}

fn pages(t: &BTree) -> Vec<Vec<u8>> {
    (0..t.pager().cursor()).map(|i| t.pager().get_page(&Offset(i)).unwrap().to_bytes()).collect()
}

#[test]
fn insert_appends_one_page_for_each_split() {
    let mut t = tree(2);
    assert_eq!(t.pager().cursor(), 2);
    for key in ["4", "2", "6"] {
        t.insert(kv(key, "v")).unwrap();
        // A leaf with room is rewritten in place.
        assert_eq!(t.pager().cursor(), 2);
    }
    // The root is full: one page for the new root, one for the second half.
    t.insert(kv("1", "v")).unwrap();
    assert_eq!(t.pager().cursor(), 4);
    // The leaf on the way is full: one page for its second half.
    t.insert(kv("3", "v")).unwrap();
    assert_eq!(t.pager().cursor(), 5);
    t.insert(kv("5", "v")).unwrap();
    assert_eq!(t.pager().cursor(), 5);
    t.insert(kv("7", "v")).unwrap();
    assert_eq!(t.pager().cursor(), 5);
    // A key that is there already still splits the full leaf on its way.
    assert_eq!(t.insert(kv("6", "w")), Err(Error::DuplicateKey));
    assert_eq!(t.pager().cursor(), 6);
    assert_eq!(check(&t).len(), 7);
    assert_eq!(t.search(k("6")), Ok(kv("6", "v")));
}

#[test]
fn insert_leaves_pages_off_the_way_as_they_were() {
    let mut t = seven(2);
    // Leaves [1,2] [3,4] [5,6,7] under the root; 0 goes to the first leaf.
    let before = pages(&t);
    let (children, _) = parts(&node_at(&t, t.root_offset()));
    assert_eq!(t.insert(kv("0", "v0")), Ok(()));
    let after = pages(&t);
    assert_eq!(after.len(), before.len());
    for i in 0..before.len() {
        if i == children[0].0 {
            assert_ne!(before[i], after[i]);
        } else {
            assert_eq!(before[i], after[i]);
        }
    }
    assert_eq!(leaf_keys(&node_at(&t, children[0])), vec![k("0"), k("1"), k("2")]);
}

#[test]
fn insert_splits_a_full_child_at_its_median() {
    let mut t = tree(2);
    for key in ["4", "2", "6", "1"] {
        t.insert(kv(key, &format!("v{}", key))).unwrap();
    }
    let root_before = t.root_offset();
    let (children_before, _) = parts(&node_at(&t, root_before));
    let cursor = t.pager().cursor();
    // 3 goes to the full leaf [1,2,4]: its median 2 goes up, and 3 goes into
    // the second half, which lies in the first new page.
    assert_eq!(t.insert(kv("3", "v3")), Ok(()));
    assert_eq!(t.root_offset(), root_before);
    let (children, keys) = parts(&node_at(&t, root_before));
    assert_eq!(keys, vec![k("2"), k("4")]);
    assert_eq!(children, vec![children_before[0], Offset(cursor), children_before[1]]);
    assert_eq!(leaf_keys(&node_at(&t, children[0])), vec![k("1"), k("2")]);
    assert_eq!(
        node_at(&t, Offset(cursor)).node_type,
        NodeType::Leaf(vec![kv("3", "v3"), kv("4", "v4")])
    );
    assert_eq!(leaf_keys(&node_at(&t, children[2])), vec![k("6")]);
    assert_eq!(node_at(&t, Offset(cursor)).parent_offset, Some(root_before));
}

#[test]
fn search_after_insert_finds_every_key() {
    let mut t = tree(2);
    let mut keys: Vec<u32> = Vec::new();
    let mut x: u32 = 17;
    for _ in 0..300 {
        x = x.wrapping_mul(1103515245).wrapping_add(12345) % 100000;
        if !keys.contains(&x) {
            keys.push(x);
        }
    }
    for key in &keys {
        assert_eq!(t.insert(kv(&format!("{:05}", key), &format!("v{}", key))), Ok(()));
    }
    for key in &keys {
        assert_eq!(
            t.search(k(&format!("{:05}", key))),
            Ok(kv(&format!("{:05}", key), &format!("v{}", key)))
        );
    }
    for probe in 0..1000u32 {
        if !keys.contains(&probe) {
            assert_eq!(t.search(k(&format!("{:05}", probe))), Err(Error::KeyNotFound));
        }
    }
    assert_eq!(check(&t).len(), keys.len());
}

#[test]
fn in_order_traversal_is_ascending() {
    let mut t = tree(3);
    for i in 0..200u32 {
        let key = (i * 37) % 200;
        t.insert(kv(&format!("{:03}", key), "v")).unwrap();
    }
    let pairs = check(&t);
    assert_eq!(pairs.len(), 200);
    for i in 0..200usize {
        assert_eq!(pairs[i].key, k(&format!("{:03}", i)));
    }
    for i in 0..200u32 {
        if i % 3 != 0 {
            t.delete(Key(k(&format!("{:03}", (i * 53) % 200)))).unwrap();
        }
    }
    let pairs = check(&t);
    for i in 1..pairs.len() {
        assert!(pairs[i - 1].key < pairs[i].key);
    }
}

#[test]
fn branching_invariants_hold_after_every_operation() {
    for b in [2usize, 3, 4] {
        let mut t = tree(b);
        let mut present: Vec<u32> = Vec::new();
        let mut x: u32 = 7;
        for step in 0..400 {
            x = x.wrapping_mul(1664525).wrapping_add(1013904223);
            let key = (x >> 8) % 150;
            let name = format!("{:03}", key);
            if step % 3 == 2 || present.len() > 100 {
                let r = t.delete(Key(k(&name)));
                if present.contains(&key) {
                    assert_eq!(r, Ok(()));
                    present.retain(|p| *p != key);
                } else {
                    assert_eq!(r, Err(Error::KeyNotFound));
                }
            } else {
                let r = t.insert(kv(&name, &name));
                if present.contains(&key) {
                    assert_eq!(r, Err(Error::DuplicateKey));
                } else {
                    assert_eq!(r, Ok(()));
                    present.push(key);
                }
            }
            let pairs = check(&t);
            assert_eq!(pairs.len(), present.len());
        }
        present.sort();
        let pairs = check(&t);
        for i in 0..present.len() {
            assert_eq!(pairs[i].key, k(&format!("{:03}", present[i])));
        }
    }
}

#[test]
fn delete_removes_exactly_one_pair() {
    let mut t = seven(2);
    let before = check(&t);
    assert_eq!(t.delete(Key(k("3"))), Ok(()));
    let after = check(&t);
    assert_eq!(after.len(), before.len() - 1);
    let mut expected = before.clone();
    expected.retain(|p| p.key != k("3"));
    assert_eq!(after, expected);
    assert_eq!(t.search(k("3")), Err(Error::KeyNotFound));
}

#[test]
fn delete_absent_key_changes_nothing() {
    let mut t = seven(2);
    let pages_before: Vec<Vec<u8>> = (0..t.pager().cursor())
        .map(|i| t.pager().get_page(&Offset(i)).unwrap().to_bytes())
        .collect();
    assert_eq!(t.delete(Key(k("8"))), Err(Error::KeyNotFound));
    assert_eq!(t.delete(Key(k(""))), Err(Error::KeyNotFound));
    assert_eq!(t.delete(Key(k("a key that is too long"))), Err(Error::KeyNotFound));
    let pages_after: Vec<Vec<u8>> = (0..t.pager().cursor())
        .map(|i| t.pager().get_page(&Offset(i)).unwrap().to_bytes())
        .collect();
    assert_eq!(pages_before, pages_after);
    assert_eq!(check(&t).len(), 7);
}

#[test]
fn delete_from_empty_tree() {
    let mut t = tree(2);
    assert_eq!(t.delete(Key(k("1"))), Err(Error::KeyNotFound));
}

#[test]
fn repeated_search_gives_the_same() {
    let t = seven(2);
    let first = t.search(k("5"));
    let second = t.search(k("5"));
    assert_eq!(first, Ok(kv("5", "v5")));
    assert_eq!(first, second);
    assert_eq!(t.search(k("9")), Err(Error::KeyNotFound));
    assert_eq!(t.search(k("9")), Err(Error::KeyNotFound));
}

#[test]
fn insert_rejects_duplicate_key() {
    let mut t = seven(2);
    assert_eq!(t.insert(kv("3", "other")), Err(Error::DuplicateKey));
    assert_eq!(t.search(k("3")), Ok(kv("3", "v3")));
    assert_eq!(check(&t).len(), 7);
}

#[test]
fn insert_rejects_what_does_not_fit_a_cell() {
    let mut t = tree(2);
    assert_eq!(t.insert(kv("0123456789", "v")), Err(Error::KeyOverflow));
    assert_eq!(t.insert(kv("k", "0123456789")), Err(Error::ValueOverflow));
    assert_eq!(t.insert(kv("0123456789", "0123456789")), Err(Error::KeyOverflow));
    assert_eq!(check(&t).len(), 0);
    assert_eq!(t.insert(kv("012345678", "abcdefghi")), Ok(()));
    assert_eq!(t.search(k("012345678")), Ok(kv("012345678", "abcdefghi")));
    assert_eq!(t.insert(kv("", "")), Ok(()));
    assert_eq!(t.search(k("")), Ok(kv("", "")));
}

#[test]
fn keys_order_byte_by_byte() {
    let mut t = tree(2);
    for key in ["b", "a", "ab", "", "B", "aa", "a\u{0}"] {
        t.insert(kv(key, "v")).unwrap();
    }
    let pairs = check(&t);
    let keys: Vec<Vec<u8>> = pairs.iter().map(|p| p.key.clone()).collect();
    assert_eq!(keys, vec![k(""), k("B"), k("a"), k("a\u{0}"), k("aa"), k("ab"), k("b")]);
}

#[test]
fn delete_borrows_from_left_leaf() {
    let mut t = seven(2);
    // Leaves: [1,2] [3,4] [5,6,7] under the keys 2 and 4.
    t.delete(Key(k("4"))).unwrap();
    t.delete(Key(k("3"))).unwrap();
    // The middle leaf was left empty and took the last pair of its left neighbour.
    let (children, keys) = parts(&node_at(&t, t.root_offset()));
    assert_eq!(keys, vec![k("1"), k("4")]);
    assert_eq!(leaf_keys(&node_at(&t, children[0])), vec![k("1")]);
    assert_eq!(leaf_keys(&node_at(&t, children[1])), vec![k("2")]);
    assert_eq!(leaf_keys(&node_at(&t, children[2])), vec![k("5"), k("6"), k("7")]);
    check(&t);
}

#[test]
fn delete_borrows_from_right_leaf() {
    let mut t = seven(2);
    t.delete(Key(k("1"))).unwrap();
    t.delete(Key(k("4"))).unwrap();
    // Leaves: [2] [3] [5,6,7]. Without 3 the middle leaf is empty; its left
    // neighbour has nothing to spare, its right neighbour has.
    t.delete(Key(k("3"))).unwrap();
    let (children, keys) = parts(&node_at(&t, t.root_offset()));
    assert_eq!(keys, vec![k("2"), k("5")]);
    assert_eq!(leaf_keys(&node_at(&t, children[0])), vec![k("2")]);
    assert_eq!(leaf_keys(&node_at(&t, children[1])), vec![k("5")]);
    assert_eq!(leaf_keys(&node_at(&t, children[2])), vec![k("6"), k("7")]);
    check(&t);
}

#[test]
fn delete_merges_leaves_and_collapses_root() {
    let mut t = tree(2);
    for key in ["4", "2", "6", "1"] {
        t.insert(kv(key, "v")).unwrap();
    }
    // Leaves: [1,2,4] [6] under the key 4.
    t.delete(Key(k("1"))).unwrap();
    t.delete(Key(k("2"))).unwrap();
    // Leaves: [4] [6]. Without 6 the right leaf is empty, and its neighbour has
    // nothing to spare: the two are merged, and the root gives way to the leaf.
    let old_left = parts(&node_at(&t, t.root_offset())).0[0];
    t.delete(Key(k("6"))).unwrap();
    assert_eq!(t.root_offset(), old_left);
    let root = node_at(&t, t.root_offset());
    assert!(root.is_root);
    assert_eq!(root.parent_offset, None);
    assert_eq!(leaf_keys(&root), vec![k("4")]);
    let sb = t.pager().get_page(&Offset(0)).unwrap();
    assert_eq!(sb.read_u64(0), Ok(old_left.0 as u64));
    assert_eq!(check(&t).len(), 1);
    t.delete(Key(k("4"))).unwrap();
    assert_eq!(check(&t).len(), 0);
    assert_eq!(t.insert(kv("9", "v")), Ok(()));
    assert_eq!(t.search(k("9")), Ok(kv("9", "v")));
}

#[test]
fn delete_everything_from_a_tall_tree() {
    let mut t = tree(2);
    for i in 0..120u32 {
        t.insert(kv(&format!("{:03}", i), "v")).unwrap();
    }
    let mut out = Vec::new();
    let height = walk(&t, t.root_offset(), true, None, None, &mut out);
    assert!(height >= 3);
    for i in 0..120u32 {
        let key = (i * 77) % 120;
        assert_eq!(t.delete(Key(k(&format!("{:03}", key)))), Ok(()));
        assert_eq!(check(&t).len(), 119 - i as usize);
    }
    assert_eq!(node_at(&t, t.root_offset()).node_type, NodeType::Leaf(vec![]));
}

#[test]
fn largest_b_holds_many_keys() {
    let mut t = tree(MAX_BRANCHING_FACTOR);
    for i in 0..1500u32 {
        let key = (i * 7919) % 1500;
        assert_eq!(t.insert(kv(&format!("{:04}", key), &format!("{}", key))), Ok(()));
    }
    assert_eq!(check(&t).len(), 1500);
    for i in 0..1500u32 {
        if i % 2 == 0 {
            assert_eq!(t.delete(Key(k(&format!("{:04}", i)))), Ok(()));
        }
    }
    assert_eq!(check(&t).len(), 750);
    assert_eq!(t.search(k("0001")), Ok(kv("0001", "1")));
    assert_eq!(t.search(k("0002")), Err(Error::KeyNotFound));
}
