use btree::btree::{BTree, BTreeBuilder};
use btree::error::Error;
use btree::node::Node;
use btree::node_type::{Key, KeyValuePair, NodeType, Offset};
use btree::page::Page;
use btree::pager::Pager;
use btree::sorted::{find_key_index, find_pair_index};
use btree::validate::{check_subtree, keys_in_order, pairs_in_order};

fn by(s: &str) -> Vec<u8> {
    s.as_bytes().to_vec()
}

fn pr(key: &str) -> KeyValuePair {
    KeyValuePair::new(by(key), by(&format!("v{}", key)))
}

fn image(tree: &BTree) -> Vec<u8> {
    let mut bytes = Vec::new();
    for i in 0..tree.pager().cursor() {
        bytes.extend(tree.pager().get_page(&Offset(i)).unwrap().to_bytes());
    }
    bytes
}

fn superblock(root: u64, b: u64) -> Page {
    let mut page = Page::new();
    page.write_u64(0, root).unwrap();
    page.write_u64(8, b).unwrap();
    page
}

fn leaf_page(keys: &[&str], is_root: bool) -> Page {
    Node::new(NodeType::Leaf(keys.iter().map(|key| pr(key)).collect()), is_root, None)
        .encode()
        .unwrap()
}

fn inner_page(children: &[usize], keys: &[&str], is_root: bool) -> Page {
    Node::new(
        NodeType::Internal(
            children.iter().map(|c| Offset(*c)).collect(),
            keys.iter().map(|key| Key(by(key))).collect(),
        ),
        is_root,
        None,
    )
    .encode()
    .unwrap()
}

fn store(pages: Vec<Page>) -> Pager {
    let mut pager = Pager::new();
    for page in pages {
        pager.write_page(page).unwrap();
    }
    pager
}

fn opens(pages: Vec<Page>) -> bool {
    match BTree::open("/tmp/db", store(pages)) {
        Ok(_) => true,
        Err(e) => {
            assert_eq!(e, Error::CorruptPage);
            false
        }
    }
}

#[test]
fn file_image_is_cut_into_pages() {
    let mut bytes = vec![0u8; 3 * 4096];
    bytes[0] = 1;
    bytes[4096] = 2;
    bytes[2 * 4096 + 4095] = 3;
    let pager = Pager::from_bytes(&bytes).unwrap();
    assert_eq!(pager.cursor(), 3);
    assert_eq!(pager.get_page(&Offset(0)).unwrap().read_byte(0), Ok(1));
    assert_eq!(pager.get_page(&Offset(1)).unwrap().read_byte(0), Ok(2));
    assert_eq!(pager.get_page(&Offset(2)).unwrap().read_byte(4095), Ok(3));
    assert_eq!(pager.get_page(&Offset(2)).unwrap().to_bytes(), bytes[2 * 4096..].to_vec());
    assert_eq!(Pager::from_bytes(&vec![]).unwrap().cursor(), 0);
    assert!(matches!(Pager::from_bytes(&vec![0u8; 4095]), Err(Error::IoError)));
    assert!(matches!(Pager::from_bytes(&vec![0u8; 4097]), Err(Error::IoError)));
}

#[test]
fn tree_survives_reopening() {
    let mut tree = BTreeBuilder::new().path("/tmp/db").b_parameter(2).build().ok().unwrap();
    for i in 0..60u32 {
        tree.insert(pr(&format!("{:02}", (i * 17) % 60))).unwrap();
    }
    for i in 0..20u32 {
        tree.delete(Key(by(&format!("{:02}", i * 3)))).unwrap();
    }
    let bytes = image(&tree);
    let pager = Pager::from_bytes(&bytes).unwrap();
    let mut again = BTree::open("/tmp/other", pager).ok().unwrap();
    assert_eq!(again.b(), 2);
    assert_eq!(again.path(), "/tmp/other");
    assert_eq!(again.root_offset(), tree.root_offset());
    assert_eq!(image(&again), bytes);
    for i in 0..60u32 {
        let key = format!("{:02}", i);
        assert_eq!(again.search(by(&key)), tree.search(by(&key)));
        if i % 3 == 0 {
            assert_eq!(again.search(by(&key)), Err(Error::KeyNotFound));
        } else {
            assert_eq!(again.search(by(&key)), Ok(pr(&key)));
        }
    }
    assert_eq!(again.insert(pr("00")), Ok(()));
    assert_eq!(again.insert(pr("01")), Err(Error::DuplicateKey));
    assert_eq!(again.delete(Key(by("59"))), Ok(()));
    assert_eq!(again.search(by("00")), Ok(pr("00")));
}

#[test]
fn tree_with_b_one_reopens() {
    let mut tree = BTreeBuilder::new().path("/tmp/db").b_parameter(1).build().ok().unwrap();
    for i in 0..20u32 {
        tree.insert(pr(&format!("{:02}", (i * 7) % 20))).unwrap();
    }
    let again = BTree::open("/tmp/db", Pager::from_bytes(&image(&tree)).unwrap()).ok().unwrap();
    assert_eq!(again.b(), 1);
    assert_eq!(again.root_offset(), tree.root_offset());
    for i in 0..20u32 {
        assert_eq!(again.search(by(&format!("{:02}", i))), Ok(pr(&format!("{:02}", i))));
    }
}

#[test]
fn fresh_tree_reopens() {
    let tree = BTreeBuilder::new().path("/tmp/db").b_parameter(7).build().ok().unwrap();
    let again = BTree::open("/tmp/db", Pager::from_bytes(&image(&tree)).unwrap()).ok().unwrap();
    assert_eq!(again.b(), 7);
    assert_eq!(again.root_offset(), Offset(1));
    assert_eq!(again.search(by("a")), Err(Error::KeyNotFound));
}

#[test]
fn open_rejects_empty_path() {
    let tree = BTreeBuilder::new().path("/tmp/db").b_parameter(2).build().ok().unwrap();
    let pager = Pager::from_bytes(&image(&tree)).unwrap();
    assert!(matches!(BTree::open("", pager), Err(Error::ConfigError)));
    // An empty path is told before a corrupt store.
    assert!(matches!(BTree::open("", Pager::new()), Err(Error::ConfigError)));
}

#[test]
fn open_rejects_bad_superblock() {
    assert!(!opens(vec![]));
    assert!(opens(vec![superblock(1, 2), leaf_page(&[], true)]));
    assert!(opens(vec![superblock(1, 1), leaf_page(&[], true)]));
    // With 1 the nodes are kept as with 2: three pairs fit a leaf, four do not.
    assert!(opens(vec![superblock(1, 1), leaf_page(&["a", "b", "c"], true)]));
    assert!(!opens(vec![superblock(1, 1), leaf_page(&["a", "b", "c", "d"], true)]));
    assert!(!opens(vec![superblock(1, 0), leaf_page(&[], true)]));
    assert!(opens(vec![superblock(1, 102), leaf_page(&[], true)]));
    assert!(!opens(vec![superblock(1, 103), leaf_page(&[], true)]));
    assert!(!opens(vec![superblock(0, 2), leaf_page(&[], true)]));
    assert!(!opens(vec![superblock(2, 2), leaf_page(&[], true)]));
    assert!(!opens(vec![superblock(u64::MAX, 2), leaf_page(&[], true)]));
    assert!(!opens(vec![superblock(1, 2)]));
}

#[test]
fn open_rejects_bad_nodes() {
    // The root has to say that it is the root, and no other node may.
    assert!(!opens(vec![superblock(1, 2), leaf_page(&[], false)]));
    // What is no node is refused.
    assert!(!opens(vec![superblock(1, 2), superblock(2, 2)]));
    // The keys of a leaf ascend.
    assert!(opens(vec![superblock(1, 2), leaf_page(&["a", "b", "c"], true)]));
    assert!(!opens(vec![superblock(1, 2), leaf_page(&["a", "c", "b"], true)]));
    assert!(!opens(vec![superblock(1, 2), leaf_page(&["a", "a"], true)]));
    // No node holds more than 2b - 1 entries.
    assert!(!opens(vec![superblock(1, 2), leaf_page(&["a", "b", "c", "d"], true)]));
    assert!(opens(vec![superblock(1, 3), leaf_page(&["a", "b", "c", "d"], true)]));
}

#[test]
fn open_rejects_bad_trees() {
    let good = || {
        vec![
            superblock(1, 2),
            inner_page(&[2, 3], &["b"], true),
            leaf_page(&["a", "b"], false),
            leaf_page(&["c"], false),
        ]
    };
    assert!(opens(good()));
    // A key on the wrong side of its separator.
    let mut pages = good();
    pages[2] = leaf_page(&["a", "c"], false);
    assert!(!opens(pages));
    let mut pages = good();
    pages[3] = leaf_page(&["b", "c"], false);
    assert!(!opens(pages));
    // A leaf other than the root with fewer than b - 1 pairs.
    let mut pages = good();
    pages[3] = leaf_page(&[], false);
    assert!(!opens(pages));
    // A child that says that it is the root.
    let mut pages = good();
    pages[3] = leaf_page(&["c"], true);
    assert!(!opens(pages));
    // A page that belongs to two children.
    let mut pages = good();
    pages[1] = inner_page(&[2, 2], &["b"], true);
    assert!(!opens(pages));
    // A child that is the superblock, the node itself, or no page of the store.
    for child in [0usize, 1, 4] {
        let mut pages = good();
        pages[1] = inner_page(&[2, child], &["b"], true);
        assert!(!opens(pages));
    }
    // An internal root without a key.
    let mut pages = good();
    pages[1] = inner_page(&[2], &[], true);
    assert!(!opens(pages));
    // Separators that do not ascend.
    let mut pages = good();
    pages[1] = inner_page(&[2, 3, 4], &["b", "b"], true);
    pages.push(leaf_page(&["c"], false));
    assert!(!opens(pages));
}

#[test]
fn open_rejects_leaves_at_different_depths() {
    let pages = vec![
        superblock(1, 2),
        inner_page(&[2, 3], &["c"], true),
        inner_page(&[4, 5], &["a"], false),
        leaf_page(&["d"], false),
        leaf_page(&["a"], false),
        leaf_page(&["b", "c"], false),
    ];
    assert!(!opens(pages));
    let pages = vec![
        superblock(1, 2),
        inner_page(&[2, 3], &["c"], true),
        inner_page(&[4, 5], &["a"], false),
        inner_page(&[6, 7], &["e"], false),
        leaf_page(&["a"], false),
        leaf_page(&["b", "c"], false),
        leaf_page(&["d", "e"], false),
        leaf_page(&["f"], false),
    ];
    assert!(opens(pages));
}

#[test]
fn open_rejects_a_cycle() {
    let pages = vec![
        superblock(1, 2),
        inner_page(&[2, 3], &["c"], true),
        inner_page(&[4, 1], &["a"], false),
        leaf_page(&["d"], false),
        leaf_page(&["a"], false),
    ];
    assert!(!opens(pages));
}

#[test]
fn subtree_height_and_marks() {
    let pager = store(vec![
        superblock(1, 2),
        inner_page(&[2, 3], &["b"], true),
        leaf_page(&["a", "b"], false),
        leaf_page(&["c"], false),
        leaf_page(&["z"], false),
    ]);
    let mut visited = vec![false; 5];
    assert_eq!(check_subtree(&pager, 2, Offset(1), true, None, None, &mut visited), Some(1));
    assert_eq!(visited, vec![false, true, true, true, false]);
    // A page that is marked already is not taken again.
    assert_eq!(check_subtree(&pager, 2, Offset(2), false, None, None, &mut visited), None);
    let mut visited = vec![false; 5];
    assert_eq!(check_subtree(&pager, 2, Offset(3), false, Some(&by("b")), None, &mut visited), Some(0));
    assert_eq!(visited, vec![false, false, false, true, false]);
    let mut visited = vec![false; 5];
    assert_eq!(check_subtree(&pager, 2, Offset(3), false, Some(&by("c")), None, &mut visited), None);
    let mut visited = vec![false; 5];
    assert_eq!(
        check_subtree(&pager, 2, Offset(2), false, None, Some(&by("b")), &mut visited),
        Some(0)
    );
    let mut visited = vec![false; 5];
    assert_eq!(check_subtree(&pager, 2, Offset(2), false, None, Some(&by("a")), &mut visited), None);
}

#[test]
fn order_of_keys_and_pairs() {
    let keys: Vec<Key> = ["b", "d"].iter().map(|key| Key(by(key))).collect();
    assert!(keys_in_order(&keys, None, None));
    assert!(keys_in_order(&keys, Some(&by("a")), Some(&by("e"))));
    assert!(!keys_in_order(&keys, Some(&by("b")), None));
    assert!(!keys_in_order(&keys, None, Some(&by("d"))));
    let keys: Vec<Key> = ["d", "b"].iter().map(|key| Key(by(key))).collect();
    assert!(!keys_in_order(&keys, None, None));
    assert!(keys_in_order(&vec![], Some(&by("b")), Some(&by("a"))));
    let pairs = vec![pr("b"), pr("d")];
    assert!(pairs_in_order(&pairs, Some(&by("a")), Some(&by("d"))));
    assert!(!pairs_in_order(&pairs, Some(&by("b")), None));
    assert!(!pairs_in_order(&pairs, None, Some(&by("c"))));
    assert!(!pairs_in_order(&vec![pr("b"), pr("b")], None, None));
}

#[test]
fn search_tells_what_it_meets_on_a_broken_way() {
    // A tree that is opened is well-formed; what a search answers where the
    // pages are not is seen on the parts that it is made of.
    // Among keys that do not ascend a binary search still ends where it ends.
    let keys: Vec<Key> = ["d", "a", "c"].iter().map(|key| Key(by(key))).collect();
    assert_eq!(find_key_index(&keys, &by("b")), 2);
    assert_eq!(find_key_index(&keys, &by("e")), 3);
    assert_eq!(find_key_index(&keys, &by("a")), 0);
    let pairs = vec![pr("d"), pr("a")];
    assert_eq!(find_pair_index(&pairs, &by("b")), 2);
    assert_eq!(find_pair_index(&pairs, &by("e")), 2);
    assert_eq!(find_pair_index(&pairs, &by("a")), 0);
}
