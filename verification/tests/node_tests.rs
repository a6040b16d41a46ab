use btree::error::Error;
use btree::lex::{bytes_eq, bytes_lt, copy_bytes};
use btree::node::Node;
use btree::node_type::{Key, KeyValuePair, NodeType, Offset};
use btree::page::Page;
use btree::page_layout::{
    INTERNAL_NODE_MAX_CHILDREN, KEY_SIZE, LEAF_NODE_MAX_PAIRS, MAX_KEY_LEN, MAX_VALUE_LEN,
    PAGE_SIZE, PTR_SIZE, VALUE_SIZE,
};
use btree::pager::Pager;
use btree::sorted::{find_key_index, find_pair_index};

fn b(s: &str) -> Vec<u8> {
    s.as_bytes().to_vec()
}

fn pair(key: &str, value: &str) -> KeyValuePair {
    KeyValuePair::new(b(key), b(value))
}

fn leaf(keys: &[&str]) -> Node {
    Node::new(
        NodeType::Leaf(keys.iter().map(|key| pair(key, &format!("v{}", key))).collect()),
        false,
        Some(Offset(3)),
    )
}

fn inner(children: &[usize], keys: &[&str]) -> Node {
    Node::new(
        NodeType::Internal(
            children.iter().map(|c| Offset(*c)).collect(),
            keys.iter().map(|key| Key(b(key))).collect(),
        ),
        false,
        Some(Offset(3)),
    )
}

#[test]
fn layout_constants() {
    assert_eq!(PAGE_SIZE, 4096);
    assert_eq!(PTR_SIZE, 8);
    assert_eq!(KEY_SIZE, 10);
    assert_eq!(VALUE_SIZE, 10);
    assert_eq!(MAX_KEY_LEN, 9);
    assert_eq!(MAX_VALUE_LEN, 9);
    assert_eq!(LEAF_NODE_MAX_PAIRS, (4096 - 18) / 20);
    assert_eq!(INTERNAL_NODE_MAX_CHILDREN, (4096 - 18) / 18);
}

#[test]
fn new_page_is_zeroed() {
    let page = Page::new();
    let bytes = page.to_bytes();
    assert_eq!(bytes.len(), PAGE_SIZE);
    assert!(bytes.iter().all(|x| *x == 0));
}

#[test]
fn page_fixed_bytes() {
    let mut page = Page::new();
    assert_eq!(page.write_fixed_bytes(4090, &vec![1, 2, 3, 4, 5, 6]), Ok(()));
    assert_eq!(page.read_fixed_bytes(4089, 7), Ok(vec![0, 1, 2, 3, 4, 5, 6]));
    assert_eq!(page.read_fixed_bytes(4096, 0), Ok(vec![]));
    assert_eq!(page.write_fixed_bytes(4091, &vec![9, 9, 9, 9, 9, 9]), Err(Error::PageOverflow));
    // The failed write changed nothing.
    assert_eq!(page.read_fixed_bytes(4090, 6), Ok(vec![1, 2, 3, 4, 5, 6]));
    assert_eq!(page.read_fixed_bytes(4090, 7), Err(Error::PageOverflow));
    assert_eq!(page.read_fixed_bytes(usize::MAX, 2), Err(Error::PageOverflow));
    assert_eq!(page.read_fixed_bytes(2, usize::MAX), Err(Error::PageOverflow));
}

#[test]
fn page_single_bytes() {
    let mut page = Page::new();
    assert_eq!(page.write_byte(4095, 7), Ok(()));
    assert_eq!(page.read_byte(4095), Ok(7));
    assert_eq!(page.read_byte(4094), Ok(0));
    assert_eq!(page.write_byte(4096, 7), Err(Error::PageOverflow));
    assert_eq!(page.read_byte(4096), Err(Error::PageOverflow));
}

#[test]
fn page_numbers_are_little_endian() {
    let mut page = Page::new();
    assert_eq!(page.write_u64(16, 0x0102030405060708), Ok(()));
    assert_eq!(page.read_fixed_bytes(16, 8), Ok(vec![8, 7, 6, 5, 4, 3, 2, 1]));
    assert_eq!(page.read_u64(16), Ok(0x0102030405060708));
    assert_eq!(page.write_u64(4088, u64::MAX), Ok(()));
    assert_eq!(page.read_u64(4088), Ok(u64::MAX));
    assert_eq!(page.write_u64(4089, 1), Err(Error::PageOverflow));
    assert_eq!(page.read_u64(4089), Err(Error::PageOverflow));
}

#[test]
fn page_from_bytes() {
    assert!(matches!(Page::from_bytes(vec![0; 4095]), Err(Error::PageOverflow)));
    assert!(matches!(Page::from_bytes(vec![0; 4097]), Err(Error::PageOverflow)));
    let mut bytes = vec![0u8; 4096];
    bytes[5] = 9;
    let page = Page::from_bytes(bytes.clone()).unwrap();
    assert_eq!(page.to_bytes(), bytes);
    assert_eq!(page.copy().to_bytes(), bytes);
}

#[test]
fn pager_appends_and_overwrites() {
    let mut pager = Pager::new();
    assert_eq!(pager.cursor(), 0);
    assert!(matches!(pager.get_page(&Offset(0)), Err(Error::IoError)));
    let mut first = Page::new();
    first.write_byte(0, 1).unwrap();
    let mut second = Page::new();
    second.write_byte(0, 2).unwrap();
    assert_eq!(pager.write_page(first), Ok(Offset(0)));
    assert_eq!(pager.write_page(second), Ok(Offset(1)));
    assert_eq!(pager.cursor(), 2);
    assert_eq!(pager.get_page(&Offset(1)).unwrap().read_byte(0), Ok(2));
    let mut third = Page::new();
    third.write_byte(0, 3).unwrap();
    assert_eq!(pager.write_page_at_offset(third, &Offset(0)), Ok(()));
    assert_eq!(pager.cursor(), 2);
    assert_eq!(pager.get_page(&Offset(0)).unwrap().read_byte(0), Ok(3));
    assert_eq!(pager.get_page(&Offset(1)).unwrap().read_byte(0), Ok(2));
    assert_eq!(pager.write_page_at_offset(Page::new(), &Offset(2)), Err(Error::IoError));
    assert_eq!(pager.cursor(), 2);
    assert!(matches!(pager.get_page(&Offset(2)), Err(Error::IoError)));
}

#[test]
fn leaf_page_layout() {
    let node = Node::new(NodeType::Leaf(vec![pair("ab", "xyz"), pair("c", "")]), true, Some(Offset(258)));
    let bytes = node.encode().unwrap().to_bytes();
    let mut expected = vec![0u8; 4096];
    expected[0] = 1; // root
    expected[1] = 1; // leaf
    expected[2] = 2; // parent 258, little-endian
    expected[3] = 1;
    expected[10] = 2; // two pairs
    expected[18] = 2; // key "ab"
    expected[19] = b'a';
    expected[20] = b'b';
    expected[28] = 3; // value "xyz"
    expected[29] = b'x';
    expected[30] = b'y';
    expected[31] = b'z';
    expected[38] = 1; // key "c"
    expected[39] = b'c';
    expected[48] = 0; // value ""
    assert_eq!(bytes, expected);
}

#[test]
fn internal_page_layout() {
    let node = Node::new(
        NodeType::Internal(vec![Offset(5), Offset(6), Offset(0x0107)], vec![Key(b("k")), Key(b("mn"))]),
        false,
        None,
    );
    let bytes = node.encode().unwrap().to_bytes();
    let mut expected = vec![0u8; 4096];
    expected[1] = 0; // internal
    expected[10] = 3; // three children
    expected[18] = 5;
    expected[26] = 1;
    expected[27] = b'k';
    expected[36] = 6;
    expected[44] = 2;
    expected[45] = b'm';
    expected[46] = b'n';
    expected[54] = 7;
    expected[55] = 1;
    assert_eq!(bytes, expected);
}

#[test]
fn round_trip_leaf() {
    let node = Node::new(
        NodeType::Leaf(vec![pair("", "v"), pair("a", ""), pair("a\u{0}", "\u{0}\u{0}"), pair("123456789", "abcdefghi")]),
        false,
        Some(Offset(77)),
    );
    assert_eq!(Node::decode(&node.encode().unwrap()), Ok(node));
}

#[test]
fn round_trip_empty_root_leaf() {
    let node = Node::new(NodeType::Leaf(vec![]), true, None);
    assert_eq!(Node::decode(&node.encode().unwrap()), Ok(node));
}

#[test]
fn round_trip_internal() {
    let node = Node::new(
        NodeType::Internal(
            vec![Offset(1), Offset(usize::MAX), Offset(3)],
            vec![Key(b("")), Key(b("123456789"))],
        ),
        true,
        Some(Offset(usize::MAX)),
    );
    assert_eq!(Node::decode(&node.encode().unwrap()), Ok(node));
    let empty = Node::new(NodeType::Internal(vec![], vec![]), true, None);
    assert_eq!(Node::decode(&empty.encode().unwrap()), Ok(empty));
}

#[test]
fn round_trip_full_pages() {
    let pairs: Vec<KeyValuePair> =
        (0..LEAF_NODE_MAX_PAIRS).map(|i| pair(&format!("{:09}", i), &format!("{:09}", i * 2))).collect();
    let node = Node::new(NodeType::Leaf(pairs), false, Some(Offset(1)));
    assert_eq!(Node::decode(&node.encode().unwrap()), Ok(node));
    let children: Vec<Offset> = (0..INTERNAL_NODE_MAX_CHILDREN).map(|i| Offset(i + 1)).collect();
    let keys: Vec<Key> =
        (0..INTERNAL_NODE_MAX_CHILDREN - 1).map(|i| Key(b(&format!("{:09}", i)))).collect();
    let node = Node::new(NodeType::Internal(children, keys), false, Some(Offset(1)));
    assert_eq!(Node::decode(&node.encode().unwrap()), Ok(node));
}

#[test]
fn encode_rejects_what_does_not_fit() {
    let too_many: Vec<KeyValuePair> =
        (0..LEAF_NODE_MAX_PAIRS + 1).map(|i| pair(&format!("{:09}", i), "v")).collect();
    assert!(matches!(
        Node::new(NodeType::Leaf(too_many), false, None).encode(),
        Err(Error::PageOverflow)
    ));
    let children: Vec<Offset> = (0..INTERNAL_NODE_MAX_CHILDREN + 1).map(|i| Offset(i + 1)).collect();
    let keys: Vec<Key> = (0..INTERNAL_NODE_MAX_CHILDREN).map(|i| Key(b(&format!("{:09}", i)))).collect();
    assert!(matches!(
        Node::new(NodeType::Internal(children, keys), false, None).encode(),
        Err(Error::PageOverflow)
    ));
    assert!(matches!(
        Node::new(NodeType::Leaf(vec![pair("a", "v"), pair("0123456789", "v")]), false, None).encode(),
        Err(Error::KeyOverflow)
    ));
    assert!(matches!(
        Node::new(NodeType::Leaf(vec![pair("a", "0123456789"), pair("b", "v")]), false, None).encode(),
        Err(Error::ValueOverflow)
    ));
    // A key that is too long is told before a value that is.
    assert!(matches!(
        Node::new(NodeType::Leaf(vec![pair("a", "0123456789"), pair("0123456789", "v")]), false, None)
            .encode(),
        Err(Error::KeyOverflow)
    ));
    assert!(matches!(inner(&[1, 2], &["0123456789"]).encode(), Err(Error::KeyOverflow)));
}

#[test]
fn encode_rejects_what_is_no_node_of_a_tree() {
    assert!(matches!(inner(&[1, 2], &[]).encode(), Err(Error::TreeInvariantViolation)));
    assert!(matches!(inner(&[1], &["a"]).encode(), Err(Error::TreeInvariantViolation)));
    assert!(matches!(inner(&[], &["a"]).encode(), Err(Error::TreeInvariantViolation)));
    assert!(matches!(
        Node::new(NodeType::Leaf(vec![]), false, Some(Offset(0))).encode(),
        Err(Error::TreeInvariantViolation)
    ));
    assert!(inner(&[1], &[]).encode().is_ok());
}

#[test]
fn decode_rejects_corrupt_pages() {
    let good = leaf(&["a", "b"]).encode().unwrap().to_bytes();
    assert!(Node::decode(&Page::from_bytes(good.clone()).unwrap()).is_ok());
    let mut bad = good.clone();
    bad[1] = 2; // neither leaf nor internal
    assert_eq!(Node::decode(&Page::from_bytes(bad).unwrap()), Err(Error::CorruptPage));
    let mut bad = good.clone();
    bad[0] = 2; // neither root nor not
    assert_eq!(Node::decode(&Page::from_bytes(bad).unwrap()), Err(Error::CorruptPage));
    let mut bad = good.clone();
    bad[10] = 204; // more pairs than fit
    assert_eq!(Node::decode(&Page::from_bytes(bad).unwrap()), Err(Error::CorruptPage));
    let mut bad = good.clone();
    bad[17] = 1; // a count with a high byte
    assert_eq!(Node::decode(&Page::from_bytes(bad).unwrap()), Err(Error::CorruptPage));
    let mut bad = good.clone();
    bad[18] = 10; // a key longer than its cell
    assert_eq!(Node::decode(&Page::from_bytes(bad).unwrap()), Err(Error::CorruptPage));
    let mut bad = good.clone();
    bad[48] = 10; // a value longer than its cell
    assert_eq!(Node::decode(&Page::from_bytes(bad).unwrap()), Err(Error::CorruptPage));
    let good = inner(&[1, 2, 3], &["a", "b"]).encode().unwrap().to_bytes();
    let mut bad = good.clone();
    bad[10] = 227; // more children than fit
    assert_eq!(Node::decode(&Page::from_bytes(bad).unwrap()), Err(Error::CorruptPage));
    let mut bad = good.clone();
    bad[26] = 10; // a key longer than its cell
    assert_eq!(Node::decode(&Page::from_bytes(bad).unwrap()), Err(Error::CorruptPage));
    // The key cell of the last child is not read.
    let mut fine = good.clone();
    fine[18 + 2 * 18 + 8] = 200;
    assert_eq!(Node::decode(&Page::from_bytes(fine).unwrap()), Ok(inner(&[1, 2, 3], &["a", "b"])));
}

#[test]
fn decode_ignores_padding() {
    let mut bytes = leaf(&["a"]).encode().unwrap().to_bytes();
    bytes[25] = 77; // past the key's length, within its cell
    bytes[4000] = 5; // past the last cell
    assert_eq!(Node::decode(&Page::from_bytes(bytes).unwrap()), Ok(leaf(&["a"])));
}

#[test]
fn split_leaf() {
    let mut node = leaf(&["a", "b", "c", "d", "e"]);
    let (median, sibling) = node.split(3).unwrap();
    assert_eq!(median, Key(b("c")));
    assert_eq!(node, leaf(&["a", "b", "c"]));
    assert_eq!(sibling, leaf(&["d", "e"]));
}

#[test]
fn split_internal() {
    let mut node = inner(&[10, 11, 12, 13, 14, 15], &["a", "b", "c", "d", "e"]);
    node.is_root = true;
    let (median, sibling) = node.split(3).unwrap();
    assert_eq!(median, Key(b("c")));
    let mut left = inner(&[10, 11, 12], &["a", "b"]);
    left.is_root = true;
    assert_eq!(node, left);
    assert_eq!(sibling, inner(&[13, 14, 15], &["d", "e"]));
}

#[test]
fn split_smallest() {
    let mut node = leaf(&["a"]);
    let (median, sibling) = node.split(1).unwrap();
    assert_eq!(median, Key(b("a")));
    assert_eq!(node, leaf(&["a"]));
    assert_eq!(sibling, leaf(&[]));
}

#[test]
fn split_needs_a_full_node() {
    let mut node = leaf(&["a", "b", "c", "d"]);
    assert!(matches!(node.split(3), Err(Error::TreeInvariantViolation)));
    assert_eq!(node, leaf(&["a", "b", "c", "d"]));
    assert!(matches!(node.split(0), Err(Error::TreeInvariantViolation)));
    assert!(matches!(node.split(usize::MAX), Err(Error::TreeInvariantViolation)));
    let mut node = inner(&[10, 11, 12], &["a", "b", "c"]);
    assert!(matches!(node.split(2), Err(Error::TreeInvariantViolation)));
    assert_eq!(node, inner(&[10, 11, 12], &["a", "b", "c"]));
}

#[test]
fn entries_counts_pairs_or_keys() {
    assert_eq!(leaf(&["a", "b"]).entries(), 2);
    assert_eq!(leaf(&[]).entries(), 0);
    assert_eq!(inner(&[1, 2, 3], &["a", "b"]).entries(), 2);
}

#[test]
fn borrow_between_leaves() {
    let (left, sep, node) = leaf(&["d"]).borrow_from_left(leaf(&["a", "b", "c"]), Key(b("c"))).unwrap();
    assert_eq!(left, leaf(&["a", "b"]));
    assert_eq!(sep, Key(b("b")));
    assert_eq!(node, leaf(&["c", "d"]));
    let (node, sep, right) = leaf(&["a"]).borrow_from_right(leaf(&["c", "d"]), Key(b("b"))).unwrap();
    assert_eq!(node, leaf(&["a", "c"]));
    assert_eq!(sep, Key(b("c")));
    assert_eq!(right, leaf(&["d"]));
    let (node, sep, right) = leaf(&[]).borrow_from_right(leaf(&["c"]), Key(b("b"))).unwrap();
    assert_eq!((node, sep, right), (leaf(&["c"]), Key(b("c")), leaf(&[])));
}

#[test]
fn borrow_between_internal_nodes() {
    let (left, sep, node) = inner(&[4], &[])
        .borrow_from_left(inner(&[1, 2, 3], &["a", "b"]), Key(b("c")))
        .unwrap();
    assert_eq!(left, inner(&[1, 2], &["a"]));
    assert_eq!(sep, Key(b("b")));
    assert_eq!(node, inner(&[3, 4], &["c"]));
    let (node, sep, right) = inner(&[1], &[])
        .borrow_from_right(inner(&[2, 3, 4], &["c", "d"]), Key(b("b")))
        .unwrap();
    assert_eq!(node, inner(&[1, 2], &["b"]));
    assert_eq!(sep, Key(b("c")));
    assert_eq!(right, inner(&[3, 4], &["d"]));
}

#[test]
fn borrow_needs_something_to_lend() {
    assert!(matches!(
        leaf(&["d"]).borrow_from_left(leaf(&["a"]), Key(b("a"))),
        Err(Error::TreeInvariantViolation)
    ));
    assert!(matches!(
        leaf(&["a"]).borrow_from_right(leaf(&[]), Key(b("a"))),
        Err(Error::TreeInvariantViolation)
    ));
    assert!(matches!(
        leaf(&["d"]).borrow_from_left(inner(&[1, 2], &["a"]), Key(b("c"))),
        Err(Error::TreeInvariantViolation)
    ));
    assert!(matches!(
        inner(&[1], &[]).borrow_from_right(leaf(&["x", "y"]), Key(b("c"))),
        Err(Error::TreeInvariantViolation)
    ));
    assert!(matches!(
        inner(&[4], &[]).borrow_from_left(inner(&[1], &[]), Key(b("c"))),
        Err(Error::TreeInvariantViolation)
    ));
    assert!(matches!(
        inner(&[1], &[]).borrow_from_right(inner(&[2], &[]), Key(b("c"))),
        Err(Error::TreeInvariantViolation)
    ));
}

#[test]
fn merge_nodes() {
    assert_eq!(leaf(&["a", "b"]).merge(leaf(&["c"]), Key(b("b"))), Ok(leaf(&["a", "b", "c"])));
    assert_eq!(leaf(&[]).merge(leaf(&["c"]), Key(b("b"))), Ok(leaf(&["c"])));
    assert_eq!(
        inner(&[1, 2], &["a"]).merge(inner(&[3], &[]), Key(b("b"))),
        Ok(inner(&[1, 2, 3], &["a", "b"]))
    );
    let mut right = inner(&[3, 4], &["d"]);
    right.is_root = true;
    right.parent_offset = None;
    assert_eq!(
        inner(&[1, 2], &["a"]).merge(right, Key(b("c"))),
        Ok(inner(&[1, 2, 3, 4], &["a", "c", "d"]))
    );
    assert!(matches!(
        leaf(&["a"]).merge(inner(&[3], &[]), Key(b("b"))),
        Err(Error::TreeInvariantViolation)
    ));
}

#[test]
fn byte_order() {
    assert!(bytes_lt(&b(""), &b("a")));
    assert!(!bytes_lt(&b(""), &b("")));
    assert!(!bytes_lt(&b("a"), &b("")));
    assert!(bytes_lt(&b("a"), &b("ab")));
    assert!(!bytes_lt(&b("ab"), &b("a")));
    assert!(bytes_lt(&b("ab"), &b("b")));
    assert!(bytes_lt(&b("B"), &b("a")));
    assert!(!bytes_lt(&b("abc"), &b("abc")));
    assert!(bytes_lt(&vec![1, 255], &vec![2]));
    assert!(bytes_lt(&vec![127], &vec![128]));
    assert!(bytes_eq(&b("abc"), &b("abc")));
    assert!(bytes_eq(&b(""), &b("")));
    assert!(!bytes_eq(&b("abc"), &b("abd")));
    assert!(!bytes_eq(&b("abc"), &b("ab")));
    assert_eq!(copy_bytes(&b("abc")), b("abc"));
    assert_eq!(copy_bytes(&vec![]), Vec::<u8>::new());
}

#[test]
fn index_of_a_key_among_keys() {
    let keys: Vec<Key> = ["b", "d", "f"].iter().map(|key| Key(b(key))).collect();
    assert_eq!(find_key_index(&keys, &b("a")), 0);
    assert_eq!(find_key_index(&keys, &b("b")), 0);
    assert_eq!(find_key_index(&keys, &b("c")), 1);
    assert_eq!(find_key_index(&keys, &b("d")), 1);
    assert_eq!(find_key_index(&keys, &b("e")), 2);
    assert_eq!(find_key_index(&keys, &b("f")), 2);
    assert_eq!(find_key_index(&keys, &b("g")), 3);
    assert_eq!(find_key_index(&vec![], &b("g")), 0);
}

#[test]
fn index_of_a_key_among_pairs() {
    let pairs = vec![pair("b", "1"), pair("d", "2")];
    assert_eq!(find_pair_index(&pairs, &b("")), 0);
    assert_eq!(find_pair_index(&pairs, &b("b")), 0);
    assert_eq!(find_pair_index(&pairs, &b("ba")), 1);
    assert_eq!(find_pair_index(&pairs, &b("d")), 1);
    assert_eq!(find_pair_index(&pairs, &b("e")), 2);
    assert_eq!(find_pair_index(&vec![], &b("e")), 0);
}

#[test]
fn copies_hold_the_same() {
    let p = pair("k", "v");
    assert_eq!(p.copy(), p);
    let key = Key(b("k"));
    assert_eq!(key.copy(), key);
}
