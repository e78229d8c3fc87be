use merk::hash::NULL_HASH;
use merk::{kv_hash, Error, Link, Node};

type PlainLink = (Vec<u8>, [u8; 20], u8);
type PlainNode = (Vec<u8>, [u8; 20], Option<PlainLink>, Option<PlainLink>);

fn plain_link(link: &Option<Link>) -> Option<PlainLink> {
    link.as_ref().map(|l| (l.key.clone(), l.hash, l.height))
}

fn plain(node: &Node) -> PlainNode {
    (node.value.clone(), node.kv_hash, plain_link(&node.left), plain_link(&node.right))
}

fn sample() -> Node {
    let mut node = Node::new(b"key2", b"value2");
    node.set_child(true, Some(Node::new(b"key", b"value").as_link()));
    node.set_child(false, Some(Node::new(b"key3", b"value3").as_link()));
    node
}

#[test]
fn new_node_is_a_leaf_of_height_one() {
    let node = Node::new(b"key", b"value");
    assert_eq!(node.key, b"key");
    assert_eq!(node.value, b"value");
    assert_eq!(node.kv_hash, kv_hash(b"key", b"value"));
    assert!(node.is_leaf());
    assert_eq!(node.height(), 1);
    assert_eq!(node.balance_factor(), 0);
    assert_eq!(node.child_height(true), 0);
    assert_eq!(node.child_height(false), 0);
    assert_eq!(node.child_link(true), &None);
    assert_eq!(node.hash(), merk::hash(&node.kv_hash, None, None));
}

#[test]
fn links_and_heights() {
    let mut node = Node::new(b"m", b"1");
    let low = Link { key: b"a".to_vec(), hash: [1u8; 20], height: 3 };
    let high = Link { key: b"z".to_vec(), hash: [2u8; 20], height: 5 };
    node.set_child(true, Some(low.clone()));
    assert_eq!(node.height(), 4);
    assert_eq!(node.balance_factor(), -3);
    assert!(!node.is_leaf());
    node.set_child(false, Some(high.clone()));
    assert_eq!(node.child_link(true), &Some(low));
    assert_eq!(node.child_link(false), &Some(high));
    assert_eq!(node.child_height(true), 3);
    assert_eq!(node.child_height(false), 5);
    assert_eq!(node.height(), 6);
    assert_eq!(node.balance_factor(), 2);
    assert_eq!(node.hash(), merk::hash(&node.kv_hash, Some(&[1u8; 20]), Some(&[2u8; 20])));
    let link = node.as_link();
    assert_eq!(link.key, b"m");
    assert_eq!(link.hash, node.hash());
    assert_eq!(link.height, 6);
    node.set_child(true, None);
    assert_eq!(node.height(), 6);
    assert_eq!(node.balance_factor(), 5);
}

#[test]
fn set_value_updates_the_digest() {
    let mut node = Node::new(b"key", b"value");
    node.set_value(b"other".to_vec());
    assert_eq!(node.value, b"other");
    assert_eq!(node.kv_hash, kv_hash(b"key", b"other"));
    node.value = b"value".to_vec();
    node.update_kv_hash();
    assert_eq!(node, Node::new(b"key", b"value"));
}

#[test]
fn encoded_bytes_of_a_known_node() {
    let expected: Vec<u8> = vec![
        6, 0, 0, 0, 0, 0, 0, 0, 118, 97, 108, 117, 101, 50, 84, 58, 69, 136, 59, 141, 196, 241,
        24, 44, 142, 176, 146, 193, 6, 73, 27, 235, 162, 70, 1, 3, 0, 0, 0, 0, 0, 0, 0, 107, 101,
        121, 185, 183, 13, 111, 85, 92, 81, 49, 206, 229, 223, 70, 181, 11, 80, 232, 27, 178, 79,
        155, 1, 1, 4, 0, 0, 0, 0, 0, 0, 0, 107, 101, 121, 51, 38, 16, 106, 75, 20, 225, 49, 24,
        142, 145, 16, 75, 166, 40, 161, 227, 89, 50, 196, 116, 1,
    ];
    assert_eq!(sample().encode().unwrap(), expected);
}

#[test]
fn decode_gives_back_what_was_encoded() {
    for node in [sample(), Node::new(b"", b""), Node::new(&[0u8; 255], &[1u8; 65535])] {
        let bytes = node.encode().unwrap();
        assert_eq!(Node::decode(&node.key, &bytes), Ok(node));
    }
    let mut one_sided = Node::new(b"k", b"v");
    one_sided.set_child(false, Some(Link { key: vec![], hash: NULL_HASH, height: 255 }));
    let bytes = one_sided.encode().unwrap();
    assert_eq!(Node::decode(b"k", &bytes), Ok(one_sided));
}

#[test]
fn decode_takes_the_key_from_the_caller() {
    let bytes = sample().encode().unwrap();
    let node = Node::decode(b"elsewhere", &bytes).unwrap();
    assert_eq!(node.key, b"elsewhere");
    assert_eq!(node.value, b"value2");
}

#[test]
fn decode_rejects_what_is_no_node() {
    let bytes = sample().encode().unwrap();
    for cut in 0..bytes.len() {
        assert_eq!(Node::decode(b"key2", &bytes[..cut]), Err(Error::DecodeError));
    }
    // a tag that is neither 0 nor 1
    let mut bad_tag = bytes.clone();
    bad_tag[34] = 2;
    assert_eq!(Node::decode(b"key2", &bad_tag), Err(Error::DecodeError));
    // a length that runs over the end
    let mut long = bytes.clone();
    long[7] = 255;
    assert_eq!(Node::decode(b"key2", &long), Err(Error::DecodeError));
    // bytes behind the node are ignored
    let mut longer = bytes.clone();
    longer.extend_from_slice(&[1, 2, 3]);
    assert_eq!(Node::decode(b"key2", &longer), Ok(sample()));
}

#[test]
fn layout_is_that_of_bincode() {
    let mut one_sided = Node::new(b"k", b"v");
    one_sided.set_child(true, Some(Link { key: vec![7; 300], hash: [9u8; 20], height: 17 }));
    for node in [sample(), Node::new(b"key", b"value"), Node::new(b"", b""), one_sided] {
        let ours = node.encode().unwrap();
        let theirs = bincode::serialize(&plain(&node)).unwrap();
        assert_eq!(ours, theirs);
        let back: PlainNode = bincode::deserialize(&ours).unwrap();
        assert_eq!(back, plain(&node));
    }
}

#[test]
fn decoding_agrees_with_bincode_on_damaged_bytes() {
    let bytes = sample().encode().unwrap();
    let mut cases: Vec<Vec<u8>> = Vec::new();
    for cut in 0..bytes.len() {
        cases.push(bytes[..cut].to_vec());
    }
    for at in [0usize, 7, 8, 33, 34, 35, 42, 66, 67, 68, 100] {
        for value in [0u8, 1, 2, 255] {
            let mut changed = bytes.clone();
            changed[at] = value;
            cases.push(changed);
        }
    }
    let mut longer = bytes.clone();
    longer.push(0);
    cases.push(longer);
    for case in cases {
        let ours = Node::decode(b"key2", &case);
        let theirs: Result<PlainNode, _> = bincode::deserialize(&case);
        match (ours, theirs) {
            (Ok(node), Ok(plain_node)) => assert_eq!(plain(&node), plain_node),
            (Err(e), Err(_)) => assert_eq!(e, Error::DecodeError),
            (ours, theirs) => panic!("{:?} against {:?}", ours, theirs.is_ok()),
        }
    }
}
