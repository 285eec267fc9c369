use boxerdb::configs::StorageConfig;
use boxerdb::errors::StorageError;
use boxerdb::node::Node;

fn create_sample_node() -> Node {
    let keys = vec![b"key1".to_vec(), b"key2".to_vec(), b"key3".to_vec()];
    let values = vec![b"value1".to_vec(), b"value2".to_vec(), b"value3".to_vec()];
    let children = vec![];
    Node {
        keys,
        values,
        children,
    }
}

#[test]
fn node_test_encode_decode_roundtrip_1() {
    let node = Node {
        keys: vec![b"key1".to_vec()],
        values: vec![b"value1".to_vec()],
        children: vec![],
    };

    let config = StorageConfig::default();
    let encoded = Node::encode_node(&node, &config).unwrap();
    let decoded = Node::decode_node(encoded).unwrap();

    assert_eq!(node.keys, decoded.keys);
    assert_eq!(node.values, decoded.values);
    assert_eq!(node.children, decoded.children);
}

#[test]
fn node_test_encode_decode_roundtrip_2() {
    let node = create_sample_node();

    let config = StorageConfig::default();
    let encoded = Node::encode_node(&node, &config).unwrap();
    let decoded = Node::decode_node(encoded).unwrap();

    assert_eq!(node.keys, decoded.keys);
    assert_eq!(node.values, decoded.values);
    assert_eq!(node.children, decoded.children);
}

#[test]
fn node_test_encode_decode_internal_node() {
    let node = Node {
        keys: vec![b"key1".to_vec(), b"key2".to_vec()],
        values: vec![],
        children: vec![10, 20, 30],
    };

    let config = StorageConfig::default();
    let encoded = Node::encode_node(&node, &config).unwrap();
    let decoded = Node::decode_node(encoded).unwrap();

    assert_eq!(node.keys, decoded.keys);
    assert_eq!(node.values, decoded.values);
    assert_eq!(node.children, decoded.children);
}

#[test]
fn test_test_encode_decode_roundtrip_1() {
    let node = Node {
        keys: vec![b"key1".to_vec()],
        values: vec![b"value1".to_vec()],
        children: vec![],
    };

    let config = StorageConfig::default();
    let encoded = Node::encode_node(&node, &config).unwrap();
    let decoded = Node::decode_node(encoded).unwrap();

    assert_eq!(node.keys, decoded.keys);
    assert_eq!(node.values, decoded.values);
    assert_eq!(node.children, decoded.children);
}

#[test]
fn test_test_encode_decode_roundtrip_2() {
    let node = create_sample_node();

    let config = StorageConfig::default();
    let encoded = Node::encode_node(&node, &config).unwrap();
    let decoded = Node::decode_node(encoded).unwrap();

    assert_eq!(node.keys, decoded.keys);
    assert_eq!(node.values, decoded.values);
    assert_eq!(node.children, decoded.children);
}

#[test]
fn test_test_encode_decode_internal_node() {
    let node = Node {
        keys: vec![b"key1".to_vec(), b"key2".to_vec()],
        values: vec![],
        children: vec![10, 20, 30],
    };

    let config = StorageConfig::default();
    let encoded = Node::encode_node(&node, &config).unwrap();
    let decoded = Node::decode_node(encoded).unwrap();

    assert_eq!(node.keys, decoded.keys);
    assert_eq!(node.values, decoded.values);
    assert_eq!(node.children, decoded.children);
}

#[test]
fn test_encode_signals_needs_split() {
    // A single 12-byte key cannot fit a 16-byte page: 3-byte header, 2-byte
    // offset table and 4 bytes of slot lengths leave only 7 bytes.
    let config = StorageConfig {
        page_size: 16,
        max_key_size: 16,
        max_val_size: 16,
        metadata_offset: 0,
        first_page_offset: 16,
        min_node_size: 4,
    };
    let node = Node {
        keys: vec![b"abcdefghijkl".to_vec()],
        values: vec![b"".to_vec()],
        children: vec![],
    };
    assert!(Node::encode_node(&node, &config).is_none());
}

#[test]
fn test_encode_exact_fit() {
    // 3-byte header + 2-byte offset + (4 + 4 + 5) byte slot == 18 bytes.
    let config = StorageConfig {
        page_size: 18,
        max_key_size: 16,
        max_val_size: 16,
        metadata_offset: 0,
        first_page_offset: 18,
        min_node_size: 4,
    };
    let node = Node {
        keys: vec![b"keyz".to_vec()],
        values: vec![b"abcde".to_vec()],
        children: vec![],
    };
    let encoded = Node::encode_node(&node, &config).unwrap();
    assert_eq!(encoded.len(), 18);
    let decoded = Node::decode_node(encoded).unwrap();
    assert_eq!(decoded.keys, node.keys);
    assert_eq!(decoded.values, node.values);
}

#[test]
fn test_decode_rejects_short_page() {
    assert_eq!(
        Node::decode_node(vec![1u8, 0]),
        Err(StorageError::CorruptPage)
    );
}

#[test]
fn test_decode_rejects_bad_tag() {
    let mut page = vec![0u8; 64];
    page[0] = 7;
    assert_eq!(Node::decode_node(page), Err(StorageError::CorruptPage));
}

#[test]
fn test_decode_rejects_slot_out_of_range() {
    // A leaf page claiming one key whose slot offset points past the end.
    let mut page = vec![0u8; 32];
    page[0] = 1; // leaf
    page[1] = 1; // one key
    page[3] = 200; // slot offset 200, beyond the 32-byte page
    assert_eq!(Node::decode_node(page), Err(StorageError::CorruptPage));
}

#[test]
fn test_encode_zero_length_key_and_value() {
    let config = StorageConfig::default();
    let node = Node {
        keys: vec![b"".to_vec()],
        values: vec![b"".to_vec()],
        children: vec![],
    };
    let encoded = Node::encode_node(&node, &config).unwrap();
    let decoded = Node::decode_node(encoded).unwrap();
    assert_eq!(decoded.keys, vec![b"".to_vec()]);
    assert_eq!(decoded.values, vec![b"".to_vec()]);
}
