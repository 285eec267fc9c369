use boxerdb::btree::BTree;
use boxerdb::configs::StorageConfig;
use boxerdb::errors::StorageError;

fn get_temp_btree() -> BTree {
    BTree::new(Vec::new(), None)
}

fn small_page_config() -> StorageConfig {
    StorageConfig {
        page_size: 32,
        max_key_size: 16,
        max_val_size: 16,
        metadata_offset: 0,
        first_page_offset: 32,
        min_node_size: 8,
    }
}

fn get_temp_btree_new_configs() -> BTree {
    BTree::new(Vec::new(), Some(small_page_config()))
}

#[test]
fn test_insert_single_val_into_root() {
    let mut btree = get_temp_btree();
    btree.insert(b"key1".to_vec(), b"value1".to_vec()).unwrap();

    let root = btree
        .disk_manager
        .load_node_from_disk(btree.root_offset)
        .unwrap();
    assert_eq!(root.keys.len(), 1);
    assert_eq!(root.keys[0], b"key1");
    assert_eq!(root.values[0], b"value1");
}

#[test]
fn test_insert_multiple_val_into_root() {
    let mut btree = get_temp_btree_new_configs();
    btree.insert(b"key1".to_vec(), b"value1".to_vec()).unwrap();
    btree.insert(b"key2".to_vec(), b"val".to_vec()).unwrap();

    let root = btree
        .disk_manager
        .load_node_from_disk(btree.root_offset)
        .unwrap();
    assert_eq!(root.keys.len(), 2);
    assert_eq!(root.keys[0], b"key1");
    assert_eq!(root.keys[1], b"key2");
    assert_eq!(root.values[0], b"value1");
    assert_eq!(root.values[1], b"val");
}

#[test]
fn test_root_node_split_sorted() {
    let mut btree = get_temp_btree_new_configs();
    btree.insert(b"alpha".to_vec(), b"1".to_vec()).unwrap();
    btree.insert(b"beta".to_vec(), b"1".to_vec()).unwrap();
    btree.insert(b"charlie".to_vec(), b"1".to_vec()).unwrap();

    let root = btree
        .disk_manager
        .load_node_from_disk(btree.root_offset)
        .unwrap();
    assert_eq!(root.keys.len(), 1);
    assert_eq!(root.keys[0], b"beta");

    assert_eq!(root.children.len(), 2);
    let left_offset = root.children[0];
    let right_offset = root.children[1];
    let left_node = btree.disk_manager.load_node_from_disk(left_offset).unwrap();
    let right_node = btree
        .disk_manager
        .load_node_from_disk(right_offset)
        .unwrap();

    assert_eq!(left_node.keys.len(), 1);
    assert_eq!(left_node.keys, vec![b"alpha".to_vec()]);
    assert_eq!(left_node.values.len(), 1);
    assert_eq!(left_node.values, vec![b"1".to_vec()]);

    assert_eq!(right_node.keys.len(), 2);
    assert_eq!(right_node.keys, vec![b"beta".to_vec(), b"charlie".to_vec()]);
    assert_eq!(right_node.values.len(), 2);
    assert_eq!(right_node.values, vec![b"1".to_vec(), b"1".to_vec()]);
}

#[test]
fn test_root_node_split_unsorted() {
    let mut btree = get_temp_btree_new_configs();
    btree.insert(b"charlie".to_vec(), b"1".to_vec()).unwrap();
    btree.insert(b"alpha".to_vec(), b"1".to_vec()).unwrap();
    btree.insert(b"beta".to_vec(), b"1".to_vec()).unwrap();

    let root = btree
        .disk_manager
        .load_node_from_disk(btree.root_offset)
        .unwrap();
    assert_eq!(root.keys.len(), 1);
    assert_eq!(root.keys[0], b"beta");

    assert_eq!(root.children.len(), 2);
    let left_offset = root.children[0];
    let right_offset = root.children[1];
    let left_node = btree.disk_manager.load_node_from_disk(left_offset).unwrap();
    let right_node = btree
        .disk_manager
        .load_node_from_disk(right_offset)
        .unwrap();

    assert_eq!(left_node.keys.len(), 1);
    assert_eq!(left_node.keys, vec![b"alpha".to_vec()]);
    assert_eq!(left_node.values.len(), 1);
    assert_eq!(left_node.values, vec![b"1".to_vec()]);

    assert_eq!(right_node.keys.len(), 2);
    assert_eq!(right_node.keys, vec![b"beta".to_vec(), b"charlie".to_vec()]);
    assert_eq!(right_node.values.len(), 2);
    assert_eq!(right_node.values, vec![b"1".to_vec(), b"1".to_vec()]);
}

#[test]
fn test_insert_into_leaf_node_with_internal_node() {
    let mut btree = get_temp_btree_new_configs();
    btree.insert(b"charlie".to_vec(), b"1".to_vec()).unwrap();
    btree.insert(b"alpha".to_vec(), b"1".to_vec()).unwrap();
    btree.insert(b"beta".to_vec(), b"1".to_vec()).unwrap();
    btree.insert(b"a".to_vec(), b"1".to_vec()).unwrap();

    let root = btree
        .disk_manager
        .load_node_from_disk(btree.root_offset)
        .unwrap();
    assert_eq!(root.keys.len(), 1);
    assert_eq!(root.keys[0], b"beta");

    assert_eq!(root.children.len(), 2);
    let left_offset = root.children[0];
    let right_offset = root.children[1];
    let left_node = btree.disk_manager.load_node_from_disk(left_offset).unwrap();
    let right_node = btree
        .disk_manager
        .load_node_from_disk(right_offset)
        .unwrap();

    assert_eq!(left_node.keys.len(), 2);
    assert_eq!(left_node.keys, vec![b"a".to_vec(), b"alpha".to_vec()]);
    assert_eq!(left_node.values.len(), 2);
    assert_eq!(left_node.values, vec![b"1".to_vec(), b"1".to_vec()]);

    assert_eq!(right_node.keys.len(), 2);
    assert_eq!(right_node.keys, vec![b"beta".to_vec(), b"charlie".to_vec()]);
    assert_eq!(right_node.values.len(), 2);
    assert_eq!(right_node.values, vec![b"1".to_vec(), b"1".to_vec()]);
}

#[test]
fn test_duplicate_key_inserts() {
    let mut btree = get_temp_btree();
    btree.insert(b"a".to_vec(), b"1".to_vec()).unwrap();
    btree.insert(b"a".to_vec(), b"2".to_vec()).unwrap();

    let root = btree
        .disk_manager
        .load_node_from_disk(btree.root_offset)
        .unwrap();
    assert_eq!(root.keys.len(), 1);
    assert_eq!(root.keys[0], b"a".to_vec());
    assert_eq!(root.values[0], b"2".to_vec());
}

#[test]
fn test_simple_delete_key() {
    let mut btree = get_temp_btree_new_configs();
    btree.insert(b"a".to_vec(), b"1".to_vec()).unwrap();
    btree.insert(b"b".to_vec(), b"1".to_vec()).unwrap();
    btree.insert(b"c".to_vec(), b"1".to_vec()).unwrap();

    btree.delete(b"b".to_vec()).unwrap();
    let root = btree
        .disk_manager
        .load_node_from_disk(btree.root_offset)
        .unwrap();
    assert_eq!(root.keys.len(), 2);
    assert_eq!(root.keys[0], b"a");
    assert_eq!(root.keys[1], b"c");
}

#[test]
fn test_insert_single() {
    let mut btree = get_temp_btree();
    btree.insert(b"key1".to_vec(), b"value1".to_vec()).unwrap();

    let root = btree
        .disk_manager
        .load_node_from_disk(btree.root_offset)
        .unwrap();
    assert_eq!(root.keys.len(), 1);
    assert_eq!(root.keys[0], b"key1");
    assert_eq!(root.values[0], b"value1");
}

#[test]
fn test_insert_multiple_sorted_order() {
    let mut btree = get_temp_btree();
    btree.insert(b"b".to_vec(), b"2".to_vec()).unwrap();
    btree.insert(b"a".to_vec(), b"1".to_vec()).unwrap();
    btree.insert(b"c".to_vec(), b"3".to_vec()).unwrap();

    let root = btree
        .disk_manager
        .load_node_from_disk(btree.root_offset)
        .unwrap();
    assert_eq!(root.keys.len(), 3);
    assert_eq!(root.keys[0], b"a");
    assert_eq!(root.values[0], b"1");
    assert_eq!(root.keys[1], b"b");
    assert_eq!(root.values[1], b"2");
    assert_eq!(root.keys[2], b"c");
    assert_eq!(root.values[2], b"3");
}

#[test]
fn test_persisted_btree_read_after_write() {
    // Insert into one store, then reopen its image as a fresh store.
    let image = {
        let mut btree = get_temp_btree();
        btree.insert(b"alpha".to_vec(), b"1".to_vec()).unwrap();
        btree.insert(b"beta".to_vec(), b"2".to_vec()).unwrap();
        btree.insert(b"gamma".to_vec(), b"3".to_vec()).unwrap();
        btree.disk_manager.image.clone()
    };

    let btree = BTree::new(image, None);
    let root = btree
        .disk_manager
        .load_node_from_disk(btree.root_offset)
        .unwrap();
    assert_eq!(
        root.keys,
        vec![b"alpha".to_vec(), b"beta".to_vec(), b"gamma".to_vec()]
    );
    assert_eq!(
        root.values,
        vec![b"1".to_vec(), b"2".to_vec(), b"3".to_vec()]
    );
}

#[test]
fn test_get_after_reload() {
    let image = {
        let mut btree = get_temp_btree();
        btree.insert(b"key1".to_vec(), b"value1".to_vec()).unwrap();
        btree.disk_manager.image.clone()
    };
    let btree = BTree::new(image, None);
    assert_eq!(btree.get(&b"key1".to_vec()), Some(b"value1".to_vec()));
    assert_eq!(btree.get(&b"key2".to_vec()), None);
}

#[test]
fn test_get_descends_through_internal_node() {
    let mut btree = get_temp_btree_new_configs();
    btree.insert(b"charlie".to_vec(), b"3".to_vec()).unwrap();
    btree.insert(b"alpha".to_vec(), b"1".to_vec()).unwrap();
    btree.insert(b"beta".to_vec(), b"2".to_vec()).unwrap();

    assert_eq!(btree.get(&b"alpha".to_vec()), Some(b"1".to_vec()));
    assert_eq!(btree.get(&b"beta".to_vec()), Some(b"2".to_vec()));
    assert_eq!(btree.get(&b"charlie".to_vec()), Some(b"3".to_vec()));
    assert_eq!(btree.get(&b"delta".to_vec()), None);
}

#[test]
fn test_delete_through_internal_node() {
    let mut btree = get_temp_btree_new_configs();
    btree.insert(b"charlie".to_vec(), b"3".to_vec()).unwrap();
    btree.insert(b"alpha".to_vec(), b"1".to_vec()).unwrap();
    btree.insert(b"beta".to_vec(), b"2".to_vec()).unwrap();

    btree.delete(b"alpha".to_vec()).unwrap();
    assert_eq!(btree.get(&b"alpha".to_vec()), None);
    assert_eq!(btree.get(&b"beta".to_vec()), Some(b"2".to_vec()));
    assert_eq!(btree.get(&b"charlie".to_vec()), Some(b"3".to_vec()));
}

#[test]
fn test_delete_missing_key_is_noop() {
    let mut btree = get_temp_btree();
    btree.insert(b"a".to_vec(), b"1".to_vec()).unwrap();
    let offset_before = btree.root_offset;
    let image_len_before = btree.disk_manager.image.len();

    btree.delete(b"zz".to_vec()).unwrap();

    assert_eq!(btree.root_offset, offset_before);
    assert_eq!(btree.disk_manager.image.len(), image_len_before);
    assert_eq!(btree.get(&b"a".to_vec()), Some(b"1".to_vec()));
}

#[test]
fn test_empty_key_and_value() {
    let mut btree = get_temp_btree();
    btree.insert(b"".to_vec(), b"".to_vec()).unwrap();
    assert_eq!(btree.get(&b"".to_vec()), Some(b"".to_vec()));
}

#[test]
fn test_oversized_key_rejected_before_any_write() {
    let config = StorageConfig {
        page_size: 64,
        max_key_size: 10,
        max_val_size: 16,
        metadata_offset: 0,
        first_page_offset: 64,
        min_node_size: 8,
    };
    let mut btree = BTree::new(Vec::new(), Some(config));
    let offset_before = btree.root_offset;
    let image_before = btree.disk_manager.image.clone();

    let result = btree.insert(b"elevenbytes".to_vec(), b"1".to_vec());

    assert_eq!(result, Err(StorageError::KeyTooLarge));
    assert_eq!(btree.root_offset, offset_before);
    assert_eq!(btree.disk_manager.image, image_before);
}

#[test]
fn test_oversized_value_rejected() {
    let config = StorageConfig {
        page_size: 64,
        max_key_size: 16,
        max_val_size: 4,
        metadata_offset: 0,
        first_page_offset: 64,
        min_node_size: 8,
    };
    let mut btree = BTree::new(Vec::new(), Some(config));
    let result = btree.insert(b"k".to_vec(), b"toolong".to_vec());
    assert_eq!(result, Err(StorageError::ValueTooLarge));
    assert_eq!(btree.get(&b"k".to_vec()), None);
}

#[test]
fn test_unsplittable_pair_reports_overflow() {
    // A single pair that cannot fit any page: splitting cannot help, the
    // insert fails and the committed tree stays empty.
    let config = StorageConfig {
        page_size: 16,
        max_key_size: 16,
        max_val_size: 16,
        metadata_offset: 0,
        first_page_offset: 16,
        min_node_size: 4,
    };
    let mut btree = BTree::new(Vec::new(), Some(config));
    let offset_before = btree.root_offset;

    let result = btree.insert(b"0123456789".to_vec(), b"0123456789".to_vec());

    assert_eq!(result, Err(StorageError::PageOverflow));
    assert_eq!(btree.root_offset, offset_before);
    assert_eq!(btree.get(&b"0123456789".to_vec()), None);
}

#[test]
fn test_update_keeps_tree_size() {
    let mut btree = get_temp_btree();
    btree.insert(b"k".to_vec(), b"first".to_vec()).unwrap();
    btree.insert(b"x".to_vec(), b"other".to_vec()).unwrap();
    btree.insert(b"k".to_vec(), b"second".to_vec()).unwrap();

    let root = btree
        .disk_manager
        .load_node_from_disk(btree.root_offset)
        .unwrap();
    assert_eq!(root.keys.len(), 2);
    assert_eq!(btree.get(&b"k".to_vec()), Some(b"second".to_vec()));
    assert_eq!(btree.get(&b"x".to_vec()), Some(b"other".to_vec()));
}

#[test]
fn test_delete_rebalances_and_collapses_root() {
    // After the split, the leaves are [alpha] and [beta, charlie].  Deleting
    // charlie and then beta leaves the right leaf under the minimum fill;
    // it merges with its left sibling and the root collapses to that leaf.
    let mut btree = get_temp_btree_new_configs();
    btree.insert(b"alpha".to_vec(), b"1".to_vec()).unwrap();
    btree.insert(b"beta".to_vec(), b"2".to_vec()).unwrap();
    btree.insert(b"charlie".to_vec(), b"3".to_vec()).unwrap();

    btree.delete(b"charlie".to_vec()).unwrap();
    btree.delete(b"beta".to_vec()).unwrap();

    let root = btree
        .disk_manager
        .load_node_from_disk(btree.root_offset)
        .unwrap();
    assert_eq!(root.children.len(), 0);
    assert_eq!(root.keys, vec![b"alpha".to_vec()]);
    assert_eq!(btree.get(&b"alpha".to_vec()), Some(b"1".to_vec()));
    assert_eq!(btree.get(&b"beta".to_vec()), None);
}

#[test]
fn test_many_inserts_and_deletes_with_small_pages() {
    let config = StorageConfig {
        page_size: 64,
        max_key_size: 16,
        max_val_size: 16,
        metadata_offset: 0,
        first_page_offset: 64,
        min_node_size: 16,
    };
    let mut btree = BTree::new(Vec::new(), Some(config));
    for i in 0..30u32 {
        let k = format!("key{:02}", (i * 7) % 30).into_bytes();
        let v = format!("val{}", (i * 7) % 30).into_bytes();
        btree.insert(k, v).unwrap();
    }
    for i in 0..30u32 {
        let k = format!("key{:02}", i).into_bytes();
        assert_eq!(btree.get(&k), Some(format!("val{}", i).into_bytes()));
    }
    for i in 0..30u32 {
        if i % 2 == 0 {
            btree.delete(format!("key{:02}", i).into_bytes()).unwrap();
        }
    }
    let image = btree.disk_manager.image.clone();
    let reopened = BTree::new(image, Some(config));
    for i in 0..30u32 {
        let k = format!("key{:02}", i).into_bytes();
        if i % 2 == 0 {
            assert_eq!(btree.get(&k), None);
            assert_eq!(reopened.get(&k), None);
        } else {
            let v = Some(format!("val{}", i).into_bytes());
            assert_eq!(btree.get(&k), v);
            assert_eq!(reopened.get(&k), v);
        }
    }
}

#[test]
fn test_check_image_accepts_own_and_rejects_corrupt() {
    let config = StorageConfig::default();
    let mut btree = get_temp_btree();
    btree.insert(b"a".to_vec(), b"1".to_vec()).unwrap();
    let good = btree.disk_manager.image.clone();
    assert!(boxerdb::btree::check_image(&good, &config));

    let mut truncated = good.clone();
    truncated.pop();
    assert!(!boxerdb::btree::check_image(&truncated, &config));

    let mut bad_tag = good.clone();
    bad_tag[btree.root_offset as usize] = 7;
    assert!(!boxerdb::btree::check_image(&bad_tag, &config));
}

#[test]
fn test_reopen_after_mutations_keeps_contents() {
    let image = {
        let mut btree = get_temp_btree_new_configs();
        btree.insert(b"alpha".to_vec(), b"1".to_vec()).unwrap();
        btree.insert(b"beta".to_vec(), b"2".to_vec()).unwrap();
        btree.insert(b"charlie".to_vec(), b"3".to_vec()).unwrap();
        btree.delete(b"beta".to_vec()).unwrap();
        btree.disk_manager.image.clone()
    };

    let btree = BTree::new(image, Some(small_page_config()));
    assert_eq!(btree.get(&b"alpha".to_vec()), Some(b"1".to_vec()));
    assert_eq!(btree.get(&b"beta".to_vec()), None);
    assert_eq!(btree.get(&b"charlie".to_vec()), Some(b"3".to_vec()));
}
