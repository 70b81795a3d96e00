use bptree::{BTree, Error, TreeResult};
use std::collections::BTreeMap;

#[test]
fn empty_tree_behaves_like_empty_map() -> TreeResult<()> {
    let mut bt = BTree::open(Some(4))?;
    assert_eq!(bt.len(), 0);
    assert_eq!(bt.get(7)?, None);
    assert_eq!(bt.get(0)?, None);
    assert_eq!(bt.remove(7)?, None);
    assert_eq!(bt.remove(123456789)?, None);
    assert_eq!(bt.len(), 0);

    Ok(())
}

#[test]
fn first_root_holds_two_keys() -> TreeResult<()> {
    let mut bt = BTree::open(Some(4))?;
    bt.set(1, 1000)?;
    bt.set(2, 2000)?;
    assert_eq!(bt.get(1)?, Some(1000));
    assert_eq!(bt.get(2)?, Some(2000));
    assert_eq!(bt.len(), 2);

    Ok(())
}

#[test]
fn fifth_insert_splits_the_root_leaf() -> TreeResult<()> {
    let mut bt = BTree::open(Some(4))?;
    for i in 1..=5 {
        bt.set(i, i * 10)?;
    }
    assert_eq!(bt.len(), 5);
    assert_eq!(bt.get(3)?, Some(30));
    // the root is now an internal node with a single separator
    assert_eq!(bt.root()?.len(), 1);
    assert!(bt.node_count() >= 3);

    Ok(())
}

#[test]
fn deep_tree_keeps_every_entry_in_order() -> TreeResult<()> {
    let mut bt = BTree::open(None)?;
    for i in 1..=1024 {
        bt.set(i, i * 10)?;
    }
    assert_eq!(bt.len(), 1024);
    for i in 1..=1024 {
        assert_eq!(bt.get(i)?, Some(i * 10));
    }
    let keys = bt.keys();
    assert_eq!(keys.len(), 1024);
    for (t, k) in keys.into_iter().enumerate() {
        assert_eq!(k, (t as u128) + 1);
    }

    Ok(())
}

#[test]
fn delete_with_transfer_then_merge() -> TreeResult<()> {
    let mut bt = BTree::open(Some(4))?;
    for i in 1..=15 {
        bt.set(i * 10, i * 100)?;
    }
    // right-transfer, no reclamation
    assert_eq!(bt.remove(120)?, Some(1200));
    assert_eq!(bt.node_count(), 10);
    // left-merge; one leaf reclaimed
    assert_eq!(bt.remove(100)?, Some(1000));
    assert_eq!(bt.node_count(), 9);
    // left-transfer
    assert_eq!(bt.remove(110)?, Some(1100));
    assert_eq!(bt.node_count(), 9);
    // internal merge and root collapse
    assert_eq!(bt.remove(30)?, Some(300));
    assert_eq!(bt.node_count(), 6);
    assert_eq!(bt.len(), 11);

    Ok(())
}

#[test]
fn persistence_round_trip_of_two_keys() -> TreeResult<()> {
    let mut bt = BTree::open(None)?;
    bt.set(1, 1000)?;
    bt.set(2, 2000)?;
    let (meta, db) = bt.save()?;
    drop(bt);
    let bt = BTree::load(&meta, &db)?;
    assert_eq!(bt.get(1)?, Some(1000));
    assert_eq!(bt.get(2)?, Some(2000));
    assert_eq!(bt.len(), 2);

    Ok(())
}

#[test]
fn mixed_history_matches_reference_map() -> TreeResult<()> {
    let mut bt = BTree::open(Some(4))?;
    let mut reference: BTreeMap<u128, u128> = BTreeMap::new();
    // a deterministic pseudo-random history of upserts and deletions
    let mut state: u64 = 0x2545_f491_4f6c_dd1d;
    for _ in 0..600 {
        state = state.wrapping_mul(6364136223846793005).wrapping_add(1442695040888963407);
        let key = ((state >> 33) % 64) as u128;
        state = state.wrapping_mul(6364136223846793005).wrapping_add(1442695040888963407);
        let act = state >> 62;
        if act == 0 {
            assert_eq!(bt.remove(key)?, reference.remove(&key));
        } else {
            let value = key * 1000 + (state as u128 % 1000);
            assert_eq!(bt.set(key, value)?, reference.insert(key, value));
        }
        assert_eq!(bt.len(), reference.len());
    }
    for key in 0..64u128 {
        assert_eq!(bt.get(key)?, reference.get(&key).copied());
    }
    let keys = bt.keys();
    let expect: Vec<u128> = reference.keys().copied().collect();
    assert_eq!(keys, expect);

    Ok(())
}

#[test]
fn overwrite_returns_prior_value() -> TreeResult<()> {
    let mut bt = BTree::open(Some(4))?;
    assert_eq!(bt.set(42, 1)?, None);
    assert_eq!(bt.set(42, 2)?, Some(1));
    assert_eq!(bt.get(42)?, Some(2));
    assert_eq!(bt.len(), 1);

    Ok(())
}

#[test]
fn keys_are_strictly_ascending_after_mutations() -> TreeResult<()> {
    let mut bt = BTree::open(Some(3))?;
    for i in (1..=40).rev() {
        bt.set(i * 3, i)?;
    }
    for i in 1..=10 {
        bt.remove(i * 9)?;
    }
    let keys = bt.keys();
    assert_eq!(keys.len(), bt.len());
    for w in keys.windows(2) {
        assert!(w[0] < w[1]);
    }

    Ok(())
}

#[test]
fn save_is_refused_nowhere_and_load_validates() -> TreeResult<()> {
    let mut bt = BTree::open(Some(4))?;
    for i in 1..=9 {
        bt.set(i, i + 100)?;
    }
    let (meta, db) = bt.save()?;

    // a corrupted page tag is an invalid file format
    let mut bad_db = db.clone();
    bad_db[0] = 7;
    assert_eq!(BTree::load(&meta, &bad_db).err(), Some(Error::InvalidFileFormat));

    // a corrupted magic header is an invalid file format
    let mut bad_meta = meta.clone();
    bad_meta[9] = b'x';
    assert_eq!(BTree::load(&bad_meta, &db).err(), Some(Error::InvalidFileFormat));

    // a truncated envelope cannot be decoded
    let short_meta: Vec<u8> = meta[..20].to_vec();
    assert_eq!(BTree::load(&short_meta, &db).err(), Some(Error::Serde));

    // a truncated data file cannot supply the root page
    let short_db: Vec<u8> = db[..4096].to_vec();
    assert!(BTree::load(&meta, &short_db).is_err());

    // the intact images load back to the same entries
    let bt2 = BTree::load(&meta, &db)?;
    for i in 1..=9 {
        assert_eq!(bt2.get(i)?, Some(i + 100));
    }

    Ok(())
}

#[test]
fn load_rejects_a_free_page_reachable_from_the_root() -> TreeResult<()> {
    let mut bt = BTree::open(Some(4))?;
    bt.set(1, 10)?;
    bt.set(2, 20)?;
    let (meta, db) = bt.save()?;
    // splice page 0 — the root leaf — into the envelope's free list
    let mut doctored: Vec<u8> = Vec::new();
    doctored.extend_from_slice(&meta[..40]);
    doctored.extend_from_slice(&1u64.to_le_bytes());
    doctored.extend_from_slice(&0u64.to_le_bytes());
    doctored.extend_from_slice(&meta[48..]);
    assert_eq!(BTree::load(&doctored, &db).err(), Some(Error::InvalidFileFormat));

    Ok(())
}

#[test]
fn reopened_tree_keeps_serving_mutations() -> TreeResult<()> {
    let mut bt = BTree::open(Some(4))?;
    for i in 1..=30 {
        bt.set(i, i * 2)?;
    }
    let (meta, db) = bt.save()?;
    let mut bt = BTree::load(&meta, &db)?;
    assert_eq!(bt.remove(17)?, Some(34));
    bt.set(100, 200)?;
    assert_eq!(bt.get(17)?, None);
    assert_eq!(bt.get(100)?, Some(200));
    assert_eq!(bt.len(), 30);

    Ok(())
}

#[test]
fn saved_images_are_canonical_across_a_reload() -> TreeResult<()> {
    let mut bt = BTree::open(Some(4))?;
    for i in 1..=12 {
        bt.set(i * 7, i)?;
    }
    bt.remove(21)?;
    let (meta1, db1) = bt.save()?;
    let bt2 = BTree::load(&meta1, &db1)?;
    let (meta2, db2) = bt2.save()?;
    assert_eq!(meta1, meta2);
    assert_eq!(db1, db2);

    Ok(())
}

#[test]
fn error_variant_queries() {
    assert!(Error::KeyNotFound.is_key_not_found());
    assert!(!Error::Io.is_key_not_found());
    assert!(!Error::Serde.is_key_not_found());
    assert!(!Error::InvalidFileHandle.is_key_not_found());
    assert!(!Error::InvalidFileFormat.is_key_not_found());
}

#[test]
fn node_constructors_expose_page_and_keys() {
    let leaf = bptree::BTNode::new_leaf(3, vec![1, 2], vec![10, 20], Some(4));
    assert_eq!(leaf.page_nr(), 3);
    assert_eq!(leaf.len(), 2);
    assert_eq!(leaf.keys(), vec![1, 2]);

    let child_a = bptree::BTNode::new_leaf(0, vec![1], vec![10], Some(1));
    let child_b = bptree::BTNode::new_leaf(1, vec![5], vec![50], None);
    let internal = bptree::BTNode::new_internal(2, vec![5], vec![child_a, child_b]);
    assert_eq!(internal.page_nr(), 2);
    assert_eq!(internal.len(), 1);
    assert_eq!(internal.keys(), vec![5]);
}

#[test]
fn load_accepts_a_canonical_empty_envelope() -> TreeResult<()> {
    // the envelope of a fresh tree that was never written to: magic,
    // zeroed counters, an empty free list and the derived sizing
    let mut meta: Vec<u8> = Vec::new();
    meta.extend_from_slice(&8u64.to_le_bytes());
    meta.extend_from_slice(b"%bptree%");
    meta.extend_from_slice(&0u64.to_le_bytes());
    meta.extend_from_slice(&0u64.to_le_bytes());
    meta.extend_from_slice(&0u64.to_le_bytes());
    meta.extend_from_slice(&0u64.to_le_bytes());
    meta.extend_from_slice(&16u64.to_le_bytes());
    meta.extend_from_slice(&16u64.to_le_bytes());
    meta.extend_from_slice(&126u64.to_le_bytes());
    meta.extend_from_slice(&63u64.to_le_bytes());
    let db: Vec<u8> = Vec::new();
    let bt = BTree::load(&meta, &db)?;
    assert_eq!(bt.len(), 0);
    assert_eq!(bt.node_count(), 0);
    assert_eq!(bt.get(5)?, None);

    Ok(())
}

#[test]
fn removing_an_absent_key_changes_nothing() -> TreeResult<()> {
    let mut bt = BTree::open(Some(4))?;
    for i in 1..=9 {
        bt.set(i * 2, i)?;
    }
    let nodes = bt.node_count();
    let keys_before = bt.keys();
    let (meta_before, _) = bt.save()?;
    assert_eq!(bt.remove(3)?, None);
    assert_eq!(bt.remove(1000)?, None);
    assert_eq!(bt.node_count(), nodes);
    assert_eq!(bt.keys(), keys_before);
    let (meta_after, _) = bt.save()?;
    assert_eq!(meta_before, meta_after);

    Ok(())
}

#[test]
fn overwrite_allocates_no_page() -> TreeResult<()> {
    let mut bt = BTree::open(Some(4))?;
    for i in 1..=9 {
        bt.set(i, i * 5)?;
    }
    let nodes = bt.node_count();
    assert_eq!(bt.set(4, 999)?, Some(20));
    assert_eq!(bt.node_count(), nodes);
    assert_eq!(bt.get(4)?, Some(999));

    Ok(())
}
