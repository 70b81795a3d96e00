use bptree::{BTree, TreeResult};

#[test]
fn test_len() -> TreeResult<()> {
    let bt = BTree::open(None)?;
    assert_eq!(bt.len(), 0);

    Ok(())
}

#[test]
fn test_root() -> TreeResult<()> {
    let bt = BTree::open(Some(4))?;
    let root = bt.root()?;
    assert_eq!(root.page_nr(), 0);
    assert_eq!(root.len(), 0);

    Ok(())
}

#[test]
fn test_set() -> TreeResult<()> {
    let mut bt = BTree::open(Some(4))?;

    let root = bt.root()?;
    assert_eq!(root.len(), 0);

    // Fill the first leaf
    for i in 1..=4 {
        bt.set(i, i * 10)?;
    }
    assert_eq!(bt.root()?.len(), 4);

    // First leaf will be split
    bt.set(5, 50)?;
    assert_eq!(bt.root()?.len(), 1);

    // Second leaf will be split
    bt.set(6, 60)?;
    bt.set(7, 70)?;
    assert_eq!(bt.root()?.len(), 2);

    // Fill the root
    for i in 8..=11 {
        bt.set(i, i * 10)?;
    }
    assert_eq!(bt.root()?.len(), 4);

    // Root will be split
    bt.set(12, 120)?;
    bt.set(13, 130)?;
    assert_eq!(bt.root()?.len(), 1);

    Ok(())
}

#[test]
fn test_remove_mkc_4() -> TreeResult<()> {
    let mut bt = BTree::open(Some(4))?;

    // Fill the BTree
    // 7 leaf nodes
    // 2 level 1 internal nodes
    // 1 root node
    for i in 1..=15 {
        bt.set(i * 10, i * 100)?;
    }
    assert_eq!(bt.node_count(), 10);
    assert_eq!(bt.len(), 15);

    // Remove 120: 130 is transferred from the right sibling leaf
    assert_eq!(bt.remove(120)?, Some(1200));
    assert_eq!(bt.node_count(), 10);
    assert_eq!(bt.len(), 14);

    // Remove 100: its leaf is merged into the left sibling
    assert_eq!(bt.remove(100)?, Some(1000));
    assert_eq!(bt.node_count(), 9);
    assert_eq!(bt.len(), 13);

    // Remove 110: 90 is transferred from the left sibling leaf
    assert_eq!(bt.remove(110)?, Some(1100));
    assert_eq!(bt.node_count(), 9);
    assert_eq!(bt.len(), 12);

    // Remove 30: a leaf merge cascades into an internal merge and the
    // root collapses
    assert_eq!(bt.remove(30)?, Some(300));
    assert_eq!(bt.node_count(), 6);
    assert_eq!(bt.len(), 11);

    // Remove until the root collapses into one leaf
    for i in [20_u128, 40, 50, 60, 80, 90, 130, 140].iter() {
        assert_eq!(bt.remove(*i)?, Some(i * 10));
    }
    assert_eq!(bt.node_count(), 1);
    assert_eq!(bt.len(), 3);

    Ok(())
}

#[test]
fn test_remove_mkc_5() -> TreeResult<()> {
    let mut bt = BTree::open(Some(5))?;

    // Fill the BTree
    // 7 leaf nodes
    // 2 level 1 internal nodes
    // 1 root node
    for i in 1..=22 {
        bt.set(i * 10, i * 100)?;
    }
    assert_eq!(bt.node_count(), 10);
    assert_eq!(bt.len(), 22);

    // transfer from right sibling
    assert_eq!(bt.remove(180)?, Some(1800));
    assert_eq!(bt.node_count(), 10);
    assert_eq!(bt.len(), 21);

    // left merge
    assert_eq!(bt.remove(100)?, Some(1000));
    assert_eq!(bt.node_count(), 7);
    assert_eq!(bt.len(), 20);

    // transfer from left sibling
    assert_eq!(bt.remove(110)?, Some(1100));
    assert_eq!(bt.node_count(), 7);
    assert_eq!(bt.len(), 19);

    assert_eq!(bt.remove(30)?, Some(300));
    assert_eq!(bt.node_count(), 6);
    assert_eq!(bt.len(), 18);

    for i in [10, 20_u128, 40, 50, 60, 80, 90, 120, 130, 140, 170, 200, 220].iter() {
        assert_eq!(bt.remove(*i)?, Some(i * 10));
    }
    assert_eq!(bt.node_count(), 1);
    assert_eq!(bt.len(), 5);

    Ok(())
}

#[test]
fn test_remove_mkc_3() -> TreeResult<()> {
    let mut bt = BTree::open(Some(3))?;

    // Fill the BTree
    // 1 root node
    // 2 level 1 internal nodes
    // 5 level 2 internal nodes
    // 14 leaf nodes
    for i in 1..=29 {
        bt.set(i, i * 10)?;
    }
    assert_eq!(bt.node_count(), 22);
    assert_eq!(bt.len(), 29);

    // transfer from right sibling
    assert_eq!(bt.remove(28)?, Some(280));
    assert_eq!(bt.node_count(), 22);
    assert_eq!(bt.len(), 28);

    // left merge
    assert_eq!(bt.remove(6)?, Some(60));
    assert_eq!(bt.get(7)?, Some(70));
    assert_eq!(bt.node_count(), 18);
    assert_eq!(bt.len(), 27);

    // transfer from left sibling
    assert_eq!(bt.remove(7)?, Some(70));
    assert_eq!(bt.node_count(), 18);
    assert_eq!(bt.len(), 26);

    assert_eq!(bt.remove(5)?, Some(50));
    assert_eq!(bt.remove(8)?, Some(80));
    assert_eq!(bt.remove(27)?, Some(270));
    assert_eq!(bt.remove(29)?, Some(290));
    assert_eq!(bt.node_count(), 15);
    assert_eq!(bt.len(), 22);

    for i in [1, 3, 9, 11, 13, 15, 17, 19, 21, 23, 25].iter() {
        assert_eq!(bt.remove(*i)?, Some(i * 10));
        assert_eq!(bt.get(*i + 1)?, Some((i + 1) * 10));
    }
    assert_eq!(bt.node_count(), 6);
    assert_eq!(bt.len(), 11);

    Ok(())
}
