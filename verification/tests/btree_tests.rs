use database::index::node::BTreeNode;
use database::index::tree::BTree;
use database::storage::buffer_pool::BufferPool;
use database::storage::disk_manager::DiskManager;
use database::storage::error::DatabaseError;
use database::storage::value::Value;

fn fresh_tree(capacity: usize) -> (BTree, BufferPool) {
    let disk_manager = DiskManager::new(Vec::new());
    let mut buffer_pool = BufferPool::new(capacity, disk_manager);
    let root_page_id = buffer_pool.new_page().unwrap().header.page_id;
    let btree = BTree::new(root_page_id);
    btree.init(&mut buffer_pool).unwrap();
    (btree, buffer_pool)
}

#[test]
fn btree_tests_test_btree_operations() {
    let (mut btree, mut buffer_pool) = fresh_tree(100);

    btree.insert(5, Value::Integer(50), &mut buffer_pool).unwrap();
    btree.insert(3, Value::Boolean(false), &mut buffer_pool).unwrap();
    btree.insert(7, Value::String("Test".to_string()), &mut buffer_pool).unwrap();

    assert_eq!(btree.search(5, &mut buffer_pool).unwrap(), Some(Value::Integer(50)));
    assert_eq!(btree.search(3, &mut buffer_pool).unwrap(), Some(Value::Boolean(false)));
    assert_eq!(
        btree.search(7, &mut buffer_pool).unwrap(),
        Some(Value::String("Test".to_string()))
    );
}

#[test]
fn tests_test_btree_operations() {
    let (mut btree, mut buffer_pool) = fresh_tree(100);

    btree.insert(5, Value::Integer(50), &mut buffer_pool).unwrap();
    btree.insert(3, Value::Boolean(false), &mut buffer_pool).unwrap();
    btree.insert(7, Value::String("Test".to_string()), &mut buffer_pool).unwrap();

    assert_eq!(btree.search(5, &mut buffer_pool).unwrap(), Some(Value::Integer(50)));
    assert_eq!(btree.search(3, &mut buffer_pool).unwrap(), Some(Value::Boolean(false)));
    assert_eq!(
        btree.search(7, &mut buffer_pool).unwrap(),
        Some(Value::String("Test".to_string()))
    );
}

#[test]
fn btree_tests_test_btree_delete() {
    let (mut btree, mut buffer_pool) = fresh_tree(100);

    btree.insert(10, Value::Integer(100), &mut buffer_pool).unwrap();
    btree.insert(20, Value::Integer(200), &mut buffer_pool).unwrap();
    btree.insert(30, Value::Integer(300), &mut buffer_pool).unwrap();

    btree.delete(20, &mut buffer_pool).unwrap();

    assert_eq!(btree.search(20, &mut buffer_pool).unwrap(), None);
    assert_eq!(btree.search(10, &mut buffer_pool).unwrap(), Some(Value::Integer(100)));
    assert_eq!(btree.search(30, &mut buffer_pool).unwrap(), Some(Value::Integer(300)));
}

#[test]
fn tests_test_btree_delete() {
    let (mut btree, mut buffer_pool) = fresh_tree(100);

    btree.insert(10, Value::Integer(100), &mut buffer_pool).unwrap();
    btree.insert(20, Value::Integer(200), &mut buffer_pool).unwrap();
    btree.insert(30, Value::Integer(300), &mut buffer_pool).unwrap();

    btree.delete(20, &mut buffer_pool).unwrap();

    assert_eq!(btree.search(20, &mut buffer_pool).unwrap(), None);
    assert_eq!(btree.search(10, &mut buffer_pool).unwrap(), Some(Value::Integer(100)));
    assert_eq!(btree.search(30, &mut buffer_pool).unwrap(), Some(Value::Integer(300)));
}

#[test]
fn btree_tests_test_btree_update() {
    let (mut btree, mut buffer_pool) = fresh_tree(100);

    btree.insert(5, Value::String("five".to_string()), &mut buffer_pool).unwrap();
    btree.delete(5, &mut buffer_pool).unwrap();
    btree.insert(5, Value::String("FIVE".to_string()), &mut buffer_pool).unwrap();

    assert_eq!(
        btree.search(5, &mut buffer_pool).unwrap(),
        Some(Value::String("FIVE".to_string()))
    );
}

#[test]
fn tests_test_btree_update() {
    let (mut btree, mut buffer_pool) = fresh_tree(100);

    btree.insert(5, Value::String("five".to_string()), &mut buffer_pool).unwrap();
    btree.delete(5, &mut buffer_pool).unwrap();
    btree.insert(5, Value::String("FIVE".to_string()), &mut buffer_pool).unwrap();

    assert_eq!(
        btree.search(5, &mut buffer_pool).unwrap(),
        Some(Value::String("FIVE".to_string()))
    );
}

#[test]
fn test_big_btree() {
    let (mut btree, mut buffer_pool) = fresh_tree(1000);

    for i in 0..1000 {
        btree.insert(i, Value::Integer(i as i64), &mut buffer_pool).unwrap();
    }

    for i in 0..1000 {
        assert_eq!(
            btree.search(i, &mut buffer_pool).unwrap(),
            Some(Value::Integer(i as i64)),
            "Testing search with value {}",
            i
        );
    }

    for i in 0..1000 {
        btree.delete(i, &mut buffer_pool).unwrap();
    }

    assert!(btree.search(0, &mut buffer_pool).unwrap().is_none(), "Testing deletion");
}

#[test]
fn test_btree_large_dataset() {
    let (mut btree, mut buffer_pool) = fresh_tree(1000);

    for i in 0..1000 {
        btree.insert(i, Value::Integer((i * 10).into()), &mut buffer_pool).unwrap();
    }

    for i in 0..1000 {
        assert_eq!(
            btree.search(i, &mut buffer_pool).unwrap(),
            Some(Value::Integer((i * 10).into()))
        );
    }

    for i in (0..1000).step_by(2) {
        btree.delete(i, &mut buffer_pool).unwrap();
    }

    for i in 0..1000 {
        if i % 2 == 0 {
            assert_eq!(btree.search(i, &mut buffer_pool).unwrap(), None);
        } else {
            assert_eq!(
                btree.search(i, &mut buffer_pool).unwrap(),
                Some(Value::Integer((i * 10).into()))
            );
        }
    }
}

#[test]
fn all_is_sorted_and_complete() {
    let (mut btree, mut buffer_pool) = fresh_tree(1000);
    // Keys in an order that is neither ascending nor descending.
    let mut key: i32 = 7;
    let mut keys = Vec::new();
    for _ in 0..200 {
        key = (key * 37 + 11) % 1009;
        if !keys.contains(&key) {
            keys.push(key);
            btree.insert(key, Value::Integer(key as i64 * 2), &mut buffer_pool).unwrap();
        }
    }
    let all = btree.all(&mut buffer_pool).unwrap();
    assert_eq!(all.len(), keys.len());
    for pair in all.windows(2) {
        assert!(pair[0].0 <= pair[1].0);
    }
    let mut sorted = keys.clone();
    sorted.sort();
    for (i, k) in sorted.iter().enumerate() {
        assert_eq!(all[i], (*k, Value::Integer(*k as i64 * 2)));
    }
}

#[test]
fn delete_in_any_order_keeps_the_rest() {
    let (mut btree, mut buffer_pool) = fresh_tree(1000);
    for i in 0..300 {
        btree.insert(i, Value::Integer(i as i64), &mut buffer_pool).unwrap();
    }
    // Take out the keys of internal nodes as well as those of leaves.
    let mut gone = Vec::new();
    let mut key: i32 = 3;
    for _ in 0..150 {
        key = (key * 53 + 17) % 300;
        if !gone.contains(&key) {
            gone.push(key);
            btree.delete(key, &mut buffer_pool).unwrap();
            assert_eq!(btree.search(key, &mut buffer_pool).unwrap(), None);
        }
    }
    for i in 0..300 {
        let found = btree.search(i, &mut buffer_pool).unwrap();
        if gone.contains(&i) {
            assert_eq!(found, None);
        } else {
            assert_eq!(found, Some(Value::Integer(i as i64)));
        }
    }
    let all = btree.all(&mut buffer_pool).unwrap();
    assert_eq!(all.len(), 300 - gone.len());
    // A key that is not there is taken out without an error.
    btree.delete(gone[0], &mut buffer_pool).unwrap();
    assert_eq!(btree.all(&mut buffer_pool).unwrap().len(), 300 - gone.len());
}

#[test]
fn delete_down_to_empty_and_fill_again() {
    let (mut btree, mut buffer_pool) = fresh_tree(1000);
    for round in 0..3 {
        for i in 0..100 {
            btree.insert(i, Value::Integer((i + round) as i64), &mut buffer_pool).unwrap();
        }
        for i in (0..100).rev() {
            btree.delete(i, &mut buffer_pool).unwrap();
        }
        assert_eq!(btree.all(&mut buffer_pool).unwrap(), Vec::new());
    }
}

#[test]
fn a_key_put_in_twice_has_two_entries() {
    let (mut btree, mut buffer_pool) = fresh_tree(100);
    btree.insert(1, Value::Integer(10), &mut buffer_pool).unwrap();
    btree.insert(1, Value::Integer(11), &mut buffer_pool).unwrap();
    let all = btree.all(&mut buffer_pool).unwrap();
    assert_eq!(all.len(), 2);
    assert_eq!(all[0].0, 1);
    assert_eq!(all[1].0, 1);
    btree.delete(1, &mut buffer_pool).unwrap();
    assert_eq!(btree.all(&mut buffer_pool).unwrap().len(), 1);
}

#[test]
fn update_replaces_the_value() {
    let (mut btree, mut buffer_pool) = fresh_tree(100);
    for i in 0..20 {
        btree.insert(i, Value::Integer(i as i64), &mut buffer_pool).unwrap();
    }
    btree.update(7, Value::String("seven".to_string()), &mut buffer_pool).unwrap();
    assert_eq!(
        btree.search(7, &mut buffer_pool).unwrap(),
        Some(Value::String("seven".to_string()))
    );
    assert_eq!(btree.all(&mut buffer_pool).unwrap().len(), 20);
}

#[test]
fn a_value_that_is_too_large_is_refused() {
    let (mut btree, mut buffer_pool) = fresh_tree(100);
    let long = "x".repeat(1347);
    let res = btree.insert(1, Value::String(long), &mut buffer_pool);
    assert!(matches!(res, Err(DatabaseError::InvalidData(_))));
    assert_eq!(btree.all(&mut buffer_pool).unwrap(), Vec::new());
    // The largest value that is taken: three of them fill a node.
    for i in 0..8 {
        btree.insert(i, Value::String("y".repeat(1346)), &mut buffer_pool).unwrap();
    }
    assert_eq!(btree.all(&mut buffer_pool).unwrap().len(), 8);
}

#[test]
fn insert_fails_when_the_pool_is_full_and_keeps_the_tree() {
    let (mut btree, mut buffer_pool) = fresh_tree(3);
    let mut stored = 0;
    let mut failed = false;
    for i in 0..20 {
        match btree.insert(i, Value::Integer(i as i64), &mut buffer_pool) {
            Ok(()) => stored += 1,
            Err(e) => {
                assert!(matches!(e, DatabaseError::BufferPoolFull));
                failed = true;
                break;
            }
        }
    }
    assert!(failed);
    assert_eq!(btree.all(&mut buffer_pool).unwrap().len(), stored);
}

#[test]
fn the_tree_is_on_disk() {
    let (mut btree, mut buffer_pool) = fresh_tree(100);
    for i in 0..10 {
        btree.insert(i, Value::Integer(i as i64), &mut buffer_pool).unwrap();
    }
    let heap = buffer_pool.disk_manager().contents().clone();
    assert_eq!(heap.len() % 4096, 0);
    // A pool over a copy of the file reads the same tree from page to page.
    let mut other = BufferPool::new(100, DiskManager::new(heap));
    let root = other.get_page(btree.root_page_id()).unwrap();
    assert_eq!(root.header.page_id, btree.root_page_id());
    assert_eq!(root.data.len(), 4088);
    assert_eq!(&root.data[0..4], &btree.root_page_id().to_le_bytes());
    assert_eq!(root.data[4], 0);
}

#[test]
fn a_tree_is_opened_from_its_file() {
    let (mut btree, mut buffer_pool) = fresh_tree(100);
    for i in 0..100 {
        btree.insert((i * 37) % 100, Value::Integer(i as i64), &mut buffer_pool).unwrap();
    }
    for i in 0..30 {
        btree.delete(i * 3, &mut buffer_pool).unwrap();
    }
    let held = btree.all(&mut buffer_pool).unwrap();
    assert_eq!(held.len(), 70);
    let heap = buffer_pool.disk_manager().contents().clone();

    let mut other = BufferPool::new(100, DiskManager::new(heap.clone()));
    let mut opened = BTree::open(btree.root_page_id(), &mut other).unwrap();
    assert_eq!(opened.root_page_id(), btree.root_page_id());
    assert_eq!(opened.all(&mut other).unwrap(), held);
    // The tree that was opened is changed like any other.
    opened.insert(0, Value::Boolean(true), &mut other).unwrap();
    opened.delete(99, &mut other).unwrap();
    assert_eq!(opened.search(0, &mut other).unwrap(), Some(Value::Boolean(true)));
    assert_eq!(opened.search(99, &mut other).unwrap(), None);
    assert_eq!(opened.all(&mut other).unwrap().len(), 70);

    // A cache that is too small for the tree.
    let mut small = BufferPool::new(3, DiskManager::new(heap.clone()));
    assert!(matches!(
        BTree::open(btree.root_page_id(), &mut small),
        Err(DatabaseError::BufferPoolFull)
    ));
    // A page that is not the root of the tree is the root of a smaller one.
    let mut part = BufferPool::new(100, DiskManager::new(heap.clone()));
    let under = BTree::open(0, &mut part).unwrap();
    let some = under.all(&mut part).unwrap();
    assert!(some.len() < held.len());
    assert!(some.iter().all(|pair| held.contains(pair)));
    // A page that the cache holds already is no page of a tree to open.
    let mut twice = BufferPool::new(100, DiskManager::new(heap));
    twice.get_page(btree.root_page_id()).unwrap();
    assert!(matches!(
        BTree::open(btree.root_page_id(), &mut twice),
        Err(DatabaseError::InvalidData(_))
    ));
}

#[test]
fn a_file_without_a_tree_is_refused() {
    let refused = |heap: Vec<u8>, root: u32| {
        let mut pool = BufferPool::new(100, DiskManager::new(heap));
        matches!(BTree::open(root, &mut pool), Err(DatabaseError::InvalidData(_)))
    };
    // No page under the id.
    assert!(refused(Vec::new(), 0));
    assert!(refused(vec![0u8; 4096], 1));
    // A page of zeros holds page id 0, no leaf flag, and no entries or
    // children: an internal node without its one child.
    assert!(refused(vec![0u8; 4096], 0));
    assert!(refused(vec![7u8; 8192], 1));

    let (mut btree, mut buffer_pool) = fresh_tree(100);
    for i in 0..4 {
        btree.insert(i, Value::Integer(i as i64), &mut buffer_pool).unwrap();
    }
    let root = btree.root_page_id();
    let heap = buffer_pool.disk_manager().contents().clone();
    assert!(!refused(heap.clone(), root));
    let at = root as usize * 4096 + 8;
    // The root with the leaf flag set is a leaf with the root's entry: what
    // stands behind the entries of a leaf is not looked at.
    let mut flagged = heap.clone();
    assert_eq!(flagged[at + 4], 0);
    flagged[at + 4] = 1;
    let mut pool = BufferPool::new(100, DiskManager::new(flagged));
    let leaf = BTree::open(root, &mut pool).unwrap();
    assert_eq!(leaf.all(&mut pool).unwrap().len(), 1);
    // The root under another page id.
    let mut named = heap.clone();
    named[at] ^= 1;
    assert!(refused(named, root));
    // The root with a key that is above what stands behind it.
    let mut unordered = heap.clone();
    assert_eq!(&unordered[at + 5..at + 7], &[1, 0]);
    unordered[at + 7..at + 11].copy_from_slice(&100i32.to_le_bytes());
    assert!(refused(unordered, root));
    // The root with one child in the place of both.
    let mut shared = heap.clone();
    let children = at + 7 + 4 + 9;
    let first: [u8; 4] = shared[children..children + 4].try_into().unwrap();
    shared[children + 4..children + 8].copy_from_slice(&first);
    assert!(refused(shared, root));
}

/// The keys of the entries and the children of the node in a page.
fn node_in(pool: &mut BufferPool, page_id: u32) -> (Vec<i32>, Vec<u32>) {
    let page = pool.get_page(page_id).unwrap();
    let node = BTreeNode::deserialize(&page.data).unwrap();
    assert_eq!(node.page_id, page_id);
    (node.entries.iter().map(|e| e.key).collect(), node.children)
}

/// A root with the entries 2 and 4 over the leaves 1 | 3 | 5 6, in the
/// pages 1 over 0 | 2 | 3.
fn three_leaves() -> (BTree, BufferPool) {
    let (mut btree, mut pool) = fresh_tree(100);
    for i in 1..=6 {
        btree.insert(i, Value::Integer(i as i64), &mut pool).unwrap();
    }
    assert_eq!(btree.root_page_id(), 1);
    assert_eq!(node_in(&mut pool, 1), (vec![2, 4], vec![0, 2, 3]));
    assert_eq!(node_in(&mut pool, 0), (vec![1], vec![]));
    assert_eq!(node_in(&mut pool, 2), (vec![3], vec![]));
    assert_eq!(node_in(&mut pool, 3), (vec![5, 6], vec![]));
    (btree, pool)
}

#[test]
fn the_root_stays_until_it_is_full() {
    let (mut btree, mut pool) = fresh_tree(100);
    for i in 1..=3 {
        btree.insert(i, Value::Integer(i as i64), &mut pool).unwrap();
        assert_eq!(btree.root_page_id(), 0);
        assert_eq!(pool.disk_manager().page_count(), 1);
    }
    // The full root gets a root above it, in the page allocated first.
    btree.insert(4, Value::Integer(4), &mut pool).unwrap();
    assert_eq!(btree.root_page_id(), 1);
    assert_eq!(pool.disk_manager().page_count(), 3);
    btree.insert(5, Value::Integer(5), &mut pool).unwrap();
    assert_eq!(btree.root_page_id(), 1);
    assert_eq!(pool.disk_manager().page_count(), 3);
    // A full leaf under the root is split: one page more.
    btree.insert(6, Value::Integer(6), &mut pool).unwrap();
    assert_eq!(btree.root_page_id(), 1);
    assert_eq!(pool.disk_manager().page_count(), 4);
}

#[test]
fn a_child_that_has_entries_to_spare_is_left_alone() {
    let (mut btree, mut pool) = three_leaves();
    btree.delete(6, &mut pool).unwrap();
    assert_eq!(node_in(&mut pool, 1), (vec![2, 4], vec![0, 2, 3]));
    assert_eq!(node_in(&mut pool, 0), (vec![1], vec![]));
    assert_eq!(node_in(&mut pool, 2), (vec![3], vec![]));
    assert_eq!(node_in(&mut pool, 3), (vec![5], vec![]));
}

#[test]
fn the_left_sibling_lends_before_the_right_one() {
    let (mut btree, mut pool) = three_leaves();
    btree.insert(0, Value::Integer(0), &mut pool).unwrap();
    assert_eq!(node_in(&mut pool, 0), (vec![0, 1], vec![]));
    // The leaf with 3 has a sibling with two entries on either side.
    btree.delete(3, &mut pool).unwrap();
    assert_eq!(node_in(&mut pool, 1), (vec![1, 4], vec![0, 2, 3]));
    assert_eq!(node_in(&mut pool, 0), (vec![0], vec![]));
    assert_eq!(node_in(&mut pool, 2), (vec![2], vec![]));
    assert_eq!(node_in(&mut pool, 3), (vec![5, 6], vec![]));
}

#[test]
fn the_right_sibling_lends_where_the_left_one_cannot() {
    let (mut btree, mut pool) = three_leaves();
    btree.delete(3, &mut pool).unwrap();
    assert_eq!(node_in(&mut pool, 1), (vec![2, 5], vec![0, 2, 3]));
    assert_eq!(node_in(&mut pool, 0), (vec![1], vec![]));
    assert_eq!(node_in(&mut pool, 2), (vec![4], vec![]));
    assert_eq!(node_in(&mut pool, 3), (vec![6], vec![]));
}

#[test]
fn siblings_that_cannot_lend_are_merged() {
    let (mut btree, mut pool) = three_leaves();
    // The first leaf is merged with its right sibling, whose page is freed.
    btree.delete(1, &mut pool).unwrap();
    assert_eq!(node_in(&mut pool, 1), (vec![4], vec![0, 3]));
    assert_eq!(node_in(&mut pool, 0), (vec![2, 3], vec![]));
    assert_eq!(node_in(&mut pool, 3), (vec![5, 6], vec![]));
    assert_eq!(
        &pool.disk_manager().contents()[2 * 4096..3 * 4096],
        &vec![0u8; 4096][..]
    );
    assert_eq!(pool.disk_manager().page_count(), 4);

    // The last leaf has no right sibling, and is merged into its left one.
    let (mut btree, mut pool) = three_leaves();
    btree.delete(6, &mut pool).unwrap();
    btree.delete(5, &mut pool).unwrap();
    assert_eq!(node_in(&mut pool, 1), (vec![2], vec![0, 2]));
    assert_eq!(node_in(&mut pool, 0), (vec![1], vec![]));
    assert_eq!(node_in(&mut pool, 2), (vec![3, 4], vec![]));
    assert_eq!(
        &pool.disk_manager().contents()[3 * 4096..4 * 4096],
        &vec![0u8; 4096][..]
    );
}
