use planckdb::btrees::{child_id, entry_position, find_entry, route_index, BPlusTree};
use planckdb::engine::Table;
use planckdb::error::StorageError;
use planckdb::execute;
use planckdb::pages::Page;
use planckdb::value::{KeyRow, Value};

fn text(s: &str) -> Value {
    Value::string(s.to_string())
}

fn entry(key: u32) -> KeyRow {
    KeyRow { key: Value::Number(key), row: vec![Value::Number(key * 10), text(&format!("site{}", key))] }
}

fn tree() -> BPlusTree {
    let table = Table::new("t", 0, vec!["age".to_string(), "site".to_string()], vec![2, 7], false).unwrap();
    BPlusTree::new(table)
}

fn node(tree: &mut BPlusTree, id: u32) -> (bool, Vec<KeyRow>) {
    tree.buffer_pool.read_node(id).unwrap()
}

fn keys_of(entries: &Vec<KeyRow>) -> Vec<u32> {
    entries.iter().map(|e| e.key.extract_pointer()).collect()
}

fn children_of(entries: &Vec<KeyRow>) -> Vec<u32> {
    entries.iter().map(|e| e.row[0].extract_pointer()).collect()
}

/// Every key in the leaves, left to right; checks on the way that no node but
/// the root holds too little or too much, and that all leaves are equally deep.
fn walk(tree: &mut BPlusTree, id: u32, depth: usize, leaf_depth: &mut Option<usize>, keys: &mut Vec<u32>) {
    let (leaf, entries) = node(tree, id);
    if leaf {
        if id != 0 {
            assert!(entries.len() >= 2, "leaf {} holds {} keys", id, entries.len());
        }
        assert!(entries.len() <= 4, "leaf {} holds {} keys", id, entries.len());
        match leaf_depth {
            Some(d) => assert_eq!(*d, depth),
            None => *leaf_depth = Some(depth),
        }
        keys.extend(keys_of(&entries));
    } else {
        if id != 0 {
            assert!(entries.len() >= 3, "node {} has {} children", id, entries.len());
        }
        assert!(entries.len() <= 5, "node {} has {} children", id, entries.len());
        assert_eq!(entries[entries.len() - 1].key, Value::Number(u32::MAX));
        for child in children_of(&entries) {
            walk(tree, child, depth + 1, leaf_depth, keys);
        }
    }
}

fn all_keys(tree: &mut BPlusTree) -> Vec<u32> {
    let mut keys = Vec::new();
    let mut depth = None;
    walk(tree, 0, 0, &mut depth, &mut keys);
    keys
}

fn found(tree: &mut BPlusTree, key: u32) -> bool {
    match execute::read(Value::Number(key), tree) {
        Ok(kr) => {
            assert_eq!(kr.key, Value::Number(key));
            assert_eq!(kr.row[0], Value::Number(key * 10));
            assert_eq!(kr.row[1], text(&format!("site{}", key)));
            true
        }
        Err(e) => {
            assert_eq!(e, StorageError::NotFound);
            false
        }
    }
}

#[test]
fn entries_are_routed_to_the_first_larger_key() {
    let entries = vec![
        KeyRow { key: Value::Number(10), row: vec![Value::Number(1)] },
        KeyRow { key: Value::Number(20), row: vec![Value::Number(2)] },
        KeyRow { key: Value::Number(u32::MAX), row: vec![Value::Number(3)] },
    ];
    assert_eq!(route_index(&entries, &Value::Number(5)), 0);
    assert_eq!(route_index(&entries, &Value::Number(10)), 1);
    assert_eq!(route_index(&entries, &Value::Number(19)), 1);
    assert_eq!(route_index(&entries, &Value::Number(20)), 2);
    assert_eq!(route_index(&entries, &Value::Number(u32::MAX)), 2);
    assert_eq!(entry_position(&entries, &Value::Number(u32::MAX)), 3);
    assert_eq!(find_entry(&entries, &Value::Number(20)), 1);
    assert_eq!(find_entry(&entries, &Value::Number(21)), 3);
    assert_eq!(child_id(&entries[1]), 2);
}

#[test]
fn a_new_tree_is_one_empty_leaf() {
    let mut tree = tree();
    assert_eq!(tree.is_leaf_root(), Ok(true));
    assert_eq!(tree.search(&Value::Number(1)), Ok((0, 0)));
    assert_eq!(tree.descend(&Value::Number(1)), Ok(vec![0]));
    assert_eq!(execute::read(Value::Number(1), &mut tree).err(), Some(StorageError::NotFound));
}

#[test]
fn four_keys_stay_in_the_root() {
    let mut tree = tree();
    for key in [3u32, 1, 4, 2] {
        assert_eq!(tree.insert(entry(key)), Ok(true));
    }
    let (leaf, entries) = node(&mut tree, 0);
    assert!(leaf);
    assert_eq!(keys_of(&entries), vec![1, 2, 3, 4]);
    assert_eq!(tree.buffer_pool.file.page_id_count, 1);
    assert_eq!(tree.is_leaf_root(), Ok(true));
}

#[test]
fn the_fifth_key_splits_the_root_leaf() {
    let mut tree = tree();
    for key in 1..=5u32 {
        assert_eq!(tree.insert(entry(key)), Ok(true));
    }
    // the root's entries went to page 1, whose lower half went to page 2
    let (leaf, root) = node(&mut tree, 0);
    assert!(!leaf);
    assert_eq!(keys_of(&root), vec![3, u32::MAX]);
    assert_eq!(children_of(&root), vec![2, 1]);
    let (leaf, left) = node(&mut tree, 2);
    assert!(leaf);
    assert_eq!(keys_of(&left), vec![1, 2]);
    let (leaf, right) = node(&mut tree, 1);
    assert!(leaf);
    assert_eq!(keys_of(&right), vec![3, 4, 5]);
    assert_eq!(tree.is_leaf_root(), Ok(false));
    assert_eq!(tree.search(&Value::Number(2)), Ok((2, 0)));
    assert_eq!(tree.search(&Value::Number(3)), Ok((1, 0)));
    assert_eq!(tree.search(&Value::Number(9)), Ok((1, 0)));
}

#[test]
fn a_split_leaves_both_halves_within_bounds_and_adds_one_divider() {
    let mut tree = tree();
    for key in 1..=6u32 {
        tree.insert(entry(key)).unwrap();
    }
    let (_, before) = node(&mut tree, 0);
    assert_eq!(before.len(), 2);
    // a fifth key in the right leaf, put there without the tree looking
    tree.buffer_pool.put_entry(1, entry(7)).unwrap();
    assert_eq!(tree.node_overflows(1), Ok(true));
    assert_eq!(tree.split(1, 0), Ok(true));
    let (_, parent) = node(&mut tree, 0);
    assert_eq!(parent.len(), 3);
    assert_eq!(keys_of(&parent), vec![3, 5, u32::MAX]);
    assert_eq!(children_of(&parent), vec![2, 3, 1]);
    let (_, left) = node(&mut tree, 3);
    let (_, right) = node(&mut tree, 1);
    assert_eq!(keys_of(&left), vec![3, 4]);
    assert_eq!(keys_of(&right), vec![5, 6, 7]);
    assert_eq!(tree.node_overflows(1), Ok(false));
    assert_eq!(tree.node_underflows(3), Ok(false));
    // a node of fewer than two entries cannot be split
    assert_eq!(tree.split(9, 0), Err(StorageError::BrokenTree));
}

#[test]
fn an_internal_node_splits_around_its_middle_key() {
    let mut tree = tree();
    for key in 1..=13u32 {
        tree.insert(entry(key)).unwrap();
    }
    // rising keys fill the rightmost leaf; with the thirteenth key the root
    // has taken its sixth child and was split in turn
    let (leaf, root) = node(&mut tree, 0);
    assert!(!leaf);
    assert_eq!(root.len(), 2);
    assert_eq!(root[1].key, Value::Number(u32::MAX));
    let (_, left) = node(&mut tree, children_of(&root)[0]);
    let (_, right) = node(&mut tree, children_of(&root)[1]);
    assert_eq!(left.len(), 3);
    assert_eq!(right.len(), 3);
    assert_eq!(left[2].key, Value::Number(u32::MAX));
    assert_eq!(right[2].key, Value::Number(u32::MAX));
    // the divider is the key that the left node's last child went by
    assert_eq!(keys_of(&left)[..2], [3, 5]);
    assert_eq!(root[0].key, Value::Number(7));
    assert_eq!(keys_of(&right)[..2], [9, 11]);
    assert_eq!(all_keys(&mut tree), (1..=13).collect::<Vec<u32>>());
}

#[test]
fn every_inserted_key_is_found_with_its_row() {
    let mut tree = tree();
    let keys: Vec<u32> = (0..200).map(|i| (i * 37) % 211).collect();
    for (n, key) in keys.iter().enumerate() {
        assert_eq!(tree.insert(entry(*key)), Ok(true));
        if n % 20 == 0 {
            for seen in &keys[..=n] {
                assert!(found(&mut tree, *seen), "key {} after {} inserts", seen, n + 1);
            }
        }
    }
    let mut sorted = keys.clone();
    sorted.sort();
    assert_eq!(all_keys(&mut tree), sorted);
    assert!(!found(&mut tree, 500));
}

#[test]
fn keys_inserted_in_rising_order_are_all_found() {
    let mut tree = tree();
    for key in 1..=120u32 {
        assert_eq!(execute::insert(entry(key), &mut tree), Ok(true));
    }
    for key in 1..=120u32 {
        assert!(found(&mut tree, key));
    }
    assert_eq!(all_keys(&mut tree), (1..=120).collect::<Vec<u32>>());
}

#[test]
fn the_tree_is_in_the_file_after_each_change() {
    let mut tree = tree();
    for key in 1..=30u32 {
        execute::insert(entry(key), &mut tree).unwrap();
    }
    execute::delete(Value::Number(4), &mut tree).unwrap();
    let table = Table::read_table("t", tree.buffer_pool.file.file.clone()).unwrap();
    let mut again = BPlusTree::new(table);
    let mut expected: Vec<u32> = (1..=30).collect();
    expected.retain(|k| *k != 4);
    assert_eq!(all_keys(&mut again), expected);
    for key in expected {
        assert!(found(&mut again, key));
    }
}

#[test]
fn text_keys_are_found_too() {
    let table = Table::new("names", 0, vec!["n".to_string()], vec![2], false).unwrap();
    let mut tree = BPlusTree::new(table);
    let names = ["delta", "al", "bob", "carol", "eve", "fay", "gus", "hal", "ida", "jo", "kim", "lee"];
    for (i, name) in names.iter().enumerate() {
        let kr = KeyRow { key: text(name), row: vec![Value::Number(i as u32)] };
        assert_eq!(tree.insert(kr), Ok(true));
    }
    for (i, name) in names.iter().enumerate() {
        let kr = execute::read(text(name), &mut tree).unwrap();
        assert_eq!(kr.row[0], Value::Number(i as u32));
    }
    let (leaf, root) = node(&mut tree, 0);
    assert!(!leaf);
    assert_eq!(root[root.len() - 1].key, text("zzzzzzzz"));
    assert_eq!(execute::read(text("zed"), &mut tree).err(), Some(StorageError::NotFound));
}

#[test]
fn insert_refuses_rows_that_do_not_fit_and_changes_nothing() {
    let mut tree = tree();
    tree.insert(entry(1)).unwrap();
    let short = KeyRow { key: Value::Number(2), row: vec![Value::Number(2)] };
    assert_eq!(tree.insert(short), Err(StorageError::RowMismatch));
    let other_kind = KeyRow { key: text("k"), row: vec![Value::Number(2), text("s")] };
    assert_eq!(tree.insert(other_kind), Err(StorageError::KeyKind));
    let bad = KeyRow { key: Value::Number(2), row: vec![Value::Number(2), Value::String(9, "s".to_string())] };
    assert_eq!(tree.insert(bad), Err(StorageError::BadValue));
    let long = KeyRow { key: Value::Number(2), row: vec![Value::Number(2), text(&"x".repeat(255))] };
    assert_eq!(tree.insert(long), Err(StorageError::RowTooLarge));
    let (_, entries) = node(&mut tree, 0);
    assert_eq!(keys_of(&entries), vec![1]);
}

#[test]
fn a_tree_with_a_missing_child_is_broken() {
    let mut tree = tree();
    let routes = vec![KeyRow { key: Value::Number(u32::MAX), row: vec![Value::Number(7)] }];
    tree.buffer_pool.set_node(0, false, &routes).unwrap();
    assert_eq!(tree.search(&Value::Number(1)), Err(StorageError::BrokenTree));
    assert_eq!(tree.insert(entry(1)), Err(StorageError::BrokenTree));
    assert_eq!(tree.delete(Value::Number(1)), Err(StorageError::BrokenTree));
    assert_eq!(tree.update(entry(1)), Err(StorageError::BrokenTree));
    assert_eq!(execute::read(Value::Number(1), &mut tree).err(), Some(StorageError::BrokenTree));
}

#[test]
fn a_tree_that_loops_is_broken() {
    let mut tree = tree();
    let routes = vec![KeyRow { key: Value::Number(u32::MAX), row: vec![Value::Number(0)] }];
    tree.buffer_pool.set_node(0, false, &routes).unwrap();
    assert_eq!(tree.search(&Value::Number(1)), Err(StorageError::BrokenTree));
}

#[test]
fn update_replaces_the_row_under_a_key() {
    let mut tree = tree();
    for key in 1..=12u32 {
        tree.insert(entry(key)).unwrap();
    }
    let new_row = KeyRow { key: Value::Number(7), row: vec![Value::Number(1), text("new")] };
    assert_eq!(execute::update(new_row, &mut tree), Ok(()));
    let kr = execute::read(Value::Number(7), &mut tree).unwrap();
    assert_eq!(kr.row[0], Value::Number(1));
    assert_eq!(kr.row[1], text("new"));
    assert_eq!(all_keys(&mut tree), (1..=12).collect::<Vec<u32>>());
    let short = KeyRow { key: Value::Number(7), row: vec![Value::Number(1)] };
    assert_eq!(tree.update(short), Err(StorageError::RowMismatch));
    assert_eq!(execute::read(Value::Number(7), &mut tree).unwrap().row[1], text("new"));
}

#[test]
fn delete_says_whether_the_key_was_there() {
    let mut tree = tree();
    for key in 1..=3u32 {
        tree.insert(entry(key)).unwrap();
    }
    assert_eq!(tree.delete(Value::Number(2)), Ok(true));
    assert_eq!(tree.delete(Value::Number(2)), Ok(false));
    let (leaf, entries) = node(&mut tree, 0);
    assert!(leaf);
    assert_eq!(keys_of(&entries), vec![1, 3]);
    assert!(!found(&mut tree, 2));
    assert!(found(&mut tree, 3));
}

#[test]
fn a_leaf_that_holds_too_little_takes_a_key_from_its_neighbour() {
    let mut tree = tree();
    for key in 1..=6u32 {
        tree.insert(entry(key)).unwrap();
    }
    // leaves: page 2 = 1 2, page 1 = 3 4 5 6
    assert_eq!(tree.delete(Value::Number(1)), Ok(true));
    let (_, root) = node(&mut tree, 0);
    assert_eq!(keys_of(&root), vec![4, u32::MAX]);
    assert_eq!(children_of(&root), vec![2, 1]);
    assert_eq!(keys_of(&node(&mut tree, 2).1), vec![2, 3]);
    assert_eq!(keys_of(&node(&mut tree, 1).1), vec![4, 5, 6]);
    // the right leaf takes the last key of the left one
    tree.insert(entry(1)).unwrap();
    tree.insert(entry(0)).unwrap();
    assert_eq!(keys_of(&node(&mut tree, 2).1), vec![0, 1, 2, 3]);
    assert_eq!(tree.delete(Value::Number(5)), Ok(true));
    assert_eq!(tree.delete(Value::Number(6)), Ok(true));
    let (_, root) = node(&mut tree, 0);
    assert_eq!(keys_of(&root), vec![3, u32::MAX]);
    assert_eq!(children_of(&root), vec![2, 1]);
    assert_eq!(keys_of(&node(&mut tree, 2).1), vec![0, 1, 2]);
    assert_eq!(keys_of(&node(&mut tree, 1).1), vec![3, 4]);
}

#[test]
fn two_leaves_that_fit_in_one_are_merged_and_the_root_collapses() {
    let mut tree = tree();
    for key in 1..=5u32 {
        tree.insert(entry(key)).unwrap();
    }
    assert_eq!(tree.delete(Value::Number(5)), Ok(true));
    // leaves: page 2 = 1 2, page 1 = 3 4
    assert_eq!(tree.delete(Value::Number(4)), Ok(true));
    // page 1 held too little: the two leaves fit in one, page 1 takes all, page 2
    // is freed, and the root, left with one child, takes its place
    let (leaf, root) = node(&mut tree, 0);
    assert!(leaf);
    assert_eq!(keys_of(&root), vec![1, 2, 3]);
    assert_eq!(tree.buffer_pool.file.free_page_list, vec![2, 1]);
    assert_eq!(tree.buffer_pool.read_node(1).err(), Some(StorageError::BrokenTree));
    assert_eq!(tree.buffer_pool.read_node(2).err(), Some(StorageError::BrokenTree));
    for key in 1..=3u32 {
        assert!(found(&mut tree, key));
    }
    assert_eq!(tree.merge_root(0), Ok(false));
}

#[test]
fn end_to_end_twenty_in_fifteen_out() {
    let mut tree = tree();
    for key in 1..=20u32 {
        assert_eq!(execute::insert(entry(key), &mut tree), Ok(true));
    }
    for key in 1..=20u32 {
        assert!(found(&mut tree, key));
        let (leaf, _) = tree.search(&Value::Number(key)).unwrap();
        assert!(keys_of(&node(&mut tree, leaf).1).contains(&key));
    }
    assert_eq!(all_keys(&mut tree), (1..=20).collect::<Vec<u32>>());
    for key in 1..=15u32 {
        assert_eq!(execute::delete(Value::Number(key), &mut tree), Ok(true));
        assert_eq!(all_keys(&mut tree), (key + 1..=20).collect::<Vec<u32>>());
    }
    assert_eq!(all_keys(&mut tree), vec![16, 17, 18, 19, 20]);
    for key in 1..=15u32 {
        assert!(!found(&mut tree, key));
    }
    for key in 16..=20u32 {
        assert!(found(&mut tree, key));
    }
}

#[test]
fn keys_deleted_in_any_order_leave_a_sound_tree() {
    let mut tree = tree();
    let keys: Vec<u32> = (0..150).map(|i| (i * 53) % 151).collect();
    for key in &keys {
        tree.insert(entry(*key)).unwrap();
    }
    let mut left: Vec<u32> = keys.clone();
    left.sort();
    for key in keys.iter().rev().step_by(2) {
        assert_eq!(execute::delete(Value::Number(*key), &mut tree), Ok(true));
        left.retain(|k| k != key);
        assert_eq!(all_keys(&mut tree), left);
    }
    for key in &left {
        assert!(found(&mut tree, *key));
    }
}

#[test]
fn overflow_and_underflow_go_by_the_kind_of_node() {
    let tree = tree();
    let mut leaf = Page::new_leaf();
    assert!(tree.is_underflow(&leaf));
    for key in 1..=2u32 {
        leaf.insert(entry(key)).unwrap();
    }
    assert!(!tree.is_underflow(&leaf));
    for key in 3..=4u32 {
        leaf.insert(entry(key)).unwrap();
    }
    assert!(!tree.is_overflow(&leaf));
    leaf.insert(entry(5)).unwrap();
    assert!(tree.is_overflow(&leaf));
    let mut internal = Page::new_internal();
    for key in 1..=2u32 {
        internal.insert(KeyRow { key: Value::Number(key), row: vec![Value::Number(key)] }).unwrap();
    }
    assert!(tree.is_underflow(&internal));
    internal.insert(KeyRow { key: Value::Number(3), row: vec![Value::Number(3)] }).unwrap();
    assert!(!tree.is_underflow(&internal));
    for key in 4..=5u32 {
        internal.insert(KeyRow { key: Value::Number(key), row: vec![Value::Number(key)] }).unwrap();
    }
    assert!(!tree.is_overflow(&internal));
    internal.insert(KeyRow { key: Value::Number(6), row: vec![Value::Number(6)] }).unwrap();
    assert!(tree.is_overflow(&internal));
}

#[test]
fn get_sibling_looks_left_unless_the_node_is_first() {
    let mut tree = tree();
    for key in 1..=12u32 {
        tree.insert(entry(key)).unwrap();
    }
    let (_, root) = node(&mut tree, 0);
    let children = children_of(&root);
    assert!(children.len() >= 3);
    let first = tree.get_sibling(children[0], 0).unwrap();
    assert_eq!((first[0].page_id, first[0].page_index), (children[0], 0));
    assert_eq!((first[1].page_id, first[1].page_index), (children[1], 1));
    let last = tree.get_sibling(children[2], 0).unwrap();
    assert_eq!((last[0].page_id, last[0].page_index), (children[2], 2));
    assert_eq!((last[1].page_id, last[1].page_index), (children[1], 1));
    assert_eq!(tree.get_sibling(77, 0).err(), Some(StorageError::BrokenTree));
    assert_eq!(tree.get_sibling(0, children[0]).err(), Some(StorageError::BrokenTree));
}

#[test]
fn create_refuses_a_table_that_is_there() {
    let names = vec!["age".to_string()];
    assert_eq!(execute::create("t", 0, names.clone(), vec![2], true).err(), Some(StorageError::TableExists));
    assert_eq!(execute::create("t", 0, names.clone(), vec![], false).err(), Some(StorageError::BadSchema));
    let table = execute::create("t", 0, names, vec![2], false).unwrap();
    assert_eq!(table.page_id_count, 1);
}

#[test]
fn text_keys_above_the_ceiling_are_routed_amiss() {
    // texts of more than eight bytes sort after "zzzzzzzz", the key that
    // stands for "no upper bound": a divider made of one goes after it
    let table = Table::new("names", 0, vec!["n".to_string()], vec![2], false).unwrap();
    let mut tree = BPlusTree::new(table);
    for i in 1..=5u32 {
        let kr = KeyRow { key: text(&format!("aaaaaaaa{}", i)), row: vec![Value::Number(i)] };
        assert_eq!(tree.insert(kr), Ok(true));
    }
    let (_, root) = node(&mut tree, 0);
    assert_eq!(root[0].key, text("zzzzzzzz"));
    assert_eq!(root[1].key, text("aaaaaaaa3"));
    assert!(execute::read(text("aaaaaaaa1"), &mut tree).is_ok());
    assert_eq!(execute::read(text("aaaaaaaa5"), &mut tree).err(), Some(StorageError::NotFound));
}

#[test]
fn eight_byte_text_keys_below_the_ceiling_are_all_found() {
    let table = Table::new("names", 0, vec!["n".to_string()], vec![2], false).unwrap();
    let mut tree = BPlusTree::new(table);
    for i in 0..60u32 {
        let kr = KeyRow { key: text(&format!("key{:05}", (i * 17) % 61)), row: vec![Value::Number(i)] };
        assert_eq!(tree.insert(kr), Ok(true));
    }
    for i in 0..60u32 {
        let kr = execute::read(text(&format!("key{:05}", (i * 17) % 61)), &mut tree).unwrap();
        assert_eq!(kr.row[0], Value::Number(i));
    }
}
