use planckdb::buffer_manager::BufferPool;
use planckdb::engine::Table;
use planckdb::error::StorageError;
use planckdb::pages::Page;
use planckdb::value::{KeyRow, Value};

fn text(s: &str) -> Value {
    Value::string(s.to_string())
}

fn entry(key: u32, age: u32, site: &str) -> KeyRow {
    KeyRow { key: Value::Number(key), row: vec![Value::Number(age), text(site)] }
}

fn leaf_with(key: u32) -> Page {
    let mut page = Page::new_leaf();
    page.insert(entry(key, key, "s")).unwrap();
    page
}

fn pool() -> BufferPool {
    let table = Table::new("t", 0, vec!["age".to_string(), "site".to_string()], vec![2, 7], false).unwrap();
    BufferPool::new(table)
}

fn resident(pool: &BufferPool) -> Vec<u32> {
    pool.pool.iter().map(|frame| frame.page_id).collect()
}

fn index_agrees(pool: &BufferPool) {
    assert_eq!(pool.table.len(), pool.pool.len());
    for (at, frame) in pool.pool.iter().enumerate() {
        assert_eq!(pool.table.get(&frame.page_id), Some(&at));
    }
}

#[test]
fn a_new_pool_holds_no_page() {
    let pool = pool();
    assert!(pool.pool.is_empty());
    assert!(pool.table.is_empty());
    assert_eq!(pool.clock, 0);
}

#[test]
fn get_brings_the_page_in_and_pins_it() {
    let mut pool = pool();
    {
        let page = pool.get(0).unwrap();
        assert!(page.is_leaf());
        assert!(page.slots.is_empty());
    }
    assert_eq!(resident(&pool), vec![0]);
    assert!(pool.pool[0].pin);
    assert!(!pool.pool[0].dirty);
    index_agrees(&pool);
    assert_eq!(pool.get_index(0), Ok(0));
}

#[test]
fn get_mut_marks_the_page_dirty() {
    let mut pool = pool();
    {
        let page = pool.get_mut(0).unwrap();
        page.insert(entry(1, 10, "a")).unwrap();
    }
    assert!(pool.pool[0].pin);
    assert!(pool.pool[0].dirty);
    assert_eq!(pool.get(0).unwrap().slots.len(), 1);
    // the file is as it was until the page is written out
    assert_eq!(pool.file.read_page(0), Page::new_leaf().page_to_buff().unwrap());
}

#[test]
fn a_page_that_is_not_in_the_file_cannot_be_had() {
    let mut pool = pool();
    assert_eq!(pool.get(3).err(), Some(StorageError::Corrupt));
    assert_eq!(pool.get_mut(3).err(), Some(StorageError::Corrupt));
    assert!(pool.pool.is_empty());
    assert_eq!(pool.load_from_disk(3).err(), Some(StorageError::Corrupt));
    assert!(pool.load_from_disk(0).is_ok());
}

#[test]
fn create_page_stores_the_page_and_brings_it_in_dirty() {
    let mut pool = pool();
    assert_eq!(pool.create_page(leaf_with(5)), Ok(1));
    assert_eq!(resident(&pool), vec![1]);
    assert!(pool.pool[0].pin);
    assert!(pool.pool[0].dirty);
    assert_eq!(pool.file.page_id_count, 2);
    assert_eq!(pool.file.read_page(1), leaf_with(5).page_to_buff().unwrap());
    assert_eq!(pool.get(1).unwrap().slots[0].value, Value::Number(5));
    index_agrees(&pool);
}

#[test]
fn create_page_refuses_pages_that_cannot_stand_in_the_table() {
    let mut pool = pool();
    let mut other = Page::new_leaf();
    other.insert(KeyRow { key: Value::Number(1), row: vec![text("a")] }).unwrap();
    assert_eq!(pool.create_page(other), Err(StorageError::RowMismatch));
    let mut broken = leaf_with(1);
    broken.slots[0].pointer = 6;
    assert_eq!(pool.create_page(broken), Err(StorageError::BadPage));
    assert_eq!(pool.file.page_id_count, 1);
    assert!(pool.pool.is_empty());
}

#[test]
fn create_page_goes_by_the_cells_and_not_by_the_free_space_pointer() {
    let mut pool = pool();
    let mut stale = leaf_with(1);
    let lowest = stale.slots[0].pointer;
    stale.free_space_pointer = 4;
    assert_eq!(pool.create_page(stale), Ok(1));
    assert_eq!(pool.get(1).unwrap().free_space_pointer, lowest);
    assert_eq!(pool.get(1).unwrap().slots[0].value, Value::Number(1));
    let mut high = leaf_with(2);
    high.free_space_pointer = 4095;
    assert_eq!(pool.create_page(high), Ok(2));
    assert_eq!(pool.file.read_page(2), leaf_with(2).page_to_buff().unwrap());
}

#[test]
fn update_page_keeps_the_page_with_its_free_space_at_the_lowest_cell() {
    let mut pool = pool();
    pool.get(0).unwrap();
    let mut stale = leaf_with(3);
    let lowest = stale.slots[0].pointer;
    stale.free_space_pointer = 4095;
    assert_eq!(pool.update_page(stale, 0), Ok(()));
    assert_eq!(pool.pool[0].page.free_space_pointer, lowest);
    assert!(pool.pool[0].page.is_wf());
    assert_eq!(pool.file.read_page(0), leaf_with(3).page_to_buff().unwrap());
    let mut broken = leaf_with(4);
    broken.slots[0].pointer = 6;
    assert_eq!(pool.update_page(broken, 0), Err(StorageError::BadPage));
    assert_eq!(pool.pool[0].page.slots[0].value, Value::Number(3));
}

#[test]
fn the_seventh_page_evicts_the_first_frame_after_a_full_sweep() {
    let mut pool = pool();
    for key in 1..=6u32 {
        assert_eq!(pool.create_page(leaf_with(key)), Ok(key));
    }
    assert_eq!(resident(&pool), vec![1, 2, 3, 4, 5, 6]);
    assert!(pool.pool.iter().all(|frame| frame.pin));
    // every frame is pinned: the hand clears all six pins and stops where it began
    pool.get(0).unwrap();
    assert_eq!(resident(&pool), vec![2, 3, 4, 5, 6, 0]);
    assert_eq!(pool.clock, 1);
    let pins: Vec<bool> = pool.pool.iter().map(|frame| frame.pin).collect();
    assert_eq!(pins, vec![false, false, false, false, false, true]);
    index_agrees(&pool);
    // the evicted page was dirty and is in the file
    assert_eq!(pool.file.read_page(1), leaf_with(1).page_to_buff().unwrap());
}

#[test]
fn the_sweep_skips_pinned_frames_and_clears_their_pins() {
    let mut pool = pool();
    for key in 1..=6u32 {
        pool.create_page(leaf_with(key)).unwrap();
    }
    pool.get(0).unwrap();
    // frames: 2 3 4 5 6 0, hand at 1, only the last frame pinned
    pool.get(3).unwrap();
    pool.get(4).unwrap();
    // hand at 1 points at page 3 (pinned), then page 4 (pinned), then page 5
    pool.get(1).unwrap();
    assert_eq!(resident(&pool), vec![2, 3, 4, 6, 0, 1]);
    assert_eq!(pool.clock, 4);
    let pins: Vec<bool> = pool.pool.iter().map(|frame| frame.pin).collect();
    assert_eq!(pins, vec![false, false, false, false, true, true]);
    index_agrees(&pool);
}

#[test]
fn victim_leaves_a_pool_with_room_alone() {
    let mut pool = pool();
    pool.get(0).unwrap();
    pool.victim();
    assert_eq!(resident(&pool), vec![0]);
    assert!(pool.pool[0].pin);
    assert_eq!(pool.clock, 0);
}

#[test]
fn an_evicted_page_comes_back_with_its_changes() {
    let mut pool = pool();
    pool.get_mut(0).unwrap().insert(entry(7, 70, "seven")).unwrap();
    for key in 1..=6u32 {
        pool.create_page(leaf_with(key)).unwrap();
    }
    assert!(!resident(&pool).contains(&0));
    let page = pool.get(0).unwrap();
    assert_eq!(page.slots.len(), 1);
    assert_eq!(page.slots[0].value, Value::Number(7));
    let rows = page.cells.get(&page.slots[0].pointer).unwrap();
    assert_eq!(rows.values[1], text("seven"));
}

#[test]
fn flush_all_writes_dirty_pages_and_leaves_them_dirty() {
    let mut pool = pool();
    pool.get_mut(0).unwrap().insert(entry(7, 70, "seven")).unwrap();
    pool.flush_all();
    assert!(pool.pool[0].dirty);
    // the page was read from the file, where an empty page has its free space at 4095
    let mut expected = Page::buff_to_page(vec![2, 7], Page::new_leaf().page_to_buff().unwrap()).unwrap();
    assert_eq!(expected.free_space_pointer, 4095);
    expected.insert(entry(7, 70, "seven")).unwrap();
    assert_eq!(pool.file.read_page(0), expected.page_to_buff().unwrap());
    let file = pool.file.file.clone();
    pool.flush_all();
    assert_eq!(pool.file.file, file);
    // a pool over the same bytes sees the change
    let table = Table::read_table("t", file).unwrap();
    let mut again = BufferPool::new(table);
    assert_eq!(again.get(0).unwrap().slots[0].value, Value::Number(7));
}

#[test]
fn update_page_writes_through_and_replaces_a_resident_page() {
    let mut pool = pool();
    pool.get(0).unwrap();
    assert_eq!(pool.update_page(leaf_with(3), 0), Ok(()));
    assert_eq!(pool.file.read_page(0), leaf_with(3).page_to_buff().unwrap());
    assert_eq!(pool.get(0).unwrap().slots[0].value, Value::Number(3));
    assert!(!pool.pool[0].dirty);
    // a page that is not resident is written to the file only
    pool.create_page(leaf_with(1)).unwrap();
    pool.drop_frame(1);
    assert_eq!(pool.update_page(leaf_with(9), 1), Ok(()));
    assert_eq!(resident(&pool), vec![0]);
    assert_eq!(pool.get(1).unwrap().slots[0].value, Value::Number(9));
}

#[test]
fn remove_page_frees_the_page_and_its_frame() {
    let mut pool = pool();
    for key in 1..=3u32 {
        pool.create_page(leaf_with(key)).unwrap();
    }
    assert_eq!(pool.remove_page(2), Ok(()));
    assert_eq!(resident(&pool), vec![1, 3]);
    index_agrees(&pool);
    assert_eq!(pool.file.free_page_list, vec![2]);
    assert_eq!(pool.file.read_page(2), [0u8; 4096]);
    assert_eq!(pool.get(2).err(), Some(StorageError::Corrupt));
    // the freed id is the next to be used
    assert_eq!(pool.create_page(leaf_with(8)), Ok(2));
    assert_eq!(pool.get(2).unwrap().slots[0].value, Value::Number(8));
}

#[test]
fn node_operations_change_one_node() {
    let mut pool = pool();
    assert_eq!(pool.put_entry(0, entry(2, 20, "b")), Ok(()));
    assert_eq!(pool.put_entry(0, entry(1, 10, "a")), Ok(()));
    let (leaf, entries) = pool.read_node(0).unwrap();
    assert!(leaf);
    assert_eq!(entries.len(), 2);
    assert_eq!(entries[0].key, Value::Number(1));
    assert_eq!(pool.rekey_entry(0, 1, Value::Number(5)), Ok(()));
    let taken = pool.take_entry(0, 0).unwrap();
    assert_eq!(taken.key, Value::Number(1));
    let (_, entries) = pool.read_node(0).unwrap();
    assert_eq!(entries.len(), 1);
    assert_eq!(entries[0].key, Value::Number(5));
    assert_eq!(entries[0].row[1], text("b"));
}

#[test]
fn node_operations_refuse_what_does_not_fit_the_table() {
    let mut pool = pool();
    let short = KeyRow { key: Value::Number(1), row: vec![Value::Number(1)] };
    assert_eq!(pool.put_entry(0, short.clone()), Err(StorageError::RowMismatch));
    assert_eq!(pool.check_put(0, usize::MAX, &short), Some(StorageError::RowMismatch));
    assert_eq!(pool.check_put(0, usize::MAX, &entry(1, 1, "a")), None);
    assert_eq!(pool.put_entry(9, entry(1, 1, "a")), Err(StorageError::BrokenTree));
    assert_eq!(pool.take_entry(0, 0).err(), Some(StorageError::BrokenTree));
    assert_eq!(pool.rekey_entry(0, 0, Value::Number(1)), Err(StorageError::BrokenTree));
    assert_eq!(pool.read_node(9).err(), Some(StorageError::BrokenTree));
    assert_eq!(pool.create_node(true, &vec![short]), Err(StorageError::RowMismatch));
    assert_eq!(pool.file.page_id_count, 1);
}

#[test]
fn create_node_and_set_node_build_sorted_nodes() {
    let mut pool = pool();
    let list = vec![entry(3, 3, "c"), entry(1, 1, "a"), entry(2, 2, "b")];
    assert_eq!(pool.create_node(true, &list), Ok(1));
    let (leaf, entries) = pool.read_node(1).unwrap();
    assert!(leaf);
    let keys: Vec<Value> = entries.iter().map(|e| e.key.clone()).collect();
    assert_eq!(keys, vec![Value::Number(1), Value::Number(2), Value::Number(3)]);
    let routes = vec![KeyRow { key: Value::Number(u32::MAX), row: vec![Value::Number(1)] }];
    assert_eq!(pool.set_node(0, false, &routes), Ok(()));
    let (leaf, entries) = pool.read_node(0).unwrap();
    assert!(!leaf);
    assert_eq!(entries[0].row[0], Value::Number(1));
    assert_eq!(pool.remove_node(1), Ok(()));
    assert_eq!(pool.read_node(1).err(), Some(StorageError::BrokenTree));
}
