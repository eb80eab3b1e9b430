use planckdb::error::StorageError;
use planckdb::pages::{row_size, Page, Rows, Slot};
use planckdb::value::{KeyRow, Value};

fn text(s: &str) -> Value {
    Value::string(s.to_string())
}

fn entry(key: u32, age: u32, site: &str) -> KeyRow {
    KeyRow { key: Value::Number(key), row: vec![Value::Number(age), text(site)] }
}

fn keys(page: &Page) -> Vec<Value> {
    page.slots.iter().map(|slot| slot.value.clone()).collect()
}

#[test]
fn new_pages_are_empty_with_free_space_at_4093() {
    let leaf = Page::new_leaf();
    assert!(leaf.is_leaf());
    assert_eq!(leaf.free_space_pointer, 4093);
    assert!(leaf.slots.is_empty());
    assert!(leaf.cells.is_empty());
    let internal = Page::new_internal();
    assert!(!internal.is_leaf());
    assert_eq!(internal.free_space_pointer, 4093);
    assert!(internal.is_wf());
}

#[test]
fn row_size_counts_four_per_number_and_length_plus_one_per_text() {
    assert_eq!(row_size(&vec![Value::Number(1), text("site")]), Some(9));
    assert_eq!(row_size(&vec![]), Some(0));
    let long = "x".repeat(200);
    assert_eq!(row_size(&vec![text(&long)]), Some(201));
    assert_eq!(row_size(&vec![text(&long), text(&long)]), None);
}

#[test]
fn insert_places_the_cell_below_the_free_space_pointer() {
    let mut page = Page::new_leaf();
    assert_eq!(page.insert(entry(7, 30, "site")), Ok(()));
    assert_eq!(page.free_space_pointer, 4093 - 9 - 1);
    assert_eq!(page.slots.len(), 1);
    assert_eq!(page.slots[0].pointer, 4083);
    let rows = page.cells.get(&4083).unwrap();
    assert_eq!(rows.size, 9);
    assert_eq!(rows.values[0], Value::Number(30));
    assert_eq!(rows.values[1], text("site"));
    assert_eq!(page.insert(entry(9, 31, "a")), Ok(()));
    assert_eq!(page.slots[1].pointer, 4083 - 6 - 1);
    assert_eq!(page.free_space_pointer, 4076);
}

#[test]
fn insert_keeps_the_slots_sorted() {
    let mut page = Page::new_leaf();
    for key in [5u32, 1, 9, 3, 7] {
        assert_eq!(page.insert(entry(key, key * 10, "s")), Ok(()));
    }
    assert_eq!(
        keys(&page),
        vec![Value::Number(1), Value::Number(3), Value::Number(5), Value::Number(7), Value::Number(9)]
    );
    assert!(page.is_wf());
}

#[test]
fn an_equal_key_goes_after_its_equals() {
    let mut page = Page::new_leaf();
    page.insert(entry(5, 1, "a")).unwrap();
    page.insert(entry(5, 2, "b")).unwrap();
    assert_eq!(page.insert_position(&Value::Number(5)), 2);
    assert_eq!(page.find(&Value::Number(5)), 0);
    let first = page.cells.get(&page.slots[0].pointer).unwrap();
    assert_eq!(first.values[0], Value::Number(1));
}

#[test]
fn delete_takes_slot_and_cell() {
    let mut page = Page::new_leaf();
    for key in [1u32, 2, 3] {
        page.insert(entry(key, key, "s")).unwrap();
    }
    let pointer = page.slots[1].pointer;
    page.delete(Value::Number(2));
    assert_eq!(keys(&page), vec![Value::Number(1), Value::Number(3)]);
    assert!(!page.cells.contains_key(&pointer));
    assert_eq!(page.cells.len(), 2);
    page.delete(Value::Number(8));
    assert_eq!(page.slots.len(), 2);
    assert!(page.is_wf());
}

#[test]
fn clean_page_gives_all_space_back() {
    let mut page = Page::new_leaf();
    page.insert(entry(1, 1, "s")).unwrap();
    page.clean_page();
    assert!(page.slots.is_empty());
    assert!(page.cells.is_empty());
    assert_eq!(page.free_space_pointer, 4095);
    assert!(page.is_leaf());
}

#[test]
fn mut_slot_opens_the_slot_of_the_key() {
    let mut page = Page::new_leaf();
    page.insert(entry(1, 1, "s")).unwrap();
    page.insert(entry(2, 2, "s")).unwrap();
    let slot: &mut Slot = page.mut_slot(Value::Number(2));
    assert_eq!(slot.value, Value::Number(2));
    slot.value = Value::Number(4);
    assert_eq!(keys(&page), vec![Value::Number(1), Value::Number(4)]);
}

#[test]
fn entries_lists_keys_with_rows() {
    let mut page = Page::new_leaf();
    page.insert(entry(2, 20, "b")).unwrap();
    page.insert(entry(1, 10, "a")).unwrap();
    let list = page.entries().unwrap();
    assert_eq!(list.len(), 2);
    assert_eq!(list[0].key, Value::Number(1));
    assert_eq!(list[0].row[1], text("a"));
    assert_eq!(list[1].key, Value::Number(2));
    assert_eq!(list[1].row[0], Value::Number(20));
}

#[test]
fn entries_is_nothing_where_a_cell_is_missing() {
    let mut page = Page::new_leaf();
    page.insert(entry(1, 10, "a")).unwrap();
    let pointer = page.slots[0].pointer;
    page.cells.remove(&pointer);
    assert!(page.entries().is_none());
    assert!(!page.is_wf());
}

#[test]
fn insert_refuses_a_text_with_a_wrong_tag() {
    let mut page = Page::new_leaf();
    let bad = KeyRow { key: Value::Number(1), row: vec![Value::String(2, "abc".to_string())] };
    assert_eq!(page.insert(bad), Err(StorageError::BadValue));
    let bad_key = KeyRow { key: Value::String(9, "abc".to_string()), row: vec![] };
    assert_eq!(page.insert(bad_key), Err(StorageError::BadValue));
    assert!(page.slots.is_empty());
}

#[test]
fn insert_refuses_a_row_of_more_than_255_bytes() {
    let mut page = Page::new_leaf();
    let long = "x".repeat(200);
    let row = vec![text(&long), text(&long)];
    assert_eq!(page.insert(KeyRow { key: Value::Number(1), row }), Err(StorageError::RowTooLarge));
    let fits = vec![text(&"x".repeat(254))];
    assert_eq!(page.insert(KeyRow { key: Value::Number(1), row: fits }), Ok(()));
}

#[test]
fn insert_refuses_a_key_of_another_kind() {
    let mut page = Page::new_leaf();
    page.insert(entry(1, 1, "s")).unwrap();
    let other = KeyRow { key: text("k"), row: vec![Value::Number(1), text("s")] };
    assert_eq!(page.insert(other), Err(StorageError::KeyKind));
    assert_eq!(page.slots.len(), 1);
}

#[test]
fn an_internal_page_takes_one_page_id_per_cell() {
    let mut page = Page::new_internal();
    assert_eq!(page.insert(entry(1, 1, "s")), Err(StorageError::BadCell));
    let text_child = KeyRow { key: Value::Number(1), row: vec![text("s")] };
    assert_eq!(page.insert(text_child), Err(StorageError::BadCell));
    let child = KeyRow { key: Value::Number(1), row: vec![Value::Number(4)] };
    assert_eq!(page.insert(child), Ok(()));
    assert_eq!(page.cells.get(&page.slots[0].pointer).unwrap().size, 4);
}

#[test]
fn insert_refuses_what_the_page_has_no_room_for() {
    let mut page = Page::new_leaf();
    let big = "x".repeat(250);
    let mut count = 0;
    loop {
        let outcome = page.insert(KeyRow { key: Value::Number(count), row: vec![text(&big)] });
        if outcome.is_err() {
            assert_eq!(outcome, Err(StorageError::PageFull));
            break;
        }
        count += 1;
    }
    // each entry takes 6 bytes of directory and 252 bytes of cell; 15 fit below 4093
    assert_eq!(count, 15);
    assert!(page.is_wf());
    assert_eq!(page.slots.len(), 15);
}

#[test]
fn set_key_replaces_one_key() {
    let mut page = Page::new_internal();
    page.insert(KeyRow { key: Value::Number(10), row: vec![Value::Number(1)] }).unwrap();
    page.insert(KeyRow { key: Value::Number(20), row: vec![Value::Number(2)] }).unwrap();
    assert_eq!(page.set_key(0, Value::Number(15)), Ok(()));
    assert_eq!(keys(&page), vec![Value::Number(15), Value::Number(20)]);
    assert_eq!(page.set_key(0, text("k")), Err(StorageError::KeyKind));
    assert_eq!(page.set_key(1, Value::String(1, "kk".to_string())), Err(StorageError::BadValue));
    assert_eq!(keys(&page), vec![Value::Number(15), Value::Number(20)]);
}

#[test]
fn remove_at_hands_back_key_and_row() {
    let mut page = Page::new_leaf();
    page.insert(entry(1, 10, "a")).unwrap();
    page.insert(entry(2, 20, "b")).unwrap();
    let taken = page.remove_at(0).unwrap();
    assert_eq!(taken.key, Value::Number(1));
    assert_eq!(taken.row[0], Value::Number(10));
    assert_eq!(keys(&page), vec![Value::Number(2)]);
}

#[test]
fn overlapping_cells_break_the_layout() {
    let mut page = Page::new_leaf();
    page.insert(entry(1, 10, "a")).unwrap();
    page.insert(entry(2, 20, "b")).unwrap();
    assert!(page.is_wf());
    let first = page.slots[0].pointer;
    let rows = Rows { size: 6, values: vec![Value::Number(20), text("b")] };
    page.cells.insert(first + 1, rows);
    page.slots[1].pointer = first + 1;
    assert!(!page.is_wf());
    assert_eq!(page.page_to_buff().err(), Some(StorageError::BadPage));
}

#[test]
fn a_page_is_written_whatever_its_free_space_pointer_says() {
    let mut page = Page::new_leaf();
    page.insert(entry(1, 10, "a")).unwrap();
    let bytes = page.page_to_buff().unwrap();
    let lowest = page.slots[0].pointer;
    // above the cell, where the layout has it below
    page.free_space_pointer = 4095;
    assert!(!page.is_wf());
    assert!(page.is_writable());
    assert_eq!(page.page_to_buff().unwrap(), bytes);
    assert_eq!(u16::from_be_bytes([bytes[1], bytes[2]]), lowest);
    // inside the slot directory
    page.free_space_pointer = 4;
    assert_eq!(page.page_to_buff().unwrap(), bytes);
}

#[test]
fn a_new_page_given_slot_and_cell_by_hand_is_written() {
    let mut page = Page::new_leaf();
    assert_eq!(page.free_space_pointer, 4093);
    page.slots.push(Slot { value: Value::Number(7), pointer: 4088 });
    page.cells.insert(4088, Rows { size: 6, values: vec![Value::Number(70), text("g")] });
    assert!(!page.is_wf());
    let bytes = page.page_to_buff().unwrap();
    assert_eq!(&bytes[0..5], &[1, 0x0F, 0xF8, 0, 1]);
    assert_eq!(&bytes[5..11], &[0, 0, 0, 7, 0x0F, 0xF8]);
    assert_eq!(&bytes[4088..4095], &[6, 0, 0, 0, 70, 1, b'g']);
    let back = Page::buff_to_page(vec![2, 7], bytes).unwrap();
    assert_eq!(back.free_space_pointer, 4088);
    assert_eq!(back.slots[0].value, Value::Number(7));
}

#[test]
fn a_cell_that_meets_the_slot_directory_is_not_written() {
    let mut page = Page::new_leaf();
    // the directory of one number key ends at byte 11
    page.slots.push(Slot { value: Value::Number(7), pointer: 11 });
    page.cells.insert(11, Rows { size: 6, values: vec![Value::Number(70), text("g")] });
    assert_eq!(page.page_to_buff().err(), Some(StorageError::BadPage));
    let mut clear = Page::new_leaf();
    clear.slots.push(Slot { value: Value::Number(7), pointer: 12 });
    clear.cells.insert(12, Rows { size: 6, values: vec![Value::Number(70), text("g")] });
    assert!(clear.page_to_buff().is_ok());
    // a slot without its cell
    let mut bare = Page::new_leaf();
    bare.slots.push(Slot { value: Value::Number(7), pointer: 4000 });
    assert_eq!(bare.page_to_buff().err(), Some(StorageError::BadPage));
}
