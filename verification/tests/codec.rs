use planckdb::codec::{put, put_value, row_fits, take_value};
use planckdb::error::StorageError;
use planckdb::pages::Page;
use planckdb::value::{KeyRow, Value};

fn text(s: &str) -> Value {
    Value::string(s.to_string())
}

fn entry(key: u32, age: u32, site: &str) -> KeyRow {
    KeyRow { key: Value::Number(key), row: vec![Value::Number(age), text(site)] }
}

fn same_entries(a: &Page, b: &Page) {
    let left = a.entries().unwrap();
    let right = b.entries().unwrap();
    assert_eq!(left.len(), right.len());
    for i in 0..left.len() {
        assert_eq!(left[i].key, right[i].key);
        assert_eq!(left[i].row.len(), right[i].row.len());
        for j in 0..left[i].row.len() {
            assert_eq!(left[i].row[j], right[i].row[j]);
        }
        assert_eq!(a.slots[i].pointer, b.slots[i].pointer);
    }
}

#[test]
fn an_empty_leaf_is_head_and_zeros() {
    let buffer = Page::new_leaf().page_to_buff().unwrap();
    assert_eq!(&buffer[0..5], &[1, 0x0f, 0xff, 0, 0]);
    assert!(buffer[5..].iter().all(|b| *b == 0));
}

#[test]
fn an_empty_internal_page_has_node_type_zero() {
    let buffer = Page::new_internal().page_to_buff().unwrap();
    assert_eq!(&buffer[0..5], &[0, 0x0f, 0xff, 0, 0]);
}

#[test]
fn a_leaf_with_number_keys_has_the_documented_layout() {
    let mut page = Page::new_leaf();
    page.insert(entry(0x0102_0304, 30, "site")).unwrap();
    let buffer = page.page_to_buff().unwrap();
    // cell at 4093 - 9 - 1 = 4083 = 0x0ff3
    assert_eq!(&buffer[0..5], &[1, 0x0f, 0xf3, 0, 1]);
    assert_eq!(&buffer[5..11], &[1, 2, 3, 4, 0x0f, 0xf3]);
    assert_eq!(&buffer[4083..4093], &[9, 0, 0, 0, 30, 4, b's', b'i', b't', b'e']);
    assert!(buffer[11..4083].iter().all(|b| *b == 0));
    assert!(buffer[4093..].iter().all(|b| *b == 0));
}

#[test]
fn a_leaf_with_text_keys_has_the_documented_layout() {
    let mut page = Page::new_leaf();
    page.insert(KeyRow { key: text("bob"), row: vec![Value::Number(7)] }).unwrap();
    page.insert(KeyRow { key: text("al"), row: vec![Value::Number(8)] }).unwrap();
    let buffer = page.page_to_buff().unwrap();
    // cells of 5 bytes each at 4088 and 4083; "al" sorts first, being shorter
    assert_eq!(&buffer[0..5], &[1, 0x0f, 0xf3, 1, 2]);
    assert_eq!(&buffer[5..10], &[2, b'a', b'l', 0x0f, 0xf3]);
    assert_eq!(&buffer[10..16], &[3, b'b', b'o', b'b', 0x0f, 0xf8]);
    assert_eq!(&buffer[4083..4088], &[4, 0, 0, 0, 8]);
    assert_eq!(&buffer[4088..4093], &[4, 0, 0, 0, 7]);
}

#[test]
fn an_internal_page_stores_child_ids() {
    let mut page = Page::new_internal();
    page.insert(KeyRow { key: Value::Number(u32::MAX), row: vec![Value::Number(3)] }).unwrap();
    page.insert(KeyRow { key: Value::Number(40), row: vec![Value::Number(9)] }).unwrap();
    let buffer = page.page_to_buff().unwrap();
    assert_eq!(&buffer[0..5], &[0, 0x0f, 0xf3, 0, 2]);
    assert_eq!(&buffer[5..11], &[0, 0, 0, 40, 0x0f, 0xf3]);
    assert_eq!(&buffer[11..17], &[0xff, 0xff, 0xff, 0xff, 0x0f, 0xf8]);
    assert_eq!(&buffer[4083..4088], &[4, 0, 0, 0, 9]);
    assert_eq!(&buffer[4088..4093], &[4, 0, 0, 0, 3]);
}

#[test]
fn a_leaf_reads_back_as_it_was_written() {
    let mut page = Page::new_leaf();
    for key in [5u32, 1, 9, 3] {
        page.insert(entry(key, key * 10, &"s".repeat(key as usize))).unwrap();
    }
    let buffer = page.page_to_buff().unwrap();
    let back = Page::buff_to_page(vec![2, 7], buffer).unwrap();
    assert!(back.is_leaf());
    assert_eq!(back.slots.len(), 4);
    same_entries(&page, &back);
    assert_eq!(back.free_space_pointer, page.free_space_pointer);
    assert_eq!(back.page_to_buff().unwrap(), buffer);
}

#[test]
fn the_free_space_pointer_reads_back_as_the_lowest_cell() {
    let mut page = Page::new_leaf();
    page.insert(entry(1, 10, "a")).unwrap();
    page.insert(entry(2, 20, "b")).unwrap();
    let low = page.slots[1].pointer;
    let high = page.slots[0].pointer;
    page.delete(Value::Number(2));
    assert_eq!(page.free_space_pointer, low);
    let back = Page::buff_to_page(vec![2, 7], page.page_to_buff().unwrap()).unwrap();
    assert_eq!(back.free_space_pointer, high);
    same_entries(&page, &back);
}

#[test]
fn an_internal_page_reads_back_as_it_was_written() {
    let mut page = Page::new_internal();
    page.insert(KeyRow { key: text("zzzzzzzz"), row: vec![Value::Number(3)] }).unwrap();
    page.insert(KeyRow { key: text("mid"), row: vec![Value::Number(9)] }).unwrap();
    let back = Page::buff_to_page(vec![2, 7], page.page_to_buff().unwrap()).unwrap();
    assert!(!back.is_leaf());
    same_entries(&page, &back);
    assert_eq!(back.slots[0].value, text("mid"));
    assert_eq!(back.slots[1].value, text("zzzzzzzz"));
}

#[test]
fn texts_read_back_as_texts() {
    let mut page = Page::new_leaf();
    page.insert(KeyRow { key: text("clé"), row: vec![text("valeur é")] }).unwrap();
    let back = Page::buff_to_page(vec![7], page.page_to_buff().unwrap()).unwrap();
    match &back.slots[0].value {
        Value::String(len, key) => {
            assert_eq!(*len, 4);
            assert_eq!(key, "clé");
        }
        Value::Number(_) => panic!("the key is a text"),
    }
    let rows = back.cells.get(&back.slots[0].pointer).unwrap();
    match &rows.values[0] {
        Value::String(len, value) => {
            assert_eq!(*len, 9);
            assert_eq!(value, "valeur é");
        }
        Value::Number(_) => panic!("the value is a text"),
    }
}

#[test]
fn column_types_other_than_2_and_7_hold_no_value() {
    let mut page = Page::new_leaf();
    page.insert(entry(1, 10, "a")).unwrap();
    let back = Page::buff_to_page(vec![2, 5, 7, 0], page.page_to_buff().unwrap()).unwrap();
    let rows = back.cells.get(&back.slots[0].pointer).unwrap();
    assert_eq!(rows.values.len(), 2);
    assert_eq!(rows.values[1], text("a"));
}

#[test]
fn an_unknown_node_type_is_refused() {
    let mut buffer = Page::new_leaf().page_to_buff().unwrap();
    buffer[0] = 2;
    assert_eq!(Page::buff_to_page(vec![2], buffer).err(), Some(StorageError::Corrupt));
}

#[test]
fn a_page_of_zeros_is_refused() {
    assert_eq!(Page::buff_to_page(vec![2], [0u8; 4096]).err(), Some(StorageError::Corrupt));
}

#[test]
fn a_cell_that_leaves_the_page_is_refused() {
    let mut page = Page::new_leaf();
    page.insert(entry(1, 10, "a")).unwrap();
    let mut buffer = page.page_to_buff().unwrap();
    buffer[9] = 0x0f;
    buffer[10] = 0xff;
    buffer[1] = 0x0f;
    buffer[2] = 0xff;
    buffer[4095] = 200;
    assert_eq!(Page::buff_to_page(vec![2, 7], buffer).err(), Some(StorageError::Corrupt));
}

#[test]
fn a_row_that_does_not_fill_its_cell_is_refused() {
    let mut page = Page::new_leaf();
    page.insert(entry(1, 10, "a")).unwrap();
    let buffer = page.page_to_buff().unwrap();
    assert_eq!(Page::buff_to_page(vec![2], buffer).err(), Some(StorageError::Corrupt));
    assert_eq!(Page::buff_to_page(vec![2, 7, 2], buffer).err(), Some(StorageError::Corrupt));
}

#[test]
fn a_text_that_is_no_utf8_is_refused() {
    let mut page = Page::new_leaf();
    page.insert(KeyRow { key: Value::Number(1), row: vec![text("ab")] }).unwrap();
    let mut buffer = page.page_to_buff().unwrap();
    let pointer = page.slots[0].pointer as usize;
    assert_eq!(buffer[pointer + 2], b'a');
    buffer[pointer + 2] = 0xff;
    assert_eq!(Page::buff_to_page(vec![7], buffer).err(), Some(StorageError::Corrupt));
}

#[test]
fn a_slot_count_beyond_the_page_is_refused() {
    let mut buffer = Page::new_leaf().page_to_buff().unwrap();
    buffer[4] = 255;
    buffer[3] = 1;
    for b in buffer[5..].iter_mut() {
        *b = 255;
    }
    assert_eq!(Page::buff_to_page(vec![2], buffer).err(), Some(StorageError::Corrupt));
}

#[test]
fn row_fits_matches_values_to_column_types() {
    let row = vec![Value::Number(1), text("a")];
    assert!(row_fits(&row, &vec![2, 7]));
    assert!(row_fits(&row, &vec![2, 9, 7]));
    assert!(!row_fits(&row, &vec![7, 2]));
    assert!(!row_fits(&row, &vec![2]));
    assert!(!row_fits(&row, &vec![2, 7, 2]));
    assert!(row_fits(&vec![], &vec![]));
}

#[test]
fn conforms_to_checks_every_row_of_a_leaf() {
    let mut page = Page::new_leaf();
    page.insert(entry(1, 10, "a")).unwrap();
    assert!(page.conforms_to(&vec![2, 7]));
    assert!(!page.conforms_to(&vec![7, 7]));
    let mut internal = Page::new_internal();
    internal.insert(KeyRow { key: Value::Number(1), row: vec![Value::Number(0)] }).unwrap();
    assert!(internal.conforms_to(&vec![7, 7]));
}

#[test]
fn put_writes_bytes_in_place() {
    let mut buffer = [0u8; 4096];
    put(&mut buffer, 10, &[1, 2, 3]);
    assert_eq!(&buffer[9..14], &[0, 1, 2, 3, 0]);
    let next = put_value(&mut buffer, 100, &text("ab"));
    assert_eq!(next, 103);
    assert_eq!(&buffer[100..103], &[2, b'a', b'b']);
    let next = put_value(&mut buffer, 200, &Value::Number(258));
    assert_eq!(next, 204);
    assert_eq!(&buffer[200..204], &[0, 0, 1, 2]);
}

#[test]
fn take_value_reads_a_value_and_the_next_offset() {
    let bytes = [0u8, 0, 1, 2, 2, b'h', b'i', 9];
    match take_value(&bytes, 0, 8, false) {
        Some((value, next)) => {
            assert_eq!(value, Value::Number(258));
            assert_eq!(next, 4);
        }
        None => panic!("four bytes are there"),
    }
    match take_value(&bytes, 4, 8, true) {
        Some((value, next)) => {
            assert_eq!(value, text("hi"));
            assert_eq!(next, 7);
        }
        None => panic!("the text is there"),
    }
    assert!(take_value(&bytes, 4, 6, true).is_none());
    assert!(take_value(&bytes, 6, 8, false).is_none());
}

#[test]
fn vacuum_packs_the_cells_and_keeps_the_entries() {
    let mut page = Page::new_leaf();
    for key in [1u32, 2, 3] {
        page.insert(entry(key, key, "abc")).unwrap();
    }
    page.delete(Value::Number(1));
    assert_eq!(page.free_space_pointer, 4093 - 27);
    assert!(page.vacuum());
    assert_eq!(page.free_space_pointer, 4095 - 18);
    assert_eq!(page.slots[0].pointer, 4095 - 9);
    assert_eq!(page.slots[1].pointer, 4095 - 18);
    let list = page.entries().unwrap();
    assert_eq!(list.len(), 2);
    assert_eq!(list[0].key, Value::Number(2));
    assert_eq!(list[1].key, Value::Number(3));
    assert_eq!(list[1].row[1], text("abc"));
    assert!(page.is_wf());
    assert_eq!(page.node_bytes(), 5 + 12 + 18);
}

#[test]
fn put_packs_a_page_that_is_short_of_room_in_one_piece() {
    let mut page = Page::new_leaf();
    let big = "x".repeat(250);
    for key in 0..15u32 {
        page.insert(KeyRow { key: Value::Number(key), row: vec![text(&big)] }).unwrap();
    }
    for key in 0..14u32 {
        page.delete(Value::Number(key));
    }
    // one more fits below the lowest cell, the next does not
    assert_eq!(page.insert(KeyRow { key: Value::Number(98), row: vec![text(&big)] }), Ok(()));
    let one_more = KeyRow { key: Value::Number(99), row: vec![text(&big)] };
    assert_eq!(page.insert(one_more.clone()), Err(StorageError::PageFull));
    assert_eq!(page.put(one_more), Ok(()));
    assert_eq!(page.slots.len(), 3);
    assert_eq!(page.slots[0].value, Value::Number(14));
    assert_eq!(page.slots[2].value, Value::Number(99));
    assert_eq!(page.slots[0].pointer, 4095 - 252);
    assert_eq!(page.free_space_pointer, 4095 - 3 * 252);
    assert!(page.is_wf());
    for key in 100..112u32 {
        assert_eq!(page.put(KeyRow { key: Value::Number(key), row: vec![text(&big)] }), Ok(()));
    }
    assert_eq!(
        page.put(KeyRow { key: Value::Number(200), row: vec![text(&big)] }),
        Err(StorageError::PageFull)
    );
    assert_eq!(page.slots.len(), 15);
}

#[test]
fn rekey_replaces_a_key_and_take_removes_an_entry() {
    let mut page = Page::new_internal();
    page.put(KeyRow { key: Value::Number(10), row: vec![Value::Number(1)] }).unwrap();
    page.put(KeyRow { key: Value::Number(u32::MAX), row: vec![Value::Number(2)] }).unwrap();
    assert_eq!(page.rekey(1, Value::Number(50)), Ok(()));
    assert_eq!(page.slots[1].value, Value::Number(50));
    assert_eq!(page.rekey(0, text("k")), Err(StorageError::KeyKind));
    let taken = page.take(0);
    assert_eq!(taken.key, Value::Number(10));
    assert_eq!(taken.row[0], Value::Number(1));
    assert_eq!(page.slots.len(), 1);
}
