use planckdb::engine::{load, schema_size, store, Table};
use planckdb::error::StorageError;
use planckdb::pages::Page;

fn names() -> Vec<String> {
    vec!["age".to_string(), "site".to_string()]
}

fn table() -> Table {
    Table::new("t", 0, names(), vec![2, 7], false).unwrap()
}

#[test]
fn a_new_table_has_header_and_one_empty_leaf() {
    let t = table();
    assert_eq!(t.name, "t");
    assert_eq!(t.pk_column, 0);
    assert_eq!(t.column_number, 11);
    assert_eq!(t.column_names, names());
    assert_eq!(t.column_types, vec![2, 7]);
    assert_eq!(t.page_id_count, 1);
    assert_eq!(t.root_node_offset, 0);
    assert_eq!(t.free_page_num, 0);
    assert!(t.free_page_list.is_empty());
    // pages start at 47 + 11 + 400
    assert_eq!(t.file.len(), 458 + 4096);
    assert!(t.file[0..32].iter().all(|b| *b == 0));
    assert_eq!(
        &t.file[32..58],
        &[
            11, 0, 2, 2, 3, b'a', b'g', b'e', 7, 4, b's', b'i', b't', b'e', 0, 0, 0, 1, 0, 0, 0, 0, 0,
            0, 0, 0
        ]
    );
    assert!(t.file[58..458].iter().all(|b| *b == 0));
    assert_eq!(&t.file[458..463], &[1, 0x0f, 0xff, 0, 0]);
    assert_eq!(t.read_page(0), Page::new_leaf().page_to_buff().unwrap());
}

#[test]
fn a_schema_that_no_header_holds_is_refused() {
    assert_eq!(Table::new("t", 0, names(), vec![2], false).err(), Some(StorageError::BadSchema));
    let long: Vec<String> = (0..30).map(|i| format!("column_{:02}", i)).collect();
    assert_eq!(Table::new("t", 0, long, vec![2; 30], false).err(), Some(StorageError::BadSchema));
    let wide = vec!["x".repeat(254)];
    assert_eq!(Table::new("t", 0, wide, vec![7], false).err(), Some(StorageError::BadSchema));
    let fits = vec!["x".repeat(253)];
    assert_eq!(Table::new("t", 0, fits, vec![7], false).unwrap().column_number, 255);
}

#[test]
fn schema_size_counts_two_bytes_and_the_name_per_column() {
    assert_eq!(schema_size(&names(), &vec![2, 7]), Some(11));
    assert_eq!(schema_size(&vec![], &vec![]), Some(0));
    assert_eq!(schema_size(&names(), &vec![2, 7, 2]), None);
}

#[test]
fn a_table_reads_back_from_its_file() {
    let mut t = table();
    let leaf = Page::new_leaf().page_to_buff().unwrap();
    assert_eq!(t.create_page(leaf), Ok(1));
    assert_eq!(t.create_page(leaf), Ok(2));
    assert_eq!(t.remove_page(1), Ok(()));
    let back = Table::read_table("t", t.file.clone()).unwrap();
    assert_eq!(back.name, "t");
    assert_eq!(back.pk_column, 0);
    assert_eq!(back.column_number, 11);
    assert_eq!(back.column_names, names());
    assert_eq!(back.column_types, vec![2, 7]);
    assert_eq!(back.page_id_count, 3);
    assert_eq!(back.free_page_num, 1);
    assert_eq!(back.free_page_list, vec![1]);
    assert_eq!(back.file, t.file);
}

#[test]
fn a_file_without_a_header_is_refused() {
    assert_eq!(Table::read_table("t", vec![]).err(), Some(StorageError::Corrupt));
    assert_eq!(Table::read_table("t", vec![0; 34]).err(), Some(StorageError::Corrupt));
    let t = table();
    let mut cut = t.file.clone();
    cut.truncate(50);
    assert_eq!(Table::read_table("t", cut).err(), Some(StorageError::Corrupt));
    let mut wrong_size = t.file.clone();
    wrong_size[32] = 12;
    assert_eq!(Table::read_table("t", wrong_size).err(), Some(StorageError::Corrupt));
    let mut bad_name = t.file.clone();
    bad_name[37] = 0xff;
    assert_eq!(Table::read_table("t", bad_name).err(), Some(StorageError::Corrupt));
    let mut many_free = t.file.clone();
    many_free[57] = 101;
    assert_eq!(Table::read_table("t", many_free).err(), Some(StorageError::Corrupt));
}

#[test]
fn new_pages_go_to_the_end_of_the_file() {
    let mut t = table();
    let mut buffer = [0u8; 4096];
    buffer[0] = 1;
    buffer[4095] = 7;
    assert_eq!(t.create_page(buffer), Ok(1));
    assert_eq!(t.create_page(buffer), Ok(2));
    assert_eq!(t.page_id_count, 3);
    assert_eq!(t.file.len(), 458 + 3 * 4096);
    assert_eq!(t.read_page(2), buffer);
    assert_eq!(t.file[458 + 2 * 4096 + 4095], 7);
    assert_eq!(&t.file[46..50], &[0, 0, 0, 3]);
}

#[test]
fn a_freed_page_is_the_next_to_be_used() {
    let mut t = table();
    let buffer = [3u8; 4096];
    for _ in 0..4 {
        t.create_page(buffer).unwrap();
    }
    assert_eq!(t.remove_page(2), Ok(()));
    assert_eq!(t.read_page(2), [0u8; 4096]);
    assert_eq!(t.free_page_num, 1);
    assert_eq!(t.free_page_list, vec![2]);
    assert_eq!(&t.file[54..62], &[0, 0, 0, 1, 0, 0, 0, 2]);
    assert_eq!(t.next_page_id(), 2);
    assert_eq!(t.create_page(buffer), Ok(2));
    assert_eq!(t.free_page_num, 0);
    assert!(t.free_page_list.is_empty());
    assert_eq!(t.page_id_count, 5);
    assert_eq!(t.create_page(buffer), Ok(5));
}

#[test]
fn freed_pages_are_used_last_in_first_out() {
    let mut t = table();
    let buffer = [3u8; 4096];
    for _ in 0..5 {
        t.create_page(buffer).unwrap();
    }
    t.remove_page(1).unwrap();
    t.remove_page(4).unwrap();
    t.remove_page(3).unwrap();
    assert_eq!(t.create_page(buffer), Ok(3));
    assert_eq!(t.create_page(buffer), Ok(4));
    assert_eq!(t.create_page(buffer), Ok(1));
    assert_eq!(t.create_page(buffer), Ok(6));
}

#[test]
fn the_free_list_keeps_its_newest_hundred() {
    let mut t = table();
    for id in 1..=101u32 {
        t.remove_page(id).unwrap();
    }
    assert_eq!(t.free_page_num, 100);
    assert_eq!(t.free_page_list.len(), 100);
    assert_eq!(t.free_page_list[0], 2);
    assert_eq!(t.free_page_list[99], 101);
    assert_eq!(t.create_page([1u8; 4096]), Ok(101));
    let back = Table::read_table("t", t.file.clone()).unwrap();
    assert_eq!(back.free_page_list, t.free_page_list);
}

#[test]
fn update_page_writes_in_place_and_read_page_reads_zeros_past_the_end() {
    let mut t = table();
    let buffer = [9u8; 4096];
    assert_eq!(t.update_page(buffer, 0), Ok(()));
    assert_eq!(t.read_page(0), buffer);
    assert_eq!(t.file.len(), 458 + 4096);
    assert_eq!(t.read_page(5), [0u8; 4096]);
    assert_eq!(t.update_page(buffer, 2), Ok(()));
    assert_eq!(t.file.len(), 458 + 3 * 4096);
    assert_eq!(t.read_page(1), [0u8; 4096]);
    assert_eq!(t.read_page(2), buffer);
    assert_eq!(t.page_start(2), Some(458 + 2 * 4096));
}

#[test]
fn update_table_writes_the_fields_into_the_header() {
    let mut t = table();
    t.root_node_offset = 0x0a0b_0c0d;
    t.update_table();
    assert_eq!(&t.file[50..54], &[0x0a, 0x0b, 0x0c, 0x0d]);
    assert_eq!(t.header_bytes(), t.file[32..58].to_vec());
}

#[test]
fn store_grows_the_file_with_zeros_and_load_reads_what_is_there() {
    let mut file = vec![1u8, 2, 3];
    store(&mut file, 5, &[9, 9]);
    assert_eq!(file, vec![1, 2, 3, 0, 0, 9, 9]);
    store(&mut file, 1, &[7]);
    assert_eq!(file, vec![1, 7, 3, 0, 0, 9, 9]);
    let page = load(&file, 5);
    assert_eq!(&page[0..3], &[9, 9, 0]);
    assert!(page[2..].iter().all(|b| *b == 0));
    assert_eq!(load(&file, 100), [0u8; 4096]);
}

#[test]
fn a_table_whose_file_is_there_is_not_made_anew() {
    assert_eq!(Table::new("t", 0, names(), vec![2, 7], true).err(), Some(StorageError::TableExists));
    // the file that is there counts before the schema does
    assert_eq!(Table::new("t", 0, names(), vec![2], true).err(), Some(StorageError::TableExists));
    assert_eq!(Table::new("t", 0, names(), vec![2], false).err(), Some(StorageError::BadSchema));
    assert!(Table::new("t", 0, names(), vec![2, 7], false).is_ok());
}
