use planckdb::error::StorageError;
use planckdb::parser::{identify_value, parse, parse_words, word_to_number, word_to_u32, word_to_u8, Commands};
use planckdb::protocols::{deserialize, serialize, Packet, Response, Table};
use planckdb::value::{KeyRow, Value};

fn text(s: &str) -> Value {
    Value::string(s.to_string())
}

fn info(types: Vec<u8>) -> Table {
    Table {
        name: "t".to_string(),
        column_number: 11,
        column_names: types.iter().enumerate().map(|(i, _)| format!("c{}", i)).collect(),
        column_types: types,
        page_id_count: 9,
        root_node_offset: 0,
        free_page_num: 0,
        free_page_list: vec![],
    }
}

fn words(line: &str) -> Vec<String> {
    line.split(' ').map(|w| w.to_string()).collect()
}

#[test]
fn a_question_is_mark_length_and_text() {
    let bytes = serialize(Response::Query("read key -> 1".to_string())).unwrap();
    let mut expected = vec![0, 0, 0, 16, b'+', 0, 13];
    expected.extend_from_slice(b"read key -> 1");
    assert_eq!(bytes, expected);
    match deserialize(&bytes[4..]).unwrap() {
        Response::Query(text) => assert_eq!(text, "read key -> 1"),
        _ => panic!("a question was sent"),
    }
}

#[test]
fn an_error_is_marked_with_a_bang() {
    let bytes = serialize(Response::Error("no".to_string())).unwrap();
    assert_eq!(bytes, vec![0, 0, 0, 5, b'!', 0, 2, b'n', b'o']);
    match deserialize(&bytes[4..]).unwrap() {
        Response::Error(text) => assert_eq!(text, "no"),
        _ => panic!("an error was sent"),
    }
}

#[test]
fn an_answer_carries_table_and_rows() {
    let keyrows = vec![
        KeyRow { key: Value::Number(7), row: vec![Value::Number(70), text("seven")] },
        KeyRow { key: Value::Number(8), row: vec![Value::Number(80), text("")] },
    ];
    let bytes = serialize(Response::Return(Packet { table: info(vec![2, 7]), keyrows })).unwrap();
    let expected: Vec<u8> = vec![
        0, 0, 0, 43, b'=', // length and mark
        0, 11, 1, b't', 2, 2, 2, b'c', b'0', 7, 2, b'c', b'1', // the table
        0, 27, 2, 2, // keys with rows: two of them, number keys
        0, 0, 0, 7, 2, 0, 0, 0, 70, 5, b's', b'e', b'v', b'e', b'n', // the first
        0, 0, 0, 8, 2, 0, 0, 0, 80, 0, // the second
    ];
    assert_eq!(bytes, expected);
    match deserialize(&bytes[4..]).unwrap() {
        Response::Return(packet) => {
            assert_eq!(packet.table.name, "t");
            assert_eq!(packet.table.column_names, vec!["c0".to_string(), "c1".to_string()]);
            assert_eq!(packet.table.column_types, vec![2, 7]);
            assert_eq!(packet.table.page_id_count, 0);
            assert_eq!(packet.table.column_number, 0);
            assert_eq!(packet.keyrows.len(), 2);
            assert_eq!(packet.keyrows[0].key, Value::Number(7));
            assert_eq!(packet.keyrows[0].row[1], text("seven"));
            assert_eq!(packet.keyrows[1].key, Value::Number(8));
            assert_eq!(packet.keyrows[1].row[0], Value::Number(80));
            assert_eq!(packet.keyrows[1].row[1], text(""));
        }
        _ => panic!("an answer was sent"),
    }
}

#[test]
fn an_answer_with_text_keys_reads_back() {
    let keyrows = vec![KeyRow { key: text("bob"), row: vec![text("x"), Value::Number(1)] }];
    let bytes = serialize(Response::Return(Packet { table: info(vec![7, 2]), keyrows })).unwrap();
    match deserialize(&bytes[4..]).unwrap() {
        Response::Return(packet) => {
            assert_eq!(packet.keyrows[0].key, text("bob"));
            assert_eq!(packet.keyrows[0].row[0], text("x"));
            assert_eq!(packet.keyrows[0].row[1], Value::Number(1));
        }
        _ => panic!("an answer was sent"),
    }
}

#[test]
fn what_is_too_long_for_its_length_field_is_not_sent() {
    assert_eq!(serialize(Response::Query("x".repeat(65536))).err(), Some(StorageError::TooLarge));
    assert!(serialize(Response::Query("x".repeat(65535))).is_ok());
    let none = Packet { table: info(vec![2]), keyrows: vec![] };
    assert_eq!(serialize(Response::Return(none)).err(), Some(StorageError::TooLarge));
    let mixed = vec![
        KeyRow { key: Value::Number(1), row: vec![] },
        KeyRow { key: text("k"), row: vec![] },
    ];
    let packet = Packet { table: info(vec![]), keyrows: mixed };
    assert_eq!(serialize(Response::Return(packet)).err(), Some(StorageError::TooLarge));
    let mut table = info(vec![2]);
    table.name = "n".repeat(256);
    let keyrows = vec![KeyRow { key: Value::Number(1), row: vec![Value::Number(1)] }];
    assert_eq!(serialize(Response::Return(Packet { table, keyrows })).err(), Some(StorageError::TooLarge));
}

#[test]
fn bytes_that_spell_no_response_are_refused() {
    assert_eq!(deserialize(&[]).err(), Some(StorageError::Corrupt));
    assert_eq!(deserialize(&[b'?', 0, 0]).err(), Some(StorageError::Corrupt));
    assert_eq!(deserialize(&[b'+', 0, 3, b'a']).err(), Some(StorageError::Corrupt));
    assert_eq!(deserialize(&[b'+', 0, 1, 0xff]).err(), Some(StorageError::Corrupt));
    assert_eq!(deserialize(&[b'=', 0, 2, 0, 0]).err(), Some(StorageError::Corrupt));
    let keyrows = vec![KeyRow { key: Value::Number(7), row: vec![Value::Number(70)] }];
    let bytes = serialize(Response::Return(Packet { table: info(vec![2]), keyrows })).unwrap();
    let mut wrong_kind = bytes[4..].to_vec();
    let kind_at = wrong_kind.len() - 10;
    assert_eq!(wrong_kind[kind_at], 2);
    wrong_kind[kind_at] = 3;
    assert_eq!(deserialize(&wrong_kind).err(), Some(StorageError::Corrupt));
    let mut wrong_count = bytes[4..].to_vec();
    let count_at = wrong_count.len() - 5;
    assert_eq!(wrong_count[count_at], 1);
    wrong_count[count_at] = 2;
    assert_eq!(deserialize(&wrong_count).err(), Some(StorageError::Corrupt));
}

#[test]
fn a_word_is_a_number_if_it_spells_one() {
    assert_eq!(identify_value(&"42".to_string()), Some(Value::Number(42)));
    assert_eq!(identify_value(&"4294967295".to_string()), Some(Value::Number(u32::MAX)));
    assert_eq!(identify_value(&"4294967296".to_string()), Some(text("4294967296")));
    assert_eq!(identify_value(&"-1".to_string()), Some(text("-1")));
    assert_eq!(identify_value(&"site".to_string()), Some(text("site")));
    assert_eq!(identify_value(&"x".repeat(256)), None);
}

#[test]
fn create_lines_name_key_and_columns() {
    match parse("create t key -> 0 columns | Age 2 | Website 7 |".to_string(), None) {
        Commands::Create(name, pk, names, types) => {
            assert_eq!(name, "t");
            assert_eq!(pk, 0);
            assert_eq!(names, vec!["Age".to_string(), "Website".to_string()]);
            assert_eq!(types, vec![2, 7]);
        }
        other => panic!("{:?}", other),
    }
    match parse("  create   t key -> 3 columns |  ".to_string(), None) {
        Commands::Create(_, pk, names, types) => {
            assert_eq!(pk, 3);
            assert!(names.is_empty());
            assert!(types.is_empty());
        }
        other => panic!("{:?}", other),
    }
}

#[test]
fn create_lines_that_are_not_well_formed_get_the_syntax() {
    let syntax = "Syntax: create table_name key -> type_of_key columns | Age 2 | Website 7 | ";
    for line in [
        "create",
        "create t key ->",
        "create t key -> 0 columns",
        "create t kee -> 0 columns |",
        "create t key => 0 columns |",
        "create t key -> x columns |",
        "create t key -> 0 column |",
        "create t key -> 0 columns | Age 2",
        "create t key -> 0 columns | Age 2 | Website",
        "create t key -> 0 columns | Age two |",
        "create t key -> 0 columns / Age 2 |",
        "create t key -> 0 columns | Age 2 /",
        "create t key -> 0 columns | Age 2 | Website 7 | x",
    ] {
        match parse(line.to_string(), None) {
            Commands::SyntaxError(text) => assert_eq!(text, syntax, "{}", line),
            other => panic!("{}: {:?}", line, other),
        }
    }
}

#[test]
fn open_and_close_lines() {
    match parse("open users".to_string(), None) {
        Commands::StartTransaction(name) => assert_eq!(name, "users"),
        other => panic!("{:?}", other),
    }
    match parse("open".to_string(), None) {
        Commands::SyntaxError(text) => assert_eq!(text, "You need to specifiy the file/table name"),
        other => panic!("{:?}", other),
    }
    assert!(matches!(parse("close".to_string(), None), Commands::CloseTransaction()));
    assert!(matches!(parse("close now".to_string(), None), Commands::CloseTransaction()));
}

#[test]
fn insert_lines_carry_one_value_per_column() {
    let types = vec![2, 7];
    match parse("insert key -> 5 row -> 30 site".to_string(), Some(&types)) {
        Commands::Insert(kr) => {
            assert_eq!(kr.key, Value::Number(5));
            assert_eq!(kr.row.len(), 2);
            assert_eq!(kr.row[0], Value::Number(30));
            assert_eq!(kr.row[1], text("site"));
        }
        other => panic!("{:?}", other),
    }
    match parse("insert key -> bob row -> 30 40 more".to_string(), Some(&types)) {
        Commands::Insert(kr) => {
            assert_eq!(kr.key, text("bob"));
            assert_eq!(kr.row[1], text("40"));
        }
        other => panic!("{:?}", other),
    }
}

#[test]
fn insert_lines_that_are_not_well_formed_get_the_syntax() {
    let types = vec![2, 7];
    let syntax = "Syntax: insert key -> 1 row -> blabalabala ";
    for line in [
        "insert",
        "insert key -> 5 row ->",
        "insert key -> 5 row -> 30",
        "insert key -> 5 row -> x site",
        "insert kee -> 5 row -> 30 site",
        "insert key => 5 row -> 30 site",
        "insert key -> 5 raw -> 30 site",
        "insert key -> 5 row => 30 site",
    ] {
        match parse(line.to_string(), Some(&types)) {
            Commands::SyntaxError(text) => assert_eq!(text, syntax, "{}", line),
            other => panic!("{}: {:?}", line, other),
        }
    }
    let unknown = vec![2, 5];
    assert!(matches!(
        parse("insert key -> 5 row -> 30 site".to_string(), Some(&unknown)),
        Commands::SyntaxError(_)
    ));
    assert!(matches!(
        parse("insert key -> 5 row -> 30 site".to_string(), None),
        Commands::SyntaxError(_)
    ));
}

#[test]
fn update_lines_are_insert_lines_with_another_word() {
    let types = vec![2];
    match parse("update key -> 5 row -> 31".to_string(), Some(&types)) {
        Commands::Update(kr) => {
            assert_eq!(kr.key, Value::Number(5));
            assert_eq!(kr.row[0], Value::Number(31));
        }
        other => panic!("{:?}", other),
    }
    match parse("update kee -> 5 row -> 31".to_string(), Some(&types)) {
        Commands::SyntaxError(text) => assert_eq!(text, "Syntax: update key -> 1 row -> blabalabala "),
        other => panic!("{:?}", other),
    }
    match parse("update key => 5 row -> 31".to_string(), Some(&types)) {
        Commands::SyntaxError(text) => assert_eq!(text, "Syntax: insert key -> 1 row -> blabalabala "),
        other => panic!("{:?}", other),
    }
    match parse("update key -> 5 row -> x".to_string(), Some(&types)) {
        Commands::SyntaxError(text) => assert_eq!(text, "Syntax: update key -> 1 row -> blabalabala "),
        other => panic!("{:?}", other),
    }
}

#[test]
fn delete_and_read_lines_name_a_key() {
    match parse("delete key -> 9".to_string(), None) {
        Commands::Delete(key) => assert_eq!(key, Value::Number(9)),
        other => panic!("{:?}", other),
    }
    match parse("read key -> nine".to_string(), None) {
        Commands::Read(key) => assert_eq!(key, text("nine")),
        other => panic!("{:?}", other),
    }
    match parse("delete key 9".to_string(), None) {
        Commands::SyntaxError(text) => assert_eq!(text, "Syntax: delete key -> 1 "),
        other => panic!("{:?}", other),
    }
    match parse("read kee -> 9".to_string(), None) {
        Commands::SyntaxError(text) => assert_eq!(text, "Syntax: read key -> 1 "),
        other => panic!("{:?}", other),
    }
}

#[test]
fn empty_and_unknown_lines() {
    match parse("   ".to_string(), None) {
        Commands::SyntaxError(text) => assert_eq!(text, "Empty input string"),
        other => panic!("{:?}", other),
    }
    match parse("drop t".to_string(), None) {
        Commands::SyntaxError(text) => assert_eq!(text, "Unknown Command token"),
        other => panic!("{:?}", other),
    }
    match parse_words(&words("read key -> 1"), None) {
        Commands::Read(key) => assert_eq!(key, Value::Number(1)),
        other => panic!("{:?}", other),
    }
}

#[test]
fn numbers_are_spelt_in_decimal_digits_with_or_without_a_plus() {
    for word in ["0", "7", "007", "+12", "4294967295", "+4294967295", "000004294967295"] {
        assert_eq!(word_to_u32(word), word.parse::<u32>().ok(), "{}", word);
        assert!(word_to_u32(word).is_some(), "{}", word);
    }
    assert_eq!(word_to_u32("007"), Some(7));
    assert_eq!(word_to_u32("+12"), Some(12));
    for word in ["", "+", "-", "-0", "++1", "1+", "12a", "a12", " 1", "1 ", "4294967296", "99999999999999999999999", "\u{0663}", "1_000", "0x10"] {
        assert_eq!(word_to_u32(word), None, "{}", word);
        assert_eq!(word.parse::<u32>().ok(), None, "{}", word);
    }
}

#[test]
fn small_numbers_end_at_255() {
    assert_eq!(word_to_u8("255"), Some(255));
    assert_eq!(word_to_u8("+0"), Some(0));
    assert_eq!(word_to_u8("0255"), Some(255));
    assert_eq!(word_to_u8("256"), None);
    assert_eq!(word_to_u8("2550"), None);
    assert_eq!(word_to_u8("seven"), None);
    assert_eq!(word_to_number("100", 100), Some(100));
    assert_eq!(word_to_number("101", 100), None);
    for n in 0..300u32 {
        assert_eq!(word_to_u8(&n.to_string()), n.to_string().parse::<u8>().ok());
    }
}
