//! The command language of the server: one command per line, words set apart
//! by white space.

use vstd::prelude::*;
use vstd::utf8::encode_utf8;
use vstd::utf8::encode_utf8_decode_utf8;
use crate::bytes::bytes_equal;
use crate::value::Value;
use crate::value::ValueView;
use crate::value::KeyRow;
use crate::value::KeyRowView;
use crate::value::values_view;

verus! {

/// What a line asks for.
#[derive(Debug)]
pub enum Commands {
    Insert(KeyRow),
    Delete(Value),
    Update(KeyRow),
    Read(Value),
    Create(String, u8, Vec<String>, Vec<u8>),
    StartTransaction(String),
    CloseTransaction(),
    SyntaxError(String),
}

/// What a [`Commands`] holds.
pub enum CommandView {
    Insert(KeyRowView),
    Delete(ValueView),
    Update(KeyRowView),
    Read(ValueView),
    Create(Seq<char>, u8, Seq<Seq<char>>, Seq<u8>),
    StartTransaction(Seq<char>),
    CloseTransaction,
    SyntaxError(Seq<char>),
}

/// The texts of a list of strings.
pub open spec fn texts(list: Seq<String>) -> Seq<Seq<char>> {
    list.map_values(|s: String| s@)
}

impl View for Commands {
    type V = CommandView;

    open spec fn view(&self) -> CommandView {
        match self {
            Commands::Insert(kr) => CommandView::Insert(kr@),
            Commands::Delete(key) => CommandView::Delete(key@),
            Commands::Update(kr) => CommandView::Update(kr@),
            Commands::Read(key) => CommandView::Read(key@),
            Commands::Create(name, pk, names, types) => CommandView::Create(
                name@,
                *pk,
                texts(names@),
                types@,
            ),
            Commands::StartTransaction(name) => CommandView::StartTransaction(name@),
            Commands::CloseTransaction() => CommandView::CloseTransaction,
            Commands::SyntaxError(text) => CommandView::SyntaxError(text@),
        }
    }
}

/// The words of a line, as `str::split_whitespace` of std cuts them.
pub uninterp spec fn words_of(line: Seq<char>) -> Seq<Seq<char>>;

/// The number that the first `n` characters spell as decimal digits. Nothing
/// where one of them is no digit from 0 to 9.
pub open spec fn digits_of(word: Seq<char>, n: int) -> Option<nat>
    decreases n,
{
    if n <= 0 {
        Some(0nat)
    } else {
        match digits_of(word, n - 1) {
            None => None,
            Some(front) => if '0' <= word[n - 1] <= '9' {
                Some((front * 10 + (word[n - 1] as int - 48)) as nat)
            } else {
                None
            },
        }
    }
}

/// The number that a word spells: decimal digits, at least one, with or
/// without a plus sign in front.
pub open spec fn decimal_of(word: Seq<char>) -> Option<nat> {
    if word.len() > 0 && word[0] == '+' {
        if word.len() > 1 {
            digits_of(word.skip(1), word.len() - 1)
        } else {
            None
        }
    } else if word.len() > 0 {
        digits_of(word, word.len() as int)
    } else {
        None
    }
}

/// The number that a word spells, if it is at most the largest 32-bit number.
pub open spec fn u32_of(word: Seq<char>) -> Option<u32> {
    match decimal_of(word) {
        Some(x) => if x <= u32::MAX {
            Some(x as u32)
        } else {
            None
        },
        None => None,
    }
}

/// The number that a word spells, if it is at most 255.
pub open spec fn u8_of(word: Seq<char>) -> Option<u8> {
    match decimal_of(word) {
        Some(x) => if x <= 255 {
            Some(x as u8)
        } else {
            None
        },
        None => None,
    }
}

/// `str::split_whitespace` of std: the words of `line`, in order, each as a
/// string of its own.
#[verifier::external_body]
fn split_words(line: &str) -> (words: Vec<String>)
    ensures
        texts(words@) == words_of(line@),
{
    line.split_whitespace().map(|word| word.to_string()).collect()
}

/// Once a character is no digit, the characters up to any later one spell no
/// number.
proof fn lemma_digits_stop(word: Seq<char>, i: int, n: int)
    requires
        0 <= i <= n,
        digits_of(word, i) is None,
    ensures
        digits_of(word, n) is None,
    decreases n - i,
{
    if i < n {
        lemma_digits_stop(word, i, n - 1);
    }
}

/// More digits spell no smaller number.
proof fn lemma_digits_grow(word: Seq<char>, i: int, n: int)
    requires
        0 <= i <= n,
        digits_of(word, n) is Some,
    ensures
        digits_of(word, i) is Some,
        digits_of(word, i)->0 <= digits_of(word, n)->0,
    decreases n - i,
{
    if i < n {
        lemma_digits_grow(word, i, n - 1);
    }
}

/// The number that `word` spells in decimal digits, with or without a plus
/// sign in front, if it spells one that is at most `most`.
pub fn word_to_number(word: &str, most: u32) -> (number: Option<u32>)
    ensures
        number == (match decimal_of(word@) {
            Some(x) => if x <= most {
                Some(x as u32)
            } else {
                None
            },
            None => None,
        }),
{
    let len: usize = word.unicode_len();
    if len == 0 {
        return None;
    }
    let start: usize = if word.get_char(0) == '+' {
        1
    } else {
        0
    };
    if start == len {
        return None;
    }
    let ghost digits = word@.skip(start as int);
    let ghost count = len - start;
    proof {
        if start == 0 {
            assert(digits =~= word@);
        }
        assert(decimal_of(word@) == digits_of(digits, count as int));
    }
    let mut value: u64 = 0;
    let mut i: usize = start;
    while i < len
        invariant
            start <= i <= len,
            len == word@.len(),
            count == len - start,
            digits == word@.skip(start as int),
            decimal_of(word@) == digits_of(digits, count as int),
            digits_of(digits, i - start) == Some(value as nat),
            value <= most,
        decreases len - i,
    {
        let c: char = word.get_char(i);
        assert(digits[i - start] == c);
        if !('0' <= c && c <= '9') {
            proof {
                assert(digits_of(digits, i - start + 1) is None);
                lemma_digits_stop(digits, i - start + 1, count as int);
            }
            return None;
        }
        let digit: u64 = (c as u32 - 48) as u64;
        value = value * 10 + digit;
        assert(digits_of(digits, i - start + 1) == Some(value as nat));
        if value > most as u64 {
            proof {
                if digits_of(digits, count) is Some {
                    lemma_digits_grow(digits, i - start + 1, count as int);
                }
            }
            return None;
        }
        i += 1;
    }
    Some(value as u32)
}

/// The number that `word` spells, if it is at most the largest 32-bit number.
pub fn word_to_u32(word: &str) -> (number: Option<u32>)
    ensures
        number == u32_of(word@),
{
    word_to_number(word, u32::MAX)
}

/// The number that `word` spells, if it is at most 255.
pub fn word_to_u8(word: &str) -> (number: Option<u8>)
    ensures
        number == u8_of(word@),
{
    match word_to_number(word, 255) {
        Some(x) => Some(x as u8),
        None => None,
    }
}

/// Whether `word` is the word `fixed`.
pub fn is_word(word: &String, fixed: &str) -> (same: bool)
    ensures
        same == (word@ == fixed@),
{
    proof {
        encode_utf8_decode_utf8(word@);
        encode_utf8_decode_utf8(fixed@);
    }
    bytes_equal(word.as_str().as_bytes(), fixed.as_bytes())
}

/// The value that a word stands for: the number that it spells, or else the
/// word as a text. Nothing for a text of more than 255 bytes.
pub open spec fn value_of(word: Seq<char>) -> Option<ValueView> {
    match u32_of(word) {
        Some(x) => Some(ValueView::Number(x)),
        None => if encode_utf8(word).len() <= 255 {
            Some(ValueView::String(encode_utf8(word).len() as u8, encode_utf8(word)))
        } else {
            None
        },
    }
}

/// The text value of a word. Nothing for a word of more than 255 bytes.
pub fn text_value(word: &String) -> (value: Option<Value>)
    ensures
        value is Some == (encode_utf8(word@).len() <= 255),
        value matches Some(v) ==> v@ == ValueView::String(
            encode_utf8(word@).len() as u8,
            encode_utf8(word@),
        ) && v@.wf(),
{
    if word.as_str().as_bytes().len() > 255 {
        None
    } else {
        Some(Value::string(word.clone()))
    }
}

/// The value that a word stands for: the number that it spells, or else the
/// word as a text.
pub fn identify_value(input: &String) -> (value: Option<Value>)
    ensures
        match value {
            Some(v) => value_of(input@) == Some(v@) && v@.wf(),
            None => value_of(input@) is None,
        },
{
    match word_to_u32(input.as_str()) {
        Some(x) => Some(Value::Number(x)),
        None => text_value(input),
    }
}


/// What is said of a `create` line that is not well formed.
pub open spec fn create_syntax() -> Seq<char> {
    "Syntax: create table_name key -> type_of_key columns | Age 2 | Website 7 | "@
}

/// What is said of an `insert` line that is not well formed.
pub open spec fn insert_syntax() -> Seq<char> {
    "Syntax: insert key -> 1 row -> blabalabala "@
}

/// What is said of a `delete` line that is not well formed.
pub open spec fn delete_syntax() -> Seq<char> {
    "Syntax: delete key -> 1 "@
}

/// What is said of an `update` line that is not well formed.
pub open spec fn update_syntax() -> Seq<char> {
    "Syntax: update key -> 1 row -> blabalabala "@
}

/// What is said of a `read` line that is not well formed.
pub open spec fn read_syntax() -> Seq<char> {
    "Syntax: read key -> 1 "@
}

/// The values that the words from `at` on spell for the first `n` columns:
/// one word per column, a number under type 2, a text under type 7. Nothing
/// where a word is missing or spells no such value, or a type is unknown.
pub open spec fn row_of(words: Seq<Seq<char>>, at: int, types: Seq<u8>, n: int) -> Option<
    Seq<ValueView>,
>
    decreases n,
{
    if n <= 0 {
        Some(Seq::empty())
    } else {
        match row_of(words, at, types, n - 1) {
            None => None,
            Some(row) => if at + n - 1 >= words.len() {
                None
            } else if types[n - 1] == 2 {
                match u32_of(words[at + n - 1]) {
                    Some(x) => Some(row.push(ValueView::Number(x))),
                    None => None,
                }
            } else if types[n - 1] == 7 && encode_utf8(words[at + n - 1]).len() <= 255 {
                Some(
                    row.push(
                        ValueView::String(
                            encode_utf8(words[at + n - 1]).len() as u8,
                            encode_utf8(words[at + n - 1]),
                        ),
                    ),
                )
            } else {
                None
            },
        }
    }
}

/// The first `n` columns that the words from `at` on spell: for each a bar, a
/// name and a type.
pub open spec fn columns_of(words: Seq<Seq<char>>, at: int, n: int) -> Option<
    (Seq<Seq<char>>, Seq<u8>),
>
    decreases n,
{
    if n <= 0 {
        Some((Seq::empty(), Seq::empty()))
    } else {
        match columns_of(words, at, n - 1) {
            None => None,
            Some((names, types)) => if words[at + 3 * (n - 1)] == "|"@ && u8_of(
                words[at + 3 * (n - 1) + 2],
            ) is Some {
                Some(
                    (
                        names.push(words[at + 3 * (n - 1) + 1]),
                        types.push(u8_of(words[at + 3 * (n - 1) + 2])->0),
                    ),
                )
            } else {
                None
            },
        }
    }
}

/// What a `create` line asks for: `create <table> key -> <key column>
/// columns`, then a bar, a name and a type for each column, then a bar.
pub open spec fn create_of(words: Seq<Seq<char>>) -> CommandView {
    let n = (words.len() - 7) / 3;
    if words.len() < 7 || (words.len() - 7) % 3 != 0 || words[2] != "key"@ || words[3] != "->"@
        || u8_of(words[4]) is None || words[5] != "columns"@ || words[words.len() - 1] != "|"@ {
        CommandView::SyntaxError(create_syntax())
    } else {
        match columns_of(words, 6, n) {
            None => CommandView::SyntaxError(create_syntax()),
            Some((names, types)) => CommandView::Create(words[1], u8_of(words[4])->0, names, types),
        }
    }
}

/// The key of a line `<command> key -> <key> ...`, if the line begins so.
pub open spec fn key_of(words: Seq<Seq<char>>) -> Option<ValueView> {
    if words.len() >= 4 && words[1] == "key"@ && words[2] == "->"@ {
        value_of(words[3])
    } else {
        None
    }
}

/// The row of a line `<command> key -> <key> row -> <value> ...`, if the line
/// goes on so, with one value per column.
pub open spec fn rest_of(words: Seq<Seq<char>>, types: Option<Seq<u8>>) -> Option<Seq<ValueView>> {
    if words.len() >= 6 && words[4] == "row"@ && words[5] == "->"@ && types is Some {
        row_of(words, 6, types->0, types->0.len() as int)
    } else {
        None
    }
}

/// What a line of `words` asks for, for a table with the column types
/// `types`.
pub open spec fn command_of(words: Seq<Seq<char>>, types: Option<Seq<u8>>) -> CommandView {
    if words.len() == 0 {
        CommandView::SyntaxError("Empty input string"@)
    } else if words[0] == "create"@ {
        create_of(words)
    } else if words[0] == "open"@ {
        if words.len() < 2 {
            CommandView::SyntaxError("You need to specifiy the file/table name"@)
        } else {
            CommandView::StartTransaction(words[1])
        }
    } else if words[0] == "close"@ {
        CommandView::CloseTransaction
    } else if words[0] == "insert"@ {
        if words.len() < 7 || key_of(words) is None || rest_of(words, types) is None {
            CommandView::SyntaxError(insert_syntax())
        } else {
            CommandView::Insert(KeyRowView { key: key_of(words)->0, row: rest_of(words, types)->0 })
        }
    } else if words[0] == "delete"@ {
        if words.len() < 4 || key_of(words) is None {
            CommandView::SyntaxError(delete_syntax())
        } else {
            CommandView::Delete(key_of(words)->0)
        }
    } else if words[0] == "update"@ {
        if words.len() < 7 || words[1] != "key"@ {
            CommandView::SyntaxError(update_syntax())
        } else if words[2] != "->"@ {
            CommandView::SyntaxError(insert_syntax())
        } else if key_of(words) is None || rest_of(words, types) is None {
            CommandView::SyntaxError(update_syntax())
        } else {
            CommandView::Update(KeyRowView { key: key_of(words)->0, row: rest_of(words, types)->0 })
        }
    } else if words[0] == "read"@ {
        if words.len() < 4 || key_of(words) is None {
            CommandView::SyntaxError(read_syntax())
        } else {
            CommandView::Read(key_of(words)->0)
        }
    } else {
        CommandView::SyntaxError("Unknown Command token"@)
    }
}

/// The column types that a parser may know, as a value.
pub open spec fn types_view(types: Option<&Vec<u8>>) -> Option<Seq<u8>> {
    match types {
        Some(list) => Some(list@),
        None => None,
    }
}

/// The complaint `text`.
pub fn syntax_error(text: &str) -> (command: Commands)
    ensures
        command@ == CommandView::SyntaxError(text@),
{
    Commands::SyntaxError(text.to_owned())
}

proof fn lemma_row_of_fails(words: Seq<Seq<char>>, at: int, types: Seq<u8>, n: int, m: int)
    requires
        0 <= n <= m,
        row_of(words, at, types, n) is None,
    ensures
        row_of(words, at, types, m) is None,
    decreases m - n,
{
    if n < m {
        lemma_row_of_fails(words, at, types, n + 1, m);
    }
}

proof fn lemma_columns_of_fails(words: Seq<Seq<char>>, at: int, n: int, m: int)
    requires
        0 <= n <= m,
        columns_of(words, at, n) is None,
    ensures
        columns_of(words, at, m) is None,
    decreases m - n,
{
    if n < m {
        lemma_columns_of_fails(words, at, n + 1, m);
    }
}

/// The values that the words from `at` on spell, one per column.
#[verifier::rlimit(50)]
pub fn row_words(words: &Vec<String>, at: usize, types: &Vec<u8>) -> (row: Option<Vec<Value>>)
    ensures
        match row {
            Some(values) => row_of(texts(words@), at as int, types@, types@.len() as int) == Some(
                values_view(values@),
            ),
            None => row_of(texts(words@), at as int, types@, types@.len() as int) is None,
        },
{
    let ghost all = texts(words@);
    let mut row: Vec<Value> = Vec::new();
    let mut i: usize = 0;
    assert(values_view(row@) =~= Seq::empty());
    while i < types.len()
        invariant
            i <= types.len(),
            all == texts(words@),
            row_of(all, at as int, types@, i as int) == Some(values_view(row@)),
        decreases types.len() - i,
    {
        let ghost seen = values_view(row@);
        if at >= words.len() || i >= words.len() - at {
            proof {
                lemma_row_of_fails(all, at as int, types@, i + 1, types@.len() as int);
            }
            return None;
        }
        let word: &String = &words[at + i];
        assert(all[at + i] == word@);
        let value: Option<Value> = if types[i] == 2 {
            match word_to_u32(word.as_str()) {
                Some(x) => Some(Value::Number(x)),
                None => None,
            }
        } else if types[i] == 7 {
            text_value(word)
        } else {
            None
        };
        match value {
            Some(v) => {
                row.push(v);
                assert(values_view(row@) =~= seen.push(v@));
            },
            None => {
                proof {
                    lemma_row_of_fails(all, at as int, types@, i + 1, types@.len() as int);
                }
                return None;
            },
        }
        i += 1;
    }
    Some(row)
}

/// The `n` columns that the words from `at` on spell.
#[verifier::rlimit(50)]
pub fn columns_words(words: &Vec<String>, at: usize, n: usize) -> (columns: Option<
    (Vec<String>, Vec<u8>),
>)
    requires
        at + 3 * n <= words.len(),
    ensures
        match columns {
            Some((names, types)) => columns_of(texts(words@), at as int, n as int) == Some(
                (texts(names@), types@),
            ),
            None => columns_of(texts(words@), at as int, n as int) is None,
        },
{
    let ghost all = texts(words@);
    let mut names: Vec<String> = Vec::new();
    let mut types: Vec<u8> = Vec::new();
    let mut i: usize = 0;
    assert(texts(names@) =~= Seq::empty());
    assert(types@ =~= Seq::empty());
    while i < n
        invariant
            i <= n,
            at + 3 * n <= words.len(),
            all == texts(words@),
            columns_of(all, at as int, i as int) == Some((texts(names@), types@)),
        decreases n - i,
    {
        let ghost seen = texts(names@);
        let base: usize = at + 3 * i;
        assert(all[base as int] == words[base as int]@);
        assert(all[base + 1] == words[base + 1]@);
        assert(all[base + 2] == words[base + 2]@);
        if !is_word(&words[base], "|") {
            proof {
                lemma_columns_of_fails(all, at as int, i + 1, n as int);
            }
            return None;
        }
        match word_to_u8(words[base + 2].as_str()) {
            Some(ty) => {
                names.push(words[base + 1].clone());
                types.push(ty);
                assert(texts(names@) =~= seen.push(all[base + 1]));
            },
            None => {
                proof {
                    lemma_columns_of_fails(all, at as int, i + 1, n as int);
                }
                return None;
            },
        }
        i += 1;
    }
    Some((names, types))
}

/// What a `create` line asks for.
#[verifier::rlimit(50)]
pub fn parse_create(words: &Vec<String>) -> (command: Commands)
    ensures
        command@ == create_of(texts(words@)),
{
    let ghost all = texts(words@);
    let syntax: &str = "Syntax: create table_name key -> type_of_key columns | Age 2 | Website 7 | ";
    if words.len() < 7 || (words.len() - 7) % 3 != 0 {
        return syntax_error(syntax);
    }
    let n: usize = (words.len() - 7) / 3;
    assert(all[2] == words[2]@ && all[3] == words[3]@ && all[4] == words[4]@ && all[5] == words[5]@
        && all[1] == words[1]@ && all[words.len() - 1] == words[words.len() - 1]@);
    if !is_word(&words[2], "key") || !is_word(&words[3], "->") {
        return syntax_error(syntax);
    }
    let pk: u8 = match word_to_u8(words[4].as_str()) {
        Some(pk) => pk,
        None => {
            return syntax_error(syntax);
        },
    };
    if !is_word(&words[5], "columns") {
        return syntax_error(syntax);
    }
    let (names, types) = match columns_words(words, 6, n) {
        Some(columns) => columns,
        None => {
            return syntax_error(syntax);
        },
    };
    if !is_word(&words[words.len() - 1], "|") {
        return syntax_error(syntax);
    }
    Commands::Create(words[1].clone(), pk, names, types)
}

/// The key of a line `<command> key -> <key> ...`.
pub fn parse_key(words: &Vec<String>) -> (key: Option<Value>)
    ensures
        match key {
            Some(v) => key_of(texts(words@)) == Some(v@),
            None => key_of(texts(words@)) is None,
        },
{
    let ghost all = texts(words@);
    if words.len() < 4 {
        return None;
    }
    assert(all[1] == words[1]@ && all[2] == words[2]@ && all[3] == words[3]@);
    if !is_word(&words[1], "key") || !is_word(&words[2], "->") {
        return None;
    }
    identify_value(&words[3])
}

/// The row of a line `<command> key -> <key> row -> <value> ...`.
pub fn parse_rest(words: &Vec<String>, column_types: Option<&Vec<u8>>) -> (row: Option<Vec<Value>>)
    ensures
        match row {
            Some(values) => rest_of(texts(words@), types_view(column_types)) == Some(
                values_view(values@),
            ),
            None => rest_of(texts(words@), types_view(column_types)) is None,
        },
{
    let ghost all = texts(words@);
    if words.len() < 6 {
        return None;
    }
    assert(all[4] == words[4]@ && all[5] == words[5]@);
    if !is_word(&words[4], "row") || !is_word(&words[5], "->") {
        return None;
    }
    match column_types {
        Some(types) => row_words(words, 6, types),
        None => None,
    }
}

/// What a line of `words` asks for, for a table with the column types
/// `column_types`.
#[verifier::rlimit(50)]
pub fn parse_words(words: &Vec<String>, column_types: Option<&Vec<u8>>) -> (command: Commands)
    ensures
        command@ == command_of(texts(words@), types_view(column_types)),
{
    let ghost all = texts(words@);
    if words.len() == 0 {
        return syntax_error("Empty input string");
    }
    let lexeme: &String = &words[0];
    assert(all[0] == lexeme@);
    if is_word(lexeme, "create") {
        parse_create(words)
    } else if is_word(lexeme, "open") {
        if words.len() < 2 {
            return syntax_error("You need to specifiy the file/table name");
        }
        assert(all[1] == words[1]@);
        Commands::StartTransaction(words[1].clone())
    } else if is_word(lexeme, "close") {
        Commands::CloseTransaction()
    } else if is_word(lexeme, "insert") {
        let syntax: &str = "Syntax: insert key -> 1 row -> blabalabala ";
        if words.len() < 7 {
            return syntax_error(syntax);
        }
        let key: Value = match parse_key(words) {
            Some(key) => key,
            None => {
                return syntax_error(syntax);
            },
        };
        match parse_rest(words, column_types) {
            Some(row) => Commands::Insert(KeyRow { key, row }),
            None => syntax_error(syntax),
        }
    } else if is_word(lexeme, "delete") {
        if words.len() < 4 {
            return syntax_error("Syntax: delete key -> 1 ");
        }
        match parse_key(words) {
            Some(key) => Commands::Delete(key),
            None => syntax_error("Syntax: delete key -> 1 "),
        }
    } else if is_word(lexeme, "update") {
        let syntax: &str = "Syntax: update key -> 1 row -> blabalabala ";
        if words.len() < 7 {
            return syntax_error(syntax);
        }
        assert(all[1] == words[1]@ && all[2] == words[2]@);
        if !is_word(&words[1], "key") {
            return syntax_error(syntax);
        }
        if !is_word(&words[2], "->") {
            return syntax_error("Syntax: insert key -> 1 row -> blabalabala ");
        }
        let key: Value = match parse_key(words) {
            Some(key) => key,
            None => {
                return syntax_error(syntax);
            },
        };
        match parse_rest(words, column_types) {
            Some(row) => Commands::Update(KeyRow { key, row }),
            None => syntax_error(syntax),
        }
    } else if is_word(lexeme, "read") {
        if words.len() < 4 {
            return syntax_error("Syntax: read key -> 1 ");
        }
        match parse_key(words) {
            Some(key) => Commands::Read(key),
            None => syntax_error("Syntax: read key -> 1 "),
        }
    } else {
        syntax_error("Unknown Command token")
    }
}

/// What the line `str` asks for, for a table with the column types
/// `column_types`.
pub fn parse(str: String, column_types: Option<&Vec<u8>>) -> (command: Commands)
    ensures
        command@ == command_of(words_of(str@), types_view(column_types)),
{
    let words: Vec<String> = split_words(str.as_str());
    parse_words(&words, column_types)
}

} // verus!
