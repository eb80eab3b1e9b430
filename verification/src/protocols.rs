//! What goes over the wire between a client and the server: a question or an
//! error as a text, or an answer as a table with keys and rows.

use vstd::prelude::*;
use vstd::utf8::encode_utf8;
use vstd::utf8::valid_utf8;
use crate::bytes::be16;
use crate::bytes::be32;
use crate::bytes::read_be16;
use crate::bytes::u16_to_bytes;
use crate::bytes::u32_to_bytes;
use crate::bytes::bytes_to_u16;
use crate::bytes::append_bytes;
use crate::bytes::copy_range;
use crate::error::StorageError;
use crate::value::Value;
use crate::value::KeyRow;
use crate::value::KeyRowView;
use crate::value::keyrows_view;
use crate::value::values_view;
use crate::value::row_stored;
use crate::value::row_wf;
use crate::value::lemma_row_push;
use crate::engine::names_view;
use crate::engine::columns_stored;
use crate::codec::parse_value;
use crate::codec::parse_row;
use crate::codec::take_value;
use crate::codec::take_row;
use crate::codec::text_from_bytes;
use crate::codec::values_shape;
use crate::codec::row_shape;
use crate::codec::lemma_parse_value_stored;
use crate::codec::lemma_parse_row_stored;
use crate::bytes::lemma_be16_round_trip;
use crate::engine::section_len;
use crate::engine::lemma_columns_stored_len;
use crate::engine::lemma_section_len_nonneg;
use crate::value::lemma_stored_len;
use crate::value::lemma_row_stored_len;
use crate::value::row_len;
use crate::pages::values_wf;

verus! {

/// The byte that marks a question.
pub const QUERY: u8 = 43;

/// The byte that marks an answer with a table.
pub const RETURN: u8 = 61;

/// The byte that marks an error.
pub const ERROR: u8 = 33;

/// What a client learns of a table. Only the name and the columns go over the
/// wire.
#[derive(Debug)]
pub struct Table {
    pub name: String,
    pub column_number: u8,
    pub column_names: Vec<String>,
    pub column_types: Vec<u8>,
    pub page_id_count: u32,
    pub root_node_offset: u32,
    pub free_page_num: u32,
    pub free_page_list: Vec<u32>,
}

/// What a wire [`Table`] holds; texts as their bytes.
#[verifier::ext_equal]
pub struct WireTableView {
    pub name: Seq<u8>,
    pub column_number: u8,
    pub column_names: Seq<Seq<u8>>,
    pub column_types: Seq<u8>,
    pub page_id_count: u32,
    pub root_node_offset: u32,
    pub free_page_num: u32,
    pub free_page_list: Seq<u32>,
}

impl View for Table {
    type V = WireTableView;

    open spec fn view(&self) -> WireTableView {
        WireTableView {
            name: encode_utf8(self.name@),
            column_number: self.column_number,
            column_names: names_view(self.column_names@),
            column_types: self.column_types@,
            page_id_count: self.page_id_count,
            root_node_offset: self.root_node_offset,
            free_page_num: self.free_page_num,
            free_page_list: self.free_page_list@,
        }
    }
}

/// An answer: a table, and keys with their rows.
#[derive(Debug)]
pub struct Packet {
    pub table: Table,
    pub keyrows: Vec<KeyRow>,
}

/// What a [`Packet`] holds.
#[verifier::ext_equal]
pub struct PacketView {
    pub table: WireTableView,
    pub keyrows: Seq<KeyRowView>,
}

impl View for Packet {
    type V = PacketView;

    open spec fn view(&self) -> PacketView {
        PacketView { table: self.table@, keyrows: keyrows_view(self.keyrows@) }
    }
}

/// What goes over the wire.
#[derive(Debug)]
pub enum Response {
    Query(String),
    Return(Packet),
    Error(String),
}

/// What a [`Response`] holds; texts as their bytes.
pub enum ResponseView {
    Query(Seq<u8>),
    Return(PacketView),
    Error(Seq<u8>),
}

impl View for Response {
    type V = ResponseView;

    open spec fn view(&self) -> ResponseView {
        match self {
            Response::Query(text) => ResponseView::Query(encode_utf8(text@)),
            Response::Return(packet) => ResponseView::Return(packet@),
            Response::Error(text) => ResponseView::Error(encode_utf8(text@)),
        }
    }
}

/// A text on the wire: the mark, the length in two bytes, the text.
pub open spec fn text_wire(mark: u8, text: Seq<u8>) -> Seq<u8> {
    seq![mark] + be16(text.len() as u16) + text
}

/// A table on the wire: the length of the name and the name, the number of
/// columns, and for each column its type, the length of its name and its name.
pub open spec fn table_wire(t: WireTableView) -> Seq<u8> {
    seq![t.name.len() as u8] + t.name + seq![t.column_types.len() as u8] + columns_stored(
        t.column_names,
        t.column_types,
        t.column_names.len() as int,
    )
}

/// The first `n` keys with their rows on the wire: for each the key as stored,
/// the number of values, and the values as stored.
pub open spec fn entries_wire(list: Seq<KeyRowView>, n: int) -> Seq<u8>
    decreases n,
{
    if n <= 0 {
        Seq::empty()
    } else {
        entries_wire(list, n - 1) + list[n - 1].key.stored() + seq![list[n - 1].row.len() as u8]
            + row_stored(list[n - 1].row)
    }
}

/// Keys with their rows on the wire: how many there are, the type of the keys
/// (7 for texts, 2 for numbers), and the keys with their rows.
pub open spec fn keyrows_wire(list: Seq<KeyRowView>) -> Seq<u8> {
    seq![list.len() as u8, if list[0].key.is_text() { 7u8 } else { 2u8 }] + entries_wire(
        list,
        list.len() as int,
    )
}

/// A part of an answer with its length in two bytes in front.
pub open spec fn framed(body: Seq<u8>) -> Seq<u8> {
    be16(body.len() as u16) + body
}

/// What is sent for a response, after the four bytes of its length.
pub open spec fn payload(r: ResponseView) -> Seq<u8> {
    match r {
        ResponseView::Query(text) => text_wire(43, text),
        ResponseView::Error(text) => text_wire(33, text),
        ResponseView::Return(p) => seq![61u8] + framed(table_wire(p.table)) + framed(
            keyrows_wire(p.keyrows),
        ),
    }
}

/// What is sent for a response: the length of what follows in four bytes, and
/// the response.
pub open spec fn packet(r: ResponseView) -> Seq<u8> {
    be32(payload(r).len() as u32) + payload(r)
}

/// Whether the table can be sent: a name and column names of at most 255
/// bytes, at most 255 columns, a type for each, and no more than 65535 bytes
/// in all.
pub open spec fn table_fits(t: WireTableView) -> bool {
    &&& t.name.len() <= 255
    &&& t.column_names.len() == t.column_types.len() <= 255
    &&& forall|i: int| 0 <= i < t.column_names.len() ==> (#[trigger] t.column_names[i]).len() <= 255
    &&& table_wire(t).len() <= 65535
}

/// Whether keys with rows can be sent: at least 1 and at most 255 of them,
/// sound keys of one kind, sound rows of at most 255 values, and no more than
/// 65535 bytes in all.
pub open spec fn keyrows_fit(list: Seq<KeyRowView>) -> bool {
    &&& 1 <= list.len() <= 255
    &&& forall|i: int|
        0 <= i < list.len() ==> {
            let e = #[trigger] list[i];
            e.key.wf() && e.key.is_text() == list[0].key.is_text() && e.row.len() <= 255 && row_wf(
                e.row,
            )
        }
    &&& keyrows_wire(list).len() <= 65535
}

/// Whether the response can be sent.
pub open spec fn fits(r: ResponseView) -> bool {
    match r {
        ResponseView::Query(text) => text.len() <= 65535,
        ResponseView::Error(text) => text.len() <= 65535,
        ResponseView::Return(p) => table_fits(p.table) && keyrows_fit(p.keyrows),
    }
}

/// Appends a value as stored.
pub fn push_value(out: &mut Vec<u8>, value: &Value)
    ensures
        final(out)@ == old(out)@ + value@.stored(),
{
    match value {
        Value::Number(x) => {
            let bytes: [u8; 4] = u32_to_bytes(*x);
            append_bytes(out, bytes.as_slice());
        },
        Value::String(len, text) => {
            out.push(*len);
            append_bytes(out, text.as_str().as_bytes());
            assert(out@ =~= old(out)@ + value@.stored());
        },
    }
}

/// Appends the values of a row as stored.
pub fn push_row(out: &mut Vec<u8>, row: &Vec<Value>)
    ensures
        final(out)@ == old(out)@ + row_stored(values_view(row@)),
{
    let ghost all = values_view(row@);
    let mut i: usize = 0;
    assert(out@ =~= old(out)@ + row_stored(all.take(0)));
    while i < row.len()
        invariant
            i <= row.len(),
            all == values_view(row@),
            out@ == old(out)@ + row_stored(all.take(i as int)),
        decreases row.len() - i,
    {
        proof {
            assert(all.take(i + 1) =~= all.take(i as int).push(all[i as int]));
            lemma_row_push(all.take(i as int), all[i as int]);
        }
        let ghost before = out@;
        push_value(out, &row[i]);
        assert(out@ =~= old(out)@ + row_stored(all.take(i + 1)));
        i += 1;
    }
    assert(all.take(i as int) =~= all);
}

/// A text on the wire, if it is short enough to be sent.
pub fn text_bytes(mark: u8, text: &String) -> (out: Option<Vec<u8>>)
    ensures
        out is Some == (encode_utf8(text@).len() <= 65535),
        out matches Some(bytes) ==> bytes@ == text_wire(mark, encode_utf8(text@)),
{
    let bytes: &[u8] = text.as_str().as_bytes();
    if bytes.len() > 65535 {
        return None;
    }
    let mut out: Vec<u8> = Vec::new();
    out.push(mark);
    let len: [u8; 2] = u16_to_bytes(bytes.len() as u16);
    append_bytes(&mut out, len.as_slice());
    append_bytes(&mut out, bytes);
    assert(out@ =~= text_wire(mark, encode_utf8(text@)));
    Some(out)
}

/// A table on the wire, if it can be sent.
#[verifier::rlimit(50)]
pub fn serialize_table(table: &Table) -> (out: Option<Vec<u8>>)
    ensures
        out is Some == table_fits(table@),
        out matches Some(bytes) ==> bytes@ == table_wire(table@),
{
    let ghost names = table@.column_names;
    let ghost types = table@.column_types;
    let name: &[u8] = table.name.as_str().as_bytes();
    if name.len() > 255 || table.column_names.len() != table.column_types.len()
        || table.column_types.len() > 255 {
        return None;
    }
    let mut out: Vec<u8> = Vec::new();
    out.push(name.len() as u8);
    append_bytes(&mut out, name);
    out.push(table.column_types.len() as u8);
    let ghost front = out@;
    let mut i: usize = 0;
    assert(out@ =~= front + columns_stored(names, types, 0));
    while i < table.column_names.len()
        invariant
            i <= table.column_names.len() == table.column_types.len(),
            names == names_view(table.column_names@),
            types == table.column_types@,
            forall|k: int| 0 <= k < i ==> (#[trigger] names[k]).len() <= 255,
            out@ == front + columns_stored(names, types, i as int),
        decreases table.column_names.len() - i,
    {
        let column: &[u8] = table.column_names[i].as_str().as_bytes();
        assert(names[i as int] == column@);
        if column.len() > 255 {
            return None;
        }
        out.push(table.column_types[i]);
        out.push(column.len() as u8);
        append_bytes(&mut out, column);
        assert(out@ =~= front + columns_stored(names, types, i + 1));
        i += 1;
    }
    assert(out@ =~= table_wire(table@));
    if out.len() > 65535 {
        return None;
    }
    Some(out)
}

/// Keys with their rows on the wire, if they can be sent.
#[verifier::rlimit(50)]
pub fn serialize_keyrow(kr: &Vec<KeyRow>) -> (out: Option<Vec<u8>>)
    ensures
        out is Some == keyrows_fit(keyrows_view(kr@)),
        out matches Some(bytes) ==> bytes@ == keyrows_wire(keyrows_view(kr@)),
{
    let ghost list = keyrows_view(kr@);
    if kr.len() < 1 || kr.len() > 255 {
        return None;
    }
    assert(list[0] == kr[0]@);
    let text: bool = kr[0].key.is_text();
    let mut out: Vec<u8> = Vec::new();
    out.push(kr.len() as u8);
    out.push(if text { 7 } else { 2 });
    let ghost front = out@;
    let mut i: usize = 0;
    assert(out@ =~= front + entries_wire(list, 0));
    while i < kr.len()
        invariant
            i <= kr.len(),
            1 <= kr.len() <= 255,
            list == keyrows_view(kr@),
            text == list[0].key.is_text(),
            forall|k: int|
                0 <= k < i ==> {
                    let e = #[trigger] list[k];
                    e.key.wf() && e.key.is_text() == list[0].key.is_text() && e.row.len() <= 255
                        && row_wf(e.row)
                },
            out@ == front + entries_wire(list, i as int),
        decreases kr.len() - i,
    {
        let entry: &KeyRow = &kr[i];
        assert(list[i as int] == entry@);
        if !entry.key.is_wf() || entry.key.is_text() != text || entry.row.len() > 255 || !values_wf(
            &entry.row,
        ) {
            return None;
        }
        push_value(&mut out, &entry.key);
        out.push(entry.row.len() as u8);
        push_row(&mut out, &entry.row);
        assert(out@ =~= front + entries_wire(list, i + 1));
        i += 1;
    }
    assert(out@ =~= keyrows_wire(list));
    if out.len() > 65535 {
        return None;
    }
    Some(out)
}

/// Appends a part of an answer with its length in two bytes in front.
pub fn push_framed(out: &mut Vec<u8>, body: &Vec<u8>)
    requires
        body@.len() <= 65535,
    ensures
        final(out)@ == old(out)@ + framed(body@),
{
    let len: [u8; 2] = u16_to_bytes(body.len() as u16);
    append_bytes(out, len.as_slice());
    append_bytes(out, body.as_slice());
    assert(out@ =~= old(out)@ + framed(body@));
}

/// What is sent for `response`: its length in four bytes and the response. A
/// response that is too long for its length fields is refused.
pub fn serialize(response: Response) -> (out: Result<Vec<u8>, StorageError>)
    ensures
        match out {
            Ok(bytes) => fits(response@) && bytes@ == packet(response@),
            Err(e) => !fits(response@) && e == StorageError::TooLarge,
        },
{
    let body: Vec<u8> = match &response {
        Response::Query(text) => match text_bytes(QUERY, text) {
            Some(body) => body,
            None => {
                return Err(StorageError::TooLarge);
            },
        },
        Response::Error(text) => match text_bytes(ERROR, text) {
            Some(body) => body,
            None => {
                return Err(StorageError::TooLarge);
            },
        },
        Response::Return(pack) => {
            let table: Vec<u8> = match serialize_table(&pack.table) {
                Some(table) => table,
                None => {
                    return Err(StorageError::TooLarge);
                },
            };
            let keyrows: Vec<u8> = match serialize_keyrow(&pack.keyrows) {
                Some(keyrows) => keyrows,
                None => {
                    return Err(StorageError::TooLarge);
                },
            };
            let mut body: Vec<u8> = Vec::new();
            body.push(RETURN);
            push_framed(&mut body, &table);
            push_framed(&mut body, &keyrows);
            assert(body@ =~= payload(response@));
            body
        },
    };
    assert(body@.len() <= 3 + 65535 + 65535 + 4);
    let mut out: Vec<u8> = Vec::new();
    let size: [u8; 4] = u32_to_bytes(body.len() as u32);
    append_bytes(&mut out, size.as_slice());
    append_bytes(&mut out, body.as_slice());
    assert(out@ =~= packet(response@));
    Ok(out)
}


/// The text at `at`: its length in two bytes, then the text.
pub open spec fn parse_text(buf: Seq<u8>, at: int) -> Option<Seq<u8>> {
    if at + 2 <= buf.len() && at + 2 + read_be16(buf, at) <= buf.len() && valid_utf8(
        buf.subrange(at + 2, at + 2 + read_be16(buf, at)),
    ) {
        Some(buf.subrange(at + 2, at + 2 + read_be16(buf, at)))
    } else {
        None
    }
}

/// The first `n` columns from `start` on: their names, their types, and the
/// offset after them.
pub open spec fn parse_names(buf: Seq<u8>, start: int, limit: int, n: int) -> Option<
    (Seq<Seq<u8>>, Seq<u8>, int),
>
    decreases n,
{
    if n <= 0 {
        Some((Seq::empty(), Seq::empty(), start))
    } else {
        match parse_names(buf, start, limit, n - 1) {
            None => None,
            Some((names, types, at)) => if at + 2 <= limit && at + 2 + buf[at + 1] <= limit
                && valid_utf8(buf.subrange(at + 2, at + 2 + buf[at + 1])) {
                Some(
                    (
                        names.push(buf.subrange(at + 2, at + 2 + buf[at + 1])),
                        types.push(buf[at]),
                        at + 2 + buf[at + 1],
                    ),
                )
            } else {
                None
            },
        }
    }
}

/// The table that the bytes from `at` up to `limit` spell. What does not go
/// over the wire is zero.
pub open spec fn parse_table(buf: Seq<u8>, at: int, limit: int) -> Option<WireTableView> {
    if at + 1 > limit || at + 2 + buf[at] > limit || !valid_utf8(
        buf.subrange(at + 1, at + 1 + buf[at]),
    ) {
        None
    } else {
        match parse_names(buf, at + 2 + buf[at], limit, buf[at + 1 + buf[at]] as int) {
            None => None,
            Some((names, types, _)) => Some(
                WireTableView {
                    name: buf.subrange(at + 1, at + 1 + buf[at]),
                    column_number: 0,
                    column_names: names,
                    column_types: types,
                    page_id_count: 0,
                    root_node_offset: 0,
                    free_page_num: 0,
                    free_page_list: Seq::empty(),
                },
            ),
        }
    }
}

/// Every column holds numbers or texts.
pub open spec fn known(types: Seq<u8>) -> bool {
    forall|i: int| 0 <= i < types.len() ==> #[trigger] types[i] == 2 || types[i] == 7
}

/// The first `n` keys with their rows from `start` on, and the offset after
/// them. Each row says how many values it has, which is one per column.
pub open spec fn parse_entries(
    buf: Seq<u8>,
    start: int,
    limit: int,
    text: bool,
    types: Seq<u8>,
    n: int,
) -> Option<(Seq<KeyRowView>, int)>
    decreases n,
{
    if n <= 0 {
        Some((Seq::empty(), start))
    } else {
        match parse_entries(buf, start, limit, text, types, n - 1) {
            None => None,
            Some((list, at)) => match parse_value(buf, at, limit, text) {
                None => None,
                Some((key, next)) => if next + 1 <= limit && buf[next] == types.len() {
                    match parse_row(buf, next + 1, limit, types) {
                        None => None,
                        Some((row, end)) => Some((list.push(KeyRowView { key, row }), end)),
                    }
                } else {
                    None
                },
            },
        }
    }
}

/// The keys with their rows that the bytes from `at` up to `limit` spell, for
/// a table with the column types `types`.
pub open spec fn parse_keyrows(buf: Seq<u8>, at: int, limit: int, types: Seq<u8>) -> Option<
    Seq<KeyRowView>,
> {
    if at + 2 > limit || !(buf[at + 1] == 2 || buf[at + 1] == 7) || !known(types) {
        None
    } else {
        match parse_entries(buf, at + 2, limit, buf[at + 1] == 7, types, buf[at] as int) {
            None => None,
            Some((list, _)) => Some(list),
        }
    }
}

/// The answer that the bytes spell: a table and keys with rows, each with its
/// length in two bytes in front.
pub open spec fn parse_return(buf: Seq<u8>) -> Option<PacketView> {
    if 3 > buf.len() || 5 + read_be16(buf, 1) > buf.len() || 5 + read_be16(buf, 1) + read_be16(
        buf,
        3 + read_be16(buf, 1),
    ) > buf.len() {
        None
    } else {
        let table_end = 3 + read_be16(buf, 1);
        let end = table_end + 2 + read_be16(buf, table_end);
        match parse_table(buf, 3, table_end) {
            None => None,
            Some(table) => match parse_keyrows(buf, table_end + 2, end, table.column_types) {
                None => None,
                Some(keyrows) => Some(PacketView { table, keyrows }),
            },
        }
    }
}

/// The response that the bytes spell, if they spell one.
pub open spec fn parse_response(buf: Seq<u8>) -> Option<ResponseView> {
    if buf.len() < 1 {
        None
    } else if buf[0] == 43 {
        match parse_text(buf, 1) {
            Some(text) => Some(ResponseView::Query(text)),
            None => None,
        }
    } else if buf[0] == 33 {
        match parse_text(buf, 1) {
            Some(text) => Some(ResponseView::Error(text)),
            None => None,
        }
    } else if buf[0] == 61 {
        match parse_return(buf) {
            Some(p) => Some(ResponseView::Return(p)),
            None => None,
        }
    } else {
        None
    }
}

proof fn lemma_parse_names_fails(buf: Seq<u8>, start: int, limit: int, n: int, m: int)
    requires
        0 <= n <= m,
        parse_names(buf, start, limit, n) is None,
    ensures
        parse_names(buf, start, limit, m) is None,
    decreases m - n,
{
    if n < m {
        lemma_parse_names_fails(buf, start, limit, n + 1, m);
    }
}

proof fn lemma_parse_entries_fails(
    buf: Seq<u8>,
    start: int,
    limit: int,
    text: bool,
    types: Seq<u8>,
    n: int,
    m: int,
)
    requires
        0 <= n <= m,
        parse_entries(buf, start, limit, text, types, n) is None,
    ensures
        parse_entries(buf, start, limit, text, types, m) is None,
    decreases m - n,
{
    if n < m {
        lemma_parse_entries_fails(buf, start, limit, text, types, n + 1, m);
    }
}

/// Reads the text at `at`.
pub fn take_text(buf: &[u8], at: usize) -> (out: Option<String>)
    ensures
        match out {
            Some(text) => parse_text(buf@, at as int) == Some(encode_utf8(text@)),
            None => parse_text(buf@, at as int) is None,
        },
{
    if at > buf.len() || buf.len() - at < 2 {
        return None;
    }
    let len: usize = bytes_to_u16(buf, at) as usize;
    if buf.len() - at - 2 < len {
        return None;
    }
    text_from_bytes(copy_range(buf, at + 2, at + 2 + len))
}

/// Reads the table from `at` up to `limit`.
#[verifier::rlimit(50)]
pub fn deconstruct_table(buf: &[u8], at: usize, limit: usize) -> (out: Option<Table>)
    requires
        at <= limit <= buf@.len(),
    ensures
        match out {
            Some(table) => parse_table(buf@, at as int, limit as int) == Some(table@),
            None => parse_table(buf@, at as int, limit as int) is None,
        },
{
    if limit - at < 1 {
        return None;
    }
    let name_len: usize = buf[at] as usize;
    if limit - at - 1 < name_len + 1 {
        return None;
    }
    let name: String = match text_from_bytes(copy_range(buf, at + 1, at + 1 + name_len)) {
        Some(name) => name,
        None => {
            return None;
        },
    };
    let count: usize = buf[at + 1 + name_len] as usize;
    let start: usize = at + 2 + name_len;
    let mut column_names: Vec<String> = Vec::new();
    let mut column_types: Vec<u8> = Vec::new();
    let mut next: usize = start;
    let mut i: usize = 0;
    assert(names_view(column_names@) =~= Seq::empty());
    assert(column_types@ =~= Seq::empty());
    while i < count
        invariant
            i <= count,
            start <= next <= limit <= buf@.len(),
            count == buf@[at + 1 + name_len],
            name_len == buf@[at as int],
            start == at + 2 + name_len,
            encode_utf8(name@) == buf@.subrange(at + 1, at + 1 + name_len),
            parse_names(buf@, start as int, limit as int, i as int) == Some(
                (names_view(column_names@), column_types@, next as int),
            ),
        decreases count - i,
    {
        let ghost seen = names_view(column_names@);
        if limit - next < 2 {
            proof {
                lemma_parse_names_fails(buf@, start as int, limit as int, i + 1, count as int);
            }
            return None;
        }
        let len: usize = buf[next + 1] as usize;
        if limit - next - 2 < len {
            proof {
                lemma_parse_names_fails(buf@, start as int, limit as int, i + 1, count as int);
            }
            return None;
        }
        match text_from_bytes(copy_range(buf, next + 2, next + 2 + len)) {
            None => {
                proof {
                    lemma_parse_names_fails(buf@, start as int, limit as int, i + 1, count as int);
                }
                return None;
            },
            Some(column) => {
                column_types.push(buf[next]);
                column_names.push(column);
                assert(names_view(column_names@) =~= seen.push(
                    buf@.subrange(next + 2, next + 2 + len),
                ));
                next = next + 2 + len;
            },
        }
        i += 1;
    }
    Some(
        Table {
            name,
            column_number: 0,
            column_names,
            column_types,
            page_id_count: 0,
            root_node_offset: 0,
            free_page_num: 0,
            free_page_list: Vec::new(),
        },
    )
}

/// Whether every column holds numbers or texts.
pub fn all_known(types: &Vec<u8>) -> (ok: bool)
    ensures
        ok == known(types@),
{
    let mut i: usize = 0;
    while i < types.len()
        invariant
            i <= types.len(),
            forall|k: int| 0 <= k < i ==> #[trigger] types@[k] == 2 || types@[k] == 7,
        decreases types.len() - i,
    {
        if types[i] != 2 && types[i] != 7 {
            return false;
        }
        i += 1;
    }
    true
}

/// Reads the keys with their rows from `at` up to `limit`.
#[verifier::rlimit(50)]
pub fn deconstruct_keyrow(buf: &[u8], at: usize, limit: usize, column_types: &Vec<u8>) -> (out: Option<
    Vec<KeyRow>,
>)
    requires
        at <= limit <= buf@.len(),
    ensures
        match out {
            Some(list) => parse_keyrows(buf@, at as int, limit as int, column_types@) == Some(
                keyrows_view(list@),
            ),
            None => parse_keyrows(buf@, at as int, limit as int, column_types@) is None,
        },
{
    if limit - at < 2 {
        return None;
    }
    let count: usize = buf[at] as usize;
    let kind: u8 = buf[at + 1];
    if kind != 2 && kind != 7 {
        return None;
    }
    if !all_known(column_types) {
        return None;
    }
    let text: bool = kind == 7;
    let start: usize = at + 2;
    let mut list: Vec<KeyRow> = Vec::new();
    let mut next: usize = start;
    let mut i: usize = 0;
    assert(keyrows_view(list@) =~= Seq::empty());
    while i < count
        invariant
            i <= count,
            start <= next <= limit <= buf@.len(),
            count == buf@[at as int],
            text == (buf@[at + 1] == 7),
            start == at + 2,
            parse_entries(buf@, start as int, limit as int, text, column_types@, i as int) == Some(
                (keyrows_view(list@), next as int),
            ),
        decreases count - i,
    {
        let ghost seen = keyrows_view(list@);
        let (key, after_key) = match take_value(buf, next, limit, text) {
            Some(read) => read,
            None => {
                proof {
                    lemma_parse_entries_fails(
                        buf@,
                        start as int,
                        limit as int,
                        text,
                        column_types@,
                        i + 1,
                        count as int,
                    );
                }
                return None;
            },
        };
        if after_key >= limit || buf[after_key] as usize != column_types.len() {
            proof {
                lemma_parse_entries_fails(
                    buf@,
                    start as int,
                    limit as int,
                    text,
                    column_types@,
                    i + 1,
                    count as int,
                );
            }
            return None;
        }
        let (row, end) = match take_row(buf, after_key + 1, limit, column_types) {
            Some(read) => read,
            None => {
                proof {
                    lemma_parse_entries_fails(
                        buf@,
                        start as int,
                        limit as int,
                        text,
                        column_types@,
                        i + 1,
                        count as int,
                    );
                }
                return None;
            },
        };
        list.push(KeyRow { key, row });
        assert(keyrows_view(list@) =~= seen.push(
            KeyRowView { key: key@, row: values_view(row@) },
        ));
        next = end;
        i += 1;
    }
    Some(list)
}

/// Reads a response from the bytes that came after its length. Bytes that
/// spell no response are refused.
#[verifier::rlimit(50)]
pub fn deserialize(response: &[u8]) -> (out: Result<Response, StorageError>)
    ensures
        match out {
            Ok(r) => parse_response(response@) == Some(r@),
            Err(e) => parse_response(response@) is None && e == StorageError::Corrupt,
        },
{
    if response.len() < 1 {
        return Err(StorageError::Corrupt);
    }
    let mark: u8 = response[0];
    if mark == QUERY {
        match take_text(response, 1) {
            Some(text) => Ok(Response::Query(text)),
            None => Err(StorageError::Corrupt),
        }
    } else if mark == ERROR {
        match take_text(response, 1) {
            Some(text) => Ok(Response::Error(text)),
            None => Err(StorageError::Corrupt),
        }
    } else if mark == RETURN {
        if response.len() < 3 {
            return Err(StorageError::Corrupt);
        }
        let table_len: usize = bytes_to_u16(response, 1) as usize;
        if response.len() - 3 < table_len + 2 {
            return Err(StorageError::Corrupt);
        }
        let table_end: usize = 3 + table_len;
        let keyrows_len: usize = bytes_to_u16(response, table_end) as usize;
        if response.len() - table_end - 2 < keyrows_len {
            return Err(StorageError::Corrupt);
        }
        let table: Table = match deconstruct_table(response, 3, table_end) {
            Some(table) => table,
            None => {
                return Err(StorageError::Corrupt);
            },
        };
        let keyrows: Vec<KeyRow> = match deconstruct_keyrow(
            response,
            table_end + 2,
            table_end + 2 + keyrows_len,
            &table.column_types,
        ) {
            Some(keyrows) => keyrows,
            None => {
                return Err(StorageError::Corrupt);
            },
        };
        Ok(Response::Return(Packet { table, keyrows }))
    } else {
        Err(StorageError::Corrupt)
    }
}


/// What is read of a response that was sent: the response itself, but that
/// of a table only the name and the columns arrive.
pub open spec fn arrived(r: ResponseView) -> ResponseView {
    match r {
        ResponseView::Return(p) => ResponseView::Return(
            PacketView {
                table: WireTableView {
                    name: p.table.name,
                    column_number: 0,
                    column_names: p.table.column_names,
                    column_types: p.table.column_types,
                    page_id_count: 0,
                    root_node_offset: 0,
                    free_page_num: 0,
                    free_page_list: Seq::empty(),
                },
                keyrows: p.keyrows,
            },
        ),
        other => other,
    }
}

/// Whether a response that was sent can be read: its texts are UTF-8, and in
/// an answer every column holds numbers or texts and every row has one value
/// per column, a number under 2 and a text under 7.
pub open spec fn readable(r: ResponseView) -> bool {
    match r {
        ResponseView::Query(text) => valid_utf8(text),
        ResponseView::Error(text) => valid_utf8(text),
        ResponseView::Return(p) => {
            &&& valid_utf8(p.table.name)
            &&& forall|i: int|
                0 <= i < p.table.column_names.len() ==> valid_utf8(#[trigger] p.table.column_names[i])
            &&& known(p.table.column_types)
            &&& forall|i: int|
                0 <= i < p.keyrows.len() ==> values_shape((#[trigger] p.keyrows[i]).row) == row_shape(
                    p.table.column_types,
                )
        },
    }
}

/// A text that was sent is read.
proof fn lemma_text_reads_back(mark: u8, text: Seq<u8>)
    requires
        text.len() <= 65535,
        valid_utf8(text),
    ensures
        parse_text(text_wire(mark, text), 1) == Some(text),
{
    let buf = text_wire(mark, text);
    lemma_be16_round_trip(text.len() as u16);
    assert(buf[1] == be16(text.len() as u16)[0]);
    assert(buf[2] == be16(text.len() as u16)[1]);
    let len = text.len() as int;
    assert(buf.subrange(3, 3 + len) =~= text);
}

/// Columns that were sent are read.
proof fn lemma_names_read_back(
    buf: Seq<u8>,
    start: int,
    limit: int,
    names: Seq<Seq<u8>>,
    types: Seq<u8>,
    n: int,
)
    requires
        0 <= start,
        0 <= n <= names.len(),
        names.len() == types.len(),
        forall|i: int|
            0 <= i < names.len() ==> (#[trigger] names[i]).len() <= 255 && valid_utf8(names[i]),
        start + section_len(names, n) <= limit <= buf.len(),
        buf.subrange(start, start + section_len(names, n)) == columns_stored(names, types, n),
    ensures
        parse_names(buf, start, limit, n) == Some(
            (names.take(n), types.take(n), start + section_len(names, n)),
        ),
    decreases n,
{
    if n > 0 {
        lemma_section_len_nonneg(names, n - 1);
        lemma_columns_stored_len(names, types, n - 1);
        lemma_columns_stored_len(names, types, n);
        let at = start + section_len(names, n - 1);
        let end = start + section_len(names, n);
        let whole = columns_stored(names, types, n);
        let part = columns_stored(names, types, n - 1);
        let name = names[n - 1];
        assert forall|k: int| 0 <= k < whole.len() implies buf[start + k] == whole[k] by {
            assert(buf.subrange(start, end)[k] == whole[k]);
        }
        assert(buf.subrange(start, at) =~= part) by {
            assert forall|k: int| 0 <= k < part.len() implies buf[start + k] == part[k] by {
                assert(whole[k] == part[k]);
            }
        }
        lemma_names_read_back(buf, start, limit, names, types, n - 1);
        assert(buf[at] == types[n - 1]) by {
            assert(whole[at - start] == types[n - 1]);
        }
        assert(buf[at + 1] == name.len()) by {
            assert(whole[at - start + 1] == name.len() as u8);
        }
        assert(buf.subrange(at + 2, at + 2 + name.len()) =~= name) by {
            assert forall|k: int| 0 <= k < name.len() implies buf[at + 2 + k] == name[k] by {
                assert(whole[at - start + 2 + k] == name[k]);
            }
        }
        assert(names.take(n) =~= names.take(n - 1).push(name));
        assert(types.take(n) =~= types.take(n - 1).push(types[n - 1]));
    } else {
        assert(names.take(0) =~= Seq::<Seq<u8>>::empty());
        assert(types.take(0) =~= Seq::<u8>::empty());
    }
}

/// Bytes that the first `n` keys with their rows take on the wire.
proof fn lemma_entries_wire_len(list: Seq<KeyRowView>, n: int)
    requires
        0 <= n <= list.len(),
        forall|i: int| 0 <= i < list.len() ==> (#[trigger] list[i]).key.wf() && row_wf(list[i].row),
    ensures
        n > 0 ==> entries_wire(list, n).len() == entries_wire(list, n - 1).len() + list[n
            - 1].key.stored_len() + 1 + row_len(list[n - 1].row),
        entries_wire(list, n).len() >= 0,
        n > 0 ==> row_len(list[n - 1].row) >= 0,
{
    if n > 0 {
        lemma_stored_len(list[n - 1].key);
        lemma_row_stored_len(list[n - 1].row);
    }
}

/// A table whose columns all hold numbers or texts has one value per column
/// in each row.
proof fn lemma_known_shape(types: Seq<u8>)
    requires
        known(types),
    ensures
        row_shape(types).len() == types.len(),
    decreases types.len(),
{
    if types.len() > 0 {
        assert forall|i: int| 0 <= i < types.drop_last().len() implies #[trigger] types.drop_last()[i]
            == 2 || types.drop_last()[i] == 7 by {
            assert(types.drop_last()[i] == types[i]);
        }
        lemma_known_shape(types.drop_last());
        assert(types.last() == types[types.len() - 1]);
    }
}

/// Keys with their rows that were sent are read.
#[verifier::rlimit(50)]
proof fn lemma_entries_read_back(
    buf: Seq<u8>,
    start: int,
    limit: int,
    text: bool,
    types: Seq<u8>,
    list: Seq<KeyRowView>,
    n: int,
)
    requires
        0 <= start,
        0 <= n <= list.len(),
        known(types),
        types.len() <= 255,
        forall|i: int|
            0 <= i < list.len() ==> {
                let e = #[trigger] list[i];
                e.key.wf() && e.key.is_text() == text && e.row.len() <= 255 && row_wf(e.row)
                    && values_shape(e.row) == row_shape(types)
            },
        start + entries_wire(list, n).len() <= limit <= buf.len(),
        buf.subrange(start, start + entries_wire(list, n).len()) == entries_wire(list, n),
    ensures
        parse_entries(buf, start, limit, text, types, n) == Some(
            (list.take(n), start + entries_wire(list, n).len()),
        ),
    decreases n,
{
    if n > 0 {
        lemma_entries_wire_len(list, n);
        lemma_entries_wire_len(list, n - 1);
        let e = list[n - 1];
        let whole = entries_wire(list, n);
        let part = entries_wire(list, n - 1);
        let at = start + part.len();
        let end = start + whole.len();
        lemma_stored_len(e.key);
        lemma_row_stored_len(e.row);
        assert forall|k: int| 0 <= k < whole.len() implies buf[start + k] == whole[k] by {
            assert(buf.subrange(start, end)[k] == whole[k]);
        }
        assert(buf.subrange(start, at) =~= part) by {
            assert forall|k: int| 0 <= k < part.len() implies buf[start + k] == part[k] by {
                assert(whole[k] == part[k]);
            }
        }
        lemma_entries_read_back(buf, start, limit, text, types, list, n - 1);
        let next = at + e.key.stored_len();
        assert(buf.subrange(at, next) =~= e.key.stored()) by {
            assert forall|k: int| 0 <= k < e.key.stored_len() implies buf[at + k]
                == e.key.stored()[k] by {
                assert(whole[part.len() + k] == e.key.stored()[k]);
            }
        }
        lemma_parse_value_stored(buf, at, limit, e.key);
        lemma_known_shape(types);
        assert(values_shape(e.row).len() == e.row.len());
        assert(buf[next] == types.len()) by {
            assert(whole[part.len() + e.key.stored_len()] == e.row.len() as u8);
        }
        assert(buf.subrange(next + 1, next + 1 + row_len(e.row)) =~= row_stored(e.row)) by {
            assert forall|k: int| 0 <= k < row_len(e.row) implies buf[next + 1 + k] == row_stored(
                e.row,
            )[k] by {
                assert(whole[part.len() + e.key.stored_len() + 1 + k] == row_stored(e.row)[k]);
            }
        }
        lemma_parse_row_stored(buf, next + 1, limit, types, e.row);
        assert(list.take(n) =~= list.take(n - 1).push(e));
    } else {
        assert(list.take(0) =~= Seq::<KeyRowView>::empty());
    }
}

/// What was sent is read: a response that can be sent and can be read is read
/// from its bytes as it was sent, a table with its name and its columns.
#[verifier::rlimit(50)]
pub proof fn law_response_reads_back(r: ResponseView)
    requires
        fits(r),
        readable(r),
    ensures
        parse_response(payload(r)) == Some(arrived(r)),
{
    match r {
        ResponseView::Query(text) => {
            lemma_text_reads_back(43, text);
        },
        ResponseView::Error(text) => {
            lemma_text_reads_back(33, text);
        },
        ResponseView::Return(p) => {
            let t = p.table;
            let list = p.keyrows;
            let names = t.column_names;
            let types = t.column_types;
            let count = names.len() as int;
            let table = table_wire(t);
            let rows = keyrows_wire(list);
            let body = entries_wire(list, list.len() as int);
            let buf = payload(r);
            let text = list[0].key.is_text();
            lemma_columns_stored_len(names, types, count);
            lemma_section_len_nonneg(names, count);
            lemma_be16_round_trip(table.len() as u16);
            lemma_be16_round_trip(rows.len() as u16);
            let name_len = t.name.len() as int;
            let table_end = 3 + table.len() as int;
            let end = table_end + 2 + rows.len() as int;
            assert(buf.len() == end);
            assert(buf[0] == 61);
            assert(buf[1] == be16(table.len() as u16)[0] && buf[2] == be16(table.len() as u16)[1]);
            assert(buf[table_end] == be16(rows.len() as u16)[0] && buf[table_end + 1] == be16(
                rows.len() as u16,
            )[1]);
            assert forall|k: int| 0 <= k < table.len() implies buf[3 + k] == table[k] by {}
            assert forall|k: int| 0 <= k < rows.len() implies buf[table_end + 2 + k] == rows[k] by {}
            // the table
            assert(buf[3] == name_len) by {
                assert(table[0] == t.name.len() as u8);
            }
            assert(buf.subrange(4, 4 + name_len) =~= t.name) by {
                assert forall|k: int| 0 <= k < name_len implies buf[4 + k] == t.name[k] by {
                    assert(table[1 + k] == t.name[k]);
                }
            }
            assert(buf[4 + name_len] == count) by {
                assert(table[1 + name_len] == types.len() as u8);
            }
            let first = 5 + name_len;
            assert(buf.subrange(first, first + section_len(names, count)) =~= columns_stored(
                names,
                types,
                count,
            )) by {
                assert forall|k: int| 0 <= k < section_len(names, count) implies buf[first + k]
                    == columns_stored(names, types, count)[k] by {
                    assert(table[2 + name_len + k] == columns_stored(names, types, count)[k]);
                }
            }
            lemma_names_read_back(buf, first, table_end, names, types, count);
            assert(names.take(count) =~= names);
            assert(types.take(count) =~= types);
            // the keys with their rows
            let at = table_end + 2;
            assert(buf[at] == list.len()) by {
                assert(rows[0] == list.len() as u8);
            }
            assert(buf[at + 1] == (if text { 7u8 } else { 2u8 })) by {
                assert(rows[1] == (if text { 7u8 } else { 2u8 }));
            }
            assert(buf.subrange(at + 2, at + 2 + body.len() as int) =~= body) by {
                assert forall|k: int| 0 <= k < body.len() implies buf[at + 2 + k] == body[k] by {
                    assert(rows[2 + k] == body[k]);
                }
            }
            lemma_entries_read_back(buf, at + 2, end, text, types, list, list.len() as int);
            assert(list.take(list.len() as int) =~= list);
        },
    }
}

} // verus!
