//! The table file: a header with the schema and the free-page list, and after
//! it the pages, 4096 bytes each. The table holds the file's bytes; whoever
//! owns the table reads them from disk and writes them back.

use vstd::prelude::*;
use vstd::utf8::encode_utf8;
use vstd::utf8::valid_utf8;
use vstd::utf8::encode_utf8_valid_utf8;
use crate::bytes::be32;
use crate::bytes::read_be32;
use crate::bytes::write_at;
use crate::bytes::lemma_from_be32_round_trip;
use crate::bytes::lemma_be32_round_trip;
use crate::bytes::u32_to_bytes;
use crate::bytes::bytes_to_u32;
use crate::bytes::append_bytes;
use crate::bytes::copy_range;
use crate::error::StorageError;
use crate::codec::image;
use crate::codec::text_from_bytes;
use crate::pages::Page;
use crate::pages::PageView;

verus! {

/// Where the header starts in the table file; the bytes before it are reserved.
pub const HEADER_START: usize = 32;

/// The most page ids that the free-page list keeps.
pub const MAX_FREE_PAGES: usize = 100;

/// A table: its schema, its page bookkeeping, and the bytes of its file.
#[derive(Debug)]
pub struct Table {
    pub name: String,
    pub pk_column: u8,
    /// Bytes that the columns take in the header.
    pub column_number: u8,
    pub column_names: Vec<String>,
    pub column_types: Vec<u8>,
    pub page_id_count: u32,
    pub root_node_offset: u32,
    pub free_page_num: u32,
    pub free_page_list: Vec<u32>,
    /// The table file, byte for byte.
    pub file: Vec<u8>,
}

/// What a [`Table`] holds; column names as their bytes.
#[verifier::ext_equal]
pub struct TableView {
    pub name: Seq<char>,
    pub pk_column: u8,
    pub column_number: u8,
    pub column_names: Seq<Seq<u8>>,
    pub column_types: Seq<u8>,
    pub page_id_count: u32,
    pub root_node_offset: u32,
    pub free_page_num: u32,
    pub free_page_list: Seq<u32>,
    pub file: Seq<u8>,
}

/// The bytes of each name.
pub open spec fn names_view(names: Seq<String>) -> Seq<Seq<u8>> {
    names.map_values(|s: String| encode_utf8(s@))
}

impl View for Table {
    type V = TableView;

    open spec fn view(&self) -> TableView {
        TableView {
            name: self.name@,
            pk_column: self.pk_column,
            column_number: self.column_number,
            column_names: names_view(self.column_names@),
            column_types: self.column_types@,
            page_id_count: self.page_id_count,
            root_node_offset: self.root_node_offset,
            free_page_num: self.free_page_num,
            free_page_list: self.free_page_list@,
            file: self.file@,
        }
    }
}

/// Bytes that the first `n` columns take in the header: for each a type byte, a
/// length byte and the name.
pub open spec fn section_len(names: Seq<Seq<u8>>, n: int) -> int
    decreases n,
{
    if n <= 0 {
        0
    } else {
        section_len(names, n - 1) + names[n - 1].len() + 2
    }
}

/// The first `n` columns as stored in the header.
pub open spec fn columns_stored(names: Seq<Seq<u8>>, types: Seq<u8>, n: int) -> Seq<u8>
    decreases n,
{
    if n <= 0 {
        Seq::empty()
    } else {
        columns_stored(names, types, n - 1) + seq![types[n - 1], names[n - 1].len() as u8]
            + names[n - 1]
    }
}

/// Page ids as stored: four bytes each, big-endian.
pub open spec fn ids_stored(ids: Seq<u32>) -> Seq<u8>
    decreases ids.len(),
{
    if ids.len() == 0 {
        Seq::empty()
    } else {
        ids_stored(ids.drop_last()) + be32(ids.last())
    }
}

/// A schema that a header can hold: as many types as names, and columns that
/// take at most 255 bytes in all.
pub open spec fn schema_ok(names: Seq<Seq<u8>>, types: Seq<u8>) -> bool {
    names.len() == types.len() && section_len(names, names.len() as int) <= 255
}

/// `file`, with zero bytes added up to the length `len` if it is shorter.
pub open spec fn grown(file: Seq<u8>, len: int) -> Seq<u8> {
    if len <= file.len() {
        file
    } else {
        file + Seq::new((len - file.len()) as nat, |i: int| 0u8)
    }
}

/// `file` after `data` was written at offset `at`; a write past the end makes
/// the file longer, with zero bytes in any gap.
pub open spec fn stored_at(file: Seq<u8>, at: int, data: Seq<u8>) -> Seq<u8> {
    write_at(grown(file, at + data.len()), at, data)
}

/// The 4096 bytes of `file` from `at` on; past the end of the file they are zero.
pub open spec fn loaded_from(file: Seq<u8>, at: int) -> Seq<u8> {
    Seq::new(4096, |k: int| if at + k < file.len() { file[at + k] } else { 0u8 })
}

/// The free-page list after `id` was freed: `id` last, and only the newest 100
/// ids kept.
pub open spec fn freed(list: Seq<u32>, id: u32) -> Seq<u32> {
    if list.len() + 1 > 100 {
        list.push(id).skip(list.len() + 1 - 100)
    } else {
        list.push(id)
    }
}

impl TableView {
    /// The header as stored from byte 32 on: the columns' byte count, the key
    /// column, the column count, the columns, then page count, root offset and
    /// free-page count in four bytes each, then the free page ids.
    pub open spec fn header_stored(self) -> Seq<u8> {
        seq![self.column_number, self.pk_column, self.column_types.len() as u8] + columns_stored(
            self.column_names,
            self.column_types,
            self.column_names.len() as int,
        ) + be32(self.page_id_count) + be32(self.root_node_offset) + be32(self.free_page_num)
            + ids_stored(self.free_page_list)
    }

    /// Where the pages start: after the header and room for 100 free page ids.
    pub open spec fn header_end(self) -> int {
        47 + self.column_number + 400
    }

    /// Where page `id` starts in the file.
    pub open spec fn page_offset(self, id: u32) -> int {
        self.header_end() + id * 4096
    }

    /// The bytes of page `id`.
    pub open spec fn page_at(self, id: u32) -> Seq<u8> {
        loaded_from(self.file, self.page_offset(id))
    }

    /// The fields agree with each other: a schema that a header can hold, its
    /// byte count, and a free-page list of the stated length, at most 100.
    pub open spec fn fields_ok(self) -> bool {
        &&& schema_ok(self.column_names, self.column_types)
        &&& self.column_number == section_len(self.column_names, self.column_names.len() as int)
        &&& forall|i: int|
            0 <= i < self.column_names.len() ==> valid_utf8(#[trigger] self.column_names[i])
        &&& self.free_page_list.len() == self.free_page_num <= 100
    }

    /// The fields agree with each other and with the header in the file.
    pub open spec fn wf(self) -> bool {
        &&& self.fields_ok()
        &&& 32 + self.header_stored().len() <= self.file.len()
        &&& self.file.subrange(32, 32 + self.header_stored().len() as int) == self.header_stored()
    }

    /// The table with other file bytes.
    pub open spec fn with_file(self, file: Seq<u8>) -> TableView {
        TableView { file, ..self }
    }

    /// The table after its header was written to the file again.
    pub open spec fn header_written(self) -> TableView {
        self.with_file(stored_at(self.file, 32, self.header_stored()))
    }

    /// The table after `buf` was written as page `id`.
    pub open spec fn page_written(self, id: u32, buf: Seq<u8>) -> TableView {
        self.with_file(stored_at(self.file, self.page_offset(id), buf))
    }

    /// Whether page `id` lies where this machine can address it.
    pub open spec fn in_reach(self, id: u32) -> bool {
        self.page_offset(id) + 4096 <= usize::MAX
    }

    /// The id that the next new page gets: the page freed last, or else the
    /// page count.
    pub open spec fn next_id(self) -> u32 {
        if self.free_page_list.len() > 0 {
            self.free_page_list.last()
        } else {
            self.page_id_count
        }
    }

    /// Whether a page can be created: its place is in reach, and a page count
    /// that has to grow can grow.
    pub open spec fn can_create(self) -> bool {
        self.in_reach(self.next_id()) && (self.free_page_list.len() == 0 ==> self.page_id_count
            < u32::MAX)
    }

    /// The table after a page with the bytes `buf` was created.
    pub open spec fn page_created(self, buf: Seq<u8>) -> TableView {
        let counted = if self.free_page_list.len() > 0 {
            TableView {
                free_page_list: self.free_page_list.drop_last(),
                free_page_num: (self.free_page_num - 1) as u32,
                ..self
            }
        } else {
            TableView { page_id_count: (self.page_id_count + 1) as u32, ..self }
        };
        counted.page_written(self.next_id(), buf).header_written()
    }

    /// The table after page `id` was freed: the page zeroed, `id` last in the
    /// free-page list, the list cut to its newest 100 ids.
    pub open spec fn page_removed(self, id: u32) -> TableView {
        let list = freed(self.free_page_list, id);
        let zeroed = self.page_written(id, Seq::new(4096, |i: int| 0u8));
        (TableView { free_page_list: list, free_page_num: list.len() as u32, ..zeroed }).header_written()
    }
}

pub proof fn lemma_section_len_grows(names: Seq<Seq<u8>>, n: int, m: int)
    requires
        0 <= n <= m,
    ensures
        0 <= 2 * n <= section_len(names, n) <= section_len(names, m),
    decreases m - n,
{
    lemma_section_len_nonneg(names, n);
    if n < m {
        lemma_section_len_grows(names, n + 1, m);
    }
}

pub proof fn lemma_section_len_nonneg(names: Seq<Seq<u8>>, n: int)
    requires
        0 <= n,
    ensures
        2 * n <= section_len(names, n),
    decreases n,
{
    if n > 0 {
        lemma_section_len_nonneg(names, n - 1);
    }
}

pub proof fn lemma_columns_stored_len(names: Seq<Seq<u8>>, types: Seq<u8>, n: int)
    requires
        0 <= n,
    ensures
        columns_stored(names, types, n).len() == section_len(names, n),
    decreases n,
{
    if n > 0 {
        lemma_columns_stored_len(names, types, n - 1);
    }
}

pub proof fn lemma_ids_stored_len(ids: Seq<u32>)
    ensures
        ids_stored(ids).len() == 4 * ids.len(),
    decreases ids.len(),
{
    if ids.len() > 0 {
        lemma_ids_stored_len(ids.drop_last());
    }
}

pub proof fn lemma_ids_stored_push(ids: Seq<u32>, id: u32)
    ensures
        ids_stored(ids.push(id)) == ids_stored(ids) + be32(id),
{
    assert(ids.push(id).drop_last() =~= ids);
}

/// The header of a table with a sound schema and at most 100 free pages ends
/// before the pages start.
pub proof fn lemma_header_len(t: TableView)
    requires
        schema_ok(t.column_names, t.column_types),
        t.column_number == section_len(t.column_names, t.column_names.len() as int),
        t.free_page_list.len() <= 100,
    ensures
        t.header_stored().len() == 15 + t.column_number + 4 * t.free_page_list.len(),
        32 + t.header_stored().len() <= t.header_end(),
{
    lemma_columns_stored_len(t.column_names, t.column_types, t.column_names.len() as int);
    lemma_ids_stored_len(t.free_page_list);
}

/// Writes `data` into `file` at `at`; the file grows if the write passes its end.
pub fn store(file: &mut Vec<u8>, at: usize, data: &[u8])
    requires
        at + data@.len() <= usize::MAX,
    ensures
        final(file)@ == stored_at(old(file)@, at as int, data@),
{
    let end: usize = at + data.len();
    if file.len() < end {
        file.resize(end, 0u8);
    }
    assert(file@ =~= grown(old(file)@, end as int));
    let ghost base = file@;
    let mut i: usize = 0;
    assert(file@ =~= write_at(base, at as int, data@.take(0)));
    while i < data.len()
        invariant
            i <= data@.len(),
            at + data@.len() <= file.len(),
            file.len() == base.len(),
            file@ == write_at(base, at as int, data@.take(i as int)),
        decreases data@.len() - i,
    {
        file[at + i] = data[i];
        assert(file@ =~= write_at(base, at as int, data@.take(i + 1)));
        i += 1;
    }
    assert(data@.take(i as int) =~= data@);
}

/// The 4096 bytes of `file` from `at` on; zero past the end of the file.
pub fn load(file: &Vec<u8>, at: usize) -> (out: [u8; 4096])
    ensures
        out@ == loaded_from(file@, at as int),
{
    let mut out: [u8; 4096] = [0u8; 4096];
    let mut k: usize = 0;
    while k < 4096 && at < file.len() && k < file.len() - at
        invariant
            k <= 4096,
            forall|j: int| 0 <= j < k ==> out@[j] == file@[at + j] && at + j < file.len(),
            forall|j: int| k <= j < 4096 ==> out@[j] == 0,
        decreases 4096 - k,
    {
        out[k] = file[at + k];
        k += 1;
    }
    assert(out@ =~= loaded_from(file@, at as int));
    out
}


/// A write leaves every range before it as it was.
pub proof fn lemma_stored_at_before(file: Seq<u8>, at: int, data: Seq<u8>, lo: int, hi: int)
    requires
        0 <= lo <= hi <= file.len(),
        hi <= at,
    ensures
        stored_at(file, at, data).subrange(lo, hi) == file.subrange(lo, hi),
        stored_at(file, at, data).len() >= file.len(),
{
    assert(stored_at(file, at, data).subrange(lo, hi) =~= file.subrange(lo, hi));
}

/// A write can be read back.
pub proof fn lemma_stored_at_read(file: Seq<u8>, at: int, data: Seq<u8>)
    requires
        0 <= at,
    ensures
        stored_at(file, at, data).subrange(at, at + data.len()) == data,
        stored_at(file, at, data).len() >= at + data.len(),
        stored_at(file, at, data).len() >= file.len(),
{
    assert(stored_at(file, at, data).subrange(at, at + data.len()) =~= data);
}

/// Writing the header makes the file agree with the fields.
pub proof fn lemma_header_written_wf(t: TableView)
    requires
        t.fields_ok(),
    ensures
        t.header_written().wf(),
{
    lemma_stored_at_read(t.file, 32, t.header_stored());
}

/// Writing the header changes no page.
pub proof fn lemma_header_written_pages(t: TableView, id: u32)
    requires
        t.fields_ok(),
    ensures
        t.header_written().page_at(id) == t.page_at(id),
{
    lemma_header_len(t);
    let after = t.header_written();
    assert(after.page_at(id) =~= t.page_at(id));
}

/// Writing a page changes that page and no other, and leaves the header alone.
pub proof fn lemma_page_written(t: TableView, id: u32, buf: Seq<u8>)
    requires
        t.wf(),
        buf.len() == 4096,
    ensures
        t.page_written(id, buf).wf(),
        t.page_written(id, buf).page_at(id) == buf,
        forall|other: u32| other != id ==> t.page_written(id, buf).page_at(other) == t.page_at(other),
{
    lemma_header_len(t);
    let after = t.page_written(id, buf);
    let at = t.page_offset(id);
    lemma_stored_at_before(t.file, at, buf, 32, 32 + t.header_stored().len() as int);
    assert(after.page_at(id) =~= buf);
    assert forall|other: u32| other != id implies after.page_at(other) == t.page_at(other) by {
        assert(after.page_at(other) =~= t.page_at(other));
    }
}

/// Writing a page that the file holds already changes nothing.
pub proof fn lemma_page_rewritten(t: TableView, id: u32, buf: Seq<u8>)
    requires
        buf.len() == 4096,
        t.page_offset(id) + 4096 <= t.file.len(),
        t.page_at(id) == buf,
    ensures
        t.page_written(id, buf) == t,
{
    let at = t.page_offset(id);
    assert forall|k: int| at <= k < at + 4096 implies t.file[k] == buf[k - at] by {
        assert(t.page_at(id)[k - at] == t.file[at + (k - at)]);
    }
    assert(stored_at(t.file, at, buf) =~= t.file);
}

/// A written page lies within the file, and the file has not become
/// shorter.
pub proof fn lemma_page_written_len(t: TableView, id: u32, buf: Seq<u8>)
    requires
        buf.len() == 4096,
    ensures
        t.page_offset(id) + 4096 <= t.page_written(id, buf).file.len(),
        t.file.len() <= t.page_written(id, buf).file.len(),
        t.page_written(id, buf).column_number == t.column_number,
{
}

/// In a schema that a header can hold every name has at most 253 bytes, and
/// there are at most 127 columns.
pub proof fn lemma_schema_bounds(names: Seq<Seq<u8>>, types: Seq<u8>)
    requires
        schema_ok(names, types),
    ensures
        names.len() <= 127,
        forall|i: int| 0 <= i < names.len() ==> (#[trigger] names[i]).len() <= 253,
{
    let n = names.len() as int;
    lemma_section_len_nonneg(names, n);
    assert forall|i: int| 0 <= i < names.len() implies (#[trigger] names[i]).len() <= 253 by {
        lemma_section_len_grows(names, i + 1, n);
        lemma_section_len_nonneg(names, i);
    }
}

/// Bytes that the columns take in a header, if the schema is one that a header
/// can hold.
pub fn schema_size(names: &Vec<String>, types: &Vec<u8>) -> (size: Option<u8>)
    ensures
        size is Some == schema_ok(names_view(names@), types@),
        size matches Some(n) ==> n == section_len(names_view(names@), names@.len() as int),
{
    let ghost all = names_view(names@);
    if names.len() != types.len() {
        return None;
    }
    let mut total: usize = 0;
    let mut i: usize = 0;
    while i < names.len()
        invariant
            i <= names.len(),
            all == names_view(names@),
            total == section_len(all, i as int),
            total <= 255,
        decreases names.len() - i,
    {
        let n: usize = names[i].as_str().as_bytes().len();
        assert(all[i as int] == encode_utf8(names[i as int]@));
        proof {
            lemma_section_len_grows(all, i + 1, names.len() as int);
        }
        if n > 255 || total + n + 2 > 255 {
            return None;
        }
        total = total + n + 2;
        i += 1;
    }
    Some(total as u8)
}

/// Page ids as stored.
pub fn ids_bytes(ids: &Vec<u32>, out: &mut Vec<u8>)
    ensures
        final(out)@ == old(out)@ + ids_stored(ids@),
{
    let mut i: usize = 0;
    assert(ids_stored(ids@.take(0)) =~= Seq::<u8>::empty());
    assert(out@ =~= old(out)@ + ids_stored(ids@.take(0)));
    while i < ids.len()
        invariant
            i <= ids.len(),
            out@ == old(out)@ + ids_stored(ids@.take(i as int)),
        decreases ids.len() - i,
    {
        let bytes: [u8; 4] = u32_to_bytes(ids[i]);
        proof {
            assert(ids@.take(i + 1) =~= ids@.take(i as int).push(ids@[i as int]));
            lemma_ids_stored_push(ids@.take(i as int), ids@[i as int]);
        }
        let ghost before = out@;
        append_bytes(out, bytes.as_slice());
        assert(out@ =~= old(out)@ + ids_stored(ids@.take(i + 1)));
        i += 1;
    }
    assert(ids@.take(i as int) =~= ids@);
}

impl Table {
    /// The header as stored from byte 32 of the file on.
    pub fn header_bytes(&self) -> (out: Vec<u8>)
        requires
            schema_ok(self@.column_names, self@.column_types),
        ensures
            out@ == self@.header_stored(),
    {
        let ghost names = self@.column_names;
        let ghost types = self@.column_types;
        proof {
            lemma_schema_bounds(names, types);
        }
        let mut out: Vec<u8> = Vec::new();
        out.push(self.column_number);
        out.push(self.pk_column);
        out.push(self.column_types.len() as u8);
        let ghost front = out@;
        let mut i: usize = 0;
        assert(out@ =~= front + columns_stored(names, types, 0));
        while i < self.column_names.len()
            invariant
                i <= self.column_names.len() == self.column_types.len(),
                names == names_view(self.column_names@),
                types == self.column_types@,
                forall|k: int| 0 <= k < names.len() ==> (#[trigger] names[k]).len() <= 253,
                out@ == front + columns_stored(names, types, i as int),
            decreases self.column_names.len() - i,
        {
            let name: &[u8] = self.column_names[i].as_str().as_bytes();
            assert(names[i as int] == name@);
            out.push(self.column_types[i]);
            out.push(name.len() as u8);
            append_bytes(&mut out, name);
            assert(out@ =~= front + columns_stored(names, types, i + 1));
            i += 1;
        }
        let page_count: [u8; 4] = u32_to_bytes(self.page_id_count);
        let root: [u8; 4] = u32_to_bytes(self.root_node_offset);
        let free: [u8; 4] = u32_to_bytes(self.free_page_num);
        append_bytes(&mut out, page_count.as_slice());
        append_bytes(&mut out, root.as_slice());
        append_bytes(&mut out, free.as_slice());
        ids_bytes(&self.free_page_list, &mut out);
        assert(front =~= seq![self.column_number, self.pk_column, self.column_types.len() as u8]);
        out
    }

    /// Writes the header into the file again, from the fields as they are.
    pub fn update_table(&mut self)
        requires
            old(self)@.fields_ok(),
        ensures
            final(self)@ == old(self)@.header_written(),
            final(self)@.wf(),
    {
        let header: Vec<u8> = self.header_bytes();
        proof {
            lemma_header_len(self@);
            lemma_header_written_wf(self@);
        }
        store(&mut self.file, HEADER_START, header.as_slice());
    }

    /// Where page `page_id` starts in the file, if the whole page lies where
    /// this machine can address it.
    pub fn page_start(&self, page_id: u32) -> (at: Option<usize>)
        ensures
            at is Some == self@.in_reach(page_id),
            at matches Some(a) ==> a == self@.page_offset(page_id),
    {
        let start: u64 = 447 + self.column_number as u64 + page_id as u64 * 4096;
        if start + 4096 > usize::MAX as u64 {
            None
        } else {
            Some(start as usize)
        }
    }

    /// Writes `buffer` as page `page_id`. Nothing changes if it is refused.
    pub fn update_page(&mut self, buffer: [u8; 4096], page_id: u32) -> (done: Result<
        (),
        StorageError,
    >)
        requires
            old(self)@.wf(),
        ensures
            match done {
                Ok(()) => old(self)@.in_reach(page_id) && final(self)@ == old(self)@.page_written(
                    page_id,
                    buffer@,
                ),
                Err(e) => !old(self)@.in_reach(page_id) && e == StorageError::TooLarge && final(self)@ == old(self)@,
            },
            final(self)@.wf(),
    {
        match self.page_start(page_id) {
            None => Err(StorageError::TooLarge),
            Some(at) => {
                proof {
                    lemma_page_written(self@, page_id, buffer@);
                }
                store(&mut self.file, at, buffer.as_slice());
                Ok(())
            },
        }
    }

    /// Writes `buffer` as page `page_id`, which lies where this machine can
    /// address it.
    pub fn write_page(&mut self, buffer: &[u8; 4096], page_id: u32)
        requires
            old(self)@.wf(),
            old(self)@.in_reach(page_id),
        ensures
            final(self)@ == old(self)@.page_written(page_id, buffer@),
            final(self)@.wf(),
    {
        let at: usize = (447 + self.column_number as u64 + page_id as u64 * 4096) as usize;
        proof {
            lemma_page_written(self@, page_id, buffer@);
        }
        store(&mut self.file, at, buffer.as_slice());
    }

    /// The bytes of page `page_id`; what lies past the end of the file is zero.
    pub fn read_page(&self, page_id: u32) -> (buffer: [u8; 4096])
        ensures
            buffer@ == self@.page_at(page_id),
    {
        let start: u64 = 447 + self.column_number as u64 + page_id as u64 * 4096;
        if start >= self.file.len() as u64 {
            let buffer: [u8; 4096] = [0u8; 4096];
            assert(buffer@ =~= self@.page_at(page_id));
            buffer
        } else {
            load(&self.file, start as usize)
        }
    }

    /// Stores `buffer` as a new page and returns the page's id: the page freed
    /// last if there is one, else the next id after the pages so far. The
    /// header in the file follows. Nothing changes if it is refused.
    #[verifier::rlimit(50)]
    pub fn create_page(&mut self, buffer: [u8; 4096]) -> (created: Result<u32, StorageError>)
        requires
            old(self)@.wf(),
        ensures
            match created {
                Ok(id) => old(self)@.can_create() && id == old(self)@.next_id() && final(self)@
                    == old(self)@.page_created(buffer@),
                Err(e) => !old(self)@.can_create() && e == StorageError::TooLarge && final(self)@
                    == old(self)@,
            },
            final(self)@.wf(),
    {
        let reuse: bool = self.free_page_list.len() > 0;
        let id: u32 = if reuse {
            self.free_page_list[self.free_page_list.len() - 1]
        } else {
            self.page_id_count
        };
        let at: usize = match self.page_start(id) {
            None => {
                return Err(StorageError::TooLarge);
            },
            Some(at) => at,
        };
        if !reuse && self.page_id_count == u32::MAX {
            return Err(StorageError::TooLarge);
        }
        store(&mut self.file, at, buffer.as_slice());
        if reuse {
            let _ = self.free_page_list.pop();
            self.free_page_num = self.free_page_num - 1;
        } else {
            self.page_id_count = self.page_id_count + 1;
        }
        assert(self@.fields_ok());
        self.update_table();
        Ok(id)
    }

    /// Frees page `page_id`: zeroes it, puts its id last in the free-page list,
    /// and cuts the list to its newest 100 ids. The header in the file follows.
    /// Nothing changes if it is refused.
    #[verifier::rlimit(50)]
    pub fn remove_page(&mut self, page_id: u32) -> (done: Result<(), StorageError>)
        requires
            old(self)@.wf(),
        ensures
            match done {
                Ok(()) => old(self)@.in_reach(page_id) && final(self)@ == old(self)@.page_removed(
                    page_id,
                ),
                Err(e) => !old(self)@.in_reach(page_id) && e == StorageError::TooLarge && final(self)@ == old(self)@,
            },
            final(self)@.wf(),
    {
        let zeroes: [u8; 4096] = [0u8; 4096];
        assert(zeroes@ =~= Seq::new(4096, |i: int| 0u8));
        match self.update_page(zeroes, page_id) {
            Err(e) => {
                return Err(e);
            },
            Ok(()) => {},
        }
        self.free_page_num = self.free_page_num + 1;
        self.free_page_list.push(page_id);
        let ghost pushed = old(self)@.free_page_list.push(page_id);
        assert(self.free_page_list@ =~= pushed.skip(0));
        while self.free_page_list.len() > MAX_FREE_PAGES
            invariant
                self.free_page_list.len() == self.free_page_num <= 101,
                pushed.len() <= 101,
                pushed == old(self)@.free_page_list.push(page_id),
                self.free_page_list.len() <= pushed.len(),
                self.free_page_list.len() >= 100 || self.free_page_list.len() == pushed.len(),
                self.free_page_list@ == pushed.skip(pushed.len() - self.free_page_list.len()),
                self@.file == old(self)@.page_written(page_id, zeroes@).file,
                self@.name == old(self)@.name,
                self@.pk_column == old(self)@.pk_column,
                self@.column_number == old(self)@.column_number,
                self@.column_names == old(self)@.column_names,
                self@.column_types == old(self)@.column_types,
                self@.page_id_count == old(self)@.page_id_count,
                self@.root_node_offset == old(self)@.root_node_offset,
            decreases self.free_page_list.len(),
        {
            let ghost current = self.free_page_list@;
            let _ = self.free_page_list.remove(0);
            self.free_page_num = self.free_page_num - 1;
            assert(self.free_page_list@ =~= current.skip(1));
            assert(current.skip(1) =~= pushed.skip(pushed.len() - self.free_page_list.len()));
        }
        assert(self.free_page_list@ =~= freed(old(self)@.free_page_list, page_id));
        assert(self@.fields_ok());
        self.update_table();
        Ok(())
    }
}

/// A page that was freed is the next to be used again: after page `id` was
/// removed, the next page created gets `id`.
pub proof fn law_freed_page_is_reused(t: TableView, id: u32)
    requires
        t.wf(),
    ensures
        t.page_removed(id).next_id() == id,
        t.page_removed(id).free_page_list.len() > 0,
{
    let list = freed(t.free_page_list, id);
    assert(list.last() == id);
}


/// The first `n` columns of the header in `file`: their names, their types,
/// and the offset after them. Nothing where the file ends too early or a name
/// is not UTF-8.
pub open spec fn parse_columns(file: Seq<u8>, n: int) -> Option<(Seq<Seq<u8>>, Seq<u8>, int)>
    decreases n,
{
    if n <= 0 {
        Some((Seq::empty(), Seq::empty(), 35))
    } else {
        match parse_columns(file, n - 1) {
            None => None,
            Some((names, types, at)) => if at + 2 <= file.len() && at + 2 + file[at + 1]
                <= file.len() && valid_utf8(file.subrange(at + 2, at + 2 + file[at + 1])) {
                Some(
                    (
                        names.push(file.subrange(at + 2, at + 2 + file[at + 1])),
                        types.push(file[at]),
                        at + 2 + file[at + 1],
                    ),
                )
            } else {
                None
            },
        }
    }
}

/// The `n` page ids stored from `at` on.
pub open spec fn parse_ids(file: Seq<u8>, at: int, n: int) -> Seq<u32> {
    Seq::new(n as nat, |i: int| read_be32(file, at + 4 * i))
}

/// The table that the header in `file` describes. Nothing where the file ends
/// too early, a name is not UTF-8, the columns do not take the bytes that the
/// header says, or more than 100 free pages are listed.
pub open spec fn parse_header(name: Seq<char>, file: Seq<u8>) -> Option<TableView> {
    if file.len() < 35 {
        None
    } else {
        match parse_columns(file, file[34] as int) {
            None => None,
            Some((names, types, at)) => {
                if at != 35 + file[32] || at + 12 > file.len() {
                    None
                } else if read_be32(file, at + 8) > 100 || at + 12 + 4 * read_be32(file, at + 8)
                    > file.len() {
                    None
                } else {
                    Some(
                        TableView {
                            name,
                            pk_column: file[33],
                            column_number: file[32],
                            column_names: names,
                            column_types: types,
                            page_id_count: read_be32(file, at),
                            root_node_offset: read_be32(file, at + 4),
                            free_page_num: read_be32(file, at + 8),
                            free_page_list: parse_ids(file, at + 12, read_be32(file, at + 8) as int),
                            file,
                        },
                    )
                }
            },
        }
    }
}

proof fn lemma_parse_columns(file: Seq<u8>, n: int)
    requires
        0 <= n,
        35 <= file.len(),
        parse_columns(file, n) is Some,
    ensures
        parse_columns(file, n) matches Some((names, types, at)) && names.len() == n && types.len()
            == n && at == 35 + section_len(names, n) && at <= file.len() && columns_stored(
            names,
            types,
            n,
        ) == file.subrange(35, at) && (forall|i: int|
            0 <= i < n ==> valid_utf8(#[trigger] names[i])),
    decreases n,
{
    if n > 0 {
        lemma_parse_columns(file, n - 1);
        let (names0, types0, at0) = parse_columns(file, n - 1)->0;
        let (names, types, at) = parse_columns(file, n)->0;
        lemma_section_len_same(names0, names, n - 1);
        lemma_columns_stored_same(names0, types0, names, types, n - 1);
        lemma_section_len_nonneg(names0, n - 1);
        assert(columns_stored(names, types, n) =~= file.subrange(35, at));
    } else {
        assert(columns_stored(Seq::empty(), Seq::empty(), 0) =~= file.subrange(35, 35));
    }
}

proof fn lemma_section_len_same(a: Seq<Seq<u8>>, b: Seq<Seq<u8>>, n: int)
    requires
        0 <= n <= a.len(),
        n <= b.len(),
        forall|i: int| 0 <= i < n ==> a[i] == b[i],
    ensures
        section_len(a, n) == section_len(b, n),
    decreases n,
{
    if n > 0 {
        lemma_section_len_same(a, b, n - 1);
    }
}

proof fn lemma_columns_stored_same(
    a: Seq<Seq<u8>>,
    ta: Seq<u8>,
    b: Seq<Seq<u8>>,
    tb: Seq<u8>,
    n: int,
)
    requires
        0 <= n <= a.len(),
        n <= b.len(),
        n <= ta.len(),
        n <= tb.len(),
        forall|i: int| 0 <= i < n ==> a[i] == b[i] && ta[i] == tb[i],
    ensures
        columns_stored(a, ta, n) == columns_stored(b, tb, n),
    decreases n,
{
    if n > 0 {
        lemma_columns_stored_same(a, ta, b, tb, n - 1);
    }
}

proof fn lemma_parse_columns_fails(file: Seq<u8>, n: int, m: int)
    requires
        0 <= n <= m,
        parse_columns(file, n) is None,
    ensures
        parse_columns(file, m) is None,
    decreases m - n,
{
    if n < m {
        lemma_parse_columns_fails(file, n + 1, m);
    }
}

proof fn lemma_parse_ids(file: Seq<u8>, at: int, n: int)
    requires
        0 <= at,
        0 <= n,
        at + 4 * n <= file.len(),
    ensures
        ids_stored(parse_ids(file, at, n)) == file.subrange(at, at + 4 * n),
    decreases n,
{
    if n > 0 {
        lemma_parse_ids(file, at, n - 1);
        let ids = parse_ids(file, at, n);
        assert(ids.drop_last() =~= parse_ids(file, at, n - 1));
        let p = at + 4 * (n - 1);
        lemma_from_be32_round_trip(file[p], file[p + 1], file[p + 2], file[p + 3]);
        assert(ids.last() == read_be32(file, p));
        assert(ids_stored(ids) =~= file.subrange(at, at + 4 * n));
    } else {
        assert(ids_stored(parse_ids(file, at, 0)) =~= file.subrange(at, at));
    }
}

/// A header that could be read agrees with the file that it was read from.
#[verifier::rlimit(50)]
pub proof fn lemma_parsed_header_wf(name: Seq<char>, file: Seq<u8>)
    requires
        parse_header(name, file) is Some,
    ensures
        parse_header(name, file)->0.wf(),
{
    let t = parse_header(name, file)->0;
    let n = file[34] as int;
    lemma_parse_columns(file, n);
    let (names, types, at) = parse_columns(file, n)->0;
    let free = read_be32(file, at + 8) as int;
    lemma_parse_ids(file, at + 12, free);
    lemma_from_be32_round_trip(file[at], file[at + 1], file[at + 2], file[at + 3]);
    lemma_from_be32_round_trip(file[at + 4], file[at + 5], file[at + 6], file[at + 7]);
    lemma_from_be32_round_trip(file[at + 8], file[at + 9], file[at + 10], file[at + 11]);
    lemma_header_len(t);
    assert(file.subrange(32, 32 + t.header_stored().len() as int) =~= t.header_stored()) by {
        let h = t.header_stored();
        let cols = columns_stored(names, types, n);
        let ids = ids_stored(t.free_page_list);
        assert(cols.len() == at - 35);
        assert forall|k: int| 0 <= k < h.len() implies file[32 + k] == h[k] by {
            if k < 3 {
            } else if k < 3 + cols.len() {
                assert(h[k] == cols[k - 3]);
                assert(cols[k - 3] == file.subrange(35, at)[k - 3]);
            } else if k < 15 + cols.len() {
            } else {
                assert(h[k] == ids[k - 15 - cols.len()]);
                assert(ids[k - 15 - cols.len()] == file.subrange(at + 12, at + 12 + 4 * free)[k - 15
                    - cols.len()]);
            }
        }
    }
}

/// Columns that are stored in the file from byte 35 on are read from there.
proof fn lemma_stored_columns(file: Seq<u8>, names: Seq<Seq<u8>>, types: Seq<u8>, n: int)
    requires
        0 <= n <= names.len(),
        names.len() == types.len(),
        forall|i: int|
            0 <= i < names.len() ==> (#[trigger] names[i]).len() <= 255 && valid_utf8(names[i]),
        35 + section_len(names, n) <= file.len(),
        file.subrange(35, 35 + section_len(names, n)) == columns_stored(names, types, n),
    ensures
        parse_columns(file, n) == Some((names.take(n), types.take(n), 35 + section_len(names, n))),
    decreases n,
{
    if n > 0 {
        lemma_section_len_nonneg(names, n - 1);
        lemma_columns_stored_len(names, types, n - 1);
        lemma_columns_stored_len(names, types, n);
        let at = 35 + section_len(names, n - 1);
        let end = 35 + section_len(names, n);
        let whole = columns_stored(names, types, n);
        let part = columns_stored(names, types, n - 1);
        let name = names[n - 1];
        assert forall|k: int| 0 <= k < whole.len() implies file[35 + k] == whole[k] by {
            assert(file.subrange(35, end)[k] == whole[k]);
        }
        assert(file.subrange(35, at) =~= part) by {
            assert forall|k: int| 0 <= k < part.len() implies file[35 + k] == part[k] by {
                assert(whole[k] == part[k]);
            }
        }
        lemma_stored_columns(file, names, types, n - 1);
        assert(file[at] == types[n - 1]) by {
            assert(whole[at - 35] == types[n - 1]);
        }
        assert(file[at + 1] == name.len()) by {
            assert(whole[at - 35 + 1] == name.len() as u8);
        }
        assert(file.subrange(at + 2, at + 2 + name.len()) =~= name) by {
            assert forall|k: int| 0 <= k < name.len() implies file[at + 2 + k] == name[k] by {
                assert(whole[at - 35 + 2 + k] == name[k]);
            }
        }
        assert(names.take(n) =~= names.take(n - 1).push(name));
        assert(types.take(n) =~= types.take(n - 1).push(types[n - 1]));
    } else {
        assert(names.take(0) =~= Seq::<Seq<u8>>::empty());
        assert(types.take(0) =~= Seq::<u8>::empty());
    }
}

/// Where a page id stands among the page ids as stored.
proof fn lemma_ids_stored_index(ids: Seq<u32>, i: int)
    requires
        0 <= i < ids.len(),
    ensures
        ids_stored(ids).len() == 4 * ids.len(),
        ids_stored(ids).subrange(4 * i, 4 * i + 4) == be32(ids[i]),
    decreases ids.len(),
{
    lemma_ids_stored_len(ids);
    lemma_ids_stored_len(ids.drop_last());
    if i < ids.len() - 1 {
        lemma_ids_stored_index(ids.drop_last(), i);
        assert(ids_stored(ids).subrange(4 * i, 4 * i + 4) =~= ids_stored(ids.drop_last()).subrange(
            4 * i,
            4 * i + 4,
        ));
    } else {
        assert(ids_stored(ids).subrange(4 * i, 4 * i + 4) =~= be32(ids.last()));
    }
}

/// A table is read back from its file: the header of a table whose fields
/// agree with each other and with its file spells that table.
#[verifier::rlimit(50)]
pub proof fn law_header_reads_back(table: TableView)
    requires
        table.wf(),
    ensures
        parse_header(table.name, table.file) == Some(table),
{
    let file = table.file;
    let names = table.column_names;
    let types = table.column_types;
    let list = table.free_page_list;
    let n = names.len() as int;
    lemma_schema_bounds(names, types);
    lemma_header_len(table);
    lemma_columns_stored_len(names, types, n);
    lemma_ids_stored_len(list);
    let h = table.header_stored();
    let cols = columns_stored(names, types, n);
    let width = cols.len() as int;
    let ids = ids_stored(list);
    let at = 35 + table.column_number;
    assert forall|k: int| 0 <= k < h.len() implies file[32 + k] == h[k] by {
        assert(file.subrange(32, 32 + h.len() as int)[k] == h[k]);
    }
    assert(file[32] == h[0] && file[33] == h[1] && file[34] == h[2]);
    assert(file.subrange(35, 35 + section_len(names, n)) =~= cols) by {
        assert forall|k: int| 0 <= k < cols.len() implies file[35 + k] == cols[k] by {
            assert(h[3 + k] == cols[k]);
        }
    }
    lemma_stored_columns(file, names, types, n);
    assert(names.take(n) =~= names);
    assert(types.take(n) =~= types);
    lemma_be32_round_trip(table.page_id_count);
    lemma_be32_round_trip(table.root_node_offset);
    lemma_be32_round_trip(table.free_page_num);
    assert(read_be32(file, at) == table.page_id_count) by {
        assert(h[3 + width + 0] == be32(table.page_id_count)[0]);
        assert(h[3 + width + 1] == be32(table.page_id_count)[1]);
        assert(h[3 + width + 2] == be32(table.page_id_count)[2]);
        assert(h[3 + width + 3] == be32(table.page_id_count)[3]);
    }
    assert(read_be32(file, at + 4) == table.root_node_offset) by {
        assert(h[7 + width + 0] == be32(table.root_node_offset)[0]);
        assert(h[7 + width + 1] == be32(table.root_node_offset)[1]);
        assert(h[7 + width + 2] == be32(table.root_node_offset)[2]);
        assert(h[7 + width + 3] == be32(table.root_node_offset)[3]);
    }
    assert(read_be32(file, at + 8) == table.free_page_num) by {
        assert(h[11 + width + 0] == be32(table.free_page_num)[0]);
        assert(h[11 + width + 1] == be32(table.free_page_num)[1]);
        assert(h[11 + width + 2] == be32(table.free_page_num)[2]);
        assert(h[11 + width + 3] == be32(table.free_page_num)[3]);
    }
    assert(parse_ids(file, at + 12, table.free_page_num as int) =~= list) by {
        assert forall|i: int| 0 <= i < list.len() implies read_be32(file, at + 12 + 4 * i)
            == #[trigger] list[i] by {
            lemma_ids_stored_index(list, i);
            lemma_be32_round_trip(list[i]);
            let four = ids.subrange(4 * i, 4 * i + 4);
            assert(h[15 + width + 4 * i + 0] == ids[4 * i + 0] == four[0]);
            assert(h[15 + width + 4 * i + 1] == ids[4 * i + 1] == four[1]);
            assert(h[15 + width + 4 * i + 2] == ids[4 * i + 2] == four[2]);
            assert(h[15 + width + 4 * i + 3] == ids[4 * i + 3] == four[3]);
        }
    }
}

impl Table {
    /// A new table with one empty leaf page, page 0, in a file of its own:
    /// 32 reserved bytes, the header, and the page where the pages start.
    /// `exists` says whether a file of that name is there already: then the
    /// table is refused and nothing is made. A schema that no header can hold
    /// is refused too.
    #[verifier::rlimit(50)]
    pub fn new(
        table_name: &str,
        pk_index: u8,
        field_names: Vec<String>,
        field_types: Vec<u8>,
        exists: bool,
    ) -> (made: Result<Table, StorageError>)
        ensures
            match made {
                Ok(table) => !exists && schema_ok(names_view(field_names@), field_types@) && table@
                    == TableView::blank(
                    table_name@,
                    pk_index,
                    names_view(field_names@),
                    field_types@,
                ).header_written().page_created(image(PageView::empty_leaf())) && table@.wf(),
                Err(e) => if exists {
                    e == StorageError::TableExists
                } else {
                    !schema_ok(names_view(field_names@), field_types@) && e
                        == StorageError::BadSchema
                },
            },
    {
        if exists {
            return Err(StorageError::TableExists);
        }
        let column_number: u8 = match schema_size(&field_names, &field_types) {
            None => {
                return Err(StorageError::BadSchema);
            },
            Some(n) => n,
        };
        let mut file: Vec<u8> = Vec::new();
        file.resize(HEADER_START, 0u8);
        assert(file@ =~= Seq::new(32, |i: int| 0u8));
        proof {
            assert forall|i: int| 0 <= i < field_names@.len() implies valid_utf8(
                #[trigger] names_view(field_names@)[i],
            ) by {
                encode_utf8_valid_utf8(field_names@[i]@);
            }
        }
        let mut table = Table {
            name: table_name.to_owned(),
            pk_column: pk_index,
            column_number,
            column_names: field_names,
            column_types: field_types,
            page_id_count: 0,
            root_node_offset: 0,
            free_page_num: 0,
            free_page_list: Vec::new(),
            file,
        };
        assert(table@ == TableView::blank(
            table_name@,
            pk_index,
            names_view(field_names@),
            field_types@,
        ));
        table.update_table();
        let leaf: Page = Page::new_leaf();
        match leaf.page_to_buff() {
            Err(_) => Err(StorageError::BadSchema),
            Ok(buffer) => {
                match table.create_page(buffer) {
                    Err(_) => Err(StorageError::BadSchema),
                    Ok(_) => Ok(table),
                }
            },
        }
    }

    /// The table whose file holds the bytes `file`. A file whose header cannot
    /// be read is refused.
    #[verifier::rlimit(50)]
    pub fn read_table(table_name: &str, file: Vec<u8>) -> (read: Result<Table, StorageError>)
        ensures
            match read {
                Ok(table) => parse_header(table_name@, file@) == Some(table@) && table@.wf(),
                Err(e) => parse_header(table_name@, file@) is None && e == StorageError::Corrupt,
            },
    {
        if file.len() < 35 {
            return Err(StorageError::Corrupt);
        }
        let column_number: u8 = file[32];
        let pk_column: u8 = file[33];
        let count: usize = file[34] as usize;
        let mut column_names: Vec<String> = Vec::new();
        let mut column_types: Vec<u8> = Vec::new();
        let mut at: usize = 35;
        let mut i: usize = 0;
        assert(names_view(column_names@) =~= Seq::empty());
        assert(column_types@ =~= Seq::empty());
        while i < count
            invariant
                i <= count == file@[34],
                35 <= file.len(),
                at <= file.len(),
                parse_columns(file@, i as int) == Some(
                    (names_view(column_names@), column_types@, at as int),
                ),
            decreases count - i,
        {
            let ghost seen = names_view(column_names@);
            if file.len() - at < 2 {
                proof {
                    lemma_parse_columns_fails(file@, i + 1, count as int);
                }
                return Err(StorageError::Corrupt);
            }
            let len: usize = file[at + 1] as usize;
            if file.len() - at - 2 < len {
                proof {
                    lemma_parse_columns_fails(file@, i + 1, count as int);
                }
                return Err(StorageError::Corrupt);
            }
            let bytes: Vec<u8> = copy_range(file.as_slice(), at + 2, at + 2 + len);
            match text_from_bytes(bytes) {
                None => {
                    proof {
                        lemma_parse_columns_fails(file@, i + 1, count as int);
                    }
                    return Err(StorageError::Corrupt);
                },
                Some(name) => {
                    column_types.push(file[at]);
                    column_names.push(name);
                    assert(names_view(column_names@) =~= seen.push(
                        file@.subrange(at + 2, at + 2 + len),
                    ));
                    at = at + 2 + len;
                },
            }
            i += 1;
        }
        if at != 35 + column_number as usize || file.len() - at < 12 {
            return Err(StorageError::Corrupt);
        }
        let page_id_count: u32 = bytes_to_u32(file.as_slice(), at);
        let root_node_offset: u32 = bytes_to_u32(file.as_slice(), at + 4);
        let free_page_num: u32 = bytes_to_u32(file.as_slice(), at + 8);
        if free_page_num > 100 || file.len() - at - 12 < 4 * free_page_num as usize {
            return Err(StorageError::Corrupt);
        }
        let mut free_page_list: Vec<u32> = Vec::new();
        let mut k: usize = 0;
        while k < free_page_num as usize
            invariant
                k <= free_page_num <= 100,
                at + 12 + 4 * free_page_num <= file.len(),
                free_page_list@ == parse_ids(file@, at + 12, k as int),
            decreases free_page_num - k,
        {
            free_page_list.push(bytes_to_u32(file.as_slice(), at + 12 + 4 * k));
            assert(free_page_list@ =~= parse_ids(file@, at + 12, k + 1));
            k += 1;
        }
        let table = Table {
            name: table_name.to_owned(),
            pk_column,
            column_number,
            column_names,
            column_types,
            page_id_count,
            root_node_offset,
            free_page_num,
            free_page_list,
            file,
        };
        proof {
            assert(parse_header(table_name@, file@) == Some(table@));
            lemma_parsed_header_wf(table_name@, file@);
        }
        Ok(table)
    }
}

impl TableView {
    /// A table of no pages whose file is the 32 reserved bytes.
    pub open spec fn blank(
        name: Seq<char>,
        pk_column: u8,
        column_names: Seq<Seq<u8>>,
        column_types: Seq<u8>,
    ) -> TableView {
        TableView {
            name,
            pk_column,
            column_number: section_len(column_names, column_names.len() as int) as u8,
            column_names,
            column_types,
            page_id_count: 0,
            root_node_offset: 0,
            free_page_num: 0,
            free_page_list: Seq::empty(),
            file: Seq::new(32, |i: int| 0u8),
        }
    }
}


/// Writing a page changes the bytes of that page and of no other.
pub proof fn lemma_page_written_pages(t: TableView, id: u32, buf: Seq<u8>)
    requires
        buf.len() == 4096,
    ensures
        t.page_written(id, buf).page_at(id) == buf,
        forall|other: u32|
            other != id ==> #[trigger] t.page_written(id, buf).page_at(other) == t.page_at(other),
{
    let after = t.page_written(id, buf);
    assert(after.page_at(id) =~= buf);
    assert forall|other: u32| other != id implies #[trigger] after.page_at(other) == t.page_at(
        other,
    ) by {
        assert(after.page_at(other) =~= t.page_at(other));
    }
}

/// Creating a page stores its bytes under the next id and changes no other
/// page and nothing of the schema.
pub proof fn lemma_page_created(t: TableView, buf: Seq<u8>)
    requires
        t.wf(),
        buf.len() == 4096,
        t.can_create(),
    ensures
        t.page_created(buf).wf(),
        t.page_created(buf).page_at(t.next_id()) == buf,
        forall|other: u32|
            other != t.next_id() ==> #[trigger] t.page_created(buf).page_at(other) == t.page_at(other),
        t.page_created(buf).column_types == t.column_types,
        t.page_created(buf).column_number == t.column_number,
        t.page_created(buf).column_names == t.column_names,
{
    let id = t.next_id();
    let counted = if t.free_page_list.len() > 0 {
        TableView {
            free_page_list: t.free_page_list.drop_last(),
            free_page_num: (t.free_page_num - 1) as u32,
            ..t
        }
    } else {
        TableView { page_id_count: (t.page_id_count + 1) as u32, ..t }
    };
    let wrote = counted.page_written(id, buf);
    assert(wrote.fields_ok());
    lemma_header_written_wf(wrote);
    lemma_page_written_pages(counted, id, buf);
    assert forall|other: u32| true implies #[trigger] t.page_created(buf).page_at(other)
        == wrote.page_at(other) by {
        lemma_header_written_pages(wrote, other);
    }
    assert forall|other: u32| #[trigger] counted.page_at(other) == t.page_at(other) by {}
}

/// Freeing a page zeroes it and changes no other page and nothing of the
/// schema.
pub proof fn lemma_page_removed(t: TableView, id: u32)
    requires
        t.wf(),
    ensures
        t.page_removed(id).wf(),
        t.page_removed(id).page_at(id) == Seq::new(4096, |i: int| 0u8),
        forall|other: u32|
            other != id ==> #[trigger] t.page_removed(id).page_at(other) == t.page_at(other),
        t.page_removed(id).column_types == t.column_types,
        t.page_removed(id).column_number == t.column_number,
        t.page_removed(id).column_names == t.column_names,
{
    let list = freed(t.free_page_list, id);
    let zeroes = Seq::new(4096, |i: int| 0u8);
    let zeroed = t.page_written(id, zeroes);
    let listed = TableView { free_page_list: list, free_page_num: list.len() as u32, ..zeroed };
    assert(listed.fields_ok());
    lemma_header_written_wf(listed);
    lemma_page_written_pages(t, id, zeroes);
    assert forall|other: u32| #[trigger] listed.page_at(other) == zeroed.page_at(other) by {}
    assert forall|other: u32| true implies #[trigger] t.page_removed(id).page_at(other)
        == listed.page_at(other) by {
        lemma_header_written_pages(listed, other);
    }
}

impl Table {
    /// The id that the next new page gets.
    pub fn next_page_id(&self) -> (id: u32)
        ensures
            id == self@.next_id(),
    {
        if self.free_page_list.len() > 0 {
            self.free_page_list[self.free_page_list.len() - 1]
        } else {
            self.page_id_count
        }
    }

    /// Whether a page can be created.
    pub fn can_create_page(&self) -> (ok: bool)
        ensures
            ok == self@.can_create(),
    {
        let id: u32 = self.next_page_id();
        self.page_start(id).is_some() && (self.free_page_list.len() > 0 || self.page_id_count
            < u32::MAX)
    }
}

} // verus!
