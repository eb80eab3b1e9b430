//! The 4096-byte form of a page: how a page is written, how bytes are read as a
//! page, and that reading gives back what was written.

use vstd::prelude::*;
use std::collections::HashMap;
use vstd::utf8::encode_utf8;
use vstd::utf8::valid_utf8;
use crate::bytes::be16;
use crate::bytes::read_be16;
use crate::bytes::read_be32;
use crate::bytes::write_at;
use crate::bytes::lemma_write_at_frame;
use crate::bytes::lemma_write_at_read;
use crate::bytes::lemma_be16_round_trip;
use crate::bytes::lemma_be32_round_trip;
use crate::bytes::u16_to_bytes;
use crate::bytes::u32_to_bytes;
use crate::bytes::bytes_to_u16;
use crate::bytes::bytes_to_u32;
use crate::bytes::copy_range;
use crate::error::StorageError;
use crate::value::Value;
use crate::value::ValueView;
use crate::value::values_view;
use crate::value::row_len;
use crate::value::row_stored;
use crate::value::row_wf;
use crate::value::lemma_row_push;
use crate::value::lemma_row_stored_len;
use crate::pages::Page;
use crate::pages::PageView;
use crate::pages::NodeType;
use crate::pages::Slot;
use crate::pages::SlotView;
use crate::pages::Rows;
use crate::pages::RowsView;
use crate::pages::slots_view;
use crate::pages::slots_len;
use crate::pages::lowest_pointer;
use crate::pages::row_size;
use crate::pages::values_wf;
use crate::pages::lemma_slots_len_push;
use crate::pages::lemma_slots_len_bounds;
use crate::pages::lemma_row_len_nonneg;

verus! {

/// A slot as stored: the key, then the cell offset in two bytes.
pub open spec fn slot_stored(slot: SlotView) -> Seq<u8> {
    slot.key.stored() + be16(slot.pointer)
}

/// The slot directory as stored: the slots one after another.
pub open spec fn dir_stored(slots: Seq<SlotView>) -> Seq<u8>
    decreases slots.len(),
{
    if slots.len() == 0 {
        Seq::empty()
    } else {
        dir_stored(slots.drop_last()) + slot_stored(slots.last())
    }
}

/// A cell as stored: the byte count of the values, then the values.
pub open spec fn cell_stored(rows: RowsView) -> Seq<u8> {
    seq![rows.size] + row_stored(rows.values)
}

/// The key-kind flag of a page: 1 where the last slot holds a text, else 0.
pub open spec fn kind_flag(slots: Seq<SlotView>) -> u8 {
    if slots.len() > 0 && slots.last().key.is_text() {
        1
    } else {
        0
    }
}

/// The five bytes in front of the slot directory: node type, the lowest cell
/// offset, key kind, slot count.
pub open spec fn head_stored(page: PageView) -> Seq<u8> {
    seq![if page.leaf { 1u8 } else { 0u8 }] + be16(lowest_pointer(page.slots)) + seq![
        kind_flag(page.slots),
        page.slots.len() as u8,
    ]
}

/// 4096 zero bytes.
pub open spec fn blank() -> Seq<u8> {
    Seq::new(4096, |i: int| 0u8)
}

/// The page's bytes with the head, the slot directory and the first `n` cells
/// in place, and zero everywhere else.
pub open spec fn image_upto(page: PageView, n: int) -> Seq<u8>
    decreases n,
{
    if n <= 0 {
        write_at(write_at(blank(), 0, head_stored(page)), 5, dir_stored(page.slots))
    } else {
        write_at(
            image_upto(page, n - 1),
            page.slots[n - 1].pointer as int,
            cell_stored(page.row(n - 1)),
        )
    }
}

/// The 4096 bytes of a page: head at 0, slot directory at 5, each cell at its
/// slot's offset, zero everywhere else.
pub open spec fn image(page: PageView) -> Seq<u8> {
    image_upto(page, page.slots.len() as int)
}

pub proof fn lemma_dir_stored_push(slots: Seq<SlotView>, s: SlotView)
    ensures
        dir_stored(slots.push(s)) == dir_stored(slots) + slot_stored(s),
{
    assert(slots.push(s).drop_last() =~= slots);
}

pub proof fn lemma_dir_stored_len(slots: Seq<SlotView>)
    requires
        forall|i: int| 0 <= i < slots.len() ==> (#[trigger] slots[i]).key.wf(),
    ensures
        dir_stored(slots).len() == slots_len(slots),
    decreases slots.len(),
{
    if slots.len() > 0 {
        let rest = slots.drop_last();
        assert forall|i: int| 0 <= i < rest.len() implies (#[trigger] rest[i]).key.wf() by {
            assert(rest[i] == slots[i]);
        }
        lemma_dir_stored_len(rest);
        assert(slots.last() == slots[slots.len() - 1]);
    }
}

/// Two writes side by side are one write of the two pieces joined.
pub proof fn lemma_write_at_concat(s: Seq<u8>, at: int, a: Seq<u8>, b: Seq<u8>)
    requires
        0 <= at,
    ensures
        write_at(write_at(s, at, a), at + a.len(), b) == write_at(s, at, a + b),
{
    assert(write_at(write_at(s, at, a), at + a.len(), b) =~= write_at(s, at, a + b));
}

/// Writes `data` into `buffer` from `at` on.
pub fn put(buffer: &mut [u8; 4096], at: usize, data: &[u8])
    requires
        at + data@.len() <= 4096,
    ensures
        final(buffer)@ == write_at(old(buffer)@, at as int, data@),
{
    let mut i: usize = 0;
    assert(buffer@ =~= write_at(old(buffer)@, at as int, data@.take(0)));
    while i < data.len()
        invariant
            i <= data@.len(),
            at + data@.len() <= 4096,
            buffer@ == write_at(old(buffer)@, at as int, data@.take(i as int)),
        decreases data@.len() - i,
    {
        let ghost before = buffer@;
        buffer[at + i] = data[i];
        assert(buffer@ =~= write_at(old(buffer)@, at as int, data@.take(i + 1)));
        i += 1;
    }
    assert(data@.take(i as int) =~= data@);
}

/// Writes `value` as stored into `buffer` from `at` on; returns the next offset.
pub fn put_value(buffer: &mut [u8; 4096], at: usize, value: &Value) -> (next: usize)
    requires
        value@.wf(),
        at + value@.stored_len() <= 4096,
    ensures
        final(buffer)@ == write_at(old(buffer)@, at as int, value@.stored()),
        next == at + value@.stored_len(),
{
    match value {
        Value::Number(x) => {
            let bytes: [u8; 4] = u32_to_bytes(*x);
            put(buffer, at, bytes.as_slice());
            at + 4
        },
        Value::String(len, text) => {
            let tag: [u8; 1] = [*len];
            put(buffer, at, tag.as_slice());
            put(buffer, at + 1, text.as_str().as_bytes());
            proof {
                assert(tag@ =~= seq![*len]);
                lemma_write_at_concat(old(buffer)@, at as int, tag@, encode_utf8(text@));
            }
            at + 1 + *len as usize
        },
    }
}


pub proof fn lemma_slots_len_take(slots: Seq<SlotView>, n: int)
    requires
        0 <= n <= slots.len(),
    ensures
        0 <= slots_len(slots.take(n)) <= slots_len(slots),
    decreases slots.len() - n,
{
    lemma_slots_len_bounds(slots.take(n));
    if n == slots.len() {
        assert(slots.take(n) =~= slots);
    } else {
        lemma_slots_len_take(slots, n + 1);
        assert(slots.take(n + 1).drop_last() =~= slots.take(n));
    }
}

/// Writes a cell as stored into `buffer` from `at` on.
pub fn put_cell(buffer: &mut [u8; 4096], at: usize, rows: &Rows)
    requires
        row_wf(rows@.values),
        rows@.size == row_len(rows@.values),
        at + 1 + rows@.size <= 4096,
    ensures
        final(buffer)@ == write_at(old(buffer)@, at as int, cell_stored(rows@)),
{
    let ghost all = rows@.values;
    let tag: [u8; 1] = [rows.size];
    put(buffer, at, tag.as_slice());
    assert(tag@ =~= seq![rows.size]);
    assert(seq![rows.size] + row_stored(all.take(0)) =~= seq![rows.size]);
    let mut next: usize = at + 1;
    let mut k: usize = 0;
    while k < rows.values.len()
        invariant
            k <= rows.values.len(),
            all == values_view(rows.values@),
            row_wf(all),
            rows@.size == row_len(all),
            at + 1 + rows@.size <= 4096,
            next == at + 1 + row_len(all.take(k as int)),
            buffer@ == write_at(
                old(buffer)@,
                at as int,
                seq![rows.size] + row_stored(all.take(k as int)),
            ),
        decreases rows.values.len() - k,
    {
        proof {
            assert(all.take(k + 1) =~= all.take(k as int).push(all[k as int]));
            lemma_row_push(all.take(k as int), all[k as int]);
            crate::pages::lemma_row_len_grows(all, k + 1);
            assert forall|j: int| 0 <= j < k implies (#[trigger] all.take(k as int)[j]).wf() by {
                assert(all.take(k as int)[j] == all[j]);
            }
            lemma_row_stored_len(all.take(k as int));
            lemma_write_at_concat(
                old(buffer)@,
                at as int,
                seq![rows.size] + row_stored(all.take(k as int)),
                all[k as int].stored(),
            );
            assert((seq![rows.size] + row_stored(all.take(k as int))) + all[k as int].stored()
                =~= seq![rows.size] + row_stored(all.take(k + 1)));
        }
        next = put_value(buffer, next, &rows.values[k]);
        k += 1;
    }
    assert(all.take(k as int) =~= all);
}

impl Page {
    /// Whether slot `i` has a sound key and a sound cell inside the page, at
    /// or above `floor`.
    pub fn slot_is_ok(&self, i: usize, floor: u16) -> (ok: bool)
        requires
            i < self.slots.len(),
        ensures
            ok == self@.with_floor(floor).slot_ok(i as int),
    {
        let slot: &Slot = &self.slots[i];
        assert(self@.slots[i as int] == slot@);
        assert(self@.slots[0] == self.slots[0]@);
        if !slot.value.is_wf() || slot.value.is_text() != self.slots[0].value.is_text() {
            return false;
        }
        match self.cells.get(&slot.pointer) {
            None => false,
            Some(rows) => {
                assert(self@.row(i as int) == rows@);
                proof {
                    lemma_row_len_nonneg(rows@.values);
                }
                if !values_wf(&rows.values) {
                    return false;
                }
                match row_size(&rows.values) {
                    None => {
                        return false;
                    },
                    Some(size) => {
                        if size != rows.size {
                            return false;
                        }
                    },
                }
                assert(rows@.values.len() == rows.values.len());
                assert(rows.values.len() > 0 ==> rows@.values[0] == rows.values[0]@);
                if !self.is_leaf() && !(rows.values.len() == 1 && rows.values[0].pointer().is_some()) {
                    return false;
                }
                floor <= slot.pointer && slot.pointer as usize + 1 + rows.size as usize <= 4096
            },
        }
    }

    /// Whether the cells of slots `i` and `j` share no byte.
    pub fn cells_apart(&self, i: usize, j: usize) -> (ok: bool)
        requires
            i < self.slots.len(),
            j < self.slots.len(),
            self@.cells.contains_key(self@.slots[i as int].pointer),
            self@.cells.contains_key(self@.slots[j as int].pointer),
        ensures
            ok == self@.apart(i as int, j as int),
    {
        let a: usize = self.slots[i].pointer as usize;
        let b: usize = self.slots[j].pointer as usize;
        assert(self@.slots[i as int] == self.slots[i as int]@);
        assert(self@.slots[j as int] == self.slots[j as int]@);
        let size_a: usize = match self.cells.get(&self.slots[i].pointer) {
            Some(rows) => rows.size as usize,
            None => 0,
        };
        let size_b: usize = match self.cells.get(&self.slots[j].pointer) {
            Some(rows) => rows.size as usize,
            None => 0,
        };
        a + 1 + size_a <= b || b + 1 + size_b <= a
    }

    /// Whether the page keeps the page layout with `floor` as its free-space
    /// pointer.
    #[verifier::rlimit(50)]
    pub fn keeps_layout(&self, floor: u16) -> (ok: bool)
        ensures
            ok == self@.with_floor(floor).wf(),
    {
        let ghost page = self@.with_floor(floor);
        if self.slots.len() > 255 {
            return false;
        }
        let dir_end: usize = 5 + self.dir_len();
        if !(dir_end < floor as usize && floor <= 4095) {
            return false;
        }
        let mut i: usize = 0;
        while i < self.slots.len()
            invariant
                i <= self.slots.len(),
                page == self@.with_floor(floor),
                forall|k: int| 0 <= k < i ==> #[trigger] page.slot_ok(k),
            decreases self.slots.len() - i,
        {
            if !self.slot_is_ok(i, floor) {
                return false;
            }
            i += 1;
        }
        let mut j: usize = 0;
        while j < self.slots.len()
            invariant
                j <= self.slots.len(),
                page == self@.with_floor(floor),
                forall|k: int| 0 <= k < self.slots.len() ==> #[trigger] page.slot_ok(k),
                forall|k: int, l: int| 0 <= k < l < j ==> #[trigger] page.apart(k, l),
            decreases self.slots.len() - j,
        {
            let mut k: usize = 0;
            while k < j
                invariant
                    k <= j < self.slots.len(),
                    page == self@.with_floor(floor),
                    forall|m: int| 0 <= m < self.slots.len() ==> #[trigger] page.slot_ok(m),
                    forall|m: int, l: int| 0 <= m < l < j ==> #[trigger] page.apart(m, l),
                    forall|m: int| 0 <= m < k ==> #[trigger] page.apart(m, j as int),
                decreases j - k,
            {
                assert(page.slot_ok(k as int));
                assert(page.slot_ok(j as int));
                if !self.cells_apart(k, j) {
                    assert(!page.apart(k as int, j as int));
                    return false;
                }
                assert(page.apart(k as int, j as int));
                k += 1;
            }
            j += 1;
        }
        true
    }

    /// Whether the page keeps the page layout.
    pub fn is_wf(&self) -> (ok: bool)
        ensures
            ok == self@.wf(),
    {
        assert(self@.with_floor(self@.free_space_pointer) == self@);
        self.keeps_layout(self.free_space_pointer)
    }

    /// Whether the page can be written: whether it keeps the page layout once
    /// its free-space pointer is taken to be its lowest cell.
    pub fn is_writable(&self) -> (ok: bool)
        ensures
            ok == self@.writable(),
    {
        self.keeps_layout(self.lowest_pointer())
    }

    /// The smallest cell offset among the slots, or 4095 where none is below it.
    pub fn lowest_pointer(&self) -> (lowest: u16)
        ensures
            lowest == lowest_pointer(self@.slots),
    {
        let ghost all = self@.slots;
        let mut lowest: u16 = 4095;
        let mut i: usize = 0;
        while i < self.slots.len()
            invariant
                i <= self.slots.len(),
                all == slots_view(self.slots@),
                lowest == lowest_pointer(all.take(i as int)),
            decreases self.slots.len() - i,
        {
            assert(all.take(i + 1).drop_last() =~= all.take(i as int));
            if self.slots[i].pointer < lowest {
                lowest = self.slots[i].pointer;
            }
            i += 1;
        }
        assert(all.take(i as int) =~= all);
        lowest
    }

    /// The page as 4096 bytes, with its lowest cell as the free-space pointer
    /// in them, whatever the page's own free-space pointer says. A page that
    /// breaks the page layout with its free-space pointer there is refused: one
    /// whose cells meet the slot directory, leave the page or overlap, or
    /// whose keys or rows are not sound.
    pub fn page_to_buff(&self) -> (out: Result<[u8; 4096], StorageError>)
        ensures
            match out {
                Ok(buffer) => self@.writable() && buffer@ == image(self@),
                Err(e) => !self@.writable() && e == StorageError::BadPage,
            },
    {
        if !self.is_writable() {
            return Err(StorageError::BadPage);
        }
        Ok(self.to_buff())
    }

    /// The 4096 bytes of a page that can be written.
    #[verifier::rlimit(50)]
    pub fn to_buff(&self) -> (buffer: [u8; 4096])
        requires
            self@.writable(),
        ensures
            buffer@ == image(self@),
    {
        let ghost page = self@.levelled();
        proof {
            lemma_image_levelled(self@, self@.slots.len() as int);
        }
        let ghost all = page.slots;
        let count: usize = self.slots.len();
        let mut buffer: [u8; 4096] = [0u8; 4096];
        assert(buffer@ =~= blank());
        let lowest: [u8; 2] = u16_to_bytes(self.lowest_pointer());
        let kind: u8 = if count > 0 && self.slots[count - 1].value.is_text() {
            1
        } else {
            0
        };
        assert(count > 0 ==> all.last() == self.slots[count - 1]@);
        let head: [u8; 5] = [if self.is_leaf() { 1 } else { 0 }, lowest[0], lowest[1], kind, count as u8];
        assert(head@ =~= head_stored(page));
        put(&mut buffer, 0, head.as_slice());
        let ghost base = buffer@;
        let mut at: usize = 5;
        let mut i: usize = 0;
        assert(write_at(base, 5, dir_stored(all.take(0))) =~= base);
        while i < count
            invariant
                i <= count == self.slots.len(),
                page == self@.levelled(),
                all == page.slots,
                page.wf(),
                at == 5 + slots_len(all.take(i as int)),
                buffer@ == write_at(base, 5, dir_stored(all.take(i as int))),
            decreases count - i,
        {
            let slot: &Slot = &self.slots[i];
            proof {
                assert(all[i as int] == slot@);
                assert(page.slot_ok(i as int));
                assert(all.take(i + 1) =~= all.take(i as int).push(all[i as int]));
                lemma_slots_len_push(all.take(i as int), all[i as int]);
                lemma_dir_stored_push(all.take(i as int), all[i as int]);
                lemma_slots_len_take(all, i + 1);
                assert forall|k: int| 0 <= k < i implies (#[trigger] all.take(i as int)[k]).key.wf() by {
                    assert(page.slot_ok(k));
                    assert(all.take(i as int)[k] == all[k]);
                }
                lemma_dir_stored_len(all.take(i as int));
                lemma_slots_len_take(all, i as int);
            }
            let ghost before = buffer@;
            let next: usize = put_value(&mut buffer, at, &slot.value);
            let pointer: [u8; 2] = u16_to_bytes(slot.pointer);
            put(&mut buffer, next, pointer.as_slice());
            proof {
                let dir = dir_stored(all.take(i as int));
                lemma_write_at_concat(base, 5, dir, slot@.key.stored());
                lemma_write_at_concat(base, 5, dir + slot@.key.stored(), be16(slot.pointer));
                assert((dir + slot@.key.stored()) + be16(slot.pointer) =~= dir + slot_stored(slot@));
            }
            at = next + 2;
            i += 1;
        }
        assert(all.take(i as int) =~= all);
        assert(buffer@ == image_upto(page, 0));
        let mut n: usize = 0;
        while n < count
            invariant
                n <= count == self.slots.len(),
                page == self@.levelled(),
                page.wf(),
                buffer@ == image_upto(page, n as int),
            decreases count - n,
        {
            let slot: &Slot = &self.slots[n];
            assert(page.slots[n as int] == slot@);
            assert(page.slot_ok(n as int));
            match self.cells.get(&slot.pointer) {
                Some(rows) => {
                    assert(page.row(n as int) == rows@);
                    put_cell(&mut buffer, slot.pointer as usize, rows);
                },
                None => {},
            }
            n += 1;
        }
        buffer
    }
}


/// The value that the bytes from `at` on spell, and the offset after it; nothing
/// where the value would pass `limit`, or where a text is not UTF-8.
pub open spec fn parse_value(buf: Seq<u8>, at: int, limit: int, text: bool) -> Option<
    (ValueView, int),
> {
    if text {
        if at + 1 <= limit && at + 1 + buf[at] <= limit && valid_utf8(
            buf.subrange(at + 1, at + 1 + buf[at]),
        ) {
            Some(
                (
                    ValueView::String(buf[at], buf.subrange(at + 1, at + 1 + buf[at])),
                    at + 1 + buf[at],
                ),
            )
        } else {
            None
        }
    } else {
        if at + 4 <= limit {
            Some((ValueView::Number(read_be32(buf, at)), at + 4))
        } else {
            None
        }
    }
}

/// The first `n` slots of the directory that starts at byte 5, and the offset
/// after them.
pub open spec fn parse_slots(buf: Seq<u8>, text: bool, n: int) -> Option<(Seq<SlotView>, int)>
    decreases n,
{
    if n <= 0 {
        Some((Seq::empty(), 5))
    } else {
        match parse_slots(buf, text, n - 1) {
            None => None,
            Some((slots, at)) => match parse_value(buf, at, 4096, text) {
                None => None,
                Some((key, next)) => if next + 2 <= 4096 {
                    Some((slots.push(SlotView { key, pointer: read_be16(buf, next) }), next + 2))
                } else {
                    None
                },
            },
        }
    }
}

/// The values that the bytes from `start` on spell for the column types `types`
/// (2 a number, 7 a text, any other type no value), and the offset after them.
pub open spec fn parse_row(buf: Seq<u8>, start: int, limit: int, types: Seq<u8>) -> Option<
    (Seq<ValueView>, int),
>
    decreases types.len(),
{
    if types.len() == 0 {
        Some((Seq::empty(), start))
    } else {
        match parse_row(buf, start, limit, types.drop_last()) {
            None => None,
            Some((values, at)) => if types.last() == 2 || types.last() == 7 {
                match parse_value(buf, at, limit, types.last() == 7) {
                    None => None,
                    Some((value, next)) => Some((values.push(value), next)),
                }
            } else {
                Some((values, at))
            },
        }
    }
}

/// The cell at offset `pointer`: a size byte, then inside that many bytes one
/// page id (internal page) or one value per column (leaf page).
pub open spec fn parse_cell(buf: Seq<u8>, types: Seq<u8>, leaf: bool, pointer: u16) -> Option<
    RowsView,
> {
    if pointer >= 4096 || pointer + 1 + buf[pointer as int] > 4096 {
        None
    } else if leaf {
        match parse_row(buf, pointer + 1, pointer + 1 + buf[pointer as int], types) {
            None => None,
            Some((values, _)) => Some(RowsView { size: buf[pointer as int], values }),
        }
    } else {
        if buf[pointer as int] >= 4 {
            Some(
                RowsView {
                    size: buf[pointer as int],
                    values: seq![ValueView::Number(read_be32(buf, pointer + 1))],
                },
            )
        } else {
            None
        }
    }
}

/// The cells of the first `n` slots, under their offsets.
pub open spec fn parse_cells(
    buf: Seq<u8>,
    types: Seq<u8>,
    leaf: bool,
    slots: Seq<SlotView>,
    n: int,
) -> Option<Map<u16, RowsView>>
    decreases n,
{
    if n <= 0 {
        Some(Map::empty())
    } else {
        match parse_cells(buf, types, leaf, slots, n - 1) {
            None => None,
            Some(cells) => match parse_cell(buf, types, leaf, slots[n - 1].pointer) {
                None => None,
                Some(rows) => Some(cells.insert(slots[n - 1].pointer, rows)),
            },
        }
    }
}

/// The page that 4096 bytes spell, whatever its layout: node type at 0 (0 or
/// 1), free-space pointer at 1, key kind at 3, slot count at 4, slots from 5.
pub open spec fn parse_page(types: Seq<u8>, buf: Seq<u8>) -> Option<PageView> {
    if buf[0] > 1 {
        None
    } else {
        match parse_slots(buf, buf[3] == 1, buf[4] as int) {
            None => None,
            Some((slots, _)) => match parse_cells(buf, types, buf[0] == 1, slots, buf[4] as int) {
                None => None,
                Some(cells) => Some(
                    PageView {
                        leaf: buf[0] == 1,
                        free_space_pointer: read_be16(buf, 1),
                        slots,
                        cells,
                    },
                ),
            },
        }
    }
}

/// The page that 4096 bytes of the table file hold: what they spell, if that
/// keeps the page layout.
#[verifier::opaque]
pub open spec fn decode_page(types: Seq<u8>, buf: Seq<u8>) -> Option<PageView> {
    match parse_page(types, buf) {
        None => None,
        Some(page) => if page.wf() {
            Some(page)
        } else {
            None
        },
    }
}

/// `String::from_utf8` of std: the text that `bytes` spell in UTF-8, and nothing
/// where they are not UTF-8.
#[verifier::external_body]
pub(crate) fn text_from_bytes(bytes: Vec<u8>) -> (text: Option<String>)
    ensures
        text is Some <==> valid_utf8(bytes@),
        text matches Some(t) ==> encode_utf8(t@) == bytes@,
{
    match String::from_utf8(bytes) {
        Ok(text) => Some(text),
        Err(_) => None,
    }
}

/// Reads the value at `at`, which must end at or before `limit`.
pub fn take_value(buf: &[u8], at: usize, limit: usize, text: bool) -> (out: Option<(Value, usize)>)
    requires
        at <= limit <= buf@.len(),
    ensures
        match out {
            Some((value, next)) => parse_value(buf@, at as int, limit as int, text) == Some(
                (value@, next as int),
            ) && at < next <= limit,
            None => parse_value(buf@, at as int, limit as int, text) is None,
        },
{
    if text {
        if at >= limit {
            return None;
        }
        let len: u8 = buf[at];
        if limit - at - 1 < len as usize {
            return None;
        }
        let bytes: Vec<u8> = copy_range(buf, at + 1, at + 1 + len as usize);
        match text_from_bytes(bytes) {
            Some(t) => Some((Value::String(len, t), at + 1 + len as usize)),
            None => None,
        }
    } else {
        if limit - at < 4 {
            return None;
        }
        Some((Value::Number(bytes_to_u32(buf, at)), at + 4))
    }
}

/// Reads the values that the column types ask for, one per column of type 2
/// or 7, and gives the offset after them.
pub fn take_row(buf: &[u8], start: usize, limit: usize, types: &Vec<u8>) -> (out: Option<
    (Vec<Value>, usize),
>)
    requires
        start <= limit <= buf@.len(),
    ensures
        match out {
            Some((values, next)) => parse_row(buf@, start as int, limit as int, types@) == Some(
                (values_view(values@), next as int),
            ) && start <= next <= limit,
            None => parse_row(buf@, start as int, limit as int, types@) is None,
        },
{
    let mut values: Vec<Value> = Vec::new();
    let mut at: usize = start;
    let mut k: usize = 0;
    assert(values_view(values@) =~= Seq::empty());
    while k < types.len()
        invariant
            k <= types.len(),
            start <= at <= limit <= buf@.len(),
            parse_row(buf@, start as int, limit as int, types@.take(k as int)) == Some(
                (values_view(values@), at as int),
            ),
        decreases types.len() - k,
    {
        let ty: u8 = types[k];
        proof {
            assert(types@.take(k + 1).drop_last() =~= types@.take(k as int));
            assert(types@.take(k + 1).last() == ty);
        }
        if ty == 2 || ty == 7 {
            let ghost seen = values_view(values@);
            match take_value(buf, at, limit, ty == 7) {
                None => {
                    proof {
                        lemma_parse_row_fails(buf@, start as int, limit as int, types@, k + 1);
                    }
                    return None;
                },
                Some((value, next)) => {
                    values.push(value);
                    assert(values_view(values@) =~= seen.push(value@));
                    at = next;
                },
            }
        }
        k += 1;
    }
    assert(types@.take(k as int) =~= types@);
    Some((values, at))
}

/// A row that cannot be read up to some column cannot be read at all.
pub proof fn lemma_parse_row_fails(buf: Seq<u8>, start: int, limit: int, types: Seq<u8>, n: int)
    requires
        0 <= n <= types.len(),
        parse_row(buf, start, limit, types.take(n)) is None,
    ensures
        parse_row(buf, start, limit, types) is None,
    decreases types.len() - n,
{
    if n == types.len() {
        assert(types.take(n) =~= types);
    } else {
        assert(types.take(n + 1).drop_last() =~= types.take(n));
        lemma_parse_row_fails(buf, start, limit, types, n + 1);
    }
}

/// A directory that cannot be read up to some slot cannot be read further.
pub proof fn lemma_parse_slots_fails(buf: Seq<u8>, text: bool, n: int, m: int)
    requires
        0 <= n <= m,
        parse_slots(buf, text, n) is None,
    ensures
        parse_slots(buf, text, m) is None,
    decreases m - n,
{
    if n < m {
        lemma_parse_slots_fails(buf, text, n + 1, m);
    }
}

/// Cells that cannot be read up to some slot cannot be read further.
pub proof fn lemma_parse_cells_fails(
    buf: Seq<u8>,
    types: Seq<u8>,
    leaf: bool,
    slots: Seq<SlotView>,
    n: int,
    m: int,
)
    requires
        0 <= n <= m,
        parse_cells(buf, types, leaf, slots, n) is None,
    ensures
        parse_cells(buf, types, leaf, slots, m) is None,
    decreases m - n,
{
    if n < m {
        lemma_parse_cells_fails(buf, types, leaf, slots, n + 1, m);
    }
}

/// Reads the cell at offset `pointer`.
pub fn take_cell(buf: &[u8], types: &Vec<u8>, leaf: bool, pointer: u16) -> (out: Option<Rows>)
    requires
        buf@.len() == 4096,
    ensures
        match out {
            Some(rows) => parse_cell(buf@, types@, leaf, pointer) == Some(rows@),
            None => parse_cell(buf@, types@, leaf, pointer) is None,
        },
{
    if pointer >= 4096 {
        return None;
    }
    let at: usize = pointer as usize;
    let size: u8 = buf[at];
    if at + 1 + size as usize > 4096 {
        return None;
    }
    if leaf {
        match take_row(buf, at + 1, at + 1 + size as usize, types) {
            Some((values, _)) => Some(Rows { size, values }),
            None => None,
        }
    } else {
        if size < 4 {
            return None;
        }
        let mut values: Vec<Value> = Vec::new();
        values.push(Value::Number(bytes_to_u32(buf, at + 1)));
        assert(values_view(values@) =~= seq![ValueView::Number(read_be32(buf@, at + 1))]);
        Some(Rows { size, values })
    }
}

impl Page {
    /// Reads 4096 bytes of the table file as a page. The columns' types say how
    /// the cells of a leaf page are cut into values. Bytes that spell no page,
    /// or a page that breaks the page layout, are refused.
    #[verifier::rlimit(50)]
    pub fn buff_to_page(field_types: Vec<u8>, buffer: [u8; 4096]) -> (out: Result<
        Page,
        StorageError,
    >)
        ensures
            match out {
                Ok(page) => decode_page(field_types@, buffer@) == Some(page@),
                Err(e) => decode_page(field_types@, buffer@) is None && e == StorageError::Corrupt,
            },
    {
        reveal(decode_page);
        let buf: &[u8] = buffer.as_slice();
        if buf[0] > 1 {
            return Err(StorageError::Corrupt);
        }
        let leaf: bool = buf[0] == 1;
        let free_space_pointer: u16 = bytes_to_u16(buf, 1);
        let text: bool = buf[3] == 1;
        let count: usize = buf[4] as usize;
        let mut slots: Vec<Slot> = Vec::new();
        let mut at: usize = 5;
        let mut i: usize = 0;
        assert(slots_view(slots@) =~= Seq::empty());
        while i < count
            invariant
                i <= count,
                at <= 4096,
                buf@ == buffer@,
                buf@.len() == 4096,
                buf@[0] <= 1,
                count == buf@[4],
                text == (buf@[3] == 1),
                slots.len() == i,
                parse_slots(buf@, text, i as int) == Some((slots_view(slots@), at as int)),
            decreases count - i,
        {
            reveal(decode_page);
            let ghost seen = slots_view(slots@);
            match take_value(buf, at, 4096, text) {
                None => {
                    proof {
                        lemma_parse_slots_fails(buf@, text, i + 1, count as int);
                    }
                    return Err(StorageError::Corrupt);
                },
                Some((value, next)) => {
                    if next + 2 > 4096 {
                        proof {
                            lemma_parse_slots_fails(buf@, text, i + 1, count as int);
                        }
                        return Err(StorageError::Corrupt);
                    }
                    let pointer: u16 = bytes_to_u16(buf, next);
                    let slot = Slot { value, pointer };
                    slots.push(slot);
                    assert(slots_view(slots@) =~= seen.push(
                        SlotView { key: value@, pointer },
                    ));
                    at = next + 2;
                },
            }
            i += 1;
        }
        let ghost all = slots_view(slots@);
        let mut cells: HashMap<u16, Rows> = HashMap::new();
        let mut n: usize = 0;
        assert(crate::pages::cells_view(cells@) =~= Map::empty());
        while n < count
            invariant
                n <= count == slots.len(),
                buf@ == buffer@,
                buf@.len() == 4096,
                buf@[0] <= 1,
                count == buf@[4],
                text == (buf@[3] == 1),
                leaf == (buf@[0] == 1),
                parse_slots(buf@, text, count as int) matches Some((parsed, _)) && parsed == all,
                all == slots_view(slots@),
                parse_cells(buf@, field_types@, leaf, all, n as int) == Some(
                    crate::pages::cells_view(cells@),
                ),
            decreases count - n,
        {
            reveal(decode_page);
            let pointer: u16 = slots[n].pointer;
            assert(all[n as int] == slots[n as int]@);
            let ghost seen = crate::pages::cells_view(cells@);
            match take_cell(buf, &field_types, leaf, pointer) {
                None => {
                    proof {
                        lemma_parse_cells_fails(buf@, field_types@, leaf, all, n + 1, count as int);
                    }
                    return Err(StorageError::Corrupt);
                },
                Some(rows) => {
                    let ghost rows_view = rows@;
                    cells.insert(pointer, rows);
                    assert(crate::pages::cells_view(cells@) =~= seen.insert(pointer, rows_view));
                },
            }
            n += 1;
        }
        let page_type: NodeType = if leaf {
            NodeType::Leaf(Vec::new())
        } else {
            NodeType::Internal(Vec::new())
        };
        let page = Page { page_type, free_space_pointer, slots, cells };
        assert(parse_page(field_types@, buffer@) == Some(page@));
        if !page.is_wf() {
            return Err(StorageError::Corrupt);
        }
        Ok(page)
    }
}


/// For each column of type 2 or 7, whether it holds a text.
pub open spec fn row_shape(types: Seq<u8>) -> Seq<bool>
    decreases types.len(),
{
    if types.len() == 0 {
        Seq::empty()
    } else if types.last() == 2 {
        row_shape(types.drop_last()).push(false)
    } else if types.last() == 7 {
        row_shape(types.drop_last()).push(true)
    } else {
        row_shape(types.drop_last())
    }
}

/// For each value, whether it is a text.
pub open spec fn values_shape(values: Seq<ValueView>) -> Seq<bool> {
    values.map_values(|v: ValueView| v.is_text())
}

impl PageView {
    /// Every row of a leaf page has one value per column of type 2 or 7, a
    /// number under 2 and a text under 7.
    pub open spec fn conforms(self, types: Seq<u8>) -> bool {
        self.leaf ==> forall|i: int|
            0 <= i < self.slots.len() ==> values_shape(#[trigger] self.row(i).values)
                == row_shape(types)
    }

    /// The cells of the first `n` slots, under their offsets.
    pub open spec fn kept_cells(self, n: int) -> Map<u16, RowsView>
        decreases n,
    {
        if n <= 0 {
            Map::empty()
        } else {
            self.kept_cells(n - 1).insert(self.slots[n - 1].pointer, self.row(n - 1))
        }
    }

    /// The page as it is read back after it was written: the same node type and
    /// slots, the cells that the slots point to, and the lowest cell offset as
    /// the free-space pointer.
    pub open spec fn settled(self) -> PageView {
        PageView {
            leaf: self.leaf,
            free_space_pointer: lowest_pointer(self.slots),
            slots: self.slots,
            cells: self.kept_cells(self.slots.len() as int),
        }
    }
}

pub proof fn lemma_parse_value_stored(buf: Seq<u8>, at: int, limit: int, v: ValueView)
    requires
        0 <= at,
        at + v.stored_len() <= limit <= buf.len(),
        v.wf(),
        buf.subrange(at, at + v.stored_len()) == v.stored(),
    ensures
        parse_value(buf, at, limit, v.is_text()) == Some((v, at + v.stored_len())),
{
    let piece = buf.subrange(at, at + v.stored_len());
    match v {
        ValueView::Number(x) => {
            lemma_be32_round_trip(x);
            assert(piece[0] == buf[at] && piece[1] == buf[at + 1] && piece[2] == buf[at + 2]
                && piece[3] == buf[at + 3]);
        },
        ValueView::String(len, text) => {
            assert(piece[0] == buf[at]);
            assert(buf.subrange(at + 1, at + 1 + len) =~= text) by {
                assert forall|k: int| 0 <= k < len implies buf[at + 1 + k] == text[k] by {
                    assert(piece[k + 1] == buf[at + 1 + k]);
                }
            }
        },
    }
}

proof fn lemma_dir_prefix(slots: Seq<SlotView>, n: int)
    requires
        0 <= n <= slots.len(),
        forall|i: int| 0 <= i < slots.len() ==> (#[trigger] slots[i]).key.wf(),
    ensures
        slots_len(slots.take(n)) <= slots_len(slots),
        dir_stored(slots).len() == slots_len(slots),
        dir_stored(slots).subrange(0, slots_len(slots.take(n))) == dir_stored(slots.take(n)),
    decreases slots.len() - n,
{
    lemma_dir_stored_len(slots);
    lemma_slots_len_take(slots, n);
    if n == slots.len() {
        assert(slots.take(n) =~= slots);
        assert(dir_stored(slots).subrange(0, slots_len(slots)) =~= dir_stored(slots));
    } else {
        lemma_dir_prefix(slots, n + 1);
        let longer = slots.take(n + 1);
        assert(longer.drop_last() =~= slots.take(n));
        assert forall|i: int| 0 <= i < longer.len() implies (#[trigger] longer[i]).key.wf() by {
            assert(longer[i] == slots[i]);
        }
        lemma_dir_stored_len(longer);
        assert forall|i: int| 0 <= i < n implies (#[trigger] slots.take(n)[i]).key.wf() by {
            assert(slots.take(n)[i] == slots[i]);
        }
        lemma_dir_stored_len(slots.take(n));
        lemma_slots_len_take(slots, n + 1);
        assert(dir_stored(slots).subrange(0, slots_len(slots.take(n))) =~= dir_stored(
            longer,
        ).subrange(0, slots_len(slots.take(n))));
        assert(dir_stored(longer).subrange(0, slots_len(slots.take(n))) =~= dir_stored(
            slots.take(n),
        ));
    }
}

#[verifier::rlimit(50)]
proof fn lemma_parse_slots_stored(buf: Seq<u8>, slots: Seq<SlotView>, text: bool, n: int)
    requires
        0 <= n <= slots.len(),
        buf.len() == 4096,
        5 + slots_len(slots) <= 4096,
        buf.subrange(5, 5 + slots_len(slots)) == dir_stored(slots),
        forall|i: int|
            0 <= i < slots.len() ==> (#[trigger] slots[i]).key.wf() && slots[i].key.is_text()
                == text,
    ensures
        parse_slots(buf, text, n) == Some((slots.take(n), 5 + slots_len(slots.take(n)))),
    decreases n,
{
    if n == 0 {
        assert(slots.take(0) =~= Seq::<SlotView>::empty());
    } else {
        lemma_parse_slots_stored(buf, slots, text, n - 1);
        let before = slots.take(n - 1);
        let upto = slots.take(n);
        let slot = slots[n - 1];
        let at = 5 + slots_len(before);
        assert(upto =~= before.push(slot));
        lemma_slots_len_push(before, slot);
        lemma_dir_stored_push(before, slot);
        lemma_dir_prefix(slots, n);
        lemma_dir_prefix(slots, n - 1);
        lemma_slots_len_bounds(before);
        let dir = dir_stored(slots);
        let key_end = at + slot.key.stored_len();
        assert(dir_stored(upto).len() == slots_len(upto)) by {
            assert forall|i: int| 0 <= i < upto.len() implies (#[trigger] upto[i]).key.wf() by {
                assert(upto[i] == slots[i]);
            }
            lemma_dir_stored_len(upto);
        }
        assert(dir_stored(before).len() == slots_len(before)) by {
            assert forall|i: int| 0 <= i < before.len() implies (#[trigger] before[i]).key.wf() by {
                assert(before[i] == slots[i]);
            }
            lemma_dir_stored_len(before);
        }
        crate::value::lemma_stored_len(slot.key);
        assert forall|k: int| 0 <= k < slot.key.stored_len() + 2 implies buf[at + k] == slot_stored(
            slot,
        )[k] by {
            assert(buf[at + k] == buf.subrange(5, 5 + slots_len(slots))[at + k - 5]);
            assert(dir[at + k - 5] == dir.subrange(0, slots_len(upto))[at + k - 5]);
            assert(dir_stored(upto)[at + k - 5] == slot_stored(slot)[k]);
        }
        assert(buf.subrange(at, key_end) =~= slot.key.stored()) by {
            assert forall|k: int| 0 <= k < slot.key.stored_len() implies buf[at + k]
                == slot.key.stored()[k] by {
                assert(slot_stored(slot)[k] == slot.key.stored()[k]);
            }
        }
        lemma_parse_value_stored(buf, at, 4096, slot.key);
        lemma_be16_round_trip(slot.pointer);
        assert(buf[key_end] == be16(slot.pointer)[0]) by {
            assert(slot_stored(slot)[slot.key.stored_len()] == be16(slot.pointer)[0]);
        }
        assert(buf[key_end + 1] == be16(slot.pointer)[1]) by {
            assert(slot_stored(slot)[slot.key.stored_len() + 1] == be16(slot.pointer)[1]);
        }
        assert(read_be16(buf, key_end) == slot.pointer);
    }
}

proof fn lemma_row_prefix(values: Seq<ValueView>)
    requires
        values.len() > 0,
        row_wf(values),
    ensures
        row_wf(values.drop_last()),
        row_stored(values).subrange(0, row_len(values.drop_last())) == row_stored(
            values.drop_last(),
        ),
        row_stored(values).subrange(row_len(values.drop_last()), row_len(values))
            == values.last().stored(),
        row_stored(values).len() == row_len(values),
        0 <= row_len(values.drop_last()),
        row_len(values) == row_len(values.drop_last()) + values.last().stored_len(),
{
    let rest = values.drop_last();
    assert forall|i: int| 0 <= i < rest.len() implies (#[trigger] rest[i]).wf() by {
        assert(rest[i] == values[i]);
    }
    lemma_row_stored_len(rest);
    lemma_row_stored_len(values);
    crate::value::lemma_stored_len(values.last());
    assert(row_stored(values).subrange(0, row_len(rest)) =~= row_stored(rest));
    assert(row_stored(values).subrange(row_len(rest), row_len(values)) =~= values.last().stored());
}

pub proof fn lemma_parse_row_stored(
    buf: Seq<u8>,
    start: int,
    limit: int,
    types: Seq<u8>,
    values: Seq<ValueView>,
)
    requires
        0 <= start,
        start + row_len(values) <= limit <= buf.len(),
        row_wf(values),
        values_shape(values) == row_shape(types),
        buf.subrange(start, start + row_len(values)) == row_stored(values),
    ensures
        parse_row(buf, start, limit, types) == Some((values, start + row_len(values))),
    decreases types.len(),
{
    if types.len() == 0 {
        assert(values_shape(values).len() == 0);
        assert(values =~= Seq::<ValueView>::empty());
    } else if types.last() == 2 || types.last() == 7 {
        let shape = row_shape(types.drop_last());
        assert(values_shape(values).len() == shape.len() + 1);
        let rest = values.drop_last();
        let last = values.last();
        lemma_row_prefix(values);
        assert(values_shape(rest) =~= shape) by {
            assert(values_shape(values).drop_last() =~= values_shape(rest));
            assert(shape.push(types.last() == 7).drop_last() =~= shape);
        }
        assert(last.is_text() == (types.last() == 7)) by {
            assert(values_shape(values).last() == last.is_text());
            assert(shape.push(types.last() == 7).last() == (types.last() == 7));
        }
        let whole = buf.subrange(start, start + row_len(values));
        assert(buf.subrange(start, start + row_len(rest)) =~= row_stored(rest)) by {
            assert(whole.subrange(0, row_len(rest)) =~= buf.subrange(start, start + row_len(rest)));
        }
        lemma_parse_row_stored(buf, start, limit, types.drop_last(), rest);
        assert(buf.subrange(start + row_len(rest), start + row_len(values)) =~= last.stored()) by {
            assert(whole.subrange(row_len(rest), row_len(values)) =~= buf.subrange(
                start + row_len(rest),
                start + row_len(values),
            ));
        }
        lemma_parse_value_stored(buf, start + row_len(rest), limit, last);
        assert(rest.push(last) =~= values);
    } else {
        lemma_parse_row_stored(buf, start, limit, types.drop_last(), values);
    }
}

#[verifier::rlimit(50)]
proof fn lemma_image_layout(page: PageView, n: int)
    requires
        page.wf(),
        0 <= n <= page.slots.len(),
    ensures
        image_upto(page, n).len() == 4096,
        image_upto(page, n).subrange(0, 5) == head_stored(page),
        image_upto(page, n).subrange(5, page.dir_end()) == dir_stored(page.slots),
        forall|k: int|
            0 <= k < n ==> image_upto(page, n).subrange(
                page.slots[k].pointer as int,
                page.slots[k].pointer + 1 + page.row(k).size,
            ) == cell_stored(#[trigger] page.row(k)),
    decreases n,
{
    let head = head_stored(page);
    let dir = dir_stored(page.slots);
    assert(head.len() == 5);
    assert forall|i: int| 0 <= i < page.slots.len() implies (#[trigger] page.slots[i]).key.wf() by {
        assert(page.slot_ok(i));
    }
    lemma_dir_stored_len(page.slots);
    lemma_slots_len_bounds(page.slots);
    if n == 0 {
        let a = write_at(blank(), 0, head);
        lemma_write_at_read(blank(), 0, head);
        lemma_write_at_read(a, 5, dir);
        lemma_write_at_frame(a, 5, dir, 0, 5);
    } else {
        lemma_image_layout(page, n - 1);
        let before = image_upto(page, n - 1);
        let p = page.slots[n - 1].pointer as int;
        let cell = cell_stored(page.row(n - 1));
        assert(page.slot_ok(n - 1));
        lemma_row_stored_len(page.row(n - 1).values);
        assert(cell.len() == 1 + page.row(n - 1).size);
        lemma_write_at_read(before, p, cell);
        lemma_write_at_frame(before, p, cell, 0, 5);
        lemma_write_at_frame(before, p, cell, 5, page.dir_end());
        let after = image_upto(page, n);
        assert forall|k: int| 0 <= k < n implies after.subrange(
            page.slots[k].pointer as int,
            page.slots[k].pointer + 1 + page.row(k).size,
        ) == cell_stored(#[trigger] page.row(k)) by {
            if k < n - 1 {
                assert(page.slot_ok(k));
                assert(page.apart(k, n - 1));
                lemma_write_at_frame(
                    before,
                    p,
                    cell,
                    page.slots[k].pointer as int,
                    page.slots[k].pointer + 1 + page.row(k).size,
                );
            }
        }
    }
}

proof fn lemma_parse_cell_stored(
    buf: Seq<u8>,
    types: Seq<u8>,
    leaf: bool,
    pointer: u16,
    rows: RowsView,
)
    requires
        buf.len() == 4096,
        pointer + 1 + rows.size <= 4096,
        row_wf(rows.values),
        rows.size == row_len(rows.values),
        leaf ==> values_shape(rows.values) == row_shape(types),
        !leaf ==> rows.values.len() == 1 && rows.values[0] is Number,
        buf.subrange(pointer as int, pointer + 1 + rows.size) == cell_stored(rows),
    ensures
        parse_cell(buf, types, leaf, pointer) == Some(rows),
{
    let piece = buf.subrange(pointer as int, pointer + 1 + rows.size);
    lemma_row_stored_len(rows.values);
    assert(piece[0] == buf[pointer as int]);
    assert(buf[pointer as int] == rows.size);
    assert(buf.subrange(pointer + 1, pointer + 1 + rows.size) =~= row_stored(rows.values)) by {
        assert forall|k: int| 0 <= k < rows.size implies buf[pointer + 1 + k] == row_stored(
            rows.values,
        )[k] by {
            assert(piece[k + 1] == buf[pointer + 1 + k]);
        }
    }
    if leaf {
        lemma_parse_row_stored(buf, pointer + 1, pointer + 1 + rows.size, types, rows.values);
    } else {
        let v = rows.values[0];
        assert(rows.values.drop_last() =~= Seq::<ValueView>::empty());
        assert(rows.values.last() == v);
        assert(row_len(rows.values.drop_last()) == 0);
        assert(row_stored(rows.values.drop_last()) =~= Seq::<u8>::empty());
        assert(row_len(rows.values) == v.stored_len());
        assert(row_stored(rows.values) =~= v.stored());
        lemma_parse_value_stored(buf, pointer + 1, pointer + 1 + rows.size, v);
        assert(rows.values =~= seq![v]);
    }
}

proof fn lemma_parse_cells_stored(page: PageView, types: Seq<u8>, buf: Seq<u8>, n: int)
    requires
        page.wf(),
        page.conforms(types),
        0 <= n <= page.slots.len(),
        buf.len() == 4096,
        forall|k: int|
            0 <= k < page.slots.len() ==> buf.subrange(
                page.slots[k].pointer as int,
                page.slots[k].pointer + 1 + page.row(k).size,
            ) == cell_stored(#[trigger] page.row(k)),
    ensures
        parse_cells(buf, types, page.leaf, page.slots, n) == Some(page.kept_cells(n)),
    decreases n,
{
    if n > 0 {
        lemma_parse_cells_stored(page, types, buf, n - 1);
        assert(page.slot_ok(n - 1));
        let rows = page.row(n - 1);
        lemma_parse_cell_stored(buf, types, page.leaf, page.slots[n - 1].pointer, rows);
    }
}

/// The bytes of a page do not depend on its free-space pointer.
pub proof fn lemma_image_levelled(page: PageView, n: int)
    ensures
        image_upto(page.levelled(), n) == image_upto(page, n),
        page.levelled().settled() == page.settled(),
    decreases n,
{
    if n > 0 {
        lemma_image_levelled(page, n - 1);
    }
    lemma_kept_same(page, page.levelled(), page.slots.len() as int);
}

/// Pages with the same slots and cells keep the same cells.
proof fn lemma_kept_same(a: PageView, b: PageView, n: int)
    requires
        a.slots == b.slots,
        a.cells == b.cells,
    ensures
        a.kept_cells(n) == b.kept_cells(n),
    decreases n,
{
    if n > 0 {
        lemma_kept_same(a, b, n - 1);
    }
}

/// A page that keeps the page layout can be written.
pub proof fn lemma_wf_writable(page: PageView)
    requires
        page.wf(),
    ensures
        page.writable(),
        page.levelled().node() == page.node(),
{
    let level = page.levelled();
    assert forall|i: int| 0 <= i < page.slots.len() implies page.free_space_pointer <= (
    #[trigger] page.slots[i]).pointer by {
        assert(page.slot_ok(i));
    }
    lemma_lowest_pointer(page.slots, page.free_space_pointer as int);
    assert forall|i: int| 0 <= i < level.slots.len() implies #[trigger] level.slot_ok(i) by {
        assert(page.slot_ok(i));
    }
    assert forall|i: int, j: int| 0 <= i < j < level.slots.len() implies #[trigger] level.apart(
        i,
        j,
    ) by {
        assert(page.apart(i, j));
    }
    assert(level.node().entries =~= page.node().entries);
}

/// A page that can be written, with its free-space pointer at its lowest
/// cell: it keeps the page layout, and is the same node with the same bytes.
pub proof fn lemma_levelled(page: PageView, types: Seq<u8>)
    requires
        page.writable(),
    ensures
        page.levelled().wf(),
        page.levelled().node() == page.node(),
        page.levelled().conforms(types) == page.conforms(types),
        image(page.levelled()) == image(page),
        page.levelled().settled() == page.settled(),
{
    let level = page.levelled();
    lemma_image_levelled(page, page.slots.len() as int);
    assert(level.node().entries =~= page.node().entries);
    if page.conforms(types) {
        assert forall|i: int| 0 <= i < level.slots.len() && level.leaf implies values_shape(
            #[trigger] level.row(i).values,
        ) == row_shape(types) by {
            assert(level.row(i) == page.row(i));
        }
    }
    if level.conforms(types) {
        assert forall|i: int| 0 <= i < page.slots.len() && page.leaf implies values_shape(
            #[trigger] page.row(i).values,
        ) == row_shape(types) by {
            assert(level.row(i) == page.row(i));
        }
    }
}

proof fn lemma_lowest_pointer(slots: Seq<SlotView>, floor: int)
    requires
        floor <= 4095,
        forall|i: int| 0 <= i < slots.len() ==> floor <= (#[trigger] slots[i]).pointer,
    ensures
        floor <= lowest_pointer(slots) <= 4095,
        forall|i: int| 0 <= i < slots.len() ==> lowest_pointer(slots) <= (#[trigger] slots[i]).pointer,
    decreases slots.len(),
{
    if slots.len() > 0 {
        let rest = slots.drop_last();
        assert forall|i: int| 0 <= i < rest.len() implies floor <= (#[trigger] rest[i]).pointer by {
            assert(rest[i] == slots[i]);
        }
        lemma_lowest_pointer(rest, floor);
        assert forall|i: int| 0 <= i < slots.len() implies lowest_pointer(slots) <= (
        #[trigger] slots[i]).pointer by {
            if i < slots.len() - 1 {
                assert(rest[i] == slots[i]);
            }
        }
    }
}

proof fn lemma_kept_cells(page: PageView, n: int)
    requires
        0 <= n <= page.slots.len(),
    ensures
        forall|k: int|
            0 <= k < n ==> page.kept_cells(n).contains_key((#[trigger] page.slots[k]).pointer)
                && page.kept_cells(n)[page.slots[k].pointer] == page.cells[page.slots[k].pointer],
    decreases n,
{
    if n > 0 {
        lemma_kept_cells(page, n - 1);
    }
}

/// A page read back after it was written keeps the page layout, the column
/// types, and its keys and rows.
pub proof fn lemma_settled(page: PageView, types: Seq<u8>)
    requires
        page.wf(),
    ensures
        page.settled().wf(),
        page.settled().entries() == page.entries(),
        page.conforms(types) ==> page.settled().conforms(types),
        page.free_space_pointer <= page.settled().free_space_pointer,
{
    let after = page.settled();
    lemma_kept_cells(page, page.slots.len() as int);
    assert forall|i: int| 0 <= i < page.slots.len() implies page.free_space_pointer <= (
    #[trigger] page.slots[i]).pointer by {
        assert(page.slot_ok(i));
    }
    lemma_lowest_pointer(page.slots, page.free_space_pointer as int);
    assert forall|i: int| 0 <= i < after.slots.len() implies #[trigger] after.slot_ok(i) by {
        assert(page.slot_ok(i));
        assert(page.slot_ok(0));
        assert(after.row(i) == page.row(i));
        assert(after.row(0) == page.row(0));
    }
    assert forall|i: int, j: int| 0 <= i < j < after.slots.len() implies #[trigger] after.apart(
        i,
        j,
    ) by {
        assert(page.apart(i, j));
        assert(after.row(i) == page.row(i));
        assert(after.row(j) == page.row(j));
    }
    assert(after.entries() =~= page.entries()) by {
        assert forall|i: int| 0 <= i < page.slots.len() implies after.entries()[i]
            == page.entries()[i] by {
            assert(after.row(i) == page.row(i));
        }
    }
    if page.conforms(types) {
        assert forall|i: int| 0 <= i < after.slots.len() && after.leaf implies values_shape(
            #[trigger] after.row(i).values,
        ) == row_shape(types) by {
            assert(after.row(i) == page.row(i));
        }
    }
}

/// Reading gives back what was written: a page that can be written and whose
/// rows match the column types is read back from its 4096 bytes with the same
/// node type, the same slots, and for each slot the same cell. The free-space
/// pointer comes back as the lowest cell offset.
pub proof fn law_read_back(page: PageView, types: Seq<u8>)
    requires
        page.writable(),
        page.conforms(types),
    ensures
        decode_page(types, image(page)) == Some(page.settled()),
        page.settled().wf(),
        page.settled().conforms(types),
        page.settled().entries() == page.entries(),
{
    let level = page.levelled();
    lemma_image_levelled(page, page.slots.len() as int);
    assert(level.conforms(types)) by {
        assert forall|i: int| 0 <= i < level.slots.len() && level.leaf implies values_shape(
            #[trigger] level.row(i).values,
        ) == row_shape(types) by {
            assert(level.row(i) == page.row(i));
        }
    }
    lemma_read_back(level, types);
    lemma_settled(level, types);
    assert(level.entries() =~= page.entries());
}

/// A page that keeps the page layout is read back from its bytes.
#[verifier::rlimit(50)]
proof fn lemma_read_back(page: PageView, types: Seq<u8>)
    requires
        page.wf(),
        page.conforms(types),
    ensures
        decode_page(types, image(page)) == Some(page.settled()),
{
    reveal(decode_page);
    let buf = image(page);
    let n = page.slots.len() as int;
    lemma_image_layout(page, n);
    lemma_settled(page, types);
    let head = head_stored(page);
    assert(buf[0] == head[0] && buf[1] == head[1] && buf[2] == head[2] && buf[3] == head[3]
        && buf[4] == head[4]) by {
        let front = buf.subrange(0, 5);
        assert(front[0] == buf[0] && front[1] == buf[1] && front[2] == buf[2] && front[3] == buf[3]
            && front[4] == buf[4]);
    }
    lemma_be16_round_trip(lowest_pointer(page.slots));
    assert(read_be16(buf, 1) == lowest_pointer(page.slots));
    let text = buf[3] == 1;
    assert forall|i: int| 0 <= i < page.slots.len() implies (#[trigger] page.slots[i]).key.wf()
        && page.slots[i].key.is_text() == text by {
        assert(page.slot_ok(i));
        assert(page.slot_ok(n - 1));
    }
    lemma_slots_len_bounds(page.slots);
    lemma_parse_slots_stored(buf, page.slots, text, n);
    assert(page.slots.take(n) =~= page.slots);
    lemma_parse_cells_stored(page, types, buf, n);
    assert(parse_page(types, buf) == Some(page.settled()));
}


proof fn lemma_parse_row_shape(buf: Seq<u8>, start: int, limit: int, types: Seq<u8>)
    requires
        parse_row(buf, start, limit, types) is Some,
    ensures
        parse_row(buf, start, limit, types) matches Some((values, _)) && values_shape(values)
            == row_shape(types),
    decreases types.len(),
{
    if types.len() > 0 {
        lemma_parse_row_shape(buf, start, limit, types.drop_last());
        let (values, at) = parse_row(buf, start, limit, types.drop_last())->0;
        if types.last() == 2 || types.last() == 7 {
            let (value, next) = parse_value(buf, at, limit, types.last() == 7)->0;
            assert(values_shape(values.push(value)) =~= values_shape(values).push(value.is_text()));
        }
    } else {
        assert(values_shape(Seq::<ValueView>::empty()) =~= Seq::<bool>::empty());
    }
}

proof fn lemma_parse_cells_hold(
    buf: Seq<u8>,
    types: Seq<u8>,
    leaf: bool,
    slots: Seq<SlotView>,
    n: int,
)
    requires
        0 <= n <= slots.len(),
        parse_cells(buf, types, leaf, slots, n) is Some,
    ensures
        forall|k: int|
            0 <= k < n ==> parse_cells(buf, types, leaf, slots, n)->0.contains_key(
                (#[trigger] slots[k]).pointer,
            ) && Some(parse_cells(buf, types, leaf, slots, n)->0[slots[k].pointer]) == parse_cell(
                buf,
                types,
                leaf,
                slots[k].pointer,
            ),
    decreases n,
{
    if n > 0 {
        lemma_parse_cells_hold(buf, types, leaf, slots, n - 1);
    }
}

/// The rows of a leaf page that was read with the column types `types` match
/// those types.
pub proof fn lemma_decoded_conforms(types: Seq<u8>, buf: Seq<u8>)
    requires
        buf.len() == 4096,
        decode_page(types, buf) is Some,
    ensures
        decode_page(types, buf)->0.conforms(types),
        decode_page(types, buf)->0.wf(),
{
    reveal(decode_page);
    let page = decode_page(types, buf)->0;
    let leaf = buf[0] == 1;
    let n = buf[4] as int;
    let (slots, _) = parse_slots(buf, buf[3] == 1, n)->0;
    lemma_parse_slots_len(buf, buf[3] == 1, n);
    lemma_parse_cells_hold(buf, types, leaf, slots, n);
    assert(page.slots.len() <= 255);
    if page.leaf {
        assert forall|i: int| 0 <= i < page.slots.len() implies values_shape(
            #[trigger] page.row(i).values,
        ) == row_shape(types) by {
            assert(page.slot_ok(i));
            lemma_parse_slots_len(buf, buf[3] == 1, n);
            let p = page.slots[i].pointer;
            assert(Some(page.row(i)) == parse_cell(buf, types, leaf, p));
            lemma_parse_row_shape(buf, p + 1, p + 1 + buf[p as int], types);
        }
    }
}

proof fn lemma_parse_slots_len(buf: Seq<u8>, text: bool, n: int)
    requires
        0 <= n,
        parse_slots(buf, text, n) is Some,
    ensures
        parse_slots(buf, text, n) matches Some((slots, _)) && slots.len() == n,
    decreases n,
{
    if n > 0 {
        lemma_parse_slots_len(buf, text, n - 1);
    }
}


proof fn lemma_row_shape_prefix(types: Seq<u8>, k: int)
    requires
        0 <= k <= types.len(),
    ensures
        row_shape(types.take(k)).len() <= row_shape(types).len(),
        row_shape(types).take(row_shape(types.take(k)).len() as int) == row_shape(types.take(k)),
    decreases types.len() - k,
{
    if k == types.len() {
        assert(types.take(k) =~= types);
        assert(row_shape(types).take(row_shape(types).len() as int) =~= row_shape(types));
    } else {
        lemma_row_shape_prefix(types, k + 1);
        assert(types.take(k + 1).drop_last() =~= types.take(k));
        let shorter = row_shape(types.take(k));
        let longer = row_shape(types.take(k + 1));
        assert(longer.take(shorter.len() as int) =~= shorter);
        assert(row_shape(types).take(shorter.len() as int) =~= row_shape(types).take(
            longer.len() as int,
        ).take(shorter.len() as int));
    }
}

/// Whether `values` are one value per column of type 2 or 7, a number under 2
/// and a text under 7.
pub fn row_fits(values: &Vec<Value>, types: &Vec<u8>) -> (ok: bool)
    ensures
        ok == (values_shape(values_view(values@)) == row_shape(types@)),
{
    let ghost shape = values_shape(values_view(values@));
    let mut j: usize = 0;
    let mut k: usize = 0;
    assert(row_shape(types@.take(0)) =~= shape.take(0));
    while k < types.len()
        invariant
            k <= types.len(),
            j <= values.len(),
            shape == values_shape(values_view(values@)),
            row_shape(types@.take(k as int)) == shape.take(j as int),
        decreases types.len() - k,
    {
        let ty: u8 = types[k];
        proof {
            assert(types@.take(k + 1).drop_last() =~= types@.take(k as int));
            assert(types@.take(k + 1).last() == ty);
            lemma_row_shape_prefix(types@, k + 1);
        }
        if ty == 2 || ty == 7 {
            if j >= values.len() || values[j].is_text() != (ty == 7) {
                proof {
                    let longer = row_shape(types@.take(k + 1));
                    assert(longer.len() == j + 1);
                    assert(longer[j as int] == (ty == 7));
                    if shape == row_shape(types@) {
                        assert(shape.take(j + 1)[j as int] == shape[j as int]);
                    }
                }
                return false;
            }
            assert(shape.take(j + 1) =~= shape.take(j as int).push(ty == 7));
            j += 1;
        }
        k += 1;
    }
    proof {
        assert(types@.take(k as int) =~= types@);
        if j == values.len() {
            assert(shape.take(j as int) =~= shape);
        }
    }
    j == values.len()
}

impl Page {
    /// Whether every row of a leaf page matches the column types.
    pub fn conforms_to(&self, types: &Vec<u8>) -> (ok: bool)
        requires
            self@.writable(),
        ensures
            ok == self@.conforms(types@),
    {
        if !self.is_leaf() {
            return true;
        }
        let mut i: usize = 0;
        while i < self.slots.len()
            invariant
                i <= self.slots.len(),
                self@.writable(),
                self@.leaf,
                forall|k: int|
                    0 <= k < i ==> values_shape(#[trigger] self@.row(k).values) == row_shape(types@),
            decreases self.slots.len() - i,
        {
            assert(self@.levelled().slot_ok(i as int));
            assert(self@.slots[i as int] == self.slots[i as int]@);
            match self.cells.get(&self.slots[i].pointer) {
                None => {},
                Some(rows) => {
                    assert(self@.row(i as int) == rows@);
                    if !row_fits(&rows.values, types) {
                        return false;
                    }
                },
            }
            i += 1;
        }
        true
    }
}


/// A page's bytes are 4096.
pub proof fn lemma_image_len(page: PageView)
    ensures
        image(page).len() == 4096,
{
    lemma_image_upto_len(page, page.slots.len() as int);
}

proof fn lemma_image_upto_len(page: PageView, n: int)
    ensures
        image_upto(page, n).len() == 4096,
    decreases n,
{
    if n > 0 {
        lemma_image_upto_len(page, n - 1);
    }
}

} // verus!
