//! Pages in memory: a sorted slot directory and the cells that the slots point to.

use vstd::prelude::*;
use std::collections::HashMap;
use crate::error::StorageError;
use crate::value::Value;
use crate::value::ValueView;
use crate::value::KeyRow;
use crate::value::KeyRowView;
use crate::value::values_view;
use crate::value::keyrows_view;
use crate::value::row_len;
use crate::value::row_wf;
use crate::value::clone_values;
use crate::value::lemma_row_push;
use crate::value::lemma_row_stored_len;

verus! {

/// Size of a page in bytes.
pub const PAGE_SIZE: usize = 4096;

/// The kind of a B+ tree node. The list that each kind carries is not used.
#[derive(Debug)]
pub enum NodeType {
    Internal(Vec<u32>),
    Leaf(Vec<u32>),
}

/// A key and the offset of its cell in the page.
#[derive(Debug)]
pub struct Slot {
    pub value: Value,
    pub pointer: u16,
}

/// What a [`Slot`] holds.
pub struct SlotView {
    pub key: ValueView,
    pub pointer: u16,
}

impl View for Slot {
    type V = SlotView;

    open spec fn view(&self) -> SlotView {
        SlotView { key: self.value@, pointer: self.pointer }
    }
}

/// A cell: the byte count of its values, and the values.
#[derive(Debug)]
pub struct Rows {
    pub size: u8,
    pub values: Vec<Value>,
}

/// What a [`Rows`] holds.
pub struct RowsView {
    pub size: u8,
    pub values: Seq<ValueView>,
}

impl View for Rows {
    type V = RowsView;

    open spec fn view(&self) -> RowsView {
        RowsView { size: self.size, values: values_view(self.values@) }
    }
}

/// One page of the table file, ready to be read and changed.
#[derive(Debug)]
pub struct Page {
    pub page_type: NodeType,
    pub free_space_pointer: u16,
    pub slots: Vec<Slot>,
    pub cells: HashMap<u16, Rows>,
}

/// What a [`Page`] holds.
#[verifier::ext_equal]
pub struct PageView {
    pub leaf: bool,
    pub free_space_pointer: u16,
    pub slots: Seq<SlotView>,
    pub cells: Map<u16, RowsView>,
}

/// The views of a sequence of slots, in order.
pub open spec fn slots_view(slots: Seq<Slot>) -> Seq<SlotView> {
    slots.map_values(|s: Slot| s@)
}

/// The views of the cells of a page, under their offsets.
pub open spec fn cells_view(cells: Map<u16, Rows>) -> Map<u16, RowsView> {
    cells.map_values(|r: Rows| r@)
}

impl View for Page {
    type V = PageView;

    open spec fn view(&self) -> PageView {
        PageView {
            leaf: self.page_type is Leaf,
            free_space_pointer: self.free_space_pointer,
            slots: slots_view(self.slots@),
            cells: cells_view(self.cells@),
        }
    }
}

/// Bytes that the slot directory of `slots` takes: each key and two bytes of offset.
pub open spec fn slots_len(slots: Seq<SlotView>) -> int
    decreases slots.len(),
{
    if slots.len() == 0 {
        0
    } else {
        slots_len(slots.drop_last()) + slots.last().key.stored_len() + 2
    }
}

/// Where a new key goes: before the first slot whose key is larger, else at the end.
pub open spec fn insert_index(slots: Seq<SlotView>, key: ValueView) -> int
    decreases slots.len(),
{
    if slots.len() == 0 {
        0
    } else if key.lt(slots[0].key) {
        0
    } else {
        1 + insert_index(slots.skip(1), key)
    }
}

/// The first slot that holds `key`, or the number of slots if none does.
pub open spec fn find_index(slots: Seq<SlotView>, key: ValueView) -> int
    decreases slots.len(),
{
    if slots.len() == 0 {
        0
    } else if slots[0].key == key {
        0
    } else {
        1 + find_index(slots.skip(1), key)
    }
}

/// The smallest cell offset among `slots`, or 4095 where there is none below it.
pub open spec fn lowest_pointer(slots: Seq<SlotView>) -> u16
    decreases slots.len(),
{
    if slots.len() == 0 {
        4095
    } else {
        let rest = lowest_pointer(slots.drop_last());
        if slots.last().pointer < rest {
            slots.last().pointer
        } else {
            rest
        }
    }
}

impl PageView {
    /// The cell of slot `i`.
    pub open spec fn row(self, i: int) -> RowsView {
        self.cells[self.slots[i].pointer]
    }

    /// The first byte after the slot directory.
    pub open spec fn dir_end(self) -> int {
        5 + slots_len(self.slots)
    }

    /// Slot `i` has a sound key of the page's kind, and a sound cell that lies
    /// inside the page, at or above the free-space pointer.
    pub open spec fn slot_ok(self, i: int) -> bool {
        let s = self.slots[i];
        &&& s.key.wf()
        &&& s.key.is_text() == self.slots[0].key.is_text()
        &&& self.cells.contains_key(s.pointer)
        &&& row_wf(self.row(i).values)
        &&& self.row(i).size == row_len(self.row(i).values)
        &&& (!self.leaf ==> self.row(i).values.len() == 1 && self.row(i).values[0] is Number)
        &&& self.free_space_pointer <= s.pointer
        &&& s.pointer + 1 + self.row(i).size <= 4096
    }

    /// The cells of slots `i` and `j` share no byte.
    pub open spec fn apart(self, i: int, j: int) -> bool {
        let a = self.slots[i].pointer;
        let b = self.slots[j].pointer;
        a + 1 + self.row(i).size <= b || b + 1 + self.row(j).size <= a
    }

    /// The page layout: at most 255 slots, the directory below the free-space
    /// pointer, every slot sound, no two cells overlapping.
    pub open spec fn wf(self) -> bool {
        &&& self.slots.len() <= 255
        &&& self.dir_end() < self.free_space_pointer <= 4095
        &&& forall|i: int| 0 <= i < self.slots.len() ==> #[trigger] self.slot_ok(i)
        &&& forall|i: int, j: int|
            0 <= i < j < self.slots.len() ==> #[trigger] self.apart(i, j)
    }

    /// The page with `floor` as its free-space pointer.
    pub open spec fn with_floor(self, floor: u16) -> PageView {
        PageView { free_space_pointer: floor, ..self }
    }

    /// The page with its free-space pointer at its lowest cell, or at 4095
    /// where it has no cell.
    pub open spec fn levelled(self) -> PageView {
        self.with_floor(lowest_pointer(self.slots))
    }

    /// Whether the page can be written: it keeps the page layout once its
    /// free-space pointer is taken to be its lowest cell. What the page's own
    /// free-space pointer says does not count.
    pub open spec fn writable(self) -> bool {
        self.levelled().wf()
    }

    /// The keys with their rows, in slot order.
    pub open spec fn entries(self) -> Seq<KeyRowView> {
        Seq::new(
            self.slots.len(),
            |i: int| KeyRowView { key: self.slots[i].key, row: self.row(i).values },
        )
    }

    /// A leaf page that was never written to.
    pub open spec fn empty_leaf() -> PageView {
        PageView { leaf: true, free_space_pointer: 4093, slots: Seq::empty(), cells: Map::empty() }
    }

    /// An internal page that was never written to.
    pub open spec fn empty_internal() -> PageView {
        PageView { leaf: false, free_space_pointer: 4093, slots: Seq::empty(), cells: Map::empty() }
    }

    /// The page with no slot and no cell.
    pub open spec fn cleaned(self) -> PageView {
        PageView {
            leaf: self.leaf,
            free_space_pointer: 4095,
            slots: Seq::empty(),
            cells: Map::empty(),
        }
    }

    /// Why `entry` cannot be inserted, if it cannot.
    pub open spec fn insert_error(self, entry: KeyRowView) -> Option<StorageError> {
        if !entry.key.wf() || !row_wf(entry.row) {
            Some(StorageError::BadValue)
        } else if row_len(entry.row) > 255 {
            Some(StorageError::RowTooLarge)
        } else if self.slots.len() > 0 && entry.key.is_text() != self.slots[0].key.is_text() {
            Some(StorageError::KeyKind)
        } else if !self.leaf && !(entry.row.len() == 1 && entry.row[0] is Number) {
            Some(StorageError::BadCell)
        } else if self.slots.len() >= 255 || self.dir_end() + entry.key.stored_len() + 2
            >= self.free_space_pointer - row_len(entry.row) - 1 {
            Some(StorageError::PageFull)
        } else {
            None
        }
    }

    /// The page after `entry` was inserted: its cell lies just below the old
    /// free-space pointer, its slot before the first larger key.
    pub open spec fn inserted(self, entry: KeyRowView) -> PageView {
        let pointer = (self.free_space_pointer - row_len(entry.row) - 1) as u16;
        PageView {
            leaf: self.leaf,
            free_space_pointer: pointer,
            slots: self.slots.insert(
                insert_index(self.slots, entry.key),
                SlotView { key: entry.key, pointer },
            ),
            cells: self.cells.insert(
                pointer,
                RowsView { size: row_len(entry.row) as u8, values: entry.row },
            ),
        }
    }

    /// The page without slot `i` and without the cell at that slot's offset.
    pub open spec fn removed(self, i: int) -> PageView {
        PageView {
            leaf: self.leaf,
            free_space_pointer: self.free_space_pointer,
            slots: self.slots.remove(i),
            cells: self.cells.remove(self.slots[i].pointer),
        }
    }

    /// The page without the first slot that holds `key`, if there is one.
    pub open spec fn deleted(self, key: ValueView) -> PageView {
        let i = find_index(self.slots, key);
        if i < self.slots.len() {
            self.removed(i)
        } else {
            self
        }
    }

    /// Why the key of slot `i` cannot be replaced by `key`, if it cannot.
    pub open spec fn rekey_error(self, i: int, key: ValueView) -> Option<StorageError> {
        if !key.wf() {
            Some(StorageError::BadValue)
        } else if key.is_text() != self.slots[i].key.is_text() {
            Some(StorageError::KeyKind)
        } else if self.dir_end() - self.slots[i].key.stored_len() + key.stored_len()
            >= self.free_space_pointer {
            Some(StorageError::PageFull)
        } else {
            None
        }
    }

    /// The page with the key of slot `i` replaced by `key`.
    pub open spec fn rekeyed(self, i: int, key: ValueView) -> PageView {
        PageView {
            leaf: self.leaf,
            free_space_pointer: self.free_space_pointer,
            slots: self.slots.update(i, SlotView { key, pointer: self.slots[i].pointer }),
            cells: self.cells,
        }
    }
}


pub proof fn lemma_slots_len_bounds(slots: Seq<SlotView>)
    ensures
        0 <= slots_len(slots) <= 258 * slots.len(),
    decreases slots.len(),
{
    if slots.len() > 0 {
        lemma_slots_len_bounds(slots.drop_last());
    }
}

pub proof fn lemma_slots_len_push(slots: Seq<SlotView>, s: SlotView)
    ensures
        slots_len(slots.push(s)) == slots_len(slots) + s.key.stored_len() + 2,
{
    assert(slots.push(s).drop_last() =~= slots);
}

pub proof fn lemma_slots_len_insert(slots: Seq<SlotView>, i: int, s: SlotView)
    requires
        0 <= i <= slots.len(),
    ensures
        slots_len(slots.insert(i, s)) == slots_len(slots) + s.key.stored_len() + 2,
    decreases slots.len(),
{
    if i == slots.len() {
        assert(slots.insert(i, s) =~= slots.push(s));
        lemma_slots_len_push(slots, s);
    } else {
        lemma_slots_len_insert(slots.drop_last(), i, s);
        assert(slots.insert(i, s).drop_last() =~= slots.drop_last().insert(i, s));
        assert(slots.insert(i, s).last() == slots.last());
    }
}

pub proof fn lemma_slots_len_remove(slots: Seq<SlotView>, i: int)
    requires
        0 <= i < slots.len(),
    ensures
        slots_len(slots.remove(i)) == slots_len(slots) - slots[i].key.stored_len() - 2,
    decreases slots.len(),
{
    if i == slots.len() - 1 {
        assert(slots.remove(i) =~= slots.drop_last());
    } else {
        lemma_slots_len_remove(slots.drop_last(), i);
        assert(slots.remove(i).drop_last() =~= slots.drop_last().remove(i));
        assert(slots.remove(i).last() == slots.last());
    }
}

pub proof fn lemma_slots_len_update(slots: Seq<SlotView>, i: int, s: SlotView)
    requires
        0 <= i < slots.len(),
    ensures
        slots_len(slots.update(i, s)) == slots_len(slots) - slots[i].key.stored_len()
            + s.key.stored_len(),
    decreases slots.len(),
{
    if i == slots.len() - 1 {
        assert(slots.update(i, s).drop_last() =~= slots.drop_last());
    } else {
        lemma_slots_len_update(slots.drop_last(), i, s);
        assert(slots.update(i, s).drop_last() =~= slots.drop_last().update(i, s));
        assert(slots.update(i, s).last() == slots.last());
    }
}

/// The insert position is the first slot with a larger key.
pub proof fn lemma_insert_index(slots: Seq<SlotView>, key: ValueView)
    ensures
        0 <= insert_index(slots, key) <= slots.len(),
        forall|j: int| 0 <= j < insert_index(slots, key) ==> !key.lt((#[trigger] slots[j]).key),
        insert_index(slots, key) < slots.len() ==> key.lt(slots[insert_index(slots, key)].key),
    decreases slots.len(),
{
    if slots.len() > 0 && !key.lt(slots[0].key) {
        lemma_insert_index(slots.skip(1), key);
        let rest = insert_index(slots.skip(1), key);
        assert forall|j: int| 0 <= j < 1 + rest implies !key.lt((#[trigger] slots[j]).key) by {
            if j > 0 {
                assert(slots[j] == slots.skip(1)[j - 1]);
            }
        }
        if rest < slots.skip(1).len() {
            assert(slots.skip(1)[rest] == slots[rest + 1]);
        }
    }
}

/// An accepted insert keeps the page layout.
pub proof fn lemma_inserted_wf(page: PageView, entry: KeyRowView)
    requires
        page.wf(),
        page.insert_error(entry) is None,
    ensures
        page.inserted(entry).wf(),
{
    let after = page.inserted(entry);
    let at = insert_index(page.slots, entry.key);
    let pointer = after.free_space_pointer;
    lemma_insert_index(page.slots, entry.key);
    lemma_slots_len_insert(page.slots, at, SlotView { key: entry.key, pointer });
    lemma_slots_len_bounds(page.slots);
    lemma_row_stored_len(entry.row);
    assert forall|i: int| 0 <= i < after.slots.len() implies #[trigger] after.slot_ok(i) by {
        if page.slots.len() > 0 {
            assert(page.slot_ok(0));
        }
        if i < at {
            assert(page.slot_ok(i));
            assert(after.slots[i] == page.slots[i]);
        } else if i > at {
            assert(page.slot_ok(i - 1));
            assert(after.slots[i] == page.slots[i - 1]);
        }
    }
    assert forall|i: int, j: int| 0 <= i < j < after.slots.len() implies #[trigger] after.apart(
        i,
        j,
    ) by {
        let oi = if i < at { i } else { i - 1 };
        let oj = if j < at { j } else { j - 1 };
        if i != at {
            assert(page.slot_ok(oi));
        }
        if j != at {
            assert(page.slot_ok(oj));
        }
        if i != at && j != at {
            assert(page.apart(oi, oj));
        }
    }
}

/// Taking a slot and its cell away keeps the page layout.
pub proof fn lemma_removed_wf(page: PageView, i: int)
    requires
        page.wf(),
        0 <= i < page.slots.len(),
    ensures
        page.removed(i).wf(),
{
    let after = page.removed(i);
    lemma_slots_len_remove(page.slots, i);
    assert(page.slot_ok(i));
    assert forall|k: int| 0 <= k < after.slots.len() implies #[trigger] after.slot_ok(k) by {
        let ok = if k < i { k } else { k + 1 };
        assert(page.slot_ok(ok));
        assert(page.slot_ok(0));
        assert(page.slot_ok(1));
        if ok < i {
            assert(page.apart(ok, i));
        } else {
            assert(page.apart(i, ok));
        }
    }
    assert forall|k: int, l: int| 0 <= k < l < after.slots.len() implies #[trigger] after.apart(
        k,
        l,
    ) by {
        let ok = if k < i { k } else { k + 1 };
        let ol = if l < i { l } else { l + 1 };
        assert(page.slot_ok(ok));
        assert(page.slot_ok(ol));
        assert(page.apart(ok, ol));
        if ok < i {
            assert(page.apart(ok, i));
        } else {
            assert(page.apart(i, ok));
        }
        if ol < i {
            assert(page.apart(ol, i));
        } else {
            assert(page.apart(i, ol));
        }
    }
}

/// An accepted change of key keeps the page layout.
pub proof fn lemma_rekeyed_wf(page: PageView, i: int, key: ValueView)
    requires
        page.wf(),
        0 <= i < page.slots.len(),
        page.rekey_error(i, key) is None,
    ensures
        page.rekeyed(i, key).wf(),
{
    let after = page.rekeyed(i, key);
    lemma_slots_len_update(page.slots, i, SlotView { key, pointer: page.slots[i].pointer });
    assert(page.slot_ok(i));
    assert(page.slot_ok(0));
    assert forall|k: int| 0 <= k < after.slots.len() implies #[trigger] after.slot_ok(k) by {
        assert(page.slot_ok(k));
    }
    assert forall|k: int, l: int| 0 <= k < l < after.slots.len() implies #[trigger] after.apart(
        k,
        l,
    ) by {
        assert(page.apart(k, l));
    }
}


impl Clone for Slot {
    fn clone(&self) -> (copy: Slot)
        ensures
            copy == *self,
    {
        Slot { value: self.value.clone(), pointer: self.pointer }
    }
}

impl Clone for Rows {
    fn clone(&self) -> (copy: Rows)
        ensures
            copy@ == self@,
            copy.values@ == self.values@,
    {
        Rows { size: self.size, values: clone_values(&self.values) }
    }
}

/// Bytes that `row` takes when stored, if they are at most 255.
pub fn row_size(row: &Vec<Value>) -> (size: Option<u8>)
    ensures
        size == (if row_len(values_view(row@)) <= 255 {
            Some(row_len(values_view(row@)) as u8)
        } else {
            None::<u8>
        }),
{
    let ghost all = values_view(row@);
    let mut total: usize = 0;
    let mut i: usize = 0;
    while i < row.len()
        invariant
            i <= row.len(),
            all == values_view(row@),
            total == row_len(all.take(i as int)),
            total <= 255,
        decreases row.len() - i,
    {
        let n: usize = row[i].stored_len();
        proof {
            assert(all.take(i + 1) =~= all.take(i as int).push(all[i as int]));
            lemma_row_push(all.take(i as int), all[i as int]);
            lemma_row_len_grows(all, i + 1);
        }
        if total + n > 255 {
            return None;
        }
        total = total + n;
        i += 1;
    }
    assert(all.take(i as int) =~= all);
    Some(total as u8)
}

/// A row takes at least as many bytes as any of its prefixes.
pub proof fn lemma_row_len_grows(values: Seq<ValueView>, n: int)
    requires
        0 <= n <= values.len(),
    ensures
        0 <= row_len(values.take(n)) <= row_len(values),
    decreases values.len() - n,
{
    lemma_row_len_nonneg(values.take(n));
    if n == values.len() {
        assert(values.take(n) =~= values);
    } else {
        lemma_row_len_grows(values, n + 1);
        assert(values.take(n + 1).drop_last() =~= values.take(n));
    }
}

pub proof fn lemma_row_len_nonneg(values: Seq<ValueView>)
    ensures
        values.len() <= row_len(values),
    decreases values.len(),
{
    if values.len() > 0 {
        lemma_row_len_nonneg(values.drop_last());
    }
}

/// Whether every value of `row` carries its true length.
pub fn values_wf(row: &Vec<Value>) -> (ok: bool)
    ensures
        ok == row_wf(values_view(row@)),
{
    let mut i: usize = 0;
    while i < row.len()
        invariant
            i <= row.len(),
            forall|j: int| 0 <= j < i ==> (#[trigger] values_view(row@)[j]).wf(),
        decreases row.len() - i,
    {
        if !row[i].is_wf() {
            assert(!values_view(row@)[i as int].wf());
            return false;
        }
        i += 1;
    }
    true
}

impl Page {
    /// An empty leaf page.
    pub fn new_leaf() -> (page: Page)
        ensures
            page@ == PageView::empty_leaf(),
            page@.wf(),
    {
        let page = Page {
            page_type: NodeType::Leaf(Vec::new()),
            free_space_pointer: 4093,
            slots: Vec::new(),
            cells: HashMap::new(),
        };
        assert(page@.slots =~= Seq::empty());
        assert(page@.cells =~= Map::empty());
        page
    }

    /// An empty internal page.
    pub fn new_internal() -> (page: Page)
        ensures
            page@ == PageView::empty_internal(),
            page@.wf(),
    {
        let page = Page {
            page_type: NodeType::Internal(Vec::new()),
            free_space_pointer: 4093,
            slots: Vec::new(),
            cells: HashMap::new(),
        };
        assert(page@.slots =~= Seq::empty());
        assert(page@.cells =~= Map::empty());
        page
    }

    /// Empties the page and gives it back all of its space.
    pub fn clean_page(&mut self)
        ensures
            final(self)@ == old(self)@.cleaned(),
            final(self)@.wf(),
    {
        self.slots = Vec::new();
        self.cells = HashMap::new();
        self.free_space_pointer = 4095;
        assert(self@.slots =~= Seq::empty());
        assert(self@.cells =~= Map::empty());
    }

    /// Whether the page is a leaf.
    pub fn is_leaf(&self) -> (leaf: bool)
        ensures
            leaf == self@.leaf,
    {
        match &self.page_type {
            NodeType::Leaf(_) => true,
            NodeType::Internal(_) => false,
        }
    }

    /// Bytes that the slot directory takes.
    pub fn dir_len(&self) -> (len: usize)
        requires
            self.slots.len() <= 255,
        ensures
            len == slots_len(self@.slots),
            len <= 258 * 255,
    {
        let ghost all = self@.slots;
        let mut len: usize = 0;
        let mut i: usize = 0;
        while i < self.slots.len()
            invariant
                i <= self.slots.len() <= 255,
                all == slots_view(self.slots@),
                len == slots_len(all.take(i as int)),
                len <= 258 * i,
            decreases self.slots.len() - i,
        {
            let n: usize = self.slots[i].value.stored_len();
            proof {
                assert(all.take(i + 1) =~= all.take(i as int).push(all[i as int]));
                lemma_slots_len_push(all.take(i as int), all[i as int]);
            }
            len = len + n + 2;
            i += 1;
        }
        assert(all.take(i as int) =~= all);
        len
    }

    /// Where a new key goes: before the first slot with a larger key.
    pub fn insert_position(&self, key: &Value) -> (at: usize)
        ensures
            at == insert_index(self@.slots, key@),
            at <= self.slots.len(),
    {
        let ghost all = self@.slots;
        let mut i: usize = 0;
        assert(all.skip(0) =~= all);
        while i < self.slots.len()
            invariant
                i <= self.slots.len(),
                all == slots_view(self.slots@),
                insert_index(all, key@) == i + insert_index(all.skip(i as int), key@),
            decreases self.slots.len() - i,
        {
            proof {
                assert(all.skip(i as int)[0] == all[i as int]);
                assert(all.skip(i as int).skip(1) =~= all.skip(i + 1));
            }
            if key.lt(&self.slots[i].value) {
                return i;
            }
            i += 1;
        }
        i
    }

    /// The first slot that holds `key`, or the number of slots.
    pub fn find(&self, key: &Value) -> (at: usize)
        ensures
            at == find_index(self@.slots, key@),
            at <= self.slots.len(),
    {
        let ghost all = self@.slots;
        let mut i: usize = 0;
        assert(all.skip(0) =~= all);
        while i < self.slots.len()
            invariant
                i <= self.slots.len(),
                all == slots_view(self.slots@),
                find_index(all, key@) == i + find_index(all.skip(i as int), key@),
            decreases self.slots.len() - i,
        {
            proof {
                assert(all.skip(i as int)[0] == all[i as int]);
                assert(all.skip(i as int).skip(1) =~= all.skip(i + 1));
            }
            if self.slots[i].value == *key {
                return i;
            }
            i += 1;
        }
        i
    }

    /// The slot that holds `key`, open to change.
    pub fn mut_slot(&mut self, key: Value) -> (slot: &mut Slot)
        requires
            find_index(old(self)@.slots, key@) < old(self)@.slots.len(),
        ensures
            *slot == old(self).slots@[find_index(old(self)@.slots, key@)],
            final(self).slots@ == old(self).slots@.update(
                find_index(old(self)@.slots, key@),
                *final(slot),
            ),
            final(self).page_type == old(self).page_type,
            final(self).free_space_pointer == old(self).free_space_pointer,
            final(self).cells == old(self).cells,
    {
        let idx: usize = self.find(&key);
        &mut self.slots[idx]
    }

    /// Puts `kv` into the page: its cell just below the free-space pointer, its
    /// slot before the first larger key. Nothing changes if it is refused.
    pub fn insert(&mut self, kv: KeyRow) -> (done: Result<(), StorageError>)
        ensures
            match done {
                Ok(()) => old(self)@.insert_error(kv@) is None && final(self)@ == old(self)@.inserted(
                    kv@,
                ),
                Err(e) => old(self)@.insert_error(kv@) == Some(e) && final(self)@ == old(self)@,
            },
            old(self)@.wf() ==> final(self)@.wf(),
    {
        if !kv.key.is_wf() || !values_wf(&kv.row) {
            return Err(StorageError::BadValue);
        }
        proof {
            lemma_row_len_nonneg(kv@.row);
        }
        let size: u8 = match row_size(&kv.row) {
            Some(size) => size,
            None => {
                return Err(StorageError::RowTooLarge);
            },
        };
        assert(self@.slots.len() > 0 ==> self@.slots[0].key == self.slots[0].value@);
        if self.slots.len() > 0 && kv.key.is_text() != self.slots[0].value.is_text() {
            return Err(StorageError::KeyKind);
        }
        assert(kv@.row.len() == kv.row.len());
        assert(kv.row.len() > 0 ==> kv@.row[0] == kv.row[0]@);
        if !self.is_leaf() && !(kv.row.len() == 1 && kv.row[0].pointer().is_some()) {
            return Err(StorageError::BadCell);
        }
        if self.slots.len() >= 255 {
            return Err(StorageError::PageFull);
        }
        let dir_end: usize = 5 + self.dir_len();
        let needed: usize = dir_end + kv.key.stored_len() + 2 + size as usize + 1;
        if needed >= self.free_space_pointer as usize {
            return Err(StorageError::PageFull);
        }
        let pointer: u16 = self.free_space_pointer - size as u16 - 1;
        let index: usize = self.insert_position(&kv.key);
        proof {
            if old(self)@.wf() {
                lemma_inserted_wf(old(self)@, kv@);
            }
        }
        let ghost slot_view = SlotView { key: kv.key@, pointer };
        let ghost rows_view = RowsView { size, values: values_view(kv.row@) };
        self.slots.insert(index, Slot { value: kv.key, pointer });
        self.cells.insert(pointer, Rows { size, values: kv.row });
        self.free_space_pointer = pointer;
        assert(self@.slots =~= old(self)@.slots.insert(index as int, slot_view));
        assert(self@.cells =~= old(self)@.cells.insert(pointer, rows_view));
        Ok(())
    }

    /// Takes slot `index` and the cell at its offset out of the page, and hands
    /// back what they held. Without a cell at that offset nothing is handed back.
    pub fn remove_at(&mut self, index: usize) -> (entry: Option<KeyRow>)
        requires
            index < old(self).slots.len(),
        ensures
            final(self)@ == old(self)@.removed(index as int),
            entry is Some == old(self)@.cells.contains_key(old(self)@.slots[index as int].pointer),
            entry matches Some(e) ==> e@ == old(self)@.entries()[index as int],
            old(self)@.wf() ==> final(self)@.wf(),
    {
        proof {
            if old(self)@.wf() {
                lemma_removed_wf(old(self)@, index as int);
            }
        }
        let slot: Slot = self.slots.remove(index);
        let cell: Option<Rows> = self.cells.remove(&slot.pointer);
        assert(self@.slots =~= old(self)@.slots.remove(index as int));
        assert(self@.cells =~= old(self)@.cells.remove(slot.pointer));
        match cell {
            Some(rows) => Some(KeyRow { key: slot.value, row: rows.values }),
            None => None,
        }
    }

    /// Takes the first slot that holds `key`, and its cell, out of the page.
    pub fn delete(&mut self, key: Value)
        ensures
            final(self)@ == old(self)@.deleted(key@),
            old(self)@.wf() ==> final(self)@.wf(),
    {
        let index: usize = self.find(&key);
        if index < self.slots.len() {
            let _ = self.remove_at(index);
        }
    }

    /// Replaces the key of slot `index`. Nothing changes if it is refused.
    pub fn set_key(&mut self, index: usize, key: Value) -> (done: Result<(), StorageError>)
        requires
            index < old(self).slots.len() <= 255,
        ensures
            match done {
                Ok(()) => old(self)@.rekey_error(index as int, key@) is None && final(self)@ == old(self)@.rekeyed(index as int, key@),
                Err(e) => old(self)@.rekey_error(index as int, key@) == Some(e) && final(self)@
                    == old(self)@,
            },
            old(self)@.wf() ==> final(self)@.wf(),
    {
        if !key.is_wf() {
            return Err(StorageError::BadValue);
        }
        if key.is_text() != self.slots[index].value.is_text() {
            return Err(StorageError::KeyKind);
        }
        let dir_end: usize = 5 + self.dir_len();
        proof {
            lemma_slots_len_remove(self@.slots, index as int);
            lemma_slots_len_bounds(self@.slots.remove(index as int));
        }
        if dir_end - self.slots[index].value.stored_len() + key.stored_len()
            >= self.free_space_pointer as usize {
            return Err(StorageError::PageFull);
        }
        proof {
            if old(self)@.wf() {
                lemma_rekeyed_wf(old(self)@, index as int, key@);
            }
        }
        let pointer: u16 = self.slots[index].pointer;
        let ghost slot_view = SlotView { key: key@, pointer };
        self.slots.set(index, Slot { value: key, pointer });
        assert(self@.slots =~= old(self)@.slots.update(index as int, slot_view));
        Ok(())
    }

    /// The keys with their rows, in slot order; nothing if a slot has no cell.
    pub fn entries(&self) -> (out: Option<Vec<KeyRow>>)
        ensures
            out is Some == (forall|i: int|
                0 <= i < self@.slots.len() ==> self@.cells.contains_key(
                    (#[trigger] self@.slots[i]).pointer,
                )),
            out matches Some(list) ==> keyrows_view(list@) == self@.entries(),
    {
        let mut list: Vec<KeyRow> = Vec::new();
        let mut i: usize = 0;
        while i < self.slots.len()
            invariant
                i <= self.slots.len(),
                list.len() == i,
                forall|j: int|
                    0 <= j < i ==> self@.cells.contains_key((#[trigger] self@.slots[j]).pointer),
                forall|j: int| 0 <= j < i ==> (#[trigger] list@[j])@ == self@.entries()[j],
            decreases self.slots.len() - i,
        {
            match self.cells.get(&self.slots[i].pointer) {
                Some(rows) => {
                    let entry = KeyRow {
                        key: self.slots[i].value.clone(),
                        row: clone_values(&rows.values),
                    };
                    list.push(entry);
                },
                None => {
                    assert(!self@.cells.contains_key(self@.slots[i as int].pointer));
                    return None;
                },
            }
            i += 1;
        }
        assert(keyrows_view(list@) =~= self@.entries());
        Some(list)
    }
}

} // verus!
