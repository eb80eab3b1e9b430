//! Pages as tree nodes: a kind and a list of keys with their rows, whatever
//! the place of the cells in the page. Room in a page is counted over the
//! node: a page that is short of room in one piece is packed first.

use vstd::prelude::*;
use std::collections::HashMap;
use crate::error::StorageError;
use crate::value::Value;
use crate::value::ValueView;
use crate::value::KeyRow;
use crate::value::KeyRowView;
use crate::value::row_len;
use crate::value::row_wf;
use crate::pages::Page;
use crate::pages::PageView;
use crate::pages::Slot;
use crate::pages::SlotView;
use crate::pages::Rows;
use crate::pages::RowsView;
use crate::pages::cells_view;
use crate::pages::slots_len;
use crate::pages::insert_index;
use crate::pages::find_index;
use crate::pages::row_size;
use crate::pages::values_wf;
use crate::pages::lemma_slots_len_bounds;
use crate::pages::lemma_insert_index;
use crate::pages::lemma_inserted_wf;
use crate::pages::lemma_row_len_nonneg;

verus! {

/// Bytes of a page that hold nodes' entries: all but one of 4096.
pub const NODE_ROOM: usize = 4095;

/// What a page means to the tree: its kind, and its keys with their rows.
#[verifier::ext_equal]
pub struct NodeView {
    pub leaf: bool,
    pub entries: Seq<KeyRowView>,
}

/// Bytes that an entry takes in a page: its key and cell offset in the slot
/// directory, and its cell.
pub open spec fn entry_bytes(e: KeyRowView) -> int {
    e.key.stored_len() + 3 + row_len(e.row)
}

/// Bytes that entries take in a page.
pub open spec fn entries_bytes(entries: Seq<KeyRowView>) -> int
    decreases entries.len(),
{
    if entries.len() == 0 {
        0
    } else {
        entries_bytes(entries.drop_last()) + entry_bytes(entries.last())
    }
}

/// Where a new key goes among sorted entries: before the first larger key,
/// else at the end.
pub open spec fn entry_index(entries: Seq<KeyRowView>, key: ValueView) -> int
    decreases entries.len(),
{
    if entries.len() == 0 {
        0
    } else if key.lt(entries[0].key) {
        0
    } else {
        1 + entry_index(entries.skip(1), key)
    }
}

/// The first entry with the key `key`, or the number of entries.
pub open spec fn entry_find(entries: Seq<KeyRowView>, key: ValueView) -> int
    decreases entries.len(),
{
    if entries.len() == 0 {
        0
    } else if entries[0].key == key {
        0
    } else {
        1 + entry_find(entries.skip(1), key)
    }
}

impl NodeView {
    /// Bytes that the node takes in a page, the five bytes of the head
    /// included.
    pub open spec fn bytes(self) -> int {
        5 + entries_bytes(self.entries)
    }

    /// Why `e` cannot be put into the node, if it cannot.
    pub open spec fn put_error(self, e: KeyRowView) -> Option<StorageError> {
        if !e.key.wf() || !row_wf(e.row) {
            Some(StorageError::BadValue)
        } else if row_len(e.row) > 255 {
            Some(StorageError::RowTooLarge)
        } else if self.entries.len() > 0 && e.key.is_text() != self.entries[0].key.is_text() {
            Some(StorageError::KeyKind)
        } else if !self.leaf && !(e.row.len() == 1 && e.row[0] is Number) {
            Some(StorageError::BadCell)
        } else if self.entries.len() >= 255 || self.bytes() + entry_bytes(e) >= 4095 {
            Some(StorageError::PageFull)
        } else {
            None
        }
    }

    /// The node with `e` before the first larger key.
    pub open spec fn put(self, e: KeyRowView) -> NodeView {
        NodeView { leaf: self.leaf, entries: self.entries.insert(entry_index(self.entries, e.key), e) }
    }

    /// The node without entry `i`.
    pub open spec fn without(self, i: int) -> NodeView {
        NodeView { leaf: self.leaf, entries: self.entries.remove(i) }
    }

    /// Why the key of entry `i` cannot be replaced by `key`, if it cannot.
    pub open spec fn rekey_error(self, i: int, key: ValueView) -> Option<StorageError> {
        if !key.wf() {
            Some(StorageError::BadValue)
        } else if key.is_text() != self.entries[i].key.is_text() {
            Some(StorageError::KeyKind)
        } else if self.bytes() - self.entries[i].key.stored_len() + key.stored_len() >= 4095 {
            Some(StorageError::PageFull)
        } else {
            None
        }
    }

    /// The node with the key of entry `i` replaced by `key`.
    pub open spec fn rekeyed(self, i: int, key: ValueView) -> NodeView {
        NodeView {
            leaf: self.leaf,
            entries: self.entries.update(i, KeyRowView { key, row: self.entries[i].row }),
        }
    }

    /// Every row of a leaf has one value per column of type 2 or 7, a number
    /// under 2 and a text under 7.
    pub open spec fn conforms(self, types: Seq<u8>) -> bool {
        self.leaf ==> forall|i: int|
            0 <= i < self.entries.len() ==> crate::codec::values_shape((#[trigger] self.entries[i]).row)
                == crate::codec::row_shape(types)
    }

    /// What holds of every node that a sound page holds: at most 255 entries,
    /// sound keys of one kind, sound rows of at most 255 bytes, and in an
    /// internal node one page id per row.
    pub open spec fn sound(self) -> bool {
        &&& self.entries.len() <= 255
        &&& forall|i: int|
            0 <= i < self.entries.len() ==> {
                let e = #[trigger] self.entries[i];
                &&& e.key.wf()
                &&& e.key.is_text() == self.entries[0].key.is_text()
                &&& row_wf(e.row)
                &&& row_len(e.row) <= 255
                &&& (!self.leaf ==> e.row.len() == 1 && e.row[0] is Number)
            }
    }
}

impl PageView {
    /// The page as a tree node.
    pub open spec fn node(self) -> NodeView {
        NodeView { leaf: self.leaf, entries: self.entries() }
    }

    /// Bytes that the cells of the first `n` slots take.
    pub open spec fn cells_len(self, n: int) -> int
        decreases n,
    {
        if n <= 0 {
            0
        } else {
            self.cells_len(n - 1) + 1 + self.row(n - 1).size
        }
    }

    /// Where the cell of slot `k` lies once the cells are packed against the
    /// end of the page, in slot order.
    pub open spec fn packed_pointer(self, k: int) -> u16 {
        (4095 - self.cells_len(k + 1)) as u16
    }

    /// The cells of the first `n` slots under their packed offsets.
    pub open spec fn packed_cells(self, n: int) -> Map<u16, RowsView>
        decreases n,
    {
        if n <= 0 {
            Map::empty()
        } else {
            self.packed_cells(n - 1).insert(self.packed_pointer(n - 1), self.row(n - 1))
        }
    }

    /// The page with its cells packed against the end of the page, in slot
    /// order, and the free-space pointer at the lowest of them.
    pub open spec fn packed(self) -> PageView {
        PageView {
            leaf: self.leaf,
            free_space_pointer: (4095 - self.cells_len(self.slots.len() as int)) as u16,
            slots: Seq::new(
                self.slots.len(),
                |k: int| SlotView { key: self.slots[k].key, pointer: self.packed_pointer(k) },
            ),
            cells: self.packed_cells(self.slots.len() as int),
        }
    }
}

pub proof fn lemma_entries_bytes_remove(entries: Seq<KeyRowView>, i: int)
    requires
        0 <= i < entries.len(),
    ensures
        entries_bytes(entries.remove(i)) == entries_bytes(entries) - entry_bytes(entries[i]),
    decreases entries.len(),
{
    if i == entries.len() - 1 {
        assert(entries.remove(i) =~= entries.drop_last());
    } else {
        lemma_entries_bytes_remove(entries.drop_last(), i);
        assert(entries.remove(i).drop_last() =~= entries.drop_last().remove(i));
        assert(entries.remove(i).last() == entries.last());
    }
}

/// The bytes of a sound page's node are those of its slot directory and cells.
pub proof fn lemma_node_bytes(page: PageView, n: int)
    requires
        page.wf(),
        0 <= n <= page.slots.len(),
    ensures
        entries_bytes(page.entries().take(n)) == slots_len(page.slots.take(n)) + page.cells_len(n),
        0 <= page.cells_len(n) <= 256 * n,
        0 <= slots_len(page.slots.take(n)),
    decreases n,
{
    lemma_slots_len_bounds(page.slots.take(n));
    if n > 0 {
        lemma_node_bytes(page, n - 1);
        assert(page.entries().take(n).drop_last() =~= page.entries().take(n - 1));
        assert(page.slots.take(n).drop_last() =~= page.slots.take(n - 1));
        assert(page.slot_ok(n - 1));
        lemma_row_len_nonneg(page.row(n - 1).values);
    }
}

/// The place of a new key is the same among the slots and among the entries.
pub proof fn lemma_entry_index(page: PageView, key: ValueView, n: int)
    requires
        0 <= n <= page.slots.len(),
    ensures
        entry_index(page.entries().skip(n), key) == insert_index(page.slots.skip(n), key),
        entry_find(page.entries().skip(n), key) == find_index(page.slots.skip(n), key),
    decreases page.slots.len() - n,
{
    if n < page.slots.len() {
        lemma_entry_index(page, key, n + 1);
        assert(page.entries().skip(n).skip(1) =~= page.entries().skip(n + 1));
        assert(page.slots.skip(n).skip(1) =~= page.slots.skip(n + 1));
        assert(page.entries().skip(n)[0].key == page.slots.skip(n)[0].key);
    }
}

/// The node of a sound page is sound.
pub proof fn lemma_node_sound(page: PageView)
    requires
        page.wf(),
    ensures
        page.node().sound(),
{
    assert forall|i: int| 0 <= i < page.node().entries.len() implies {
        let e = #[trigger] page.node().entries[i];
        &&& e.key.wf()
        &&& e.key.is_text() == page.node().entries[0].key.is_text()
        &&& row_wf(e.row)
        &&& row_len(e.row) <= 255
        &&& (!page.node().leaf ==> e.row.len() == 1 && e.row[0] is Number)
    } by {
        assert(page.slot_ok(i));
        assert(page.slot_ok(0));
    }
}

/// An insert into a sound page puts the entry into its node.
pub proof fn lemma_inserted_node(page: PageView, e: KeyRowView)
    requires
        page.wf(),
        page.insert_error(e) is None,
    ensures
        page.inserted(e).node() == page.node().put(e),
        page.inserted(e).wf(),
{
    lemma_inserted_wf(page, e);
    lemma_insert_index(page.slots, e.key);
    lemma_entry_index(page, e.key, 0);
    assert(page.entries().skip(0) =~= page.entries());
    assert(page.slots.skip(0) =~= page.slots);
    lemma_row_len_nonneg(e.row);
    lemma_slots_len_bounds(page.slots);
    let at = insert_index(page.slots, e.key);
    let after = page.inserted(e);
    assert(after.entries() =~= page.entries().insert(at, e)) by {
        assert forall|i: int| 0 <= i < after.slots.len() implies after.entries()[i]
            == page.entries().insert(at, e)[i] by {
            if i < at {
                assert(page.slot_ok(i));
            } else if i > at {
                assert(page.slot_ok(i - 1));
            }
        }
    }
}

/// Taking a slot out of a sound page takes its entry out of the node.
pub proof fn lemma_removed_node(page: PageView, i: int)
    requires
        page.wf(),
        0 <= i < page.slots.len(),
    ensures
        page.removed(i).node() == page.node().without(i),
{
    let after = page.removed(i);
    assert(after.entries() =~= page.entries().remove(i)) by {
        assert forall|k: int| 0 <= k < after.slots.len() implies after.entries()[k]
            == page.entries().remove(i)[k] by {
            let o = if k < i { k } else { k + 1 };
            assert(page.slot_ok(o));
            assert(page.slot_ok(i));
            if o < i {
                assert(page.apart(o, i));
            } else {
                assert(page.apart(i, o));
            }
        }
    }
}

/// A change of key in a page changes that key in the node.
pub proof fn lemma_rekeyed_node(page: PageView, i: int, key: ValueView)
    requires
        0 <= i < page.slots.len(),
    ensures
        page.rekeyed(i, key).node() == page.node().rekeyed(i, key),
{
    assert(page.rekeyed(i, key).entries() =~= page.node().rekeyed(i, key).entries);
}

/// Where each packed cell lies, and that the packed cells hold the rows.
pub proof fn lemma_packed_cells(page: PageView, n: int)
    requires
        page.wf(),
        0 <= n <= page.slots.len(),
        page.cells_len(page.slots.len() as int) < 4095,
    ensures
        forall|k: int|
            0 <= k < n ==> page.packed_cells(n).contains_key(#[trigger] page.packed_pointer(k))
                && page.packed_cells(n)[page.packed_pointer(k)] == page.row(k),
    decreases n,
{
    if n > 0 {
        lemma_packed_cells(page, n - 1);
        assert forall|k: int| 0 <= k < n implies page.packed_cells(n).contains_key(
            #[trigger] page.packed_pointer(k),
        ) && page.packed_cells(n)[page.packed_pointer(k)] == page.row(k) by {
            if k < n - 1 {
                lemma_cells_len_grows(page, k + 1, n);
                lemma_cells_len_grows(page, n, page.slots.len() as int);
                assert(page.slot_ok(n - 1));
            }
        }
    }
}

/// The cells of more slots take more bytes.
pub proof fn lemma_cells_len_grows(page: PageView, n: int, m: int)
    requires
        0 <= n <= m,
    ensures
        0 <= n <= page.cells_len(n) <= page.cells_len(m),
        m > n ==> page.cells_len(n) < page.cells_len(m),
    decreases m - n,
{
    lemma_cells_len_nonneg(page, n);
    if n < m {
        lemma_cells_len_grows(page, n + 1, m);
    }
}

pub proof fn lemma_cells_len_nonneg(page: PageView, n: int)
    requires
        0 <= n,
    ensures
        n <= page.cells_len(n),
    decreases n,
{
    if n > 0 {
        lemma_cells_len_nonneg(page, n - 1);
    }
}

proof fn lemma_slots_len_keys(a: Seq<SlotView>, b: Seq<SlotView>)
    requires
        a.len() == b.len(),
        forall|i: int| 0 <= i < a.len() ==> (#[trigger] a[i]).key == b[i].key,
    ensures
        slots_len(a) == slots_len(b),
    decreases a.len(),
{
    if a.len() > 0 {
        assert(a.last().key == b.last().key);
        assert forall|i: int| 0 <= i < a.drop_last().len() implies (#[trigger] a.drop_last()[i]).key
            == b.drop_last()[i].key by {
            assert(a.drop_last()[i] == a[i]);
            assert(b.drop_last()[i] == b[i]);
        }
        lemma_slots_len_keys(a.drop_last(), b.drop_last());
    }
}

/// A sound page whose node fits in a page stays sound when packed, keeps its
/// node, and has all its free room in one piece.
#[verifier::rlimit(50)]
pub proof fn lemma_packed(page: PageView)
    requires
        page.wf(),
        page.node().bytes() < 4095,
    ensures
        page.packed().wf(),
        page.packed().node() == page.node(),
        page.packed().free_space_pointer == 4095 - page.cells_len(page.slots.len() as int),
        page.packed().dir_end() + page.cells_len(page.slots.len() as int) == page.node().bytes(),
{
    let n = page.slots.len() as int;
    let after = page.packed();
    lemma_node_bytes(page, n);
    assert(page.entries().take(n) =~= page.entries());
    assert(page.slots.take(n) =~= page.slots);
    lemma_slots_len_keys(after.slots, page.slots);
    lemma_packed_cells(page, n);
    lemma_cells_len_grows(page, 0, n);
    assert forall|k: int| 0 <= k < n implies #[trigger] after.slot_ok(k) by {
        assert(page.slot_ok(k));
        assert(page.slot_ok(0));
        lemma_cells_len_grows(page, k + 1, n);
        lemma_cells_len_grows(page, 0, k);
        assert(after.slots[k].pointer == page.packed_pointer(k));
        assert(after.row(k) == page.row(k));
    }
    assert forall|i: int, j: int| 0 <= i < j < n implies #[trigger] after.apart(i, j) by {
        lemma_cells_len_grows(page, i + 1, j);
        lemma_cells_len_grows(page, j + 1, n);
        lemma_cells_len_grows(page, 0, i);
        assert(after.slots[i].pointer == page.packed_pointer(i));
        assert(after.slots[j].pointer == page.packed_pointer(j));
        assert(after.row(i) == page.row(i));
        assert(after.row(j) == page.row(j));
    }
    assert(after.entries() =~= page.entries()) by {
        assert forall|k: int| 0 <= k < n implies after.entries()[k] == page.entries()[k] by {
            assert(after.slots[k].pointer == page.packed_pointer(k));
            assert(after.row(k) == page.row(k));
        }
    }
}


/// A page matches the column types just when its node does.
pub proof fn lemma_conforms_node(page: PageView, types: Seq<u8>)
    ensures
        page.conforms(types) == page.node().conforms(types),
{
    if page.leaf {
        if page.conforms(types) {
            assert forall|i: int| 0 <= i < page.node().entries.len() implies crate::codec::values_shape(
                (#[trigger] page.node().entries[i]).row,
            ) == crate::codec::row_shape(types) by {
                assert(page.node().entries[i].row == page.row(i).values);
            }
        }
        if page.node().conforms(types) {
            assert forall|i: int| 0 <= i < page.slots.len() implies crate::codec::values_shape(
                #[trigger] page.row(i).values,
            ) == crate::codec::row_shape(types) by {
                assert(page.node().entries[i].row == page.row(i).values);
            }
        }
    }
}

impl Page {
    /// Bytes that the cells take.
    pub fn cells_bytes(&self) -> (len: usize)
        requires
            self@.wf(),
        ensures
            len == self@.cells_len(self@.slots.len() as int),
            len <= 256 * 255,
    {
        let mut len: usize = 0;
        let mut i: usize = 0;
        while i < self.slots.len()
            invariant
                i <= self.slots.len() <= 255,
                self@.wf(),
                len == self@.cells_len(i as int),
                len <= 256 * i,
            decreases self.slots.len() - i,
        {
            assert(self@.slot_ok(i as int));
            assert(self@.slots[i as int] == self.slots[i as int]@);
            match self.cells.get(&self.slots[i].pointer) {
                Some(rows) => {
                    assert(self@.row(i as int) == rows@);
                    len = len + 1 + rows.size as usize;
                },
                None => {},
            }
            i += 1;
        }
        len
    }

    /// Bytes that the page's node takes.
    pub fn node_bytes(&self) -> (len: usize)
        requires
            self@.wf(),
        ensures
            len == self@.node().bytes(),
            len <= 5 + 514 * 255,
    {
        proof {
            let n = self@.slots.len() as int;
            lemma_node_bytes(self@, n);
            assert(self@.entries().take(n) =~= self@.entries());
            assert(self@.slots.take(n) =~= self@.slots);
        }
        5 + self.dir_len() + self.cells_bytes()
    }

    /// Packs the cells against the end of the page, in slot order, so that all
    /// free room is in one piece. The keys and rows stay as they are. A page
    /// whose node takes more than a page can hold is left alone.
    #[verifier::rlimit(50)]
    pub fn vacuum(&mut self) -> (done: bool)
        requires
            old(self)@.wf(),
        ensures
            done == (old(self)@.node().bytes() < 4095),
            done ==> final(self)@ == old(self)@.packed(),
            !done ==> final(self)@ == old(self)@,
            final(self)@.wf(),
            final(self)@.node() == old(self)@.node(),
    {
        if self.node_bytes() >= NODE_ROOM {
            return false;
        }
        let ghost page = self@;
        let ghost n = page.slots.len() as int;
        proof {
            lemma_packed(page);
            lemma_cells_len_grows(page, 0, n);
            lemma_node_bytes(page, n);
            assert(page.entries().take(n) =~= page.entries());
            assert(page.slots.take(n) =~= page.slots);
        }
        let mut slots: Vec<Slot> = Vec::new();
        let mut cells: HashMap<u16, Rows> = HashMap::new();
        let mut next: usize = NODE_ROOM;
        let mut i: usize = 0;
        assert(cells_view(cells@) =~= page.packed_cells(0));
        while i < self.slots.len()
            invariant
                i <= self.slots.len(),
                page == self@,
                n == page.slots.len(),
                page.wf(),
                page.cells_len(n) < 4095,
                next == 4095 - page.cells_len(i as int),
                slots.len() == i,
                forall|k: int|
                    0 <= k < i ==> (#[trigger] slots@[k])@ == (SlotView {
                        key: page.slots[k].key,
                        pointer: page.packed_pointer(k),
                    }),
                cells_view(cells@) == page.packed_cells(i as int),
            decreases self.slots.len() - i,
        {
            proof {
                assert(page.slot_ok(i as int));
                assert(page.slots[i as int] == self.slots[i as int]@);
                lemma_cells_len_grows(page, i + 1, n);
                lemma_cells_len_grows(page, 0, i as int);
            }
            match self.cells.get(&self.slots[i].pointer) {
                Some(rows) => {
                    assert(page.row(i as int) == rows@);
                    let pointer: u16 = (next - 1 - rows.size as usize) as u16;
                    let ghost seen = cells_view(cells@);
                    let copy: Rows = rows.clone();
                    slots.push(Slot { value: self.slots[i].value.clone(), pointer });
                    cells.insert(pointer, copy);
                    assert(cells_view(cells@) =~= seen.insert(pointer, rows@));
                    next = pointer as usize;
                },
                None => {},
            }
            i += 1;
        }
        self.slots = slots;
        self.cells = cells;
        self.free_space_pointer = next as u16;
        assert(self@.slots =~= page.packed().slots);
        true
    }

    /// Puts `kv` into the page, before the first larger key. The page is packed
    /// first if it is short of room in one piece. Nothing changes if the entry
    /// is refused.
    #[verifier::rlimit(50)]
    pub fn put(&mut self, kv: KeyRow) -> (done: Result<(), StorageError>)
        requires
            old(self)@.wf(),
        ensures
            match done {
                Ok(()) => old(self)@.node().put_error(kv@) is None && final(self)@.node() == old(self)@.node().put(kv@),
                Err(e) => old(self)@.node().put_error(kv@) == Some(e) && final(self)@ == old(self)@,
            },
            final(self)@.wf(),
    {
        proof {
            lemma_row_len_nonneg(kv@.row);
        }
        if !kv.key.is_wf() || !values_wf(&kv.row) {
            return Err(StorageError::BadValue);
        }
        let size: u8 = match row_size(&kv.row) {
            Some(size) => size,
            None => {
                return Err(StorageError::RowTooLarge);
            },
        };
        assert(self@.slots.len() > 0 ==> self@.slots[0].key == self.slots[0].value@);
        assert(self@.slots.len() > 0 ==> self@.node().entries[0].key == self@.slots[0].key);
        if self.slots.len() > 0 && kv.key.is_text() != self.slots[0].value.is_text() {
            return Err(StorageError::KeyKind);
        }
        assert(kv@.row.len() == kv.row.len());
        assert(kv.row.len() > 0 ==> kv@.row[0] == kv.row[0]@);
        if !self.is_leaf() && !(kv.row.len() == 1 && kv.row[0].pointer().is_some()) {
            return Err(StorageError::BadCell);
        }
        if self.slots.len() >= 255 {
            return Err(StorageError::PageFull);
        }
        let bytes: usize = self.node_bytes();
        let entry: usize = kv.key.stored_len() + 3 + size as usize;
        if bytes + entry >= NODE_ROOM {
            return Err(StorageError::PageFull);
        }
        let dir_end: usize = 5 + self.dir_len();
        if dir_end + kv.key.stored_len() + 2 + size as usize + 1 >= self.free_space_pointer as usize {
            proof {
                lemma_packed(self@);
                lemma_cells_len_grows(self@, 0, self@.slots.len() as int);
            }
            let _ = self.vacuum();
        }
        proof {
            lemma_inserted_node(self@, kv@);
        }
        match self.insert(kv) {
            Ok(()) => Ok(()),
            Err(e) => Err(e),
        }
    }

    /// Replaces the key of slot `index`. The page is packed first if it is short
    /// of room in one piece. Nothing changes if the key is refused.
    #[verifier::rlimit(50)]
    pub fn rekey(&mut self, index: usize, key: Value) -> (done: Result<(), StorageError>)
        requires
            old(self)@.wf(),
            index < old(self).slots.len(),
        ensures
            match done {
                Ok(()) => old(self)@.node().rekey_error(index as int, key@) is None && final(self)@.node() == old(self)@.node().rekeyed(index as int, key@),
                Err(e) => old(self)@.node().rekey_error(index as int, key@) == Some(e) && final(self)@ == old(self)@,
            },
            final(self)@.wf(),
    {
        assert(self@.slots[index as int].key == self.slots[index as int].value@);
        assert(self@.node().entries[index as int].key == self@.slots[index as int].key);
        if !key.is_wf() {
            return Err(StorageError::BadValue);
        }
        if key.is_text() != self.slots[index].value.is_text() {
            return Err(StorageError::KeyKind);
        }
        let bytes: usize = self.node_bytes();
        let old_len: usize = self.slots[index].value.stored_len();
        proof {
            lemma_node_bytes(self@, self@.slots.len() as int);
            assert(self@.slots.take(self@.slots.len() as int) =~= self@.slots);
            assert(self@.entries().take(self@.slots.len() as int) =~= self@.entries());
            crate::pages::lemma_slots_len_remove(self@.slots, index as int);
            lemma_slots_len_bounds(self@.slots.remove(index as int));
            lemma_cells_len_grows(self@, 0, self@.slots.len() as int);
        }
        if bytes - old_len + key.stored_len() >= NODE_ROOM {
            return Err(StorageError::PageFull);
        }
        let dir_end: usize = 5 + self.dir_len();
        if dir_end - old_len + key.stored_len() >= self.free_space_pointer as usize {
            proof {
                lemma_packed(self@);
            }
            let _ = self.vacuum();
            assert(self@.slots[index as int].key == old(self)@.slots[index as int].key);
        }
        proof {
            lemma_rekeyed_node(self@, index as int, key@);
        }
        match self.set_key(index, key) {
            Ok(()) => Ok(()),
            Err(e) => Err(e),
        }
    }

    /// Takes slot `index` and its cell out of the page, and hands back the key
    /// and the row.
    pub fn take(&mut self, index: usize) -> (entry: KeyRow)
        requires
            old(self)@.wf(),
            index < old(self).slots.len(),
        ensures
            final(self)@.node() == old(self)@.node().without(index as int),
            entry@ == old(self)@.node().entries[index as int],
            final(self)@.wf(),
    {
        proof {
            lemma_removed_node(self@, index as int);
            assert(self@.slot_ok(index as int));
        }
        let ghost key = self@.slots[index as int].key;
        match self.remove_at(index) {
            Some(entry) => entry,
            None => KeyRow { key: Value::Number(0), row: Vec::new() },
        }
    }
}


/// The place of a new key lies among the entries: after entries that are not
/// larger, before one that is.
pub proof fn lemma_entry_index_bounds(entries: Seq<KeyRowView>, key: ValueView)
    ensures
        0 <= entry_index(entries, key) <= entries.len(),
        forall|j: int| 0 <= j < entry_index(entries, key) ==> !key.lt((#[trigger] entries[j]).key),
        entry_index(entries, key) < entries.len() ==> key.lt(entries[entry_index(entries, key)].key),
    decreases entries.len(),
{
    if entries.len() > 0 && !key.lt(entries[0].key) {
        lemma_entry_index_bounds(entries.skip(1), key);
        let rest = entry_index(entries.skip(1), key);
        assert forall|j: int| 0 <= j < 1 + rest implies !key.lt((#[trigger] entries[j]).key) by {
            if j > 0 {
                assert(entries[j] == entries.skip(1)[j - 1]);
            }
        }
        if rest < entries.skip(1).len() {
            assert(entries.skip(1)[rest] == entries[rest + 1]);
        }
    }
}

/// The first entry with a key is where the key is first found.
pub proof fn lemma_entry_find_bounds(entries: Seq<KeyRowView>, key: ValueView)
    ensures
        0 <= entry_find(entries, key) <= entries.len(),
        forall|j: int| 0 <= j < entry_find(entries, key) ==> (#[trigger] entries[j]).key != key,
        entry_find(entries, key) < entries.len() ==> entries[entry_find(entries, key)].key == key,
    decreases entries.len(),
{
    if entries.len() > 0 && entries[0].key != key {
        lemma_entry_find_bounds(entries.skip(1), key);
        let rest = entry_find(entries.skip(1), key);
        assert forall|j: int| 0 <= j < 1 + rest implies (#[trigger] entries[j]).key != key by {
            if j > 0 {
                assert(entries[j] == entries.skip(1)[j - 1]);
            }
        }
        if rest < entries.skip(1).len() {
            assert(entries.skip(1)[rest] == entries[rest + 1]);
        }
    }
}


impl NodeView {
    /// The node without entry `skip`, or the node itself if it has no such
    /// entry.
    pub open spec fn skipping(self, skip: int) -> NodeView {
        if 0 <= skip < self.entries.len() {
            self.without(skip)
        } else {
            self
        }
    }
}

impl Page {
    /// Why `kr` could not be put into the page once slot `skip` were taken out
    /// of it, if it could not. With `skip` past the last slot: why `kr` cannot
    /// be put into the page as it is.
    #[verifier::rlimit(50)]
    pub fn put_check(&self, skip: usize, kr: &KeyRow) -> (why: Option<StorageError>)
        requires
            self@.wf(),
        ensures
            why == self@.node().skipping(skip as int).put_error(kr@),
    {
        let ghost node = self@.node();
        let ghost rest = node.skipping(skip as int);
        proof {
            lemma_row_len_nonneg(kr@.row);
        }
        if !kr.key.is_wf() || !values_wf(&kr.row) {
            return Some(StorageError::BadValue);
        }
        let size: u8 = match row_size(&kr.row) {
            Some(size) => size,
            None => {
                return Some(StorageError::RowTooLarge);
            },
        };
        let count: usize = self.slots.len();
        let skipped: bool = skip < count;
        let left: usize = if skipped { count - 1 } else { count };
        if left > 0 {
            let first: usize = if skipped && skip == 0 { 1 } else { 0 };
            assert(self@.slots[first as int].key == self.slots[first as int].value@);
            assert(rest.entries[0] == node.entries[first as int]);
            if kr.key.is_text() != self.slots[first].value.is_text() {
                return Some(StorageError::KeyKind);
            }
        }
        assert(kr@.row.len() == kr.row.len());
        assert(kr.row.len() > 0 ==> kr@.row[0] == kr.row[0]@);
        if !self.is_leaf() && !(kr.row.len() == 1 && kr.row[0].pointer().is_some()) {
            return Some(StorageError::BadCell);
        }
        if left >= 255 {
            return Some(StorageError::PageFull);
        }
        let mut bytes: usize = self.node_bytes();
        if skipped {
            proof {
                lemma_entries_bytes_remove(node.entries, skip as int);
                assert(self@.slot_ok(skip as int));
                lemma_row_len_nonneg(self@.row(skip as int).values);
                lemma_entries_bytes_nonneg(rest.entries);
            }
            assert(self@.slots[skip as int] == self.slots[skip as int]@);
            match self.cells.get(&self.slots[skip].pointer) {
                Some(rows) => {
                    assert(self@.row(skip as int) == rows@);
                    bytes = bytes - (self.slots[skip].value.stored_len() + 3 + rows.size as usize);
                },
                None => {},
            }
        }
        if bytes + kr.key.stored_len() + 3 + size as usize >= NODE_ROOM {
            return Some(StorageError::PageFull);
        }
        None
    }

    /// Why the key of slot `index` cannot be replaced by `key`, if it cannot.
    pub fn rekey_check(&self, index: usize, key: &Value) -> (why: Option<StorageError>)
        requires
            self@.wf(),
            index < self.slots.len(),
        ensures
            why == self@.node().rekey_error(index as int, key@),
    {
        assert(self@.slots[index as int].key == self.slots[index as int].value@);
        assert(self@.node().entries[index as int].key == self@.slots[index as int].key);
        if !key.is_wf() {
            return Some(StorageError::BadValue);
        }
        if key.is_text() != self.slots[index].value.is_text() {
            return Some(StorageError::KeyKind);
        }
        let bytes: usize = self.node_bytes();
        let old_len: usize = self.slots[index].value.stored_len();
        proof {
            lemma_entries_bytes_remove(self@.node().entries, index as int);
            lemma_entries_bytes_nonneg(self@.node().entries.remove(index as int));
            lemma_row_len_nonneg(self@.node().entries[index as int].row);
        }
        if bytes - old_len + key.stored_len() >= NODE_ROOM {
            return Some(StorageError::PageFull);
        }
        None
    }
}

pub proof fn lemma_entries_bytes_nonneg(entries: Seq<KeyRowView>)
    ensures
        0 <= entries_bytes(entries),
    decreases entries.len(),
{
    if entries.len() > 0 {
        lemma_entries_bytes_nonneg(entries.drop_last());
        lemma_row_len_nonneg(entries.last().row);
    }
}

} // verus!
