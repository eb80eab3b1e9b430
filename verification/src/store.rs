//! The pool as a store of tree nodes: what the tree reads and writes, one node
//! at a time, whatever frames and file bytes stand behind it.

use vstd::prelude::*;
use crate::error::StorageError;
use crate::bytes::copy_range;
use crate::value::Value;
use crate::value::ValueView;
use crate::value::KeyRow;
use crate::value::KeyRowView;
use crate::value::keyrows_view;
use crate::pages::Page;
use crate::pages::PageView;
use crate::node::NodeView;
use crate::node::lemma_conforms_node;
use crate::node::lemma_node_sound;
use crate::codec::row_fits;
use crate::codec::row_shape;
use crate::codec::values_shape;
use crate::engine::freed;
use crate::buffer_manager::BufferPool;
use crate::buffer_manager::PoolView;
use crate::buffer_manager::frame_index;
use crate::buffer_manager::lemma_fetched;
use crate::buffer_manager::lemma_with_page;
use crate::buffer_manager::lemma_frame_index;
use crate::buffer_manager::lemma_index_same_ids;
use crate::buffer_manager::lemma_created;
use crate::buffer_manager::lemma_removed;

verus! {

/// The tree's view of a table: the nodes under their page ids, and what
/// decides the ids of new pages.
#[verifier::ext_equal]
pub struct TreeView {
    /// The pages that can be had, as nodes.
    pub nodes: Map<u32, NodeView>,
    /// The ids of the freed pages, the newest last.
    pub free: Seq<u32>,
    /// The number of pages ever given out at the end of the file.
    pub count: u32,
    /// The column types of the table.
    pub types: Seq<u8>,
    /// Bytes that the columns take in the table's header.
    pub column_number: u8,
}

impl PoolView {
    /// The pool as the tree sees it.
    pub open spec fn tree(self) -> TreeView {
        TreeView {
            nodes: Map::new(|id: u32| self.node(id) is Some, |id: u32| self.node(id)->0),
            free: self.file.free_page_list,
            count: self.file.page_id_count,
            types: self.file.column_types,
            column_number: self.file.column_number,
        }
    }
}

/// The node of no entries.
pub open spec fn empty_node(leaf: bool) -> NodeView {
    NodeView { leaf, entries: Seq::empty() }
}

/// The node that grows from `node` when the first `n` of `list` are put into
/// it one after another.
pub open spec fn put_all(node: NodeView, list: Seq<KeyRowView>, n: int) -> NodeView
    decreases n,
{
    if n <= 0 {
        node
    } else {
        put_all(node, list, n - 1).put(list[n - 1])
    }
}

/// Why the first `n` of `list` cannot be put into `node` one after another,
/// if they cannot: the reason for the first that is refused.
pub open spec fn put_all_error(node: NodeView, list: Seq<KeyRowView>, n: int) -> Option<
    StorageError,
>
    decreases n,
{
    if n <= 0 {
        None
    } else if put_all_error(node, list, n - 1) is Some {
        put_all_error(node, list, n - 1)
    } else {
        put_all(node, list, n - 1).put_error(list[n - 1])
    }
}

/// Whether every row of `list` matches the column types.
pub open spec fn rows_fit(list: Seq<KeyRowView>, types: Seq<u8>) -> bool {
    forall|i: int| 0 <= i < list.len() ==> values_shape((#[trigger] list[i]).row) == row_shape(types)
}

impl TreeView {
    /// The tree with `node` as page `id`.
    pub open spec fn with_node(self, id: u32, node: NodeView) -> TreeView {
        TreeView { nodes: self.nodes.insert(id, node), ..self }
    }

    /// Whether page `id` lies where this machine can address it.
    pub open spec fn in_reach(self, id: u32) -> bool {
        47 + self.column_number + 400 + id * 4096 + 4096 <= usize::MAX
    }

    /// The id that the next new page gets: the page freed last, or else the
    /// page count.
    pub open spec fn next_id(self) -> u32 {
        if self.free.len() > 0 {
            self.free.last()
        } else {
            self.count
        }
    }

    /// Whether a page can be created.
    pub open spec fn can_create(self) -> bool {
        self.in_reach(self.next_id()) && (self.free.len() == 0 ==> self.count < u32::MAX)
    }

    /// Why `e` cannot be put into node `id`, if it cannot.
    pub open spec fn put_error(self, id: u32, e: KeyRowView) -> Option<StorageError> {
        if !self.nodes.contains_key(id) {
            Some(StorageError::BrokenTree)
        } else if self.nodes[id].leaf && values_shape(e.row) != row_shape(self.types) {
            Some(StorageError::RowMismatch)
        } else {
            self.nodes[id].put_error(e)
        }
    }

    /// Why the key of entry `i` of node `id` cannot be replaced by `key`, if it
    /// cannot.
    pub open spec fn rekey_error(self, id: u32, i: int, key: ValueView) -> Option<StorageError> {
        if !self.nodes.contains_key(id) || i >= self.nodes[id].entries.len() {
            Some(StorageError::BrokenTree)
        } else {
            self.nodes[id].rekey_error(i, key)
        }
    }

    /// Why no node of the kind `leaf` with the entries `list` can be made, if
    /// none can.
    pub open spec fn build_error(self, leaf: bool, list: Seq<KeyRowView>) -> Option<StorageError> {
        if put_all_error(empty_node(leaf), list, list.len() as int) is Some {
            put_all_error(empty_node(leaf), list, list.len() as int)
        } else if leaf && !rows_fit(list, self.types) {
            Some(StorageError::RowMismatch)
        } else {
            None
        }
    }

    /// Why no new node of the kind `leaf` with the entries `list` can be
    /// created, if none can.
    pub open spec fn create_error(self, leaf: bool, list: Seq<KeyRowView>) -> Option<StorageError> {
        if self.build_error(leaf, list) is Some {
            self.build_error(leaf, list)
        } else if !self.can_create() {
            Some(StorageError::TooLarge)
        } else {
            None
        }
    }

    /// The tree after a node was created under the next id.
    pub open spec fn created(self, node: NodeView) -> TreeView {
        TreeView {
            nodes: self.nodes.insert(self.next_id(), node),
            free: if self.free.len() > 0 {
                self.free.drop_last()
            } else {
                self.free
            },
            count: if self.free.len() > 0 {
                self.count
            } else {
                (self.count + 1) as u32
            },
            ..self
        }
    }

    /// The tree after page `id` was freed.
    pub open spec fn removed(self, id: u32) -> TreeView {
        TreeView { nodes: self.nodes.remove(id), free: freed(self.free, id), ..self }
    }
}

/// Putting an entry that matches the column types into a node that matches
/// them gives a node that matches them.
pub proof fn lemma_put_conforms(node: NodeView, e: KeyRowView, types: Seq<u8>)
    requires
        node.conforms(types),
        node.leaf ==> values_shape(e.row) == row_shape(types),
    ensures
        node.put(e).conforms(types),
{
    crate::node::lemma_entry_index_bounds(node.entries, e.key);
    let at = crate::node::entry_index(node.entries, e.key);
    if node.leaf {
        assert forall|i: int| 0 <= i < node.put(e).entries.len() implies values_shape(
            (#[trigger] node.put(e).entries[i]).row,
        ) == row_shape(types) by {
            if i < at {
                assert(node.put(e).entries[i] == node.entries[i]);
            } else if i > at {
                assert(node.put(e).entries[i] == node.entries[i - 1]);
            }
        }
    }
}

/// A node without one of its entries still matches the column types; so does
/// a node with another key on one of its entries.
pub proof fn lemma_less_conforms(node: NodeView, i: int, key: ValueView, types: Seq<u8>)
    requires
        node.conforms(types),
        0 <= i < node.entries.len(),
    ensures
        node.without(i).conforms(types),
        node.rekeyed(i, key).conforms(types),
{
    if node.leaf {
        assert forall|k: int| 0 <= k < node.without(i).entries.len() implies values_shape(
            (#[trigger] node.without(i).entries[k]).row,
        ) == row_shape(types) by {
            let o = if k < i { k } else { k + 1 };
            assert(node.without(i).entries[k] == node.entries[o]);
        }
        assert forall|k: int| 0 <= k < node.rekeyed(i, key).entries.len() implies values_shape(
            (#[trigger] node.rekeyed(i, key).entries[k]).row,
        ) == row_shape(types) by {
            assert(node.rekeyed(i, key).entries[k].row == node.entries[k].row);
        }
    }
}

/// A tree and a pool of the same nodes and the same table bookkeeping are the
/// same tree.
pub proof fn lemma_same_tree(a: PoolView, b: PoolView)
    requires
        a.same_nodes(b),
        a.file.free_page_list == b.file.free_page_list,
        a.file.page_id_count == b.file.page_id_count,
    ensures
        a.tree() == b.tree(),
{
    assert(a.tree().nodes =~= b.tree().nodes);
}

/// A pool that differs from another in one node is the other's tree with that
/// node.
pub proof fn lemma_tree_with_node(a: PoolView, b: PoolView, id: u32, node: NodeView)
    requires
        a.node(id) == Some(node),
        forall|other: u32| other != id ==> #[trigger] a.node(other) == b.node(other),
        a.file.free_page_list == b.file.free_page_list,
        a.file.page_id_count == b.file.page_id_count,
        a.file.column_types == b.file.column_types,
        a.file.column_number == b.file.column_number,
    ensures
        a.tree() == b.tree().with_node(id, node),
{
    assert(a.tree().nodes =~= b.tree().nodes.insert(id, node));
}


/// Whether every row of `list` matches the column types.
pub fn all_rows_fit(list: &Vec<KeyRow>, types: &Vec<u8>) -> (ok: bool)
    ensures
        ok == rows_fit(keyrows_view(list@), types@),
{
    let mut i: usize = 0;
    while i < list.len()
        invariant
            i <= list.len(),
            forall|k: int|
                0 <= k < i ==> values_shape((#[trigger] keyrows_view(list@)[k]).row) == row_shape(
                    types@,
                ),
        decreases list.len() - i,
    {
        assert(keyrows_view(list@)[i as int] == list[i as int]@);
        if !row_fits(&list[i].row, types) {
            return false;
        }
        i += 1;
    }
    true
}

/// A node that grows from a node matching the column types by entries that
/// match them matches them.
pub proof fn lemma_put_all_conforms(node: NodeView, list: Seq<KeyRowView>, n: int, types: Seq<u8>)
    requires
        0 <= n <= list.len(),
        node.conforms(types),
        node.leaf ==> rows_fit(list, types),
    ensures
        put_all(node, list, n).conforms(types),
        put_all(node, list, n).leaf == node.leaf,
    decreases n,
{
    if n > 0 {
        lemma_put_all_conforms(node, list, n - 1, types);
        lemma_put_conforms(put_all(node, list, n - 1), list[n - 1], types);
    }
}

impl Page {
    /// A page of the kind `leaf` with the entries of `list`, put into it one
    /// after another.
    pub fn build(leaf: bool, list: &Vec<KeyRow>) -> (built: Result<Page, StorageError>)
        ensures
            match built {
                Ok(page) => put_all_error(
                    empty_node(leaf),
                    keyrows_view(list@),
                    list@.len() as int,
                ) is None && page@.node() == put_all(
                    empty_node(leaf),
                    keyrows_view(list@),
                    list@.len() as int,
                ) && page@.wf(),
                Err(e) => put_all_error(empty_node(leaf), keyrows_view(list@), list@.len() as int)
                    == Some(e),
            },
    {
        let ghost all = keyrows_view(list@);
        let mut page: Page = if leaf {
            Page::new_leaf()
        } else {
            Page::new_internal()
        };
        assert(page@.node() == empty_node(leaf)) by {
            assert(page@.entries() =~= Seq::<KeyRowView>::empty());
        }
        let mut i: usize = 0;
        while i < list.len()
            invariant
                i <= list.len(),
                all == keyrows_view(list@),
                page@.wf(),
                put_all_error(empty_node(leaf), all, i as int) is None,
                page@.node() == put_all(empty_node(leaf), all, i as int),
            decreases list.len() - i,
        {
            assert(all[i as int] == list[i as int]@);
            match page.put(list[i].clone()) {
                Ok(()) => {},
                Err(e) => {
                    proof {
                        lemma_put_all_fails(empty_node(leaf), all, i + 1, list@.len() as int);
                    }
                    return Err(e);
                },
            }
            i += 1;
        }
        Ok(page)
    }
}

/// Entries that cannot be put up to some point cannot be put beyond it, and
/// for the same reason.
pub proof fn lemma_put_all_fails(node: NodeView, list: Seq<KeyRowView>, n: int, m: int)
    requires
        0 <= n <= m,
        put_all_error(node, list, n) is Some,
    ensures
        put_all_error(node, list, m) == put_all_error(node, list, n),
    decreases m - n,
{
    if n < m {
        lemma_put_all_fails(node, list, n, m - 1);
    }
}

impl BufferPool {
    /// The column types of the table, copied out.
    pub fn column_types(&self) -> (types: Vec<u8>)
        ensures
            types@ == self@.types(),
    {
        let types: Vec<u8> = copy_range(
            self.file.column_types.as_slice(),
            0,
            self.file.column_types.len(),
        );
        assert(types@ =~= self.file.column_types@);
        types
    }

    /// The kind and the entries of node `id`.
    #[verifier::rlimit(50)]
    pub fn read_node(&mut self, id: u32) -> (read: Result<(bool, Vec<KeyRow>), StorageError>)
        requires
            old(self).wf(),
        ensures
            final(self).wf(),
            final(self)@.tree() == old(self)@.tree(),
            match read {
                Ok((leaf, list)) => old(self)@.tree().nodes.contains_key(id) && old(self)@.tree().nodes[id] == (NodeView { leaf, entries: keyrows_view(list@) })
                    && old(self)@.tree().nodes[id].sound(),
                Err(e) => !old(self)@.tree().nodes.contains_key(id) && e == StorageError::BrokenTree,
            },
    {
        let out = match self.get(id) {
            Ok(page) => {
                proof {
                    lemma_node_sound(page@);
                }
                match page.entries() {
                    Some(list) => {
                        assert(forall|i: int|
                            0 <= i < page@.slots.len() ==> page@.cells.contains_key(
                                (#[trigger] page@.slots[i]).pointer,
                            ));
                        Ok((page.is_leaf(), list))
                    },
                    None => {
                        assert forall|i: int| 0 <= i < page@.slots.len() implies page@.cells.contains_key(
                            (#[trigger] page@.slots[i]).pointer,
                        ) by {
                            assert(page@.slot_ok(i));
                        }
                        Err(StorageError::BrokenTree)
                    },
                }
            },
            Err(_) => Err(StorageError::BrokenTree),
        };
        proof {
            lemma_same_tree(self@, old(self)@);
        }
        out
    }

    /// Puts `kr` into node `id`, before the first larger key. Nothing changes
    /// if it is refused.
    #[verifier::rlimit(50)]
    pub fn put_entry(&mut self, id: u32, kr: KeyRow) -> (done: Result<(), StorageError>)
        requires
            old(self).wf(),
        ensures
            final(self).wf(),
            match done {
                Ok(()) => old(self)@.tree().put_error(id, kr@) is None && final(self)@.tree() == old(self)@.tree().with_node(id, old(self)@.tree().nodes[id].put(kr@)),
                Err(e) => old(self)@.tree().put_error(id, kr@) == Some(e) && final(self)@.tree()
                    == old(self)@.tree(),
            },
    {
        let types: Vec<u8> = self.column_types();
        let ghost start = self@;
        let ghost mid = start.fetched(id, true);
        let ghost at = frame_index(mid.frames, id);
        proof {
            if start.fetch_error(id) is None {
                lemma_fetched(start, id, true);
                lemma_frame_index(mid.frames, id);
                assert(mid.frame_ok(at));
                lemma_conforms_node(mid.frames[at].page, start.types());
            }
        }
        let page: &mut Page = match self.get_mut(id) {
            Ok(page) => page,
            Err(_) => {
                return Err(StorageError::BrokenTree);
            },
        };
        let ghost before = page@;
        let done = if page.is_leaf() && !row_fits(&kr.row, &types) {
            Err(StorageError::RowMismatch)
        } else {
            page.put(kr)
        };
        proof {
            let after = mid.with_page(at, self@.frames[at].page);
            assert(self@ == after);
            let now = self@.frames[at].page;
            if done is Ok {
                lemma_put_conforms(before.node(), kr@, start.types());
            }
            lemma_conforms_node(now, start.types());
            lemma_with_page(mid, at, now);
            lemma_index_same_ids(self.table@, mid.frames, self@.frames);
            if done is Ok {
                lemma_tree_with_node(self@, mid, id, now.node());
                lemma_same_tree(mid, start);
            } else {
                assert(self@.frames =~= mid.frames);
                lemma_same_tree(self@, start);
            }
        }
        done
    }
}


impl TreeView {
    /// Why entry `i` cannot be taken out of node `id`, if it cannot.
    pub open spec fn take_error(self, id: u32, i: int) -> Option<StorageError> {
        if !self.nodes.contains_key(id) || i >= self.nodes[id].entries.len() {
            Some(StorageError::BrokenTree)
        } else {
            None
        }
    }

    /// Why node `id` cannot become a node of the kind `leaf` with the entries
    /// `list`, if it cannot.
    pub open spec fn set_error(self, id: u32, leaf: bool, list: Seq<KeyRowView>) -> Option<
        StorageError,
    > {
        if self.build_error(leaf, list) is Some {
            self.build_error(leaf, list)
        } else if !self.nodes.contains_key(id) {
            Some(StorageError::BrokenTree)
        } else {
            None
        }
    }

    /// The node of the kind `leaf` that grows from the entries `list`.
    pub open spec fn built(leaf: bool, list: Seq<KeyRowView>) -> NodeView {
        put_all(empty_node(leaf), list, list.len() as int)
    }
}

impl BufferPool {
    /// Takes entry `index` out of node `id` and hands it back. Nothing changes
    /// if there is no such entry.
    #[verifier::rlimit(50)]
    pub fn take_entry(&mut self, id: u32, index: usize) -> (taken: Result<KeyRow, StorageError>)
        requires
            old(self).wf(),
        ensures
            final(self).wf(),
            match taken {
                Ok(entry) => old(self)@.tree().take_error(id, index as int) is None && entry@ == old(self)@.tree().nodes[id].entries[index as int] && final(self)@.tree() == old(self)@.tree().with_node(id, old(self)@.tree().nodes[id].without(index as int)),
                Err(e) => old(self)@.tree().take_error(id, index as int) == Some(e) && final(self)@.tree() == old(self)@.tree(),
            },
    {
        let ghost start = self@;
        let ghost mid = start.fetched(id, true);
        let ghost at = frame_index(mid.frames, id);
        proof {
            if start.fetch_error(id) is None {
                lemma_fetched(start, id, true);
                lemma_frame_index(mid.frames, id);
                assert(mid.frame_ok(at));
                lemma_conforms_node(mid.frames[at].page, start.types());
            }
        }
        let page: &mut Page = match self.get_mut(id) {
            Ok(page) => page,
            Err(_) => {
                return Err(StorageError::BrokenTree);
            },
        };
        let ghost before = page@;
        let taken = if index < page.slots.len() {
            Ok(page.take(index))
        } else {
            Err(StorageError::BrokenTree)
        };
        proof {
            let now = self@.frames[at].page;
            assert(self@ == mid.with_page(at, now));
            if taken is Ok {
                lemma_less_conforms(before.node(), index as int, ValueView::Number(0), start.types());
            }
            lemma_conforms_node(now, start.types());
            lemma_with_page(mid, at, now);
            lemma_index_same_ids(self.table@, mid.frames, self@.frames);
            if taken is Ok {
                lemma_tree_with_node(self@, mid, id, now.node());
                lemma_same_tree(mid, start);
            } else {
                assert(self@.frames =~= mid.frames);
                lemma_same_tree(self@, start);
            }
        }
        taken
    }

    /// Replaces the key of entry `index` of node `id`. Nothing changes if it is
    /// refused.
    #[verifier::rlimit(50)]
    pub fn rekey_entry(&mut self, id: u32, index: usize, key: Value) -> (done: Result<
        (),
        StorageError,
    >)
        requires
            old(self).wf(),
        ensures
            final(self).wf(),
            match done {
                Ok(()) => old(self)@.tree().rekey_error(id, index as int, key@) is None && final(self)@.tree() == old(self)@.tree().with_node(
                    id,
                    old(self)@.tree().nodes[id].rekeyed(index as int, key@),
                ),
                Err(e) => old(self)@.tree().rekey_error(id, index as int, key@) == Some(e) && final(self)@.tree() == old(self)@.tree(),
            },
    {
        let ghost start = self@;
        let ghost mid = start.fetched(id, true);
        let ghost at = frame_index(mid.frames, id);
        proof {
            if start.fetch_error(id) is None {
                lemma_fetched(start, id, true);
                lemma_frame_index(mid.frames, id);
                assert(mid.frame_ok(at));
                lemma_conforms_node(mid.frames[at].page, start.types());
            }
        }
        let page: &mut Page = match self.get_mut(id) {
            Ok(page) => page,
            Err(_) => {
                return Err(StorageError::BrokenTree);
            },
        };
        let ghost before = page@;
        let done = if index < page.slots.len() {
            page.rekey(index, key)
        } else {
            Err(StorageError::BrokenTree)
        };
        proof {
            let now = self@.frames[at].page;
            assert(self@ == mid.with_page(at, now));
            if done is Ok {
                lemma_less_conforms(before.node(), index as int, key@, start.types());
            }
            lemma_conforms_node(now, start.types());
            lemma_with_page(mid, at, now);
            lemma_index_same_ids(self.table@, mid.frames, self@.frames);
            if done is Ok {
                lemma_tree_with_node(self@, mid, id, now.node());
                lemma_same_tree(mid, start);
            } else {
                assert(self@.frames =~= mid.frames);
                lemma_same_tree(self@, start);
            }
        }
        done
    }

    /// Makes node `id` a node of the kind `leaf` with the entries of `list`, put
    /// into an empty page one after another. Nothing changes if it is refused.
    #[verifier::rlimit(50)]
    pub fn set_node(&mut self, id: u32, leaf: bool, list: &Vec<KeyRow>) -> (done: Result<
        (),
        StorageError,
    >)
        requires
            old(self).wf(),
        ensures
            final(self).wf(),
            match done {
                Ok(()) => old(self)@.tree().set_error(id, leaf, keyrows_view(list@)) is None
                    && final(self)@.tree() == old(self)@.tree().with_node(
                    id,
                    TreeView::built(leaf, keyrows_view(list@)),
                ),
                Err(e) => old(self)@.tree().set_error(id, leaf, keyrows_view(list@)) == Some(e)
                    && final(self)@.tree() == old(self)@.tree(),
            },
    {
        let types: Vec<u8> = self.column_types();
        let built: Page = match Page::build(leaf, list) {
            Ok(page) => page,
            Err(e) => {
                return Err(e);
            },
        };
        if leaf && !all_rows_fit(list, &types) {
            return Err(StorageError::RowMismatch);
        }
        let ghost start = self@;
        let ghost mid = start.fetched(id, true);
        let ghost at = frame_index(mid.frames, id);
        proof {
            if start.fetch_error(id) is None {
                lemma_fetched(start, id, true);
                lemma_frame_index(mid.frames, id);
            }
            lemma_put_all_conforms(
                empty_node(leaf),
                keyrows_view(list@),
                list@.len() as int,
                start.types(),
            );
            lemma_conforms_node(built@, start.types());
        }
        let page: &mut Page = match self.get_mut(id) {
            Ok(page) => page,
            Err(_) => {
                return Err(StorageError::BrokenTree);
            },
        };
        *page = built;
        proof {
            let now = self@.frames[at].page;
            assert(self@ == mid.with_page(at, now));
            lemma_with_page(mid, at, now);
            lemma_index_same_ids(self.table@, mid.frames, self@.frames);
            lemma_tree_with_node(self@, mid, id, now.node());
            lemma_same_tree(mid, start);
        }
        Ok(())
    }

    /// Creates a node of the kind `leaf` with the entries of `list`, put into an
    /// empty page one after another, and hands back the id of its page.
    /// Nothing changes if it is refused.
    #[verifier::rlimit(50)]
    pub fn create_node(&mut self, leaf: bool, list: &Vec<KeyRow>) -> (created: Result<
        u32,
        StorageError,
    >)
        requires
            old(self).wf(),
        ensures
            final(self).wf(),
            match created {
                Ok(id) => old(self)@.tree().create_error(leaf, keyrows_view(list@)) is None && id
                    == old(self)@.tree().next_id() && final(self)@.tree() == old(self)@.tree().created(TreeView::built(leaf, keyrows_view(list@))),
                Err(e) => old(self)@.tree().create_error(leaf, keyrows_view(list@)) == Some(e)
                    && final(self)@.tree() == old(self)@.tree(),
            },
    {
        let types: Vec<u8> = self.column_types();
        let built: Page = match Page::build(leaf, list) {
            Ok(page) => page,
            Err(e) => {
                return Err(e);
            },
        };
        if leaf && !all_rows_fit(list, &types) {
            return Err(StorageError::RowMismatch);
        }
        let ghost start = self@;
        proof {
            lemma_put_all_conforms(
                empty_node(leaf),
                keyrows_view(list@),
                list@.len() as int,
                start.types(),
            );
            lemma_conforms_node(built@, start.types());
            crate::codec::lemma_wf_writable(built@);
            if start.create_error(built@) is None {
                lemma_created(start, built@);
                lemma_tree_created(start, built@);
            }
        }
        match self.create_page(built) {
            Ok(id) => Ok(id),
            Err(e) => Err(e),
        }
    }

    /// Frees the page of node `id`. Nothing changes if it is refused.
    pub fn remove_node(&mut self, id: u32) -> (done: Result<(), StorageError>)
        requires
            old(self).wf(),
        ensures
            final(self).wf(),
            match done {
                Ok(()) => old(self)@.tree().in_reach(id) && final(self)@.tree() == old(self)@.tree().removed(id),
                Err(e) => !old(self)@.tree().in_reach(id) && e == StorageError::TooLarge && final(self)@.tree() == old(self)@.tree(),
            },
    {
        proof {
            lemma_removed(self@, id);
            lemma_tree_removed(self@, id);
        }
        self.remove_page(id)
    }
}

/// The tree of a pool in which a page was created.
pub proof fn lemma_tree_created(pool: PoolView, page: PageView)
    requires
        pool.wf(),
        pool.create_error(page) is None,
    ensures
        pool.created(page).tree() == pool.tree().created(page.node()),
        pool.tree().can_create(),
        pool.tree().next_id() == pool.file.next_id(),
{
    lemma_created(pool, page);
    let id = pool.file.next_id();
    let after = pool.created(page);
    crate::codec::lemma_image_len(page);
    crate::engine::lemma_page_created(pool.file, crate::codec::image(page));
    crate::buffer_manager::lemma_dropped(pool, id);
    let w = pool.dropped(id).with_file(pool.file.page_created(crate::codec::image(page)));
    crate::buffer_manager::lemma_fetched(w, id, true);
    assert(after.file == w.brought(id).file);
    lemma_brought_file(w, id);
    assert(after.tree().nodes =~= pool.tree().created(page.node()).nodes);
}

/// Bringing a page in leaves the table's bookkeeping alone.
pub proof fn lemma_brought_file(pool: PoolView, id: u32)
    requires
        pool.wf(),
    ensures
        pool.brought(id).file.free_page_list == pool.file.free_page_list,
        pool.brought(id).file.page_id_count == pool.file.page_id_count,
        pool.brought(id).file.column_types == pool.file.column_types,
        pool.brought(id).file.column_number == pool.file.column_number,
        pool.fetched(id, true).file == pool.brought(id).file,
        pool.fetched(id, false).file == pool.brought(id).file,
{
}

/// The tree of a pool in which a page was removed.
pub proof fn lemma_tree_removed(pool: PoolView, id: u32)
    requires
        pool.wf(),
    ensures
        pool.removed(id).tree() == pool.tree().removed(id),
        pool.tree().in_reach(id) == pool.file.in_reach(id),
{
    lemma_removed(pool, id);
    crate::engine::lemma_page_removed(pool.file, id);
    assert(pool.removed(id).tree().nodes =~= pool.tree().removed(id).nodes);
}


impl TreeView {
    /// Why `e` could not be put into node `id` once entry `skip` were taken out
    /// of it, if it could not.
    pub open spec fn put_error_skipping(self, id: u32, skip: int, e: KeyRowView) -> Option<
        StorageError,
    > {
        if !self.nodes.contains_key(id) {
            Some(StorageError::BrokenTree)
        } else if self.nodes[id].leaf && values_shape(e.row) != row_shape(self.types) {
            Some(StorageError::RowMismatch)
        } else {
            self.nodes[id].skipping(skip).put_error(e)
        }
    }
}

impl BufferPool {
    /// Why `kr` could not be put into node `id` once entry `skip` were taken out
    /// of it, if it could not. With `skip` past the last entry: why `kr` cannot
    /// be put into the node as it is. No node is changed.
    #[verifier::rlimit(50)]
    pub fn check_put(&mut self, id: u32, skip: usize, kr: &KeyRow) -> (why: Option<StorageError>)
        requires
            old(self).wf(),
        ensures
            final(self).wf(),
            final(self)@.tree() == old(self)@.tree(),
            why == old(self)@.tree().put_error_skipping(id, skip as int, kr@),
    {
        let types: Vec<u8> = self.column_types();
        let why = match self.get(id) {
            Ok(page) => {
                if page.is_leaf() && !row_fits(&kr.row, &types) {
                    Some(StorageError::RowMismatch)
                } else {
                    page.put_check(skip, kr)
                }
            },
            Err(_) => Some(StorageError::BrokenTree),
        };
        proof {
            lemma_same_tree(self@, old(self)@);
        }
        why
    }

    /// Why the key of entry `index` of node `id` cannot be replaced by `key`, if
    /// it cannot. No node is changed.
    #[verifier::rlimit(50)]
    pub fn check_rekey(&mut self, id: u32, index: usize, key: &Value) -> (why: Option<
        StorageError,
    >)
        requires
            old(self).wf(),
        ensures
            final(self).wf(),
            final(self)@.tree() == old(self)@.tree(),
            why == old(self)@.tree().rekey_error(id, index as int, key@),
    {
        let why = match self.get(id) {
            Ok(page) => {
                if index < page.slots.len() {
                    page.rekey_check(index, key)
                } else {
                    Some(StorageError::BrokenTree)
                }
            },
            Err(_) => Some(StorageError::BrokenTree),
        };
        proof {
            lemma_same_tree(self@, old(self)@);
        }
        why
    }
}

/// Every node that can be had lies where this machine can address it.
pub proof fn lemma_node_in_reach(pool: PoolView, id: u32)
    requires
        pool.wf(),
        pool.tree().nodes.contains_key(id),
    ensures
        pool.tree().in_reach(id),
{
    lemma_frame_index(pool.frames, id);
    if pool.resident(id) {
        assert(pool.frame_ok(frame_index(pool.frames, id)));
    }
}


impl BufferPool {
    /// A page of the kind `leaf` with the entries of `list`, put into an empty
    /// page one after another, fit to stand in this pool. No node is changed.
    pub fn build_node(&self, leaf: bool, list: &Vec<KeyRow>) -> (built: Result<Page, StorageError>)
        ensures
            match built {
                Ok(page) => self@.tree().build_error(leaf, keyrows_view(list@)) is None
                    && page@.node() == TreeView::built(leaf, keyrows_view(list@)) && page@.wf()
                    && page@.conforms(self@.types()),
                Err(e) => self@.tree().build_error(leaf, keyrows_view(list@)) == Some(e),
            },
    {
        let types: Vec<u8> = self.column_types();
        let built: Page = match Page::build(leaf, list) {
            Ok(page) => page,
            Err(e) => {
                return Err(e);
            },
        };
        if leaf && !all_rows_fit(list, &types) {
            return Err(StorageError::RowMismatch);
        }
        proof {
            lemma_put_all_conforms(
                empty_node(leaf),
                keyrows_view(list@),
                list@.len() as int,
                self@.types(),
            );
            lemma_conforms_node(built@, self@.types());
        }
        Ok(built)
    }

    /// Makes `page` the page of node `id`. Nothing changes if there is no such
    /// node.
    #[verifier::rlimit(50)]
    pub fn install_node(&mut self, id: u32, page: Page) -> (done: Result<(), StorageError>)
        requires
            old(self).wf(),
            page@.wf(),
            page@.conforms(old(self)@.types()),
        ensures
            final(self).wf(),
            match done {
                Ok(()) => old(self)@.tree().nodes.contains_key(id) && final(self)@.tree() == old(self)@.tree().with_node(id, page@.node()),
                Err(e) => !old(self)@.tree().nodes.contains_key(id) && e == StorageError::BrokenTree
                    && final(self)@.tree() == old(self)@.tree(),
            },
    {
        let ghost start = self@;
        let ghost mid = start.fetched(id, true);
        let ghost at = frame_index(mid.frames, id);
        proof {
            if start.fetch_error(id) is None {
                lemma_fetched(start, id, true);
                lemma_frame_index(mid.frames, id);
            }
        }
        let slot: &mut Page = match self.get_mut(id) {
            Ok(slot) => slot,
            Err(_) => {
                return Err(StorageError::BrokenTree);
            },
        };
        *slot = page;
        proof {
            let now = self@.frames[at].page;
            assert(self@ == mid.with_page(at, now));
            lemma_with_page(mid, at, now);
            lemma_index_same_ids(self.table@, mid.frames, self@.frames);
            lemma_tree_with_node(self@, mid, id, now.node());
            lemma_same_tree(mid, start);
        }
        Ok(())
    }
}

} // verus!
