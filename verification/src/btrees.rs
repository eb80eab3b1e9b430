//! The B+ tree: a sorted index over the nodes of a table. The root is page 0.
//! Every change goes through the buffer pool.

use vstd::prelude::*;
use crate::error::StorageError;
use crate::value::Value;
use crate::value::ValueView;
use crate::value::KeyRow;
use crate::value::KeyRowView;
use crate::value::keyrows_view;
use crate::pages::Page;
use crate::node::NodeView;
use crate::node::entry_index;
use crate::node::entry_find;
use crate::engine::Table;
use crate::buffer_manager::BufferPool;
use crate::store::TreeView;
use crate::store::empty_node;
use crate::store::put_all;
use crate::store::put_all_error;
use crate::store::lemma_node_in_reach;
use crate::engine::freed;
use crate::value::clone_values;

verus! {

/// The most keys in a leaf.
pub const MAX_KEY: usize = 4;

/// The fewest keys in a leaf other than the root.
pub const MIN_KEY: usize = 2;

/// The most children of an internal node.
pub const MAX_CHILD: usize = 5;

/// The fewest children of an internal node other than the root.
pub const MIN_CHILD: usize = 3;

/// The number that stands for "no upper bound" among number keys.
pub const MAX_VALUE: u32 = 0xffff_ffff;

/// A child of an internal node: its page, and its place among the children.
#[derive(Debug, Clone, Copy)]
pub struct Siblings {
    pub page_id: u32,
    pub page_index: usize,
}

/// A B+ tree over a table, with the buffer pool that it works through.
#[derive(Debug)]
pub struct BPlusTree {
    pub buffer_pool: BufferPool,
}

impl View for BPlusTree {
    type V = TreeView;

    open spec fn view(&self) -> TreeView {
        self.buffer_pool@.tree()
    }
}

/// The child that a key is routed to: the first entry with a larger key, and
/// the last entry for a key that no entry is larger than.
pub open spec fn route(entries: Seq<KeyRowView>, key: ValueView) -> int {
    if entry_index(entries, key) < entries.len() {
        entry_index(entries, key)
    } else {
        entries.len() - 1
    }
}

/// The page id in an entry of an internal node.
pub open spec fn child_of(e: KeyRowView) -> u32 {
    match e.row[0] {
        ValueView::Number(c) => c,
        ValueView::String(_, _) => 0,
    }
}

/// The entry of an internal node that routes the keys below `key` to `child`.
pub open spec fn routing_entry(key: ValueView, child: u32) -> KeyRowView {
    KeyRowView { key, row: seq![ValueView::Number(child)] }
}

impl NodeView {
    /// More than 4 keys in a leaf, more than 5 children in an internal node.
    pub open spec fn overflow(self) -> bool {
        if self.leaf {
            self.entries.len() > 4
        } else {
            self.entries.len() > 5
        }
    }

    /// Fewer than 2 keys in a leaf, fewer than 3 children in an internal node.
    pub open spec fn underflow(self) -> bool {
        if self.leaf {
            self.entries.len() < 2
        } else {
            self.entries.len() < 3
        }
    }

    /// The most entries of a node of this kind.
    pub open spec fn most(self) -> int {
        if self.leaf {
            4
        } else {
            5
        }
    }

    /// The fewest entries of a node of this kind, the root apart.
    pub open spec fn fewest(self) -> int {
        if self.leaf {
            2
        } else {
            3
        }
    }
}

impl TreeView {
    /// The pages from `id` down to the leaf that `key` is routed to, over at
    /// most `fuel` internal nodes. Nothing where a page is missing, an internal
    /// node has no entry, or the way down is longer than `fuel`.
    pub open spec fn path_from(self, key: ValueView, id: u32, fuel: nat) -> Option<Seq<u32>>
        decreases fuel,
    {
        if !self.nodes.contains_key(id) {
            None
        } else if self.nodes[id].leaf {
            Some(seq![id])
        } else if fuel == 0 || self.nodes[id].entries.len() == 0 {
            None
        } else {
            let at = route(self.nodes[id].entries, key);
            match self.path_from(key, child_of(self.nodes[id].entries[at]), (fuel - 1) as nat) {
                None => None,
                Some(rest) => Some(seq![id] + rest),
            }
        }
    }

    /// The pages from the root down to the leaf that `key` is routed to. A way
    /// down that visits more internal nodes than the table has pages is none.
    pub open spec fn path(self, key: ValueView) -> Option<Seq<u32>> {
        self.path_from(key, 0, self.count as nat)
    }

    /// The leaf that `key` is routed to, and the parent of that leaf; the root
    /// as its own parent where the root is the leaf.
    pub open spec fn place(self, key: ValueView) -> Option<(u32, u32)> {
        match self.path(key) {
            None => None,
            Some(path) => Some(
                (
                    path.last(),
                    if path.len() >= 2 {
                        path[path.len() - 2]
                    } else {
                        0
                    },
                ),
            ),
        }
    }
}

/// A way down is never empty, and ends in a leaf.
pub proof fn lemma_path(tree: TreeView, key: ValueView, id: u32, fuel: nat)
    requires
        tree.path_from(key, id, fuel) is Some,
    ensures
        tree.path_from(key, id, fuel)->0.len() >= 1,
        tree.path_from(key, id, fuel)->0[0] == id,
        tree.nodes.contains_key(tree.path_from(key, id, fuel)->0.last()),
        tree.nodes[tree.path_from(key, id, fuel)->0.last()].leaf,
        forall|i: int|
            0 <= i < tree.path_from(key, id, fuel)->0.len() ==> tree.nodes.contains_key(
                #[trigger] tree.path_from(key, id, fuel)->0[i],
            ),
        forall|i: int|
            0 <= i < tree.path_from(key, id, fuel)->0.len() - 1 ==> !tree.nodes[
                #[trigger] tree.path_from(key, id, fuel)->0[i]
            ].leaf,
    decreases fuel,
{
    if !tree.nodes[id].leaf {
        let at = route(tree.nodes[id].entries, key);
        let child = child_of(tree.nodes[id].entries[at]);
        lemma_path(tree, key, child, (fuel - 1) as nat);
        let rest = tree.path_from(key, child, (fuel - 1) as nat)->0;
        let path = tree.path_from(key, id, fuel)->0;
        assert(path == seq![id] + rest);
        assert forall|i: int| 0 <= i < path.len() implies tree.nodes.contains_key(
            #[trigger] path[i],
        ) by {
            if i > 0 {
                assert(path[i] == rest[i - 1]);
            }
        }
        assert forall|i: int| 0 <= i < path.len() - 1 implies !tree.nodes[#[trigger] path[i]].leaf by {
            if i > 0 {
                assert(path[i] == rest[i - 1]);
            }
        }
        assert(path.last() == rest.last());
    }
}

/// Where a new key goes among `entries`: before the first larger key.
pub fn entry_position(entries: &Vec<KeyRow>, key: &Value) -> (at: usize)
    ensures
        at == entry_index(keyrows_view(entries@), key@),
        at <= entries.len(),
{
    let ghost all = keyrows_view(entries@);
    let mut i: usize = 0;
    assert(all.skip(0) =~= all);
    while i < entries.len()
        invariant
            i <= entries.len(),
            all == keyrows_view(entries@),
            entry_index(all, key@) == i + entry_index(all.skip(i as int), key@),
        decreases entries.len() - i,
    {
        proof {
            assert(all.skip(i as int)[0] == all[i as int]);
            assert(all[i as int] == entries[i as int]@);
            assert(all.skip(i as int).skip(1) =~= all.skip(i + 1));
        }
        if key.lt(&entries[i].key) {
            return i;
        }
        i += 1;
    }
    i
}

/// The first of `entries` with the key `key`, or the number of entries.
pub fn find_entry(entries: &Vec<KeyRow>, key: &Value) -> (at: usize)
    ensures
        at == entry_find(keyrows_view(entries@), key@),
        at <= entries.len(),
{
    let ghost all = keyrows_view(entries@);
    let mut i: usize = 0;
    assert(all.skip(0) =~= all);
    while i < entries.len()
        invariant
            i <= entries.len(),
            all == keyrows_view(entries@),
            entry_find(all, key@) == i + entry_find(all.skip(i as int), key@),
        decreases entries.len() - i,
    {
        proof {
            assert(all.skip(i as int)[0] == all[i as int]);
            assert(all[i as int] == entries[i as int]@);
            assert(all.skip(i as int).skip(1) =~= all.skip(i + 1));
        }
        if entries[i].key == *key {
            return i;
        }
        i += 1;
    }
    i
}

/// The entry that `key` is routed to.
pub fn route_index(entries: &Vec<KeyRow>, key: &Value) -> (at: usize)
    requires
        entries.len() > 0,
    ensures
        at == route(keyrows_view(entries@), key@),
        at < entries.len(),
{
    let at: usize = entry_position(entries, key);
    if at < entries.len() {
        at
    } else {
        entries.len() - 1
    }
}

/// The page id in an entry of an internal node.
pub fn child_id(entry: &KeyRow) -> (id: u32)
    requires
        entry@.row.len() == 1,
        entry@.row[0] is Number,
    ensures
        id == child_of(entry@),
{
    assert(entry@.row[0] == entry.row[0]@);
    match entry.row[0].pointer() {
        Some(id) => id,
        None => 0,
    }
}

impl BPlusTree {
    /// The pool is sound.
    pub open spec fn wf(&self) -> bool {
        self.buffer_pool.wf()
    }

    /// A tree over the table `file`.
    pub fn new(file: Table) -> (tree: BPlusTree)
        requires
            file@.wf(),
        ensures
            tree.wf(),
            tree.buffer_pool@ == (crate::buffer_manager::PoolView {
                file: file@,
                frames: Seq::empty(),
                clock: 0,
            }),
    {
        BPlusTree { buffer_pool: BufferPool::new(file) }
    }

    /// Whether `node` holds fewer entries than a node of its kind should.
    pub fn is_underflow(&self, node: &Page) -> (under: bool)
        ensures
            under == node@.node().underflow(),
    {
        if node.is_leaf() {
            node.slots.len() < MIN_KEY
        } else {
            node.slots.len() < MIN_CHILD
        }
    }

    /// Whether `node` holds more entries than a node of its kind may.
    pub fn is_overflow(&self, node: &Page) -> (over: bool)
        ensures
            over == node@.node().overflow(),
    {
        if node.is_leaf() {
            node.slots.len() > MAX_KEY
        } else {
            node.slots.len() > MAX_CHILD
        }
    }

    /// Whether the root is a leaf of at most 4 keys.
    pub fn is_leaf_root(&mut self) -> (small: Result<bool, StorageError>)
        requires
            old(self).wf(),
        ensures
            final(self).wf(),
            final(self)@ == old(self)@,
            match small {
                Ok(yes) => old(self)@.nodes.contains_key(0) && yes == (old(self)@.nodes[0].leaf
                    && !old(self)@.nodes[0].overflow()),
                Err(e) => !old(self)@.nodes.contains_key(0) && e == StorageError::BrokenTree,
            },
    {
        match self.buffer_pool.read_node(0) {
            Ok((leaf, entries)) => {
                assert(keyrows_view(entries@).len() == entries.len());
                Ok(leaf && entries.len() < MAX_KEY + 1)
            },
            Err(e) => Err(e),
        }
    }

    /// The pages from the root down to the leaf that `key` is routed to.
    #[verifier::rlimit(50)]
    pub fn descend(&mut self, key: &Value) -> (way: Result<Vec<u32>, StorageError>)
        requires
            old(self).wf(),
        ensures
            final(self).wf(),
            final(self)@ == old(self)@,
            match way {
                Ok(path) => old(self)@.path(key@) == Some(path@),
                Err(e) => old(self)@.path(key@) is None && e == StorageError::BrokenTree,
            },
    {
        let ghost tree = self@;
        let limit: u32 = self.buffer_pool.file.page_id_count;
        let mut path: Vec<u32> = Vec::new();
        let mut current: u32 = 0;
        let mut depth: u32 = 0;
        assert(Seq::<u32>::empty() + tree.path_from(key@, 0, limit as nat)->0 =~= tree.path_from(
            key@,
            0,
            limit as nat,
        )->0);
        loop
            invariant
                self.wf(),
                self@ == tree,
                tree == old(self)@,
                limit == tree.count,
                depth <= limit,
                tree.path(key@) == (match tree.path_from(key@, current, (limit - depth) as nat) {
                    Some(rest) => Some(path@ + rest),
                    None => None::<Seq<u32>>,
                }),
            decreases limit - depth,
        {
            let (leaf, entries) = match self.buffer_pool.read_node(current) {
                Ok(node) => node,
                Err(e) => {
                    return Err(e);
                },
            };
            let ghost seen = path@;
            path.push(current);
            if leaf {
                assert(seen + seq![current] =~= path@);
                return Ok(path);
            }
            if depth == limit || entries.len() == 0 {
                return Err(StorageError::BrokenTree);
            }
            let at: usize = route_index(&entries, key);
            let ghost node = tree.nodes[current];
            assert(node.entries[at as int] == entries[at as int]@);
            let child: u32 = child_id(&entries[at]);
            proof {
                let next = tree.path_from(key@, child, (limit - depth - 1) as nat);
                if next is Some {
                    assert(seen + (seq![current] + next->0) =~= path@ + next->0);
                }
            }
            current = child;
            depth = depth + 1;
        }
    }

    /// The leaf that `k` is routed to, and the parent of that leaf.
    pub fn search(&mut self, k: &Value) -> (found: Result<(u32, u32), StorageError>)
        requires
            old(self).wf(),
        ensures
            final(self).wf(),
            final(self)@ == old(self)@,
            match found {
                Ok(place) => old(self)@.place(k@) == Some(place),
                Err(e) => old(self)@.place(k@) is None && e == StorageError::BrokenTree,
            },
    {
        match self.descend(k) {
            Ok(path) => {
                proof {
                    lemma_path(self@, k@, 0, self@.count as nat);
                }
                let leaf: u32 = path[path.len() - 1];
                let parent: u32 = if path.len() >= 2 {
                    path[path.len() - 2]
                } else {
                    0
                };
                Ok((leaf, parent))
            },
            Err(e) => Err(e),
        }
    }
}


impl NodeView {
    /// The entries that a split moves to the new node on the left: the lower
    /// half. In an internal node the last of them gets the key that stands for
    /// "no upper bound".
    pub open spec fn left_half(self) -> Seq<KeyRowView> {
        let mid = self.entries.len() as int / 2;
        let left = self.entries.take(mid);
        if self.leaf {
            left
        } else {
            left.update(
                mid - 1,
                KeyRowView { key: left[mid - 1].key.ceiling(), row: left[mid - 1].row },
            )
        }
    }

    /// The node that a split leaves behind: the upper half.
    pub open spec fn right_half(self) -> NodeView {
        NodeView { leaf: self.leaf, entries: self.entries.skip(self.entries.len() as int / 2) }
    }

    /// The key that a split hands to the parent: in a leaf the smallest key of
    /// the upper half, in an internal node the last key of the lower half.
    pub open spec fn divider(self) -> ValueView {
        let mid = self.entries.len() as int / 2;
        if self.leaf {
            self.entries[mid].key
        } else {
            self.entries[mid - 1].key
        }
    }
}

impl TreeView {
    /// Why node `current` cannot be split under `parent`, if it cannot.
    #[verifier::opaque]
    pub open spec fn split_error(self, current: u32, parent: u32) -> Option<StorageError> {
        if !self.nodes.contains_key(current) || self.nodes[current].entries.len() < 2 {
            Some(StorageError::BrokenTree)
        } else if self.next_id() == current || self.next_id() == parent || parent == current {
            Some(StorageError::BrokenTree)
        } else if self.put_error(
            parent,
            routing_entry(self.nodes[current].divider(), self.next_id()),
        ) is Some {
            self.put_error(parent, routing_entry(self.nodes[current].divider(), self.next_id()))
        } else {
            self.create_error(self.nodes[current].leaf, self.nodes[current].left_half())
        }
    }

    /// The tree after node `current` was split under `parent`: a new node to its
    /// left takes the lower half, `current` keeps the upper half, and `parent`
    /// gets one entry that routes the keys below the divider to the new node.
    #[verifier::opaque]
    pub open spec fn split(self, current: u32, parent: u32) -> TreeView {
        let node = self.nodes[current];
        self.created(TreeView::built(node.leaf, node.left_half())).with_node(
            current,
            node.right_half(),
        ).with_node(parent, self.nodes[parent].put(routing_entry(node.divider(), self.next_id())))
    }

    /// Why the root cannot be raised, if it cannot.
    #[verifier::opaque]
    pub open spec fn raise_error(self, root: u32) -> Option<StorageError> {
        if !self.nodes.contains_key(root) || self.nodes[root].entries.len() == 0 {
            Some(StorageError::BrokenTree)
        } else if self.next_id() == root {
            Some(StorageError::BrokenTree)
        } else {
            self.create_error(self.nodes[root].leaf, self.nodes[root].entries)
        }
    }

    /// The tree after the root was raised: what the root held is a new node,
    /// and the root is an internal node whose one entry routes every key to
    /// that node.
    #[verifier::opaque]
    pub open spec fn raised(self, root: u32) -> TreeView {
        let node = self.nodes[root];
        self.created(TreeView::built(node.leaf, node.entries)).with_node(
            root,
            TreeView::built(
                false,
                seq![routing_entry(node.entries[0].key.ceiling(), self.next_id())],
            ),
        )
    }

    /// The tree after the root was split, and why it stopped short, if it did:
    /// the root is raised, and the node that took its entries is split under
    /// it.
    pub open spec fn root_split(self, root: u32) -> (TreeView, Option<StorageError>) {
        if self.raise_error(root) is Some {
            (self, self.raise_error(root))
        } else if self.raised(root).split_error(self.next_id(), root) is Some {
            (self.raised(root), self.raised(root).split_error(self.next_id(), root))
        } else {
            (self.raised(root).split(self.next_id(), root), None)
        }
    }

    /// The tree after the nodes `path[i]`, ..., `path[1]` and then the root were
    /// looked at in turn and split where they hold too much, and why it
    /// stopped short, if it did.
    pub open spec fn rebalanced(self, path: Seq<u32>, i: int) -> (TreeView, Option<StorageError>)
        decreases i,
    {
        if i <= 0 {
            if !self.nodes.contains_key(0) {
                (self, Some(StorageError::BrokenTree))
            } else if self.nodes[0].overflow() {
                self.root_split(0)
            } else {
                (self, None)
            }
        } else if !self.nodes.contains_key(path[i]) {
            (self, Some(StorageError::BrokenTree))
        } else if self.nodes[path[i]].overflow() {
            if self.split_error(path[i], path[i - 1]) is Some {
                (self, self.split_error(path[i], path[i - 1]))
            } else {
                self.split(path[i], path[i - 1]).rebalanced(path, i - 1)
            }
        } else {
            self.rebalanced(path, i - 1)
        }
    }

    /// The tree after `kr` was inserted, and why the insert stopped short, if it
    /// did. The entry goes into the leaf that its key is routed to; then the
    /// nodes on the way back up are split where they hold too much, the root
    /// last. An entry that is refused changes nothing; a split that is refused
    /// leaves the entry in the tree, with the splits before it done.
    pub open spec fn inserted(self, kr: KeyRowView) -> (TreeView, Option<StorageError>) {
        match self.path(kr.key) {
            None => (self, Some(StorageError::BrokenTree)),
            Some(path) => match self.put_error(path.last(), kr) {
                Some(e) => (self, Some(e)),
                None => self.with_node(path.last(), self.nodes[path.last()].put(kr)).rebalanced(
                    path,
                    path.len() - 1,
                ),
            },
        }
    }
}

/// One routing entry with a sound key makes an internal node.
pub proof fn lemma_single_entry(tree: TreeView, key: ValueView, child: u32)
    requires
        key.wf(),
    ensures
        tree.build_error(false, seq![routing_entry(key, child)]) is None,
        TreeView::built(false, seq![routing_entry(key, child)]) == (NodeView {
            leaf: false,
            entries: seq![routing_entry(key, child)],
        }),
{
    let e = routing_entry(key, child);
    let list = seq![e];
    let empty = empty_node(false);
    assert(put_all(empty, list, 0) == empty);
    assert(put_all_error(empty, list, 0) is None);
    assert(e.row.drop_last() =~= Seq::<ValueView>::empty());
    assert(crate::value::row_len(e.row.drop_last()) == 0);
    assert(crate::value::row_len(e.row) == 4);
    assert(crate::node::entries_bytes(empty.entries) == 0);
    assert(empty.put_error(e) is None);
    assert(put_all(empty, list, 1) == empty.put(e));
    assert(empty.put(e).entries =~= list);
}

/// The entries that a split moves to the new node, and the key that it hands
/// to the parent.
pub fn split_plan(entries: &Vec<KeyRow>, leaf: bool) -> (plan: (Vec<KeyRow>, Value))
    requires
        entries.len() >= 2,
    ensures
        ({
            let node = NodeView { leaf, entries: keyrows_view(entries@) };
            keyrows_view(plan.0@) == node.left_half() && plan.1@ == node.divider()
        }),
{
    let ghost all = keyrows_view(entries@);
    let middle_index: usize = entries.len() / 2;
    let mut new_node_vec: Vec<KeyRow> = copy_entries(entries, middle_index);
    if leaf {
        assert(all[middle_index as int] == entries[middle_index as int]@);
        (new_node_vec, entries[middle_index].key.clone())
    } else {
        assert(all[middle_index - 1] == entries[middle_index - 1]@);
        let last: &KeyRow = &entries[middle_index - 1];
        let ghost before = keyrows_view(new_node_vec@);
        new_node_vec.set(
            middle_index - 1,
            KeyRow { key: last.key.ceiling(), row: clone_values(&last.row) },
        );
        assert(keyrows_view(new_node_vec@) =~= before.update(
            middle_index - 1,
            KeyRowView { key: last@.key.ceiling(), row: last@.row },
        ));
        (new_node_vec, last.key.clone())
    }
}

/// A copy of the first `n` of `entries`.
pub fn copy_entries(entries: &Vec<KeyRow>, n: usize) -> (copy: Vec<KeyRow>)
    requires
        n <= entries.len(),
    ensures
        keyrows_view(copy@) == keyrows_view(entries@).take(n as int),
        copy.len() == n,
{
    let mut copy: Vec<KeyRow> = Vec::new();
    let mut i: usize = 0;
    while i < n
        invariant
            i <= n <= entries.len(),
            copy.len() == i,
            forall|k: int| 0 <= k < i ==> (#[trigger] copy@[k])@ == entries@[k]@,
        decreases n - i,
    {
        copy.push(entries[i].clone());
        i += 1;
    }
    assert(keyrows_view(copy@) =~= keyrows_view(entries@).take(n as int));
    copy
}

impl BPlusTree {
    /// Whether node `id` holds more entries than a node of its kind may.
    pub fn node_overflows(&mut self, id: u32) -> (over: Result<bool, StorageError>)
        requires
            old(self).wf(),
        ensures
            final(self).wf(),
            final(self)@ == old(self)@,
            match over {
                Ok(yes) => old(self)@.nodes.contains_key(id) && yes == old(self)@.nodes[id].overflow(),
                Err(e) => !old(self)@.nodes.contains_key(id) && e == StorageError::BrokenTree,
            },
    {
        match self.buffer_pool.read_node(id) {
            Ok((leaf, entries)) => {
                assert(keyrows_view(entries@).len() == entries.len());
                if leaf {
                    Ok(entries.len() > MAX_KEY)
                } else {
                    Ok(entries.len() > MAX_CHILD)
                }
            },
            Err(e) => Err(e),
        }
    }

    /// Takes the first `count` entries out of node `id`.
    #[verifier::rlimit(50)]
    pub fn drop_front(&mut self, id: u32, count: usize)
        requires
            old(self).wf(),
            old(self)@.nodes.contains_key(id),
            count <= old(self)@.nodes[id].entries.len(),
        ensures
            final(self).wf(),
            final(self)@ == old(self)@.with_node(
                id,
                NodeView {
                    leaf: old(self)@.nodes[id].leaf,
                    entries: old(self)@.nodes[id].entries.skip(count as int),
                },
            ),
    {
        let ghost tree = self@;
        let ghost node = tree.nodes[id];
        let mut i: usize = 0;
        assert(node.entries.skip(0) =~= node.entries);
        assert(tree.with_node(id, node) == tree) by {
            assert(tree.nodes.insert(id, node) =~= tree.nodes);
        }
        while i < count
            invariant
                i <= count <= node.entries.len(),
                self.wf(),
                tree.nodes.contains_key(id),
                node == tree.nodes[id],
                self@ == tree.with_node(
                    id,
                    NodeView { leaf: node.leaf, entries: node.entries.skip(i as int) },
                ),
            decreases count - i,
        {
            match self.buffer_pool.take_entry(id, 0) {
                Ok(_) => {},
                Err(_) => {},
            }
            proof {
                assert(node.entries.skip(i as int).remove(0) =~= node.entries.skip(i + 1));
                assert(self@.nodes =~= tree.with_node(
                    id,
                    NodeView { leaf: node.leaf, entries: node.entries.skip(i + 1) },
                ).nodes);
            }
            i += 1;
        }
    }

    /// Splits node `current` under `parent`: a new node to its left takes the
    /// lower half of its entries, and `parent` gets an entry that routes the
    /// keys below the divider to the new node. Nothing changes if the split
    /// is refused.
    #[verifier::rlimit(40)]
    pub fn split(&mut self, current: u32, parent: u32) -> (done: Result<bool, StorageError>)
        requires
            old(self).wf(),
        ensures
            final(self).wf(),
            match done {
                Ok(yes) => yes && old(self)@.split_error(current, parent) is None && final(self)@
                    == old(self)@.split(current, parent),
                Err(e) => old(self)@.split_error(current, parent) == Some(e) && final(self)@ == old(self)@,
            },
    {
        reveal(TreeView::split);
        reveal(TreeView::split_error);
        let ghost tree = self@;
        let (leaf, entries) = match self.buffer_pool.read_node(current) {
            Ok(node) => node,
            Err(e) => {
                return Err(e);
            },
        };
        let ghost node = tree.nodes[current];
        assert(node.entries.len() == entries.len());
        if entries.len() < 2 {
            return Err(StorageError::BrokenTree);
        }
        let new_id: u32 = self.buffer_pool.file.next_page_id();
        if new_id == current || new_id == parent || parent == current {
            return Err(StorageError::BrokenTree);
        }
        let (new_node_vec, divider) = split_plan(&entries, leaf);
        let mut row: Vec<Value> = Vec::new();
        row.push(Value::Number(new_id));
        let entry = KeyRow { key: divider, row };
        assert(entry@ == routing_entry(node.divider(), new_id)) by {
            assert(entry@.row =~= seq![ValueView::Number(new_id)]);
        }
        match self.buffer_pool.check_put(parent, usize::MAX, &entry) {
            Some(e) => {
                return Err(e);
            },
            None => {},
        }
        match self.buffer_pool.create_node(leaf, &new_node_vec) {
            Ok(_) => {},
            Err(e) => {
                return Err(e);
            },
        }
        let ghost made = self@;
        assert(made.nodes[current] == node);
        self.drop_front(current, entries.len() / 2);
        let ghost cut = self@;
        assert(cut.nodes[parent] == tree.nodes[parent]);
        match self.buffer_pool.put_entry(parent, entry) {
            Ok(()) => {},
            Err(_) => {},
        }
        Ok(true)
    }

    /// Splits the root: what the root holds goes to a new node, the root
    /// becomes an internal node over that node alone, and that node is split
    /// under the root. Nothing changes if the new node cannot be made; a split
    /// that is refused leaves the root over the one node.
    #[verifier::rlimit(50)]
    pub fn split_root(&mut self, root_id: u32) -> (done: Result<(), StorageError>)
        requires
            old(self).wf(),
        ensures
            final(self).wf(),
            match done {
                Ok(()) => old(self)@.root_split(root_id) == (final(self)@, None::<StorageError>),
                Err(e) => old(self)@.root_split(root_id) == (final(self)@, Some(e)),
            },
    {
        reveal(TreeView::raised);
        reveal(TreeView::raise_error);
        let ghost tree = self@;
        let (leaf, entries) = match self.buffer_pool.read_node(root_id) {
            Ok(node) => node,
            Err(e) => {
                return Err(e);
            },
        };
        let ghost node = tree.nodes[root_id];
        assert(node.entries.len() == entries.len());
        if entries.len() == 0 {
            return Err(StorageError::BrokenTree);
        }
        let new_node_id: u32 = self.buffer_pool.file.next_page_id();
        if new_node_id == root_id {
            return Err(StorageError::BrokenTree);
        }
        assert(node.entries[0] == entries[0]@);
        let key: Value = entries[0].key.ceiling();
        match self.buffer_pool.create_node(leaf, &entries) {
            Ok(_) => {},
            Err(e) => {
                return Err(e);
            },
        }
        let mut row: Vec<Value> = Vec::new();
        row.push(Value::Number(new_node_id));
        let mut top: Vec<KeyRow> = Vec::new();
        top.push(KeyRow { key, row });
        proof {
            assert(top@[0]@.row =~= seq![ValueView::Number(new_node_id)]);
            assert(keyrows_view(top@) =~= seq![routing_entry(key@, new_node_id)]);
            lemma_single_entry(self@, key@, new_node_id);
        }
        match self.buffer_pool.set_node(root_id, false, &top) {
            Ok(()) => {},
            Err(_) => {},
        }
        assert(self@ == tree.raised(root_id));
        match self.split(new_node_id, root_id) {
            Ok(_) => Ok(()),
            Err(e) => Err(e),
        }
    }

    /// Inserts into a tree whose root is a leaf: the entry goes into the root,
    /// and a root that then holds too much is split.
    #[verifier::rlimit(50)]
    pub fn insert_leaf_tree(&mut self, new_kr: KeyRow) -> (done: Result<(), StorageError>)
        requires
            old(self).wf(),
            old(self)@.nodes.contains_key(0),
            old(self)@.nodes[0].leaf,
        ensures
            final(self).wf(),
            match done {
                Ok(()) => old(self)@.inserted(new_kr@) == (final(self)@, None::<StorageError>),
                Err(e) => old(self)@.inserted(new_kr@) == (final(self)@, Some(e)),
            },
    {
        let ghost tree = self@;
        assert(tree.path(new_kr@.key) == Some(seq![0u32]));
        match self.buffer_pool.put_entry(0, new_kr) {
            Ok(()) => {},
            Err(e) => {
                return Err(e);
            },
        }
        match self.node_overflows(0) {
            Ok(over) => {
                if over {
                    self.split_root(0)
                } else {
                    Ok(())
                }
            },
            Err(e) => Err(e),
        }
    }

    /// Inserts `new_kr`: into the leaf that its key is routed to, before the
    /// first larger key. Then every node on the way back up that holds too
    /// much is split, the root last. An entry that is refused changes
    /// nothing; a split that is refused leaves the entry in the tree.
    #[verifier::rlimit(50)]
    pub fn insert(&mut self, new_kr: KeyRow) -> (done: Result<bool, StorageError>)
        requires
            old(self).wf(),
        ensures
            final(self).wf(),
            match done {
                Ok(yes) => yes && old(self)@.inserted(new_kr@) == (final(self)@, None::<StorageError>),
                Err(e) => old(self)@.inserted(new_kr@) == (final(self)@, Some(e)),
            },
    {
        let ghost tree = self@;
        match self.is_leaf_root() {
            Ok(small) => {
                if small {
                    return match self.insert_leaf_tree(new_kr) {
                        Ok(()) => Ok(true),
                        Err(e) => Err(e),
                    };
                }
            },
            Err(_) => {},
        }
        let parents: Vec<u32> = match self.descend(&new_kr.key) {
            Ok(path) => path,
            Err(e) => {
                return Err(e);
            },
        };
        proof {
            lemma_path(tree, new_kr@.key, 0, tree.count as nat);
        }
        let leaf: u32 = parents[parents.len() - 1];
        match self.buffer_pool.put_entry(leaf, new_kr) {
            Ok(()) => {},
            Err(e) => {
                return Err(e);
            },
        }
        let ghost put = self@;
        let ghost goal = tree.inserted(new_kr@);
        assert(goal == put.rebalanced(parents@, parents@.len() - 1));
        let mut i: usize = parents.len() - 1;
        while i > 0
            invariant
                i < parents.len(),
                self.wf(),
                goal == old(self)@.inserted(new_kr@),
                goal == self@.rebalanced(parents@, i as int),
            decreases i,
        {
            let node_id: u32 = parents[i];
            match self.node_overflows(node_id) {
                Ok(over) => {
                    if over {
                        match self.split(node_id, parents[i - 1]) {
                            Ok(_) => {},
                            Err(e) => {
                                return Err(e);
                            },
                        }
                    }
                },
                Err(e) => {
                    return Err(e);
                },
            }
            i -= 1;
        }
        match self.node_overflows(0) {
            Ok(over) => {
                if over {
                    match self.split_root(0) {
                        Ok(()) => Ok(true),
                        Err(e) => Err(e),
                    }
                } else {
                    Ok(true)
                }
            },
            Err(e) => Err(e),
        }
    }
}


/// The first entry that routes to `child`, or the number of entries.
pub open spec fn child_index(entries: Seq<KeyRowView>, child: u32) -> int
    decreases entries.len(),
{
    if entries.len() == 0 {
        0
    } else if child_of(entries[0]) == child {
        0
    } else {
        1 + child_index(entries.skip(1), child)
    }
}

/// The first entry whose key reads as "no upper bound", or the number of
/// entries.
pub open spec fn first_ceiling(entries: Seq<KeyRowView>) -> int
    decreases entries.len(),
{
    if entries.len() == 0 {
        0
    } else if entries[0].key.is_ceiling() {
        0
    } else {
        1 + first_ceiling(entries.skip(1))
    }
}

/// `entries` with `key` on entry `i`.
pub open spec fn with_key(entries: Seq<KeyRowView>, i: int, key: ValueView) -> Seq<KeyRowView> {
    entries.update(i, KeyRowView { key, row: entries[i].row })
}

/// The entries of two neighbours merged into one node. In internal nodes the
/// first key that reads as "no upper bound" becomes `divider`, the key under
/// which the parent held the left neighbour.
pub open spec fn merge_plan(
    left: Seq<KeyRowView>,
    right: Seq<KeyRowView>,
    divider: ValueView,
    leaf: bool,
) -> Seq<KeyRowView> {
    let total = left + right;
    if leaf || first_ceiling(total) >= total.len() {
        total
    } else {
        with_key(total, first_ceiling(total), divider)
    }
}

/// One entry moved between two neighbours: the entries of the left one, those
/// of the right one, and the key under which the parent now holds the left
/// one. `to_left` moves the first entry of the right neighbour to the end of
/// the left one; else the last entry of the left neighbour moves to the front
/// of the right one. Between internal nodes the moved child changes sides
/// under the old divider, and the last key on the left stays "no upper bound".
pub open spec fn shift_plan(
    left: Seq<KeyRowView>,
    right: Seq<KeyRowView>,
    divider: ValueView,
    leaf: bool,
    to_left: bool,
) -> (Seq<KeyRowView>, Seq<KeyRowView>, ValueView) {
    if to_left {
        if leaf {
            (left.push(right[0]), right.skip(1), right[1].key)
        } else {
            (
                with_key(left, left.len() - 1, divider).push(
                    KeyRowView { key: right[0].key.ceiling(), row: right[0].row },
                ),
                right.skip(1),
                right[0].key,
            )
        }
    } else {
        if leaf {
            (left.drop_last(), seq![left.last()] + right, left.last().key)
        } else {
            (
                with_key(left.drop_last(), left.len() - 2, left[left.len() - 2].key.ceiling()),
                seq![KeyRowView { key: divider, row: left.last().row }] + right,
                left[left.len() - 2].key,
            )
        }
    }
}

impl TreeView {
    /// Why node `current` has no neighbour under `parent`, if it has none.
    pub open spec fn sibling_error(self, current: u32, parent: u32) -> Option<StorageError> {
        if !self.nodes.contains_key(parent) || self.nodes[parent].leaf {
            Some(StorageError::BrokenTree)
        } else if self.nodes[parent].entries.len() < 2 || child_index(
            self.nodes[parent].entries,
            current,
        ) >= self.nodes[parent].entries.len() {
            Some(StorageError::BrokenTree)
        } else {
            None
        }
    }

    /// Where `current` stands among the children of `parent`.
    pub open spec fn own_index(self, current: u32, parent: u32) -> int {
        child_index(self.nodes[parent].entries, current)
    }

    /// Where the neighbour of `current` stands: to its left, or to its right if
    /// `current` is the first child.
    pub open spec fn sibling_index(self, current: u32, parent: u32) -> int {
        if self.own_index(current, parent) == 0 {
            1
        } else {
            self.own_index(current, parent) - 1
        }
    }

    /// Where the left one of `current` and its neighbour stands.
    pub open spec fn left_index(self, current: u32, parent: u32) -> int {
        if self.own_index(current, parent) == 0 {
            0
        } else {
            self.own_index(current, parent) - 1
        }
    }

    /// The left one of `current` and its neighbour.
    pub open spec fn left_id(self, current: u32, parent: u32) -> u32 {
        child_of(self.nodes[parent].entries[self.left_index(current, parent)])
    }

    /// The right one of `current` and its neighbour.
    pub open spec fn right_id(self, current: u32, parent: u32) -> u32 {
        child_of(self.nodes[parent].entries[self.left_index(current, parent) + 1])
    }

    /// The key under which `parent` holds the left one of the two.
    pub open spec fn pair_divider(self, current: u32, parent: u32) -> ValueView {
        self.nodes[parent].entries[self.left_index(current, parent)].key
    }

    /// Whether `current` and its neighbour are to be merged: their entries fit
    /// in one node.
    pub open spec fn merges(self, current: u32, parent: u32) -> bool {
        let left = self.nodes[self.left_id(current, parent)];
        let right = self.nodes[self.right_id(current, parent)];
        left.entries.len() + right.entries.len() <= left.most()
    }

    /// Why `current` cannot be balanced with its neighbour, if it cannot.
    #[verifier::opaque]
    pub open spec fn distribute_error(self, current: u32, parent: u32) -> Option<StorageError> {
        let l = self.left_id(current, parent);
        let r = self.right_id(current, parent);
        let at = self.left_index(current, parent);
        let divider = self.pair_divider(current, parent);
        if self.sibling_error(current, parent) is Some {
            self.sibling_error(current, parent)
        } else if l == r || l == parent || r == parent || !self.nodes.contains_key(l)
            || !self.nodes.contains_key(r) || self.nodes[l].leaf != self.nodes[r].leaf {
            Some(StorageError::BrokenTree)
        } else {
            let left = self.nodes[l];
            let right = self.nodes[r];
            let to_left = self.own_index(current, parent) == 0;
            if self.merges(current, parent) {
                self.build_error(
                    left.leaf,
                    merge_plan(left.entries, right.entries, divider, left.leaf),
                )
            } else if (to_left && (right.entries.len() < 2 || left.entries.len() < 1)) || (!to_left
                && left.entries.len() < 2) {
                Some(StorageError::BrokenTree)
            } else {
                let plan = shift_plan(left.entries, right.entries, divider, left.leaf, to_left);
                if self.build_error(left.leaf, plan.0) is Some {
                    self.build_error(left.leaf, plan.0)
                } else if self.build_error(left.leaf, plan.1) is Some {
                    self.build_error(left.leaf, plan.1)
                } else {
                    self.rekey_error(parent, at, plan.2)
                }
            }
        }
    }

    /// The tree after `current` was balanced with its neighbour under
    /// `parent`. Where the entries of the two fit in one node, the right one
    /// of the two takes them all, the left one is freed, and the parent loses
    /// the entry of the left one. Else one entry moves from the neighbour to
    /// `current`, and the parent holds the left one under the new boundary.
    #[verifier::opaque]
    pub open spec fn distributed(self, current: u32, parent: u32) -> TreeView {
        let l = self.left_id(current, parent);
        let r = self.right_id(current, parent);
        let at = self.left_index(current, parent);
        let divider = self.pair_divider(current, parent);
        let left = self.nodes[l];
        let right = self.nodes[r];
        if self.merges(current, parent) {
            self.with_node(
                r,
                TreeView::built(
                    left.leaf,
                    merge_plan(left.entries, right.entries, divider, left.leaf),
                ),
            ).removed(l).with_node(parent, self.nodes[parent].without(at))
        } else {
            let plan = shift_plan(
                left.entries,
                right.entries,
                divider,
                left.leaf,
                self.own_index(current, parent) == 0,
            );
            self.with_node(l, TreeView::built(left.leaf, plan.0)).with_node(
                r,
                TreeView::built(left.leaf, plan.1),
            ).with_node(parent, self.nodes[parent].rekeyed(at, plan.2))
        }
    }

    /// Whether the root is an internal node with one child only.
    pub open spec fn root_is_thin(self, root: u32) -> bool {
        !self.nodes[root].leaf && self.nodes[root].entries.len() == 1
    }

    /// Why the root cannot take the place of its only child, if it cannot.
    #[verifier::opaque]
    pub open spec fn collapse_error(self, root: u32) -> Option<StorageError> {
        let child = child_of(self.nodes[root].entries[0]);
        if !self.nodes.contains_key(root) {
            Some(StorageError::BrokenTree)
        } else if !self.root_is_thin(root) {
            None
        } else if child == root || !self.nodes.contains_key(child) {
            Some(StorageError::BrokenTree)
        } else {
            self.build_error(self.nodes[child].leaf, self.nodes[child].entries)
        }
    }

    /// The tree after the root took the place of its only child: the root is a
    /// node of the child's kind with the child's entries, and the child's page
    /// is freed. A root that is a leaf or has several children stays.
    #[verifier::opaque]
    pub open spec fn collapsed(self, root: u32) -> TreeView {
        let child = child_of(self.nodes[root].entries[0]);
        if self.root_is_thin(root) {
            self.with_node(
                root,
                TreeView::built(self.nodes[child].leaf, self.nodes[child].entries),
            ).removed(child)
        } else {
            self
        }
    }
}

/// The place of a child among the entries is the first entry that routes to it.
pub proof fn lemma_child_index(entries: Seq<KeyRowView>, child: u32)
    ensures
        0 <= child_index(entries, child) <= entries.len(),
        child_index(entries, child) < entries.len() ==> child_of(
            entries[child_index(entries, child)],
        ) == child,
    decreases entries.len(),
{
    if entries.len() > 0 && child_of(entries[0]) != child {
        lemma_child_index(entries.skip(1), child);
        let rest = child_index(entries.skip(1), child);
        if rest < entries.skip(1).len() {
            assert(entries.skip(1)[rest] == entries[rest + 1]);
        }
    }
}

/// The place of the first key that reads as "no upper bound".
pub proof fn lemma_first_ceiling(entries: Seq<KeyRowView>)
    ensures
        0 <= first_ceiling(entries) <= entries.len(),
        first_ceiling(entries) < entries.len() ==> entries[first_ceiling(entries)].key.is_ceiling(),
    decreases entries.len(),
{
    if entries.len() > 0 && !entries[0].key.is_ceiling() {
        lemma_first_ceiling(entries.skip(1));
        let rest = first_ceiling(entries.skip(1));
        if rest < entries.skip(1).len() {
            assert(entries.skip(1)[rest] == entries[rest + 1]);
        }
    }
}

/// The entries of `a` followed by those of `b`.
pub fn join_entries(a: &Vec<KeyRow>, b: &Vec<KeyRow>) -> (all: Vec<KeyRow>)
    ensures
        keyrows_view(all@) == keyrows_view(a@) + keyrows_view(b@),
{
    let mut all: Vec<KeyRow> = Vec::new();
    let mut i: usize = 0;
    while i < a.len()
        invariant
            i <= a.len(),
            all.len() == i,
            forall|k: int| 0 <= k < i ==> (#[trigger] all@[k])@ == a@[k]@,
        decreases a.len() - i,
    {
        all.push(a[i].clone());
        i += 1;
    }
    let mut j: usize = 0;
    while j < b.len()
        invariant
            j <= b.len(),
            all.len() == a.len() + j,
            forall|k: int| 0 <= k < a.len() ==> (#[trigger] all@[k])@ == a@[k]@,
            forall|k: int|
                a.len() <= k < a.len() + j ==> (#[trigger] all@[k])@ == b@[k - a.len()]@,
        decreases b.len() - j,
    {
        all.push(b[j].clone());
        j += 1;
    }
    assert(keyrows_view(all@) =~= keyrows_view(a@) + keyrows_view(b@));
    all
}

/// The entries `[from, to)` of `entries`, copied out.
pub fn slice_entries(entries: &Vec<KeyRow>, from: usize, to: usize) -> (part: Vec<KeyRow>)
    requires
        from <= to <= entries.len(),
    ensures
        keyrows_view(part@) == keyrows_view(entries@).subrange(from as int, to as int),
{
    let mut part: Vec<KeyRow> = Vec::new();
    let mut i: usize = from;
    while i < to
        invariant
            from <= i <= to <= entries.len(),
            part.len() == i - from,
            forall|k: int| 0 <= k < i - from ==> (#[trigger] part@[k])@ == entries@[from + k]@,
        decreases to - i,
    {
        part.push(entries[i].clone());
        i += 1;
    }
    assert(keyrows_view(part@) =~= keyrows_view(entries@).subrange(from as int, to as int));
    part
}

/// The entries of two neighbours merged into one list.
pub fn plan_merge(left: &Vec<KeyRow>, right: &Vec<KeyRow>, divider: &Value, leaf: bool) -> (all: Vec<
    KeyRow,
>)
    ensures
        keyrows_view(all@) == merge_plan(keyrows_view(left@), keyrows_view(right@), divider@, leaf),
{
    let mut all: Vec<KeyRow> = join_entries(left, right);
    let ghost total = keyrows_view(all@);
    if !leaf {
        let mut i: usize = 0;
        assert(total.skip(0) =~= total);
        while i < all.len()
            invariant
                i <= all.len(),
                total == keyrows_view(all@),
                total == keyrows_view(left@) + keyrows_view(right@),
                !leaf,
                first_ceiling(total) == i + first_ceiling(total.skip(i as int)),
            decreases all.len() - i,
        {
            proof {
                assert(total.skip(i as int)[0] == total[i as int]);
                assert(total[i as int] == all[i as int]@);
                assert(total.skip(i as int).skip(1) =~= total.skip(i + 1));
            }
            if all[i].key.is_ceiling() {
                assert(first_ceiling(total.skip(i as int)) == 0);
                assert(first_ceiling(total) == i);
                let row: Vec<Value> = clone_values(&all[i].row);
                all.set(i, KeyRow { key: divider.clone(), row });
                assert(keyrows_view(all@) =~= with_key(total, i as int, divider@));
                return all;
            }
            i += 1;
        }
    }
    all
}

/// One entry moved between two neighbours: the new entries of the left one,
/// those of the right one, and the new boundary between them.
pub fn plan_shift(
    left: &Vec<KeyRow>,
    right: &Vec<KeyRow>,
    divider: &Value,
    leaf: bool,
    to_left: bool,
) -> (plan: (Vec<KeyRow>, Vec<KeyRow>, Value))
    requires
        to_left ==> right.len() >= 2 && left.len() >= 1,
        !to_left ==> left.len() >= 2,
    ensures
        ({
            let spec = shift_plan(
                keyrows_view(left@),
                keyrows_view(right@),
                divider@,
                leaf,
                to_left,
            );
            keyrows_view(plan.0@) == spec.0 && keyrows_view(plan.1@) == spec.1 && plan.2@ == spec.2
        }),
{
    let ghost l = keyrows_view(left@);
    let ghost r = keyrows_view(right@);
    assert(l.len() == left.len() && r.len() == right.len());
    if to_left {
        assert(r[0] == right[0]@ && r[1] == right[1]@);
        let mut new_left: Vec<KeyRow> = copy_entries(left, left.len());
        assert(keyrows_view(new_left@) =~= l) by {
            assert(l.take(l.len() as int) =~= l);
        }
        let new_right: Vec<KeyRow> = slice_entries(right, 1, right.len());
        assert(r.subrange(1, r.len() as int) =~= r.skip(1));
        if leaf {
            new_left.push(right[0].clone());
            assert(keyrows_view(new_left@) =~= l.push(r[0]));
            (new_left, new_right, right[1].key.clone())
        } else {
            let last: usize = left.len() - 1;
            assert(l[last as int] == left[last as int]@);
            new_left.set(last, KeyRow { key: divider.clone(), row: clone_values(&left[last].row) });
            new_left.push(
                KeyRow { key: right[0].key.ceiling(), row: clone_values(&right[0].row) },
            );
            assert(keyrows_view(new_left@) =~= with_key(l, l.len() - 1, divider@).push(
                KeyRowView { key: r[0].key.ceiling(), row: r[0].row },
            ));
            (new_left, new_right, right[0].key.clone())
        }
    } else {
        let last: usize = left.len() - 1;
        assert(l[last as int] == left[last as int]@);
        assert(l[last - 1] == left[last - 1]@);
        let mut new_left: Vec<KeyRow> = copy_entries(left, last);
        assert(l.take(last as int) =~= l.drop_last());
        if leaf {
            let mut first: Vec<KeyRow> = Vec::new();
            first.push(left[last].clone());
            assert(keyrows_view(first@) =~= seq![l.last()]);
            let new_right: Vec<KeyRow> = join_entries(&first, right);
            (new_left, new_right, left[last].key.clone())
        } else {
            let bound: Value = left[last - 1].key.clone();
            new_left.set(
                last - 1,
                KeyRow { key: bound.ceiling(), row: clone_values(&left[last - 1].row) },
            );
            assert(keyrows_view(new_left@) =~= with_key(
                l.drop_last(),
                l.len() - 2,
                l[l.len() - 2].key.ceiling(),
            ));
            let mut first: Vec<KeyRow> = Vec::new();
            first.push(KeyRow { key: divider.clone(), row: clone_values(&left[last].row) });
            assert(keyrows_view(first@) =~= seq![KeyRowView { key: divider@, row: l.last().row }]);
            let new_right: Vec<KeyRow> = join_entries(&first, right);
            (new_left, new_right, bound)
        }
    }
}


impl TreeView {
    /// The tree after the nodes `path[i]`, ..., `path[1]` were looked at in turn
    /// and balanced with a neighbour where they hold too little, and the root
    /// took the place of its only child if it has one child only; and why it
    /// stopped short, if it did.
    pub open spec fn shrunk(self, path: Seq<u32>, i: int) -> (TreeView, Option<StorageError>)
        decreases i,
    {
        if i <= 0 {
            if self.collapse_error(0) is Some {
                (self, self.collapse_error(0))
            } else {
                (self.collapsed(0), None)
            }
        } else if !self.nodes.contains_key(path[i]) {
            (self, Some(StorageError::BrokenTree))
        } else if self.nodes[path[i]].underflow() {
            if self.distribute_error(path[i], path[i - 1]) is Some {
                (self, self.distribute_error(path[i], path[i - 1]))
            } else {
                self.distributed(path[i], path[i - 1]).shrunk(path, i - 1)
            }
        } else {
            self.shrunk(path, i - 1)
        }
    }

    /// Whether the leaf that `key` is routed to holds `key`.
    pub open spec fn holds(self, key: ValueView) -> bool {
        match self.path(key) {
            None => false,
            Some(path) => entry_find(self.nodes[path.last()].entries, key)
                < self.nodes[path.last()].entries.len(),
        }
    }

    /// The row stored under `key` in the leaf that `key` is routed to.
    pub open spec fn row_of(self, key: ValueView) -> Seq<ValueView> {
        let leaf = self.nodes[self.path(key)->0.last()];
        leaf.entries[entry_find(leaf.entries, key)].row
    }

    /// The tree after `key` was deleted, and why the delete stopped short, if it
    /// did. The first entry with the key leaves the leaf that the key is
    /// routed to; then the nodes on the way back up are balanced where they
    /// hold too little, and the root takes the place of an only child. A key
    /// that is not there changes nothing.
    pub open spec fn deleted(self, key: ValueView) -> (TreeView, Option<StorageError>) {
        match self.path(key) {
            None => (self, Some(StorageError::BrokenTree)),
            Some(path) => {
                let leaf = self.nodes[path.last()];
                let at = entry_find(leaf.entries, key);
                if at >= leaf.entries.len() {
                    (self, None)
                } else {
                    self.with_node(path.last(), leaf.without(at)).shrunk(path, path.len() - 1)
                }
            },
        }
    }

    /// The tree after the entry under the key of `kr` was replaced by `kr`, and
    /// why it was not, if it was not. In the leaf that the key is routed to,
    /// the first entry with the key leaves and `kr` is put in. Where the key
    /// is not there `kr` is only put in.
    pub open spec fn updated(self, kr: KeyRowView) -> (TreeView, Option<StorageError>) {
        match self.path(kr.key) {
            None => (self, Some(StorageError::BrokenTree)),
            Some(path) => {
                let leaf = self.nodes[path.last()];
                let at = entry_find(leaf.entries, kr.key);
                match self.put_error_skipping(path.last(), at, kr) {
                    Some(e) => (self, Some(e)),
                    None => (self.with_node(path.last(), leaf.skipping(at).put(kr)), None),
                }
            },
        }
    }
}

/// The first of `entries` that routes to `child`, or the number of entries.
pub fn child_position(entries: &Vec<KeyRow>, child: u32) -> (at: usize)
    requires
        forall|i: int|
            0 <= i < entries.len() ==> (#[trigger] keyrows_view(entries@)[i]).row.len() == 1
                && keyrows_view(entries@)[i].row[0] is Number,
    ensures
        at == child_index(keyrows_view(entries@), child),
        at <= entries.len(),
{
    let ghost all = keyrows_view(entries@);
    let mut i: usize = 0;
    assert(all.skip(0) =~= all);
    while i < entries.len()
        invariant
            i <= entries.len(),
            all == keyrows_view(entries@),
            forall|k: int|
                0 <= k < entries.len() ==> (#[trigger] all[k]).row.len() == 1 && all[k].row[0] is Number,
            child_index(all, child) == i + child_index(all.skip(i as int), child),
        decreases entries.len() - i,
    {
        proof {
            assert(all.skip(i as int)[0] == all[i as int]);
            assert(all[i as int] == entries[i as int]@);
            assert(all.skip(i as int).skip(1) =~= all.skip(i + 1));
        }
        if child_id(&entries[i]) == child {
            return i;
        }
        i += 1;
    }
    i
}

impl BPlusTree {
    /// Whether node `id` holds fewer entries than a node of its kind should.
    pub fn node_underflows(&mut self, id: u32) -> (under: Result<bool, StorageError>)
        requires
            old(self).wf(),
        ensures
            final(self).wf(),
            final(self)@ == old(self)@,
            match under {
                Ok(yes) => old(self)@.nodes.contains_key(id) && yes == old(self)@.nodes[id].underflow(),
                Err(e) => !old(self)@.nodes.contains_key(id) && e == StorageError::BrokenTree,
            },
    {
        match self.buffer_pool.read_node(id) {
            Ok((leaf, entries)) => {
                assert(keyrows_view(entries@).len() == entries.len());
                if leaf {
                    Ok(entries.len() < MIN_KEY)
                } else {
                    Ok(entries.len() < MIN_CHILD)
                }
            },
            Err(e) => Err(e),
        }
    }

    /// The node `current` and its neighbour under `parent`, each with its place
    /// among the children: the neighbour to the left, or to the right where
    /// `current` is the first child.
    #[verifier::rlimit(50)]
    pub fn get_sibling(&mut self, current: u32, parent: u32) -> (pair: Result<
        Vec<Siblings>,
        StorageError,
    >)
        requires
            old(self).wf(),
        ensures
            final(self).wf(),
            final(self)@ == old(self)@,
            match pair {
                Ok(two) => old(self)@.sibling_error(current, parent) is None && two@.len() == 2
                    && two@[0].page_id == current && two@[0].page_index == old(self)@.own_index(
                    current,
                    parent,
                ) && two@[1].page_index == old(self)@.sibling_index(current, parent)
                    && two@[1].page_id == child_of(
                    old(self)@.nodes[parent].entries[old(self)@.sibling_index(current, parent)],
                ),
                Err(e) => old(self)@.sibling_error(current, parent) == Some(e),
            },
    {
        let ghost tree = self@;
        let (leaf, entries) = match self.buffer_pool.read_node(parent) {
            Ok(node) => node,
            Err(e) => {
                return Err(e);
            },
        };
        let ghost all = tree.nodes[parent].entries;
        assert(all.len() == entries.len());
        if leaf || entries.len() < 2 {
            return Err(StorageError::BrokenTree);
        }
        let index_current: usize = child_position(&entries, current);
        if index_current >= entries.len() {
            return Err(StorageError::BrokenTree);
        }
        let other: usize = if index_current == 0 {
            1
        } else {
            index_current - 1
        };
        assert(all[other as int] == entries[other as int]@);
        let mut return_vec: Vec<Siblings> = Vec::new();
        return_vec.push(Siblings { page_id: current, page_index: index_current });
        return_vec.push(Siblings { page_id: child_id(&entries[other]), page_index: other });
        Ok(return_vec)
    }

    /// The left and the right one of `current` and its neighbour under
    /// `parent`, the place of the left one among the children, and whether
    /// `current` is the left one.
    #[verifier::rlimit(50)]
    pub fn pair_of(&mut self, current: u32, parent: u32) -> (pair: Result<
        (u32, u32, usize, bool),
        StorageError,
    >)
        requires
            old(self).wf(),
        ensures
            final(self).wf(),
            final(self)@ == old(self)@,
            match pair {
                Ok((left_id, right_id, at, to_left)) => {
                    &&& old(self)@.sibling_error(current, parent) is None
                    &&& left_id == old(self)@.left_id(current, parent)
                    &&& right_id == old(self)@.right_id(current, parent)
                    &&& at == old(self)@.left_index(current, parent)
                    &&& to_left == (old(self)@.own_index(current, parent) == 0)
                    &&& at + 1 < old(self)@.nodes[parent].entries.len()
                },
                Err(e) => old(self)@.sibling_error(current, parent) == Some(e),
            },
    {
        let ghost tree = self@;
        let siblings: Vec<Siblings> = match self.get_sibling(current, parent) {
            Ok(two) => two,
            Err(e) => {
                return Err(e);
            },
        };
        proof {
            lemma_child_index(tree.nodes[parent].entries, current);
        }
        let own: usize = siblings[0].page_index;
        let to_left: bool = own == 0;
        let at: usize = if to_left { 0 } else { own - 1 };
        let left_id: u32 = if to_left { siblings[0].page_id } else { siblings[1].page_id };
        let right_id: u32 = if to_left { siblings[1].page_id } else { siblings[0].page_id };
        Ok((left_id, right_id, at, to_left))
    }

    /// Balances node `current` with its neighbour under `parent`. Where the
    /// entries of the two fit in one node, the right one of the two takes
    /// them all, the left one is freed, and `parent` loses the entry of the
    /// left one. Else one entry moves from the neighbour to `current`, and
    /// `parent` holds the left one under the new boundary. Nothing changes if
    /// it is refused.
    #[verifier::rlimit(40)]
    pub fn distribute_mini(&mut self, current: u32, parent: u32) -> (done: Result<(), StorageError>)
        requires
            old(self).wf(),
        ensures
            final(self).wf(),
            match done {
                Ok(()) => old(self)@.distribute_error(current, parent) is None && final(self)@
                    == old(self)@.distributed(current, parent),
                Err(e) => old(self)@.distribute_error(current, parent) == Some(e) && final(self)@
                    == old(self)@,
            },
    {
        reveal(TreeView::distribute_error);
        reveal(TreeView::distributed);
        let ghost tree = self@;
        let (left_id, right_id, at, to_left) = match self.pair_of(current, parent) {
            Ok(pair) => pair,
            Err(e) => {
                return Err(e);
            },
        };
        if left_id == right_id || left_id == parent || right_id == parent {
            return Err(StorageError::BrokenTree);
        }
        let (left_leaf, left) = match self.buffer_pool.read_node(left_id) {
            Ok(node) => node,
            Err(e) => {
                return Err(e);
            },
        };
        let (right_leaf, right) = match self.buffer_pool.read_node(right_id) {
            Ok(node) => node,
            Err(e) => {
                return Err(e);
            },
        };
        if left_leaf != right_leaf {
            return Err(StorageError::BrokenTree);
        }
        let (_, above) = match self.buffer_pool.read_node(parent) {
            Ok(node) => node,
            Err(e) => {
                return Err(e);
            },
        };
        assert(tree.nodes[parent].entries[at as int] == above[at as int]@);
        let internal_divider: Value = above[at].key.clone();
        let most: usize = if left_leaf { MAX_KEY } else { MAX_CHILD };
        assert(keyrows_view(left@).len() == left.len());
        assert(keyrows_view(right@).len() == right.len());
        if left.len() <= most && right.len() <= most - left.len() {
            self.merge_pair(left_id, right_id, parent, at, &left, &right, &internal_divider, left_leaf)
        } else {
            if (to_left && (right.len() < 2 || left.len() < 1)) || (!to_left && left.len() < 2) {
                return Err(StorageError::BrokenTree);
            }
            self.shift_pair(
                left_id,
                right_id,
                parent,
                at,
                &left,
                &right,
                &internal_divider,
                left_leaf,
                to_left,
            )
        }
    }

    /// Merges two neighbours: the right one takes the entries of both, the left
    /// one is freed, and the parent loses entry `at`, that of the left one.
    /// Nothing changes if it is refused.
    #[verifier::rlimit(50)]
    pub fn merge_pair(
        &mut self,
        left_id: u32,
        right_id: u32,
        parent: u32,
        at: usize,
        left: &Vec<KeyRow>,
        right: &Vec<KeyRow>,
        divider: &Value,
        leaf: bool,
    ) -> (done: Result<(), StorageError>)
        requires
            old(self).wf(),
            left_id != right_id,
            left_id != parent,
            right_id != parent,
            old(self)@.nodes.contains_key(left_id),
            old(self)@.nodes.contains_key(right_id),
            old(self)@.nodes.contains_key(parent),
            at < old(self)@.nodes[parent].entries.len(),
        ensures
            final(self).wf(),
            match done {
                Ok(()) => old(self)@.build_error(
                    leaf,
                    merge_plan(keyrows_view(left@), keyrows_view(right@), divider@, leaf),
                ) is None && final(self)@ == old(self)@.with_node(
                    right_id,
                    TreeView::built(
                        leaf,
                        merge_plan(keyrows_view(left@), keyrows_view(right@), divider@, leaf),
                    ),
                ).removed(left_id).with_node(parent, old(self)@.nodes[parent].without(at as int)),
                Err(e) => old(self)@.build_error(
                    leaf,
                    merge_plan(keyrows_view(left@), keyrows_view(right@), divider@, leaf),
                ) == Some(e) && final(self)@ == old(self)@,
            },
    {
        let total_cells: Vec<KeyRow> = plan_merge(left, right, divider, leaf);
        let page: Page = match self.buffer_pool.build_node(leaf, &total_cells) {
            Ok(page) => page,
            Err(e) => {
                return Err(e);
            },
        };
        match self.buffer_pool.install_node(right_id, page) {
            Ok(()) => {},
            Err(_) => {},
        }
        proof {
            lemma_node_in_reach(self.buffer_pool@, left_id);
        }
        match self.buffer_pool.remove_node(left_id) {
            Ok(()) => {},
            Err(_) => {},
        }
        match self.buffer_pool.take_entry(parent, at) {
            Ok(_) => {},
            Err(_) => {},
        }
        Ok(())
    }

    /// Moves one entry between two neighbours, and has the parent hold the left
    /// one, its entry `at`, under the new boundary. Nothing changes if it is
    /// refused.
    #[verifier::rlimit(50)]
    pub fn shift_pair(
        &mut self,
        left_id: u32,
        right_id: u32,
        parent: u32,
        at: usize,
        left: &Vec<KeyRow>,
        right: &Vec<KeyRow>,
        divider: &Value,
        leaf: bool,
        to_left: bool,
    ) -> (done: Result<(), StorageError>)
        requires
            old(self).wf(),
            left_id != right_id,
            left_id != parent,
            right_id != parent,
            old(self)@.nodes.contains_key(left_id),
            old(self)@.nodes.contains_key(right_id),
            old(self)@.nodes.contains_key(parent),
            to_left ==> right.len() >= 2 && left.len() >= 1,
            !to_left ==> left.len() >= 2,
        ensures
            final(self).wf(),
            ({
                let plan = shift_plan(
                    keyrows_view(left@),
                    keyrows_view(right@),
                    divider@,
                    leaf,
                    to_left,
                );
                let why = if old(self)@.build_error(leaf, plan.0) is Some {
                    old(self)@.build_error(leaf, plan.0)
                } else if old(self)@.build_error(leaf, plan.1) is Some {
                    old(self)@.build_error(leaf, plan.1)
                } else {
                    old(self)@.rekey_error(parent, at as int, plan.2)
                };
                match done {
                    Ok(()) => why is None && final(self)@ == old(self)@.with_node(
                        left_id,
                        TreeView::built(leaf, plan.0),
                    ).with_node(right_id, TreeView::built(leaf, plan.1)).with_node(
                        parent,
                        old(self)@.nodes[parent].rekeyed(at as int, plan.2),
                    ),
                    Err(e) => why == Some(e) && final(self)@ == old(self)@,
                }
            }),
    {
        let (new_left, new_right, new_bound) = plan_shift(left, right, divider, leaf, to_left);
        let left_page: Page = match self.buffer_pool.build_node(leaf, &new_left) {
            Ok(page) => page,
            Err(e) => {
                return Err(e);
            },
        };
        let right_page: Page = match self.buffer_pool.build_node(leaf, &new_right) {
            Ok(page) => page,
            Err(e) => {
                return Err(e);
            },
        };
        match self.buffer_pool.check_rekey(parent, at, &new_bound) {
            Some(e) => {
                return Err(e);
            },
            None => {},
        }
        match self.buffer_pool.install_node(left_id, left_page) {
            Ok(()) => {},
            Err(_) => {},
        }
        match self.buffer_pool.install_node(right_id, right_page) {
            Ok(()) => {},
            Err(_) => {},
        }
        match self.buffer_pool.rekey_entry(parent, at, new_bound) {
            Ok(()) => {},
            Err(_) => {},
        }
        Ok(())
    }

    /// Lets the root take the place of its only child: where the root is an
    /// internal node with one child, the root becomes a node of the child's
    /// kind with the child's entries, and the child's page is freed. Says
    /// whether that was done. Nothing changes if it is refused.
    #[verifier::rlimit(50)]
    pub fn merge_root(&mut self, root_id: u32) -> (done: Result<bool, StorageError>)
        requires
            old(self).wf(),
        ensures
            final(self).wf(),
            match done {
                Ok(did) => old(self)@.collapse_error(root_id) is None && final(self)@ == old(self)@.collapsed(root_id) && did == old(self)@.root_is_thin(root_id),
                Err(e) => old(self)@.collapse_error(root_id) == Some(e) && final(self)@ == old(self)@,
            },
    {
        reveal(TreeView::collapse_error);
        reveal(TreeView::collapsed);
        let ghost tree = self@;
        let (leaf, entries) = match self.buffer_pool.read_node(root_id) {
            Ok(node) => node,
            Err(e) => {
                return Err(e);
            },
        };
        assert(tree.nodes[root_id].entries.len() == entries.len());
        if leaf || entries.len() != 1 {
            return Ok(false);
        }
        assert(tree.nodes[root_id].entries[0] == entries[0]@);
        let child: u32 = child_id(&entries[0]);
        if child == root_id {
            return Err(StorageError::BrokenTree);
        }
        let (child_leaf, cells) = match self.buffer_pool.read_node(child) {
            Ok(node) => node,
            Err(e) => {
                return Err(e);
            },
        };
        let page: Page = match self.buffer_pool.build_node(child_leaf, &cells) {
            Ok(page) => page,
            Err(e) => {
                return Err(e);
            },
        };
        match self.buffer_pool.install_node(root_id, page) {
            Ok(()) => {},
            Err(_) => {},
        }
        proof {
            lemma_node_in_reach(self.buffer_pool@, child);
        }
        match self.buffer_pool.remove_node(child) {
            Ok(()) => {},
            Err(_) => {},
        }
        Ok(true)
    }

    /// Deletes `key`: the first entry with the key leaves the leaf that the key
    /// is routed to. Then every node on the way back up that holds too little
    /// is balanced with a neighbour, and the root takes the place of an only
    /// child. Says whether the key was there. A balancing that is refused
    /// leaves the key deleted.
    #[verifier::rlimit(50)]
    pub fn delete(&mut self, key: Value) -> (done: Result<bool, StorageError>)
        requires
            old(self).wf(),
        ensures
            final(self).wf(),
            match done {
                Ok(found) => found == old(self)@.holds(key@) && old(self)@.deleted(key@) == (
                    final(self)@,
                    None::<StorageError>,
                ),
                Err(e) => old(self)@.deleted(key@) == (final(self)@, Some(e)),
            },
    {
        let ghost tree = self@;
        let parents: Vec<u32> = match self.descend(&key) {
            Ok(path) => path,
            Err(e) => {
                return Err(e);
            },
        };
        proof {
            lemma_path(tree, key@, 0, tree.count as nat);
        }
        let leaf: u32 = parents[parents.len() - 1];
        let (_, entries) = match self.buffer_pool.read_node(leaf) {
            Ok(node) => node,
            Err(e) => {
                return Err(e);
            },
        };
        let at: usize = find_entry(&entries, &key);
        if at >= entries.len() {
            return Ok(false);
        }
        match self.buffer_pool.take_entry(leaf, at) {
            Ok(_) => {},
            Err(_) => {},
        }
        let ghost goal = tree.deleted(key@);
        assert(goal == self@.shrunk(parents@, parents@.len() - 1));
        let mut i: usize = parents.len() - 1;
        while i > 0
            invariant
                i < parents.len(),
                self.wf(),
                goal == old(self)@.deleted(key@),
                goal == self@.shrunk(parents@, i as int),
            decreases i,
        {
            let node_id: u32 = parents[i];
            match self.node_underflows(node_id) {
                Ok(under) => {
                    if under {
                        match self.distribute_mini(node_id, parents[i - 1]) {
                            Ok(()) => {},
                            Err(e) => {
                                return Err(e);
                            },
                        }
                    }
                },
                Err(e) => {
                    return Err(e);
                },
            }
            i -= 1;
        }
        match self.merge_root(0) {
            Ok(_) => Ok(true),
            Err(e) => Err(e),
        }
    }

    /// Replaces the entry under the key of `new_kr` by `new_kr`, in the leaf
    /// that the key is routed to; where the key is not there, `new_kr` is only
    /// put in. Nothing changes if it is refused.
    #[verifier::rlimit(50)]
    pub fn update(&mut self, new_kr: KeyRow) -> (done: Result<(), StorageError>)
        requires
            old(self).wf(),
        ensures
            final(self).wf(),
            match done {
                Ok(()) => old(self)@.updated(new_kr@) == (final(self)@, None::<StorageError>),
                Err(e) => old(self)@.updated(new_kr@) == (final(self)@, Some(e)),
            },
    {
        let ghost tree = self@;
        let (node_id, _) = match self.search(&new_kr.key) {
            Ok(place) => place,
            Err(e) => {
                return Err(e);
            },
        };
        proof {
            lemma_path(tree, new_kr@.key, 0, tree.count as nat);
        }
        let (_, entries) = match self.buffer_pool.read_node(node_id) {
            Ok(node) => node,
            Err(e) => {
                return Err(e);
            },
        };
        let at: usize = find_entry(&entries, &new_kr.key);
        match self.buffer_pool.check_put(node_id, at, &new_kr) {
            Some(e) => {
                return Err(e);
            },
            None => {},
        }
        if at < entries.len() {
            match self.buffer_pool.take_entry(node_id, at) {
                Ok(_) => {},
                Err(_) => {},
            }
        }
        match self.buffer_pool.put_entry(node_id, new_kr) {
            Ok(()) => {},
            Err(_) => {},
        }
        assert(self@.nodes =~= tree.with_node(
            node_id,
            tree.nodes[node_id].skipping(at as int).put(new_kr@),
        ).nodes);
        Ok(())
    }
}

} // verus!
