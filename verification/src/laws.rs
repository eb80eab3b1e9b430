//! What holds of the tree whenever a node is split, balanced, or replaced by
//! its only child, and what an insert, a delete and an update leave of a
//! search tree.

use vstd::prelude::*;
use crate::value::ValueView;
use crate::value::KeyRowView;
use crate::node::NodeView;
use crate::node::entry_index;
use crate::node::lemma_entry_index_bounds;
use crate::store::TreeView;
use crate::store::empty_node;
use crate::store::put_all;
use crate::btrees::routing_entry;
use crate::btrees::child_of;
use crate::btrees::route;
use crate::btrees::merge_plan;
use crate::btrees::shift_plan;
use crate::btrees::lemma_first_ceiling;
use crate::btrees::lemma_child_index;
use crate::shape::Shape;
use crate::shape::proper;
use crate::shape::lemma_path_exists;
use crate::grow::lemma_put_keeps_shape;
use crate::grow::lemma_put_lookup;
use crate::grow::lemma_rebalanced;
use crate::node::lemma_entry_find_bounds;
use crate::engine::TableView;
use crate::engine::schema_ok;
use crate::pages::PageView;
use crate::codec::image;
use crate::buffer_manager::PoolView;
use crate::error::StorageError;
use crate::node::entry_find;

verus! {

/// No entry has a smaller key than an entry before it.
pub open spec fn ordered(entries: Seq<KeyRowView>) -> bool {
    forall|i: int, j: int|
        0 <= i < j < entries.len() ==> !(#[trigger] entries[j]).key.lt((#[trigger] entries[i]).key)
}

/// A node that grows from entries has as many entries as were put, and the
/// kind that it began with.
pub proof fn lemma_put_all_len(node: NodeView, list: Seq<KeyRowView>, n: int)
    requires
        0 <= n <= list.len(),
    ensures
        put_all(node, list, n).entries.len() == node.entries.len() + n,
        put_all(node, list, n).leaf == node.leaf,
    decreases n,
{
    if n > 0 {
        lemma_put_all_len(node, list, n - 1);
        lemma_entry_index_bounds(put_all(node, list, n - 1).entries, list[n - 1].key);
    }
}

/// Entries that are put into an empty node in rising order stand in the node
/// as they were put.
pub proof fn lemma_put_all_ordered(leaf: bool, list: Seq<KeyRowView>, n: int)
    requires
        0 <= n <= list.len(),
        ordered(list),
    ensures
        put_all(empty_node(leaf), list, n).entries == list.take(n),
    decreases n,
{
    if n > 0 {
        lemma_put_all_ordered(leaf, list, n - 1);
        let before = list.take(n - 1);
        let e = list[n - 1];
        lemma_entry_index_bounds(before, e.key);
        let at = entry_index(before, e.key);
        if at < before.len() {
            assert(before[at] == list[at]);
            assert(!list[n - 1].key.lt(list[at].key));
        }
        assert(before.insert(n - 1, e) =~= list.take(n));
    } else {
        assert(list.take(0) =~= Seq::<KeyRowView>::empty());
    }
}

/// A split gives two nodes within bounds and the parent one more entry. Where
/// a node holds one entry more than a node of its kind may, the new node to
/// its left and the node itself afterwards each hold at least the fewest and
/// at most the most entries of their kind, together what the node held; both
/// are of its kind; and the parent has gained exactly one entry.
pub proof fn law_split_keeps_bounds(tree: TreeView, current: u32, parent: u32)
    requires
        tree.split_error(current, parent) is None,
        tree.nodes[current].entries.len() == tree.nodes[current].most() + 1,
    ensures
        ({
            let node = tree.nodes[current];
            let after = tree.split(current, parent);
            let left = after.nodes[tree.next_id()];
            let right = after.nodes[current];
            &&& after.nodes.contains_key(tree.next_id())
            &&& after.nodes.contains_key(current)
            &&& after.nodes.contains_key(parent)
            &&& left.leaf == node.leaf
            &&& right.leaf == node.leaf
            &&& node.fewest() <= left.entries.len() <= node.most()
            &&& node.fewest() <= right.entries.len() <= node.most()
            &&& left.entries.len() + right.entries.len() == node.entries.len()
            &&& after.nodes[parent].entries.len() == tree.nodes[parent].entries.len() + 1
            &&& after.nodes[parent].entries == tree.nodes[parent].entries.insert(
                entry_index(tree.nodes[parent].entries, node.divider()),
                routing_entry(node.divider(), tree.next_id()),
            )
        }),
{
    reveal(TreeView::split_error);
    reveal(TreeView::split);
    let node = tree.nodes[current];
    lemma_put_all_len(empty_node(node.leaf), node.left_half(), node.left_half().len() as int);
    lemma_entry_index_bounds(tree.nodes[parent].entries, node.divider());
}

/// Balancing gives nodes within bounds. Where a node holds one entry less than
/// a node of its kind should and its neighbour is within bounds, then either
/// the two are merged: the left one of them is gone, the right one holds the
/// entries of both, within bounds, and the parent has lost exactly one entry;
/// or one entry has moved: both are there, within bounds, with as many
/// entries together as before, and the parent holds the left one under the
/// new boundary and has as many entries as before.
#[verifier::rlimit(50)]
pub proof fn law_balance_keeps_bounds(tree: TreeView, current: u32, parent: u32)
    requires
        tree.distribute_error(current, parent) is None,
        tree.nodes.contains_key(current),
        tree.nodes[current].entries.len() == tree.nodes[current].fewest() - 1,
        ({
            let other = if tree.own_index(current, parent) == 0 {
                tree.right_id(current, parent)
            } else {
                tree.left_id(current, parent)
            };
            tree.nodes[other].fewest() <= tree.nodes[other].entries.len() <= tree.nodes[other].most()
        }),
    ensures
        ({
            let l = tree.left_id(current, parent);
            let r = tree.right_id(current, parent);
            let at = tree.left_index(current, parent);
            let before = tree.nodes[l].entries.len() + tree.nodes[r].entries.len();
            let node = tree.nodes[current];
            let after = tree.distributed(current, parent);
            if tree.merges(current, parent) {
                &&& !after.nodes.contains_key(l)
                &&& after.nodes.contains_key(r)
                &&& after.nodes[r].leaf == node.leaf
                &&& after.nodes[r].entries.len() == before
                &&& node.fewest() <= after.nodes[r].entries.len() <= node.most()
                &&& after.nodes[parent].entries == tree.nodes[parent].entries.remove(at)
                &&& after.nodes[parent].entries.len() == tree.nodes[parent].entries.len() - 1
            } else {
                &&& after.nodes.contains_key(l)
                &&& after.nodes.contains_key(r)
                &&& after.nodes[l].leaf == node.leaf
                &&& after.nodes[r].leaf == node.leaf
                &&& node.fewest() <= after.nodes[l].entries.len() <= node.most()
                &&& node.fewest() <= after.nodes[r].entries.len() <= node.most()
                &&& after.nodes[l].entries.len() + after.nodes[r].entries.len() == before
                &&& after.nodes[current].entries.len() == node.entries.len() + 1
                &&& after.nodes[parent].entries.len() == tree.nodes[parent].entries.len()
                &&& after.nodes[parent].entries[at].key == shift_plan(
                    tree.nodes[l].entries,
                    tree.nodes[r].entries,
                    tree.pair_divider(current, parent),
                    node.leaf,
                    tree.own_index(current, parent) == 0,
                ).2
            }
        }),
{
    reveal(TreeView::distribute_error);
    reveal(TreeView::distributed);
    let l = tree.left_id(current, parent);
    let r = tree.right_id(current, parent);
    let left = tree.nodes[l];
    let right = tree.nodes[r];
    let divider = tree.pair_divider(current, parent);
    let to_left = tree.own_index(current, parent) == 0;
    lemma_child_index(tree.nodes[parent].entries, current);
    assert(current == if to_left { l } else { r });
    if tree.merges(current, parent) {
        let plan = merge_plan(left.entries, right.entries, divider, left.leaf);
        lemma_first_ceiling(left.entries + right.entries);
        assert(plan.len() == left.entries.len() + right.entries.len());
        lemma_put_all_len(empty_node(left.leaf), plan, plan.len() as int);
    } else {
        let plan = shift_plan(left.entries, right.entries, divider, left.leaf, to_left);
        lemma_put_all_len(empty_node(left.leaf), plan.0, plan.0.len() as int);
        lemma_put_all_len(empty_node(left.leaf), plan.1, plan.1.len() as int);
    }
}

/// The root takes the place of its only child. Where the root is an internal
/// node with one child, afterwards the child's page is no node any more, and
/// the root is a node of the child's kind; it holds the child's entries as
/// they stood, if they stood in rising order.
pub proof fn law_root_takes_childs_place(tree: TreeView, root: u32)
    requires
        tree.collapse_error(root) is None,
        tree.root_is_thin(root),
    ensures
        ({
            let child = child_of(tree.nodes[root].entries[0]);
            let after = tree.collapsed(root);
            &&& child != root
            &&& !after.nodes.contains_key(child)
            &&& after.nodes.contains_key(root)
            &&& after.nodes[root].leaf == tree.nodes[child].leaf
            &&& after.nodes[root].entries.len() == tree.nodes[child].entries.len()
            &&& (ordered(tree.nodes[child].entries) ==> after.nodes[root] == tree.nodes[child])
            &&& forall|other: u32|
                other != root && other != child ==> after.nodes.contains_key(other)
                    == tree.nodes.contains_key(other) && #[trigger] after.nodes[other]
                    == tree.nodes[other]
        }),
{
    reveal(TreeView::collapse_error);
    reveal(TreeView::collapsed);
    let child = child_of(tree.nodes[root].entries[0]);
    let list = tree.nodes[child].entries;
    lemma_put_all_len(empty_node(tree.nodes[child].leaf), list, list.len() as int);
    if ordered(list) {
        lemma_put_all_ordered(tree.nodes[child].leaf, list, list.len() as int);
        assert(list.take(list.len() as int) =~= list);
    }
}

/// A way down in one tree is a way down in every tree that has the same nodes
/// along it.
pub proof fn lemma_path_frame(a: TreeView, b: TreeView, key: ValueView, id: u32, fuel: nat)
    requires
        a.path_from(key, id, fuel) is Some,
        forall|i: int|
            0 <= i < a.path_from(key, id, fuel)->0.len() ==> b.nodes.contains_key(
                #[trigger] a.path_from(key, id, fuel)->0[i],
            ) && b.nodes[a.path_from(key, id, fuel)->0[i]] == a.nodes[a.path_from(key, id, fuel)->0[i]],
    ensures
        b.path_from(key, id, fuel) == a.path_from(key, id, fuel),
    decreases fuel,
{
    let path = a.path_from(key, id, fuel)->0;
    crate::btrees::lemma_path(a, key, id, fuel);
    assert(path[0] == id);
    if !a.nodes[id].leaf {
        let at = route(a.nodes[id].entries, key);
        let child = child_of(a.nodes[id].entries[at]);
        let rest = a.path_from(key, child, (fuel - 1) as nat)->0;
        assert(path == seq![id] + rest);
        assert forall|i: int| 0 <= i < rest.len() implies b.nodes.contains_key(#[trigger] rest[i])
            && b.nodes[rest[i]] == a.nodes[rest[i]] by {
            assert(path[i + 1] == rest[i]);
        }
        lemma_path_frame(a, b, key, child, (fuel - 1) as nat);
    }
}

/// When the root takes the place of its only child the tree loses one level:
/// where a key's way down from that child passed neither the root nor, below
/// its start, the child, the way down from the root afterwards is that way
/// with the root in the child's place, one page shorter than the way down
/// from the root before.
#[verifier::rlimit(50)]
pub proof fn law_root_collapse_shortens(tree: TreeView, root: u32, key: ValueView, fuel: nat)
    requires
        tree.nodes.contains_key(root),
        tree.collapse_error(root) is None,
        tree.root_is_thin(root),
        ordered(tree.nodes[child_of(tree.nodes[root].entries[0])].entries),
        tree.path_from(key, child_of(tree.nodes[root].entries[0]), fuel) is Some,
        forall|i: int|
            1 <= i < tree.path_from(key, child_of(tree.nodes[root].entries[0]), fuel)->0.len() ==> (
            #[trigger] tree.path_from(key, child_of(tree.nodes[root].entries[0]), fuel)->0[i]) != root
                && tree.path_from(key, child_of(tree.nodes[root].entries[0]), fuel)->0[i] != child_of(
                tree.nodes[root].entries[0],
            ),
    ensures
        tree.path_from(key, root, fuel + 1) == Some(
            seq![root] + tree.path_from(key, child_of(tree.nodes[root].entries[0]), fuel)->0,
        ),
        tree.collapsed(root).path_from(key, root, fuel) == Some(
            seq![root] + tree.path_from(key, child_of(tree.nodes[root].entries[0]), fuel)->0.skip(1),
        ),
{
    let child = child_of(tree.nodes[root].entries[0]);
    let after = tree.collapsed(root);
    let path = tree.path_from(key, child, fuel)->0;
    law_root_takes_childs_place(tree, root);
    crate::btrees::lemma_path(tree, key, child, fuel);
    reveal(TreeView::collapse_error);
    lemma_entry_index_bounds(tree.nodes[root].entries, key);
    assert(route(tree.nodes[root].entries, key) == 0);
    assert(after.nodes[root] == tree.nodes[child]);
    if tree.nodes[child].leaf {
        assert(path =~= seq![child]);
        assert(seq![root] + path.skip(1) =~= seq![root]);
    } else {
        let at = route(tree.nodes[child].entries, key);
        let next = child_of(tree.nodes[child].entries[at]);
        let rest = tree.path_from(key, next, (fuel - 1) as nat)->0;
        assert(path == seq![child] + rest);
        assert(path.skip(1) =~= rest);
        assert forall|i: int| 0 <= i < rest.len() implies after.nodes.contains_key(
            #[trigger] rest[i],
        ) && after.nodes[rest[i]] == tree.nodes[rest[i]] by {
            assert(path[i + 1] == rest[i]);
            assert(rest[i] != root && rest[i] != child);
            assert(tree.nodes.contains_key(path[i + 1]));
            assert(after.nodes[rest[i]] == tree.nodes[rest[i]]);
            assert(after.nodes.contains_key(rest[i]) == tree.nodes.contains_key(rest[i]));
        }
        lemma_path_frame(tree, after, key, next, (fuel - 1) as nat);
    }
}


/// A tree of one empty leaf is a search tree in which no node holds too much
/// or too little.
pub proof fn law_empty_tree_is_search_tree(tree: TreeView, text: bool)
    requires
        tree.nodes.contains_key(0),
        tree.nodes[0] == empty_node(true),
        tree.free.len() == 0,
        tree.count >= 1,
    ensures
        tree.searchable(text),
        tree.balanced(text),
{
    let shape = Shape {
        live: Set::empty().insert(0u32),
        depth: Map::empty().insert(0u32, 0nat),
        up: Map::empty(),
        lo: Map::empty().insert(0u32, None),
        hi: Map::empty().insert(0u32, None),
        height: 0,
        text,
    };
    assert(shape.node_ok(tree, 0));
    assert(shape.live.len() == 1);
    assert(shape.valid(tree));
    assert(shape.fits(tree, 0));
    assert(shape.sized(tree));
}

/// The tree of a new table is one empty leaf.
#[verifier::rlimit(50)]
pub proof fn law_new_table_is_empty_tree(
    name: Seq<char>,
    pk_column: u8,
    column_names: Seq<Seq<u8>>,
    column_types: Seq<u8>,
)
    requires
        schema_ok(column_names, column_types),
        forall|i: int| 0 <= i < column_names.len() ==> vstd::utf8::valid_utf8(#[trigger] column_names[i]),
    ensures
        ({
            let table = TableView::blank(
                name,
                pk_column,
                column_names,
                column_types,
            ).header_written().page_created(image(PageView::empty_leaf()));
            let tree = (PoolView { file: table, frames: Seq::empty(), clock: 0 }).tree();
            &&& tree.nodes.contains_key(0)
            &&& tree.nodes[0] == empty_node(true)
            &&& tree.free.len() == 0
            &&& tree.count == 1
        }),
{
    let blank = TableView::blank(name, pk_column, column_names, column_types);
    crate::engine::lemma_section_len_nonneg(column_names, column_names.len() as int);
    assert(blank.fields_ok());
    crate::engine::lemma_header_written_wf(blank);
    let written = blank.header_written();
    let leaf = PageView::empty_leaf();
    crate::codec::lemma_image_len(leaf);
    assert(written.can_create());
    crate::engine::lemma_page_created(written, image(leaf));
    let table = written.page_created(image(leaf));
    assert(leaf.wf());
    assert(leaf.conforms(column_types));
    crate::codec::lemma_wf_writable(leaf);
    crate::codec::law_read_back(leaf, column_types);
    crate::codec::lemma_settled(leaf, column_types);
    let pool = PoolView { file: table, frames: Seq::empty(), clock: 0 };
    assert(table.in_reach(0));
    assert(pool.on_disk(0) == Some(leaf.settled()));
    assert(!pool.resident(0));
    assert(leaf.settled().node().entries =~= Seq::<KeyRowView>::empty());
}

/// An inserted key is found, and nothing else is lost. In a search tree, an
/// entry whose key is a proper key that the tree does not hold yet is put
/// into the leaf that its key is routed to; once the leaf has taken it,
/// whatever splits follow, the tree is a search tree that holds the entry's
/// row under the entry's key, and under every other key what it held before.
#[verifier::rlimit(50)]
pub proof fn law_inserted_key_is_found(tree: TreeView, kr: KeyRowView, text: bool, key: ValueView)
    requires
        tree.searchable(text),
        proper(kr.key, text),
        !tree.holds(kr.key),
        tree.put_error(tree.path(kr.key)->0.last(), kr) is None,
    ensures
        tree.inserted(kr).0.searchable(text),
        tree.inserted(kr).0.lookup(key) == (if key == kr.key {
            Some(kr.row)
        } else {
            tree.lookup(key)
        }),
{
    let shape = choose|shape: Shape| shape.valid(tree) && shape.text == text;
    lemma_path_exists(tree, shape, kr.key);
    let path = tree.path(kr.key)->0;
    let leaf = path.last();
    let h = shape.height as int;
    assert(leaf == path[h]);
    assert(shape.node_ok(tree, leaf));
    lemma_entry_find_bounds(tree.nodes[leaf].entries, kr.key);
    lemma_put_keeps_shape(tree, shape, leaf, kr);
    lemma_put_lookup(tree, shape, kr, key);
    let put = tree.with_node(leaf, tree.nodes[leaf].put(kr));
    assert forall|j: int| 1 <= j <= h implies shape.up[#[trigger] path[j]].0 == path[j - 1] by {
        assert(shape.up[path[(j - 1) + 1]].0 == path[j - 1]);
    }
    let next = lemma_rebalanced(put, shape, path, h, key);
    assert(tree.inserted(kr) == put.rebalanced(path, path.len() - 1));
}


impl TreeView {
    /// The tree after the first `n` of `list` were inserted one after another.
    pub open spec fn inserted_all(self, list: Seq<KeyRowView>, n: int) -> TreeView
        decreases n,
    {
        if n <= 0 {
            self
        } else {
            self.inserted_all(list, n - 1).inserted(list[n - 1]).0
        }
    }

    /// Whether each of the first `n` of `list`, inserted one after another, is
    /// taken by the leaf that its key is routed to.
    pub open spec fn all_taken(self, list: Seq<KeyRowView>, n: int) -> bool
        decreases n,
    {
        if n <= 0 {
            true
        } else {
            let before = self.inserted_all(list, n - 1);
            self.all_taken(list, n - 1) && before.put_error(
                before.path(list[n - 1].key)->0.last(),
                list[n - 1],
            ) is None
        }
    }
}

/// Whether the keys of `list` are proper keys, each different from the others
/// and from the keys that `tree` holds.
pub open spec fn fresh_keys(tree: TreeView, list: Seq<KeyRowView>, text: bool) -> bool {
    &&& forall|i: int| 0 <= i < list.len() ==> proper((#[trigger] list[i]).key, text) && !tree.holds(
        list[i].key,
    )
    &&& forall|i: int, j: int|
        0 <= i < j < list.len() ==> (#[trigger] list[i]).key != (#[trigger] list[j]).key
}

/// After any run of inserts with keys of their own, every inserted key is
/// found with its row. In a search tree, let entries with proper keys, each
/// different from the others and from the keys in the tree, be inserted one
/// after another, each taken by its leaf. Then the tree is a search tree and
/// holds under the key of each of them its row, and under every other key
/// what it held before.
#[verifier::rlimit(50)]
pub proof fn law_inserted_keys_are_found(
    tree: TreeView,
    list: Seq<KeyRowView>,
    text: bool,
    n: int,
    key: ValueView,
)
    requires
        tree.searchable(text),
        fresh_keys(tree, list, text),
        0 <= n <= list.len(),
        tree.all_taken(list, n),
    ensures
        tree.inserted_all(list, n).searchable(text),
        forall|i: int|
            0 <= i < n && list[i].key == key ==> tree.inserted_all(list, n).lookup(key) == Some(
                (#[trigger] list[i]).row,
            ),
        (forall|i: int| 0 <= i < n ==> (#[trigger] list[i]).key != key) ==> tree.inserted_all(
            list,
            n,
        ).lookup(key) == tree.lookup(key),
    decreases n,
{
    if n > 0 {
        let before = tree.inserted_all(list, n - 1);
        let e = list[n - 1];
        law_inserted_keys_are_found(tree, list, text, n - 1, key);
        law_inserted_keys_are_found(tree, list, text, n - 1, e.key);
        assert(!before.holds(e.key)) by {
            assert forall|i: int| 0 <= i < n - 1 implies (#[trigger] list[i]).key != e.key by {}
            assert(before.lookup(e.key) == tree.lookup(e.key));
        }
        law_inserted_key_is_found(before, e, text, key);
        assert forall|i: int| 0 <= i < n && list[i].key == key implies tree.inserted_all(
            list,
            n,
        ).lookup(key) == Some((#[trigger] list[i]).row) by {
            if i < n - 1 {
                assert(list[i].key != list[n - 1].key);
            }
        }
    }
}

/// An insert splits the leaf that it overfills: where the leaf that has taken
/// the entry holds too much and can be split under its parent, the insert
/// goes on from the tree in which it is split.
pub proof fn law_overfull_leaf_is_split(tree: TreeView, kr: KeyRowView)
    requires
        tree.path(kr.key) is Some,
        tree.path(kr.key)->0.len() >= 2,
        tree.put_error(tree.path(kr.key)->0.last(), kr) is None,
        tree.nodes[tree.path(kr.key)->0.last()].put(kr).overflow(),
        ({
            let path = tree.path(kr.key)->0;
            tree.with_node(path.last(), tree.nodes[path.last()].put(kr)).split_error(
                path.last(),
                path[path.len() - 2],
            ) is None
        }),
    ensures
        ({
            let path = tree.path(kr.key)->0;
            let put = tree.with_node(path.last(), tree.nodes[path.last()].put(kr));
            tree.inserted(kr) == put.split(path.last(), path[path.len() - 2]).rebalanced(
                path,
                path.len() - 2,
            )
        }),
{
}

/// A delete balances the leaf that it leaves too empty: where the leaf that
/// has lost the entry holds too little and can be balanced with a neighbour,
/// the delete goes on from the tree in which it is balanced.
pub proof fn law_underfull_leaf_is_balanced(tree: TreeView, key: ValueView)
    requires
        tree.holds(key),
        tree.path(key)->0.len() >= 2,
        ({
            let path = tree.path(key)->0;
            let leaf = tree.nodes[path.last()];
            let cut = tree.with_node(path.last(), leaf.without(entry_find(leaf.entries, key)));
            leaf.without(entry_find(leaf.entries, key)).underflow() && cut.distribute_error(
                path.last(),
                path[path.len() - 2],
            ) is None
        }),
    ensures
        ({
            let path = tree.path(key)->0;
            let leaf = tree.nodes[path.last()];
            let cut = tree.with_node(path.last(), leaf.without(entry_find(leaf.entries, key)));
            tree.deleted(key) == cut.distributed(path.last(), path[path.len() - 2]).shrunk(
                path,
                path.len() - 2,
            )
        }),
{
}

/// The balancing after a delete ends at the root: where the root can take
/// the place of an only child, the tree that is left is the one in which it
/// has done so if it has one child only.
pub proof fn law_delete_ends_at_the_root(tree: TreeView, path: Seq<u32>)
    requires
        tree.collapse_error(0) is None,
    ensures
        tree.shrunk(path, 0) == (tree.collapsed(0), None::<StorageError>),
{
}


/// A deleted key is gone, and nothing else is lost. After a delete in a
/// search tree, whatever balancing follows and wherever it stops, the tree is
/// a search tree that holds nothing under the deleted key, and under every
/// other key what it held before.
#[verifier::rlimit(50)]
pub proof fn law_deleted_key_is_gone(tree: TreeView, gone: ValueView, text: bool, key: ValueView)
    requires
        tree.searchable(text),
    ensures
        tree.deleted(gone).0.searchable(text),
        tree.deleted(gone).0.lookup(key) == (if key == gone {
            None
        } else {
            tree.lookup(key)
        }),
{
    let shape = choose|shape: Shape| shape.valid(tree) && shape.text == text;
    lemma_path_exists(tree, shape, gone);
    let path = tree.path(gone)->0;
    let leaf = path.last();
    let h = shape.height as int;
    assert(leaf == path[h]);
    assert(shape.node_ok(tree, leaf));
    lemma_entry_find_bounds(tree.nodes[leaf].entries, gone);
    let at = entry_find(tree.nodes[leaf].entries, gone);
    if at < tree.nodes[leaf].entries.len() {
        crate::shrink::lemma_cut_keeps_shape(tree, shape, leaf, at);
        crate::shrink::lemma_cut_lookup(tree, shape, gone, key);
        let cut = tree.with_node(leaf, tree.nodes[leaf].without(at));
        assert forall|j: int| 1 <= j <= h implies shape.up[#[trigger] path[j]].0 == path[j - 1] by {
            assert(shape.up[path[(j - 1) + 1]].0 == path[j - 1]);
        }
        let next = crate::shrink::lemma_shrunk(cut, shape, path, h, key);
        assert(tree.deleted(gone) == cut.shrunk(path, path.len() - 1));
    } else {
        assert(tree.deleted(gone).0 == tree);
    }
}


/// An updated key holds the new row, and nothing else is lost. After an
/// update in a search tree with an entry whose key is a proper key, once the
/// leaf that the key is routed to has taken the entry, the tree is a search
/// tree that holds the entry's row under the entry's key, and under every
/// other key what it held before.
#[verifier::rlimit(50)]
pub proof fn law_updated_key_is_replaced(tree: TreeView, kr: KeyRowView, text: bool, key: ValueView)
    requires
        tree.searchable(text),
        proper(kr.key, text),
        tree.updated(kr).1 is None,
    ensures
        tree.updated(kr).0.searchable(text),
        tree.updated(kr).0.lookup(key) == (if key == kr.key {
            Some(kr.row)
        } else {
            tree.lookup(key)
        }),
{
    let shape = choose|shape: Shape| shape.valid(tree) && shape.text == text;
    lemma_path_exists(tree, shape, kr.key);
    let path = tree.path(kr.key)->0;
    let leaf = path.last();
    let h = shape.height as int;
    assert(leaf == path[h]);
    assert(shape.node_ok(tree, leaf));
    lemma_entry_find_bounds(tree.nodes[leaf].entries, kr.key);
    let at = entry_find(tree.nodes[leaf].entries, kr.key);
    if at < tree.nodes[leaf].entries.len() {
        crate::shrink::lemma_cut_keeps_shape(tree, shape, leaf, at);
        crate::shrink::lemma_cut_lookup(tree, shape, kr.key, kr.key);
        crate::shrink::lemma_cut_lookup(tree, shape, kr.key, key);
        let cut = tree.with_node(leaf, tree.nodes[leaf].without(at));
        lemma_entry_find_bounds(cut.nodes[leaf].entries, kr.key);
        lemma_put_keeps_shape(cut, shape, leaf, kr);
        lemma_put_lookup(cut, shape, kr, key);
        let put = cut.with_node(leaf, cut.nodes[leaf].put(kr));
        assert(put.nodes =~= tree.updated(kr).0.nodes);
        assert(put == tree.updated(kr).0);
    } else {
        lemma_put_keeps_shape(tree, shape, leaf, kr);
        lemma_put_lookup(tree, shape, kr, key);
    }
}


/// An insert keeps the tree balanced. After an insert, with every split that
/// was due done, into a search tree in which no node holds too much or too
/// little, of an entry whose key is a proper key that the tree does not hold
/// yet, no node of the tree holds too much or too little.
#[verifier::rlimit(50)]
pub proof fn law_insert_keeps_balance(tree: TreeView, kr: KeyRowView, text: bool)
    requires
        tree.balanced(text),
        proper(kr.key, text),
        !tree.holds(kr.key),
        tree.inserted(kr).1 is None,
    ensures
        tree.inserted(kr).0.balanced(text),
{
    let shape = choose|shape: Shape| shape.sized(tree) && shape.text == text;
    lemma_path_exists(tree, shape, kr.key);
    let path = tree.path(kr.key)->0;
    let leaf = path.last();
    let h = shape.height as int;
    assert(leaf == path[h]);
    assert(shape.node_ok(tree, leaf));
    assert(shape.fits(tree, leaf));
    lemma_entry_find_bounds(tree.nodes[leaf].entries, kr.key);
    lemma_entry_index_bounds(tree.nodes[leaf].entries, kr.key);
    lemma_put_keeps_shape(tree, shape, leaf, kr);
    let put = tree.with_node(leaf, tree.nodes[leaf].put(kr));
    assert forall|j: int| 1 <= j <= h implies shape.up[#[trigger] path[j]].0 == path[j - 1] by {
        assert(shape.up[path[(j - 1) + 1]].0 == path[j - 1]);
    }
    assert forall|n: u32| shape.live.contains(n) && n != path[h] implies #[trigger] shape.fits(
        put,
        n,
    ) by {
        assert(shape.fits(tree, n));
    }
    assert(tree.inserted(kr) == put.rebalanced(path, path.len() - 1));
    let next = crate::balance::lemma_rebalanced_sized(put, shape, path, h);
}

/// A delete keeps the tree balanced. After a delete, with all the balancing
/// that was due done, from a search tree in which no node holds too much or
/// too little, no node of the tree holds too much or too little.
#[verifier::rlimit(50)]
pub proof fn law_delete_keeps_balance(tree: TreeView, gone: ValueView, text: bool)
    requires
        tree.balanced(text),
        tree.deleted(gone).1 is None,
    ensures
        tree.deleted(gone).0.balanced(text),
{
    let shape = choose|shape: Shape| shape.sized(tree) && shape.text == text;
    lemma_path_exists(tree, shape, gone);
    let path = tree.path(gone)->0;
    let leaf = path.last();
    let h = shape.height as int;
    assert(leaf == path[h]);
    assert(shape.node_ok(tree, leaf));
    assert(shape.fits(tree, leaf));
    lemma_entry_find_bounds(tree.nodes[leaf].entries, gone);
    let at = entry_find(tree.nodes[leaf].entries, gone);
    if at < tree.nodes[leaf].entries.len() {
        crate::shrink::lemma_cut_keeps_shape(tree, shape, leaf, at);
        let cut = tree.with_node(leaf, tree.nodes[leaf].without(at));
        assert forall|j: int| 1 <= j <= h implies shape.up[#[trigger] path[j]].0 == path[j - 1] by {
            assert(shape.up[path[(j - 1) + 1]].0 == path[j - 1]);
        }
        assert forall|n: u32| shape.live.contains(n) && n != path[h] implies #[trigger] shape.fits(
            cut,
            n,
        ) by {
            assert(shape.fits(tree, n));
        }
        assert(tree.deleted(gone) == cut.shrunk(path, path.len() - 1));
        let next = crate::balance::lemma_shrunk_sized(cut, shape, path, h);
    } else {
        assert(tree.deleted(gone).0 == tree);
    }
}

} // verus!
