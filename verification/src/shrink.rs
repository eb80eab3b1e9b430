//! A search tree stays a search tree, with the same rows under the same keys,
//! when an entry leaves a leaf, two neighbours are balanced, or the root
//! takes the place of its only child.

use vstd::prelude::*;
use crate::value::ValueView;
use crate::value::KeyRowView;
use crate::node::NodeView;
use crate::node::entry_index;
use crate::node::entry_find;
use crate::node::lemma_entry_index_bounds;
use crate::node::lemma_entry_find_bounds;
use crate::store::TreeView;
use crate::btrees::route;
use crate::btrees::child_of;
use crate::btrees::lemma_path;
use crate::order::rising;
use crate::order::lemma_rising_find;
use crate::order::lemma_rising_index;
use crate::order::lemma_find_absent;
use crate::order::lemma_lt_irreflexive;
use crate::order::lemma_lt_transitive;
use crate::order::lemma_lt_asymmetric;
use crate::order::lemma_lt_then_le;
use crate::order::lemma_le_then_lt;
use crate::shape::Shape;
use crate::shape::within;
use crate::shape::inside;
use crate::shape::proper;
use crate::shape::lemma_path_exists;
use crate::grow::lemma_path_same;
use crate::grow::lemma_built_rising;
use crate::grow::lemma_ceiling_of_kind;
use crate::btrees::child_index;
use crate::btrees::lemma_child_index;
use crate::btrees::first_ceiling;
use crate::btrees::lemma_first_ceiling;
use crate::btrees::with_key;
use crate::btrees::merge_plan;
use crate::btrees::shift_plan;
use crate::engine::freed;

verus! {

/// A search tree with one entry less in a leaf is a search tree in the same
/// shape.
pub proof fn lemma_cut_keeps_shape(tree: TreeView, shape: Shape, leaf: u32, at: int)
    requires
        shape.valid(tree),
        shape.live.contains(leaf),
        tree.nodes[leaf].leaf,
        0 <= at < tree.nodes[leaf].entries.len(),
    ensures
        shape.valid(tree.with_node(leaf, tree.nodes[leaf].without(at))),
{
    let after = tree.with_node(leaf, tree.nodes[leaf].without(at));
    let old_entries = tree.nodes[leaf].entries;
    assert(shape.node_ok(tree, leaf));
    assert forall|n: u32| shape.live.contains(n) implies #[trigger] shape.node_ok(after, n) by {
        assert(shape.node_ok(tree, n));
        if n != 0 {
            let p = shape.up[n].0;
            assert(shape.node_ok(tree, p));
            assert(p != leaf);
            assert(after.nodes[p] == tree.nodes[p]);
        }
        if n == leaf {
            let entries = after.nodes[n].entries;
            assert forall|i: int, j: int| 0 <= i < j < entries.len() implies (
            #[trigger] entries[i]).key.lt((#[trigger] entries[j]).key) by {
                let oi = if i < at { i } else { i + 1 };
                let oj = if j < at { j } else { j + 1 };
                assert(old_entries[oi].key.lt(old_entries[oj].key));
            }
            assert forall|i: int| 0 <= i < entries.len() implies proper(
                (#[trigger] entries[i]).key,
                shape.text,
            ) && within(entries[i].key, shape.lo[n], shape.hi[n]) by {
                let oi = if i < at { i } else { i + 1 };
                assert(entries[i] == old_entries[oi]);
            }
        } else {
            assert(after.nodes[n] == tree.nodes[n]);
        }
    }
}

/// What is found in a leaf of rising entries after one entry left it: under
/// its key nothing, under every other key what was there.
pub proof fn lemma_cut_find(entries: Seq<KeyRowView>, at: int, key: ValueView)
    requires
        rising(entries),
        0 <= at < entries.len(),
    ensures
        ({
            let after = entries.remove(at);
            let was = entry_find(entries, key);
            let now = entry_find(after, key);
            if key == entries[at].key {
                now == after.len()
            } else if was < entries.len() {
                now < after.len() && after[now].row == entries[was].row
            } else {
                now == after.len()
            }
        }),
{
    lemma_entry_find_bounds(entries, key);
    let after = entries.remove(at);
    let was = entry_find(entries, key);
    assert(rising(after)) by {
        assert forall|i: int, j: int| 0 <= i < j < after.len() implies (#[trigger] after[i]).key.lt(
            (#[trigger] after[j]).key,
        ) by {
            let oi = if i < at { i } else { i + 1 };
            let oj = if j < at { j } else { j + 1 };
            assert(entries[oi].key.lt(entries[oj].key));
        }
    }
    if key == entries[at].key || was >= entries.len() {
        assert forall|j: int| 0 <= j < after.len() implies (#[trigger] after[j]).key != key by {
            let oj = if j < at { j } else { j + 1 };
            assert(after[j] == entries[oj]);
            if key == entries[at].key {
                if oj < at {
                    assert(entries[oj].key.lt(entries[at].key));
                } else {
                    assert(entries[at].key.lt(entries[oj].key));
                }
                lemma_lt_irreflexive(key);
            }
        }
        lemma_find_absent(after, key);
    } else {
        assert(was != at);
        let to = if was < at { was } else { was - 1 };
        assert(after[to] == entries[was]);
        lemma_rising_find(after, key, to);
    }
}

/// After the entry under a key left the leaf that the key is routed to, the
/// tree holds nothing under that key, and under every other key what it held.
pub proof fn lemma_cut_lookup(tree: TreeView, shape: Shape, gone: ValueView, key: ValueView)
    requires
        shape.valid(tree),
        tree.holds(gone),
    ensures
        ({
            let leaf = tree.path(gone)->0.last();
            let at = entry_find(tree.nodes[leaf].entries, gone);
            let after = tree.with_node(leaf, tree.nodes[leaf].without(at));
            &&& after.path(key) == tree.path(key)
            &&& after.lookup(key) == (if key == gone {
                None
            } else {
                tree.lookup(key)
            })
        }),
{
    lemma_path_exists(tree, shape, gone);
    lemma_path_exists(tree, shape, key);
    let leaf = tree.path(gone)->0.last();
    let at = entry_find(tree.nodes[leaf].entries, gone);
    let after = tree.with_node(leaf, tree.nodes[leaf].without(at));
    let q = tree.path(key)->0;
    lemma_path(tree, gone, 0, tree.count as nat);
    lemma_path(tree, key, 0, tree.count as nat);
    assert forall|i: int| 0 <= i < q.len() - 1 implies after.nodes.contains_key(#[trigger] q[i])
        && after.nodes[q[i]] == tree.nodes[q[i]] by {
        assert(!tree.nodes[q[i]].leaf);
    }
    lemma_path_same(tree, after, key, 0, tree.count as nat);
    assert(shape.node_ok(tree, leaf));
    lemma_entry_find_bounds(tree.nodes[leaf].entries, gone);
    if q.last() == leaf {
        lemma_cut_find(tree.nodes[leaf].entries, at, key);
    } else {
        assert(after.nodes[q.last()] == tree.nodes[q.last()]);
    }
}


/// The place of a child is no later than any entry that routes to it.
pub proof fn lemma_child_index_first(entries: Seq<KeyRowView>, child: u32, at: int)
    requires
        0 <= at < entries.len(),
        child_of(entries[at]) == child,
    ensures
        child_index(entries, child) <= at,
    decreases entries.len(),
{
    if child_of(entries[0]) != child {
        assert(entries.skip(1)[at - 1] == entries[at]);
        lemma_child_index_first(entries.skip(1), child, at - 1);
    }
}

/// A sound key that reads as "no upper bound" is no proper key.
pub proof fn lemma_proper_is_no_ceiling(key: ValueView, text: bool)
    requires
        proper(key, text),
    ensures
        !key.is_ceiling(),
{
    if key.is_ceiling() {
        lemma_lt_irreflexive(key);
        match key {
            ValueView::Number(_) => {},
            ValueView::String(len, t) => {
                assert(key == key.ceiling());
            },
        }
    }
}

impl Shape {
    /// Whether the page `x` of a search tree is ready to be balanced with its
    /// neighbour under its parent.
    pub open spec fn can_balance(self, tree: TreeView, x: u32) -> bool {
        &&& self.valid(tree)
        &&& self.live.contains(x)
        &&& x != 0
        &&& tree.distribute_error(x, self.up[x].0) is None
    }

    /// The shape of the tree after page `x` and its neighbour were merged: the
    /// left one of the two is gone, the right one stands where the left one
    /// stood and is there for the keys of both, and the children of both
    /// hang under it.
    pub open spec fn merged(self, tree: TreeView, x: u32) -> Shape {
        let p = self.up[x].0;
        let at = tree.left_index(x, p);
        let l = tree.left_id(x, p);
        let r = tree.right_id(x, p);
        let shift = tree.nodes[l].entries.len() as int;
        Shape {
            live: self.live.remove(l),
            depth: self.depth,
            up: Map::new(
                |n: u32| true,
                |n: u32|
                    if n == r {
                        (p, at)
                    } else if self.live.contains(n) && n != 0 && self.up[n].0 == p && self.up[n].1
                        > at + 1 {
                        (p, self.up[n].1 - 1)
                    } else if self.live.contains(n) && n != 0 && self.up[n].0 == l {
                        (r, self.up[n].1)
                    } else if self.live.contains(n) && n != 0 && self.up[n].0 == r {
                        (r, self.up[n].1 + shift)
                    } else {
                        self.up[n]
                    },
            ),
            lo: self.lo.insert(r, self.lo[l]),
            hi: self.hi,
            height: self.height,
            text: self.text,
        }
    }
}

/// The two neighbours that are balanced: where they stand, and what lies
/// between them.
pub proof fn lemma_pair(tree: TreeView, shape: Shape, x: u32)
    requires
        shape.can_balance(tree, x),
    ensures
        ({
            let p = shape.up[x].0;
            let c = shape.up[x].1;
            let above = tree.nodes[p].entries;
            let at = tree.left_index(x, p);
            let l = tree.left_id(x, p);
            let r = tree.right_id(x, p);
            let d = tree.pair_divider(x, p);
            &&& shape.live.contains(p) && tree.nodes.contains_key(p) && !tree.nodes[p].leaf
            &&& tree.own_index(x, p) == c
            &&& at == (if c == 0 { 0 } else { c - 1 })
            &&& 0 <= at && at + 1 < above.len()
            &&& l == child_of(above[at]) && r == child_of(above[at + 1])
            &&& x == (if c == 0 { l } else { r })
            &&& l != r && l != p && r != p && l != 0 && r != 0
            &&& shape.live.contains(l) && shape.live.contains(r)
            &&& tree.nodes.contains_key(l) && tree.nodes.contains_key(r)
            &&& shape.up[l] == (p, at) && shape.up[r] == (p, at + 1)
            &&& shape.depth[l] == shape.depth[p] + 1 && shape.depth[r] == shape.depth[p] + 1
            &&& tree.nodes[l].leaf == tree.nodes[r].leaf
            &&& d == above[at].key
            &&& proper(d, shape.text)
            &&& shape.hi[l] == Some(d) && shape.lo[r] == Some(d)
            &&& (shape.lo[l] matches Some(low) ==> low.lt(d))
            &&& (shape.hi[r] matches Some(high) ==> d.lt(high))
            &&& rising(above)
        }),
{
    reveal(TreeView::distribute_error);
    let p = shape.up[x].0;
    let c = shape.up[x].1;
    let above = tree.nodes[p].entries;
    assert(shape.node_ok(tree, x));
    assert(shape.node_ok(tree, p));
    lemma_child_index(above, x);
    lemma_child_index_first(above, x, c);
    let own = child_index(above, x);
    assert(shape.up[child_of(above[own])] == (p, own));
    assert(own == c);
    let at = tree.left_index(x, p);
    let l = tree.left_id(x, p);
    let r = tree.right_id(x, p);
    assert(shape.up[child_of(above[at])] == (p, at));
    assert(shape.up[child_of(above[at + 1])] == (p, at + 1));
    assert(shape.node_ok(tree, l));
    assert(shape.node_ok(tree, r));
    let d = above[at].key;
    assert(proper(d, shape.text) && inside(d, shape.lo[p], shape.hi[p]));
    if at > 0 {
        assert(above[at - 1].key.lt(above[at].key));
    }
    if at + 1 < above.len() - 1 {
        assert(above[at].key.lt(above[at + 1].key));
    }
}

/// The entries of two neighbours in one row. Between internal nodes the
/// last key of the left one, which reads as "no upper bound", gives way to
/// `divider`.
pub open spec fn joined(
    left: Seq<KeyRowView>,
    right: Seq<KeyRowView>,
    divider: ValueView,
    leaf: bool,
) -> Seq<KeyRowView> {
    if leaf {
        left + right
    } else {
        with_key(left, left.len() - 1, divider) + right
    }
}

/// The entries of the two neighbours that are balanced, in one row: they
/// rise, and they are what a merge puts into one node.
#[verifier::rlimit(50)]
pub proof fn lemma_joined(tree: TreeView, shape: Shape, x: u32)
    requires
        shape.can_balance(tree, x),
    ensures
        ({
            let p = shape.up[x].0;
            let l = tree.left_id(x, p);
            let r = tree.right_id(x, p);
            let d = tree.pair_divider(x, p);
            let left = tree.nodes[l].entries;
            let right = tree.nodes[r].entries;
            let leaf = tree.nodes[l].leaf;
            let all = joined(left, right, d, leaf);
            &&& merge_plan(left, right, d, leaf) == all
            &&& all.len() == left.len() + right.len()
            &&& !leaf ==> left.len() >= 1 && right.len() >= 1
            &&& forall|i: int|
                0 <= i < left.len() ==> (#[trigger] all[i]).row == left[i].row && all[i].key == (if i
                    == left.len() - 1 && !leaf {
                    d
                } else {
                    left[i].key
                })
            &&& forall|i: int| 0 <= i < right.len() ==> #[trigger] all[left.len() + i] == right[i]
            &&& rising(all)
        }),
{
    lemma_pair(tree, shape, x);
    let p = shape.up[x].0;
    let l = tree.left_id(x, p);
    let r = tree.right_id(x, p);
    let d = tree.pair_divider(x, p);
    let left = tree.nodes[l].entries;
    let right = tree.nodes[r].entries;
    let leaf = tree.nodes[l].leaf;
    let total = left + right;
    let all = joined(left, right, d, leaf);
    assert(shape.node_ok(tree, l));
    assert(shape.node_ok(tree, r));
    if !leaf {
        // the first key that reads as "no upper bound" is the last of the left one
        lemma_first_ceiling(total);
        let last = left.len() - 1;
        assert(total[last] == left[last]);
        lemma_ceiling_of_kind(left[last].key, left[last].key);
        assert(left[last].key.is_ceiling()) by {
            crate::value::lemma_ceiling_text();
        }
        assert(first_ceiling(total) == last) by {
            let first = first_ceiling(total);
            if first < last {
                assert(total[first] == left[first]);
                assert(proper(left[first].key, shape.text));
                lemma_proper_is_no_ceiling(left[first].key, shape.text);
            }
            lemma_first_ceiling_first(total, last);
        }
    }
    assert forall|i: int, j: int| 0 <= i < j < all.len() implies (#[trigger] all[i]).key.lt(
        (#[trigger] all[j]).key,
    ) by {
        if j < left.len() {
            assert(left[i].key.lt(left[j].key));
            if !leaf && j == left.len() - 1 {
                assert(proper(left[i].key, shape.text) && inside(
                    left[i].key,
                    shape.lo[l],
                    shape.hi[l],
                ));
            }
        } else if i >= left.len() {
            assert(right[i - left.len()].key.lt(right[j - left.len()].key));
        } else {
            // a key of the left one, or the divider, before a key of the right one
            let b = right[j - left.len()].key;
            assert(d.lt(b) || !b.lt(d)) by {
                if leaf {
                    assert(within(b, shape.lo[r], shape.hi[r]));
                } else if j - left.len() < right.len() - 1 {
                    assert(inside(b, shape.lo[r], shape.hi[r]));
                } else {
                    lemma_ceiling_of_kind(d, b);
                }
            }
            if leaf {
                assert(within(left[i].key, shape.lo[l], shape.hi[l]));
                lemma_lt_then_le(left[i].key, d, b);
            } else if i < left.len() - 1 {
                assert(inside(left[i].key, shape.lo[l], shape.hi[l]));
                lemma_lt_transitive(left[i].key, d, b);
            }
        }
    }
}

/// A free-page list of distinct page ids stays one when a page that was not
/// free is freed.
pub proof fn lemma_freed_list(free: Seq<u32>, id: u32, count: u32)
    requires
        free.no_duplicates(),
        forall|i: int| 0 <= i < free.len() ==> #[trigger] free[i] < count,
        !free.contains(id),
        id < count,
    ensures
        freed(free, id).no_duplicates(),
        freed(free, id).len() <= free.len() + 1,
        forall|i: int| 0 <= i < freed(free, id).len() ==> #[trigger] freed(free, id)[i] < count,
        forall|n: u32| freed(free, id).contains(n) ==> n == id || free.contains(n),
{
    let pushed = free.push(id);
    let kept = freed(free, id);
    assert forall|n: u32| kept.contains(n) implies n == id || free.contains(n) by {
        let i = choose|i: int| 0 <= i < kept.len() && kept[i] == n;
        let o = if pushed.len() > 100 { i + pushed.len() - 100 } else { i };
        assert(kept[i] == pushed[o]);
        if o < free.len() {
            assert(free[o] == n);
        }
    }
    assert(kept.no_duplicates()) by {
        assert forall|i: int, j: int| 0 <= i < kept.len() && 0 <= j < kept.len() && i != j implies kept[i]
            != kept[j] by {
            let shift = if pushed.len() > 100 { pushed.len() - 100 } else { 0 };
            assert(kept[i] == pushed[i + shift]);
            assert(kept[j] == pushed[j + shift]);
            if i + shift < free.len() && j + shift < free.len() {
                assert(free[i + shift] != free[j + shift]);
            } else if i + shift < free.len() {
                assert(free[i + shift] == pushed[i + shift]);
            } else if j + shift < free.len() {
                assert(free[j + shift] == pushed[j + shift]);
            }
        }
    }
    assert forall|i: int| 0 <= i < kept.len() implies #[trigger] kept[i] < count by {
        let shift = if pushed.len() > 100 { pushed.len() - 100 } else { 0 };
        assert(kept[i] == pushed[i + shift]);
        if i + shift < free.len() {
            assert(free[i + shift] < count);
        }
    }
}

/// What a merge makes of the nodes: the right one of the two holds the
/// entries of both, the left one is no node any more, the parent has lost the
/// entry of the left one, and every other page is as it was.
pub proof fn lemma_merge_nodes(tree: TreeView, shape: Shape, x: u32)
    requires
        shape.can_balance(tree, x),
        tree.merges(x, shape.up[x].0),
    ensures
        ({
            let p = shape.up[x].0;
            let at = tree.left_index(x, p);
            let l = tree.left_id(x, p);
            let r = tree.right_id(x, p);
            let d = tree.pair_divider(x, p);
            let left = tree.nodes[l].entries;
            let right = tree.nodes[r].entries;
            let all = merge_plan(left, right, d, tree.nodes[l].leaf);
            let after = tree.distributed(x, p);
            &&& all.len() == left.len() + right.len()
            &&& forall|i: int|
                0 <= i < left.len() ==> (#[trigger] all[i]).row == left[i].row && all[i].key == (if i
                    == left.len() - 1 && !tree.nodes[l].leaf {
                    d
                } else {
                    left[i].key
                })
            &&& forall|i: int| 0 <= i < right.len() ==> #[trigger] all[left.len() + i] == right[i]
            &&& rising(all)
            &&& after.nodes.contains_key(r)
            &&& after.nodes[r] == (NodeView { leaf: tree.nodes[l].leaf, entries: all })
            &&& !after.nodes.contains_key(l)
            &&& after.nodes.contains_key(p)
            &&& after.nodes[p] == tree.nodes[p].without(at)
            &&& forall|n: u32|
                n != l && n != r && n != p ==> after.nodes.contains_key(n)
                    == tree.nodes.contains_key(n) && #[trigger] after.nodes[n] == tree.nodes[n]
            &&& after.count == tree.count
            &&& after.free == freed(tree.free, l)
            &&& after.free.len() <= tree.free.len() + 1
            &&& after.free.no_duplicates()
            &&& forall|i: int| 0 <= i < after.free.len() ==> #[trigger] after.free[i] < after.count
            &&& forall|n: u32| after.free.contains(n) ==> n == l || tree.free.contains(n)
        }),
{
    lemma_pair(tree, shape, x);
    reveal(TreeView::distribute_error);
    reveal(TreeView::distributed);
    let p = shape.up[x].0;
    let at = tree.left_index(x, p);
    let l = tree.left_id(x, p);
    let r = tree.right_id(x, p);
    let d = tree.pair_divider(x, p);
    let left = tree.nodes[l].entries;
    let right = tree.nodes[r].entries;
    let leaf = tree.nodes[l].leaf;
    let total = left + right;
    let all = merge_plan(left, right, d, leaf);
    assert(shape.node_ok(tree, l));
    assert(shape.node_ok(tree, r));
    lemma_joined(tree, shape, x);
    lemma_built_rising(leaf, all);
    lemma_freed_list(tree.free, l, tree.count);
}

/// The first key that reads as "no upper bound" is no later than any such key.
pub proof fn lemma_first_ceiling_first(entries: Seq<KeyRowView>, at: int)
    requires
        0 <= at < entries.len(),
        entries[at].key.is_ceiling(),
    ensures
        first_ceiling(entries) <= at,
    decreases entries.len(),
{
    if !entries[0].key.is_ceiling() {
        assert(entries.skip(1)[at - 1] == entries[at]);
        lemma_first_ceiling_first(entries.skip(1), at - 1);
    }
}


/// After a merge the right one of the two is a sound page of the tree.
#[verifier::rlimit(50)]
proof fn lemma_merge_ok_right(tree: TreeView, shape: Shape, x: u32)
    requires
        shape.can_balance(tree, x),
        tree.merges(x, shape.up[x].0),
    ensures
        shape.merged(tree, x).node_ok(
            tree.distributed(x, shape.up[x].0),
            tree.right_id(x, shape.up[x].0),
        ),
{
    lemma_pair(tree, shape, x);
    lemma_merge_nodes(tree, shape, x);
    let p = shape.up[x].0;
    let at = tree.left_index(x, p);
    let l = tree.left_id(x, p);
    let r = tree.right_id(x, p);
    let d = tree.pair_divider(x, p);
    let left = tree.nodes[l].entries;
    let right = tree.nodes[r].entries;
    let leaf = tree.nodes[l].leaf;
    let after = tree.distributed(x, p);
    let next = shape.merged(tree, x);
    let all = after.nodes[r].entries;
    let above = tree.nodes[p].entries;
    assert(shape.node_ok(tree, l));
    assert(shape.node_ok(tree, r));
    assert(shape.node_ok(tree, p));
    lemma_joined(tree, shape, x);
    lemma_joined_keys(tree, shape, x);
    assert(all == joined(left, right, d, leaf));
    assert(next.keys_ok(after, r));
    assert(next.children_ok(after, r)) by {
        if !leaf {
            assert forall|j: int| 0 <= j < all.len() implies ({
                let child = child_of(#[trigger] after.nodes[r].entries[j]);
                child != 0 && next.live.contains(child) && next.up[child] == (r, j)
            }) by {
                if j < left.len() {
                    assert(all[j].row == left[j].row);
                    let child = child_of(left[j]);
                    assert(shape.up[child] == (l, j));
                    assert(shape.node_ok(tree, child));
                } else {
                    assert(all[left.len() + (j - left.len())] == right[j - left.len()]);
                    let child = child_of(right[j - left.len()]);
                    assert(shape.up[child] == (r, j - left.len()));
                    assert(shape.node_ok(tree, child));
                }
            }
        }
    }
    assert(next.link_ok(after, r)) by {
        let less = after.nodes[p].entries;
        assert(less[at] == above[at + 1]);
        if at > 0 {
            assert(less[at - 1] == above[at - 1]);
        }
    }
}

/// After a merge the parent is a sound page of the tree.
#[verifier::rlimit(50)]
proof fn lemma_merge_ok_parent(tree: TreeView, shape: Shape, x: u32)
    requires
        shape.can_balance(tree, x),
        tree.merges(x, shape.up[x].0),
    ensures
        shape.merged(tree, x).node_ok(tree.distributed(x, shape.up[x].0), shape.up[x].0),
{
    lemma_pair(tree, shape, x);
    lemma_merge_nodes(tree, shape, x);
    let p = shape.up[x].0;
    let at = tree.left_index(x, p);
    let l = tree.left_id(x, p);
    let r = tree.right_id(x, p);
    let after = tree.distributed(x, p);
    let next = shape.merged(tree, x);
    let above = tree.nodes[p].entries;
    let less = after.nodes[p].entries;
    assert(shape.node_ok(tree, p));
    assert(shape.node_ok(tree, l));
    assert(shape.node_ok(tree, r));
    assert(next.keys_ok(after, p)) by {
        assert forall|i: int, j: int| 0 <= i < j < less.len() implies (#[trigger] less[i]).key.lt(
            (#[trigger] less[j]).key,
        ) by {
            let oi = if i < at { i } else { i + 1 };
            let oj = if j < at { j } else { j + 1 };
            assert(above[oi].key.lt(above[oj].key));
        }
        assert(less[less.len() - 1] == above[above.len() - 1]);
        assert forall|i: int| 0 <= i < less.len() - 1 implies proper(
            (#[trigger] less[i]).key,
            next.text,
        ) && inside(less[i].key, next.lo[p], next.hi[p]) by {
            let oi = if i < at { i } else { i + 1 };
            assert(less[i] == above[oi]);
        }
    }
    assert(next.children_ok(after, p)) by {
        assert forall|j: int| 0 <= j < less.len() implies ({
            let child = child_of(#[trigger] after.nodes[p].entries[j]);
            child != 0 && next.live.contains(child) && next.up[child] == (p, j)
        }) by {
            let oj = if j < at { j } else { j + 1 };
            assert(less[j] == above[oj]);
            let child = child_of(above[oj]);
            assert(shape.up[child] == (p, oj));
        }
    }
    if p != 0 {
        let g = shape.up[p].0;
        assert(shape.node_ok(tree, g));
        assert(next.up[p] == shape.up[p]);
        assert(after.nodes[g] == tree.nodes[g]);
    }
}

/// After a merge every other page of the tree is a sound page of the tree.
#[verifier::rlimit(50)]
proof fn lemma_merge_ok_other(tree: TreeView, shape: Shape, x: u32, n: u32)
    requires
        shape.can_balance(tree, x),
        tree.merges(x, shape.up[x].0),
        shape.live.contains(n),
        n != tree.left_id(x, shape.up[x].0),
        n != tree.right_id(x, shape.up[x].0),
        n != shape.up[x].0,
    ensures
        shape.merged(tree, x).node_ok(tree.distributed(x, shape.up[x].0), n),
{
    lemma_pair(tree, shape, x);
    lemma_merge_nodes(tree, shape, x);
    let p = shape.up[x].0;
    let at = tree.left_index(x, p);
    let l = tree.left_id(x, p);
    let r = tree.right_id(x, p);
    let d = tree.pair_divider(x, p);
    let left = tree.nodes[l].entries;
    let right = tree.nodes[r].entries;
    let after = tree.distributed(x, p);
    let next = shape.merged(tree, x);
    let above = tree.nodes[p].entries;
    let less = after.nodes[p].entries;
    let all = after.nodes[r].entries;
    assert(shape.node_ok(tree, p));
    assert(shape.node_ok(tree, l));
    assert(shape.node_ok(tree, r));
    assert(shape.node_ok(tree, n));
    assert(after.nodes[n] == tree.nodes[n]);
    assert(next.children_ok(after, n)) by {
        if !tree.nodes[n].leaf {
            assert forall|j: int| 0 <= j < tree.nodes[n].entries.len() implies ({
                let child = child_of(#[trigger] after.nodes[n].entries[j]);
                child != 0 && next.live.contains(child) && next.up[child] == (n, j)
            }) by {
                let child = child_of(tree.nodes[n].entries[j]);
                assert(shape.up[child] == (n, j));
            }
        }
    }
    if n != 0 {
        let g = shape.up[n].0;
        let i = shape.up[n].1;
        assert(shape.node_ok(tree, g));
        if g == p {
            assert(i != at && i != at + 1);
            if i < at {
                assert(next.up[n] == (p, i));
                assert(less[i] == above[i]);
                if i > 0 {
                    assert(less[i - 1] == above[i - 1]);
                }
            } else {
                assert(next.up[n] == (p, i - 1));
                assert(less[i - 1] == above[i]);
                assert(less[i - 2] == above[i - 1]);
            }
        } else if g == l {
            assert(next.up[n] == (r, i));
            assert(all[i].row == left[i].row);
            if i > 0 {
                assert(all[i - 1].key == left[i - 1].key);
            }
            assert(all[left.len() + 0int] == right[0]);
        } else if g == r {
            assert(next.up[n] == (r, i + left.len()));
            assert(all[left.len() + i] == right[i]);
            if i > 0 {
                assert(all[left.len() + (i - 1)] == right[i - 1]);
            } else {
                assert(all[left.len() - 1].key == d);
            }
        } else {
            assert(next.up[n] == shape.up[n]);
            assert(after.nodes[g] == tree.nodes[g]);
        }
    }
}

/// A search tree in which two neighbours were merged is a search tree.
pub proof fn lemma_merge_keeps_shape(tree: TreeView, shape: Shape, x: u32)
    requires
        shape.can_balance(tree, x),
        tree.merges(x, shape.up[x].0),
    ensures
        shape.merged(tree, x).valid(tree.distributed(x, shape.up[x].0)),
        shape.merged(tree, x).text == shape.text,
        shape.merged(tree, x).height == shape.height,
{
    lemma_pair(tree, shape, x);
    lemma_merge_nodes(tree, shape, x);
    let p = shape.up[x].0;
    let l = tree.left_id(x, p);
    let r = tree.right_id(x, p);
    let after = tree.distributed(x, p);
    let next = shape.merged(tree, x);
    assert(shape.node_ok(tree, l));
    assert forall|n: u32| next.live.contains(n) implies #[trigger] next.node_ok(after, n) by {
        assert(shape.node_ok(tree, n));
        if n == r {
            lemma_merge_ok_right(tree, shape, x);
        } else if n == p {
            lemma_merge_ok_parent(tree, shape, x);
        } else {
            lemma_merge_ok_other(tree, shape, x, n);
        }
    }
}


/// Two search trees of one height that differ only in the page `p` and in
/// the pages of `pair`, which are children of `p`.
pub open spec fn differ_near(
    tree: TreeView,
    shape: Shape,
    after: TreeView,
    next: Shape,
    p: u32,
    pair: Set<u32>,
) -> bool {
    &&& shape.valid(tree)
    &&& next.valid(after)
    &&& next.height == shape.height
    &&& shape.live.contains(p)
    &&& forall|n: u32| #[trigger]
        pair.contains(n) ==> shape.live.contains(n) && n != 0 && shape.up[n].0 == p
    &&& forall|n: u32|
        shape.live.contains(n) && n != p && !pair.contains(n) ==> #[trigger] after.nodes[n]
            == tree.nodes[n]
}

/// The ways down for a key in two search trees, page by page.
pub proof fn lemma_both_paths(
    tree: TreeView,
    shape: Shape,
    after: TreeView,
    next: Shape,
    key: ValueView,
)
    requires
        shape.valid(tree),
        next.valid(after),
    ensures
        ({
            let q = tree.path(key)->0;
            let r = after.path(key)->0;
            &&& tree.path(key) is Some
            &&& after.path(key) is Some
            &&& q.len() == shape.height + 1
            &&& r.len() == next.height + 1
            &&& q[0] == 0
            &&& r[0] == 0
            &&& forall|i: int|
                0 <= i < q.len() ==> shape.live.contains(#[trigger] q[i]) && shape.depth[q[i]] == i
            &&& forall|i: int|
                0 <= i < r.len() ==> next.live.contains(#[trigger] r[i]) && next.depth[r[i]] == i
            &&& forall|i: int|
                0 <= i < q.len() - 1 ==> #[trigger] q[i + 1] == child_of(
                    tree.nodes[q[i]].entries[route(tree.nodes[q[i]].entries, key)],
                ) && shape.up[q[i + 1]] == (q[i], route(tree.nodes[q[i]].entries, key)) && 0 <= route(
                    tree.nodes[q[i]].entries,
                    key,
                ) < tree.nodes[q[i]].entries.len()
            &&& forall|i: int|
                0 <= i < r.len() - 1 ==> #[trigger] r[i + 1] == child_of(
                    after.nodes[r[i]].entries[route(after.nodes[r[i]].entries, key)],
                )
        }),
{
    lemma_path_exists(tree, shape, key);
    lemma_path_exists(after, next, key);
    let q = tree.path(key)->0;
    let r = after.path(key)->0;
    assert(shape.node_ok(tree, 0));
    assert(next.node_ok(after, 0));
    assert forall|i: int| 0 <= i < q.len() - 1 implies #[trigger] q[i + 1] == child_of(
        tree.nodes[q[i]].entries[route(tree.nodes[q[i]].entries, key)],
    ) && shape.up[q[i + 1]] == (q[i], route(tree.nodes[q[i]].entries, key)) && 0 <= route(
        tree.nodes[q[i]].entries,
        key,
    ) < tree.nodes[q[i]].entries.len() by {
        assert(shape.node_ok(tree, q[i + 1]));
        assert(shape.depth[q[i + 1]] == i + 1);
    }
    assert forall|i: int| 0 <= i < r.len() - 1 implies #[trigger] r[i + 1] == child_of(
        after.nodes[r[i]].entries[route(after.nodes[r[i]].entries, key)],
    ) by {
        assert(next.node_ok(after, r[i + 1]));
        assert(next.depth[r[i + 1]] == i + 1);
    }
}

/// Down to the depth of `p`, the way down for a key is the same in both
/// trees.
pub proof fn lemma_near_upto(
    tree: TreeView,
    shape: Shape,
    after: TreeView,
    next: Shape,
    p: u32,
    pair: Set<u32>,
    key: ValueView,
    i: int,
)
    requires
        differ_near(tree, shape, after, next, p, pair),
        0 <= i <= shape.depth[p],
    ensures
        after.path(key)->0[i] == tree.path(key)->0[i],
    decreases i,
{
    lemma_both_paths(tree, shape, after, next, key);
    assert(shape.node_ok(tree, p));
    if i > 0 {
        lemma_near_upto(tree, shape, after, next, p, pair, key, i - 1);
        let q = tree.path(key)->0;
        let r = after.path(key)->0;
        let n = q[i - 1];
        assert(shape.depth[n] == i - 1);
        assert(shape.node_ok(tree, n));
        if pair.contains(n) {
            assert(shape.depth[n] == shape.depth[p] + 1);
        }
        assert(after.nodes[n] == tree.nodes[n]);
        assert(q[(i - 1) + 1] == r[(i - 1) + 1]);
    }
}

/// From a page on that both trees have on the way down for a key, and that is
/// neither `p` nor one of `pair` nor above them, the way down is the same in
/// both trees, and so are the pages on it.
pub proof fn lemma_near_from(
    tree: TreeView,
    shape: Shape,
    after: TreeView,
    next: Shape,
    p: u32,
    pair: Set<u32>,
    key: ValueView,
    from: int,
    i: int,
)
    requires
        differ_near(tree, shape, after, next, p, pair),
        shape.depth[p] <= from <= i <= shape.height,
        after.path(key)->0[from] == tree.path(key)->0[from],
        tree.path(key)->0[from] != p,
        !pair.contains(tree.path(key)->0[from]),
    ensures
        after.path(key)->0[i] == tree.path(key)->0[i],
        after.nodes[tree.path(key)->0[i]] == tree.nodes[tree.path(key)->0[i]],
    decreases i,
{
    lemma_both_paths(tree, shape, after, next, key);
    let q = tree.path(key)->0;
    let r = after.path(key)->0;
    let d = shape.depth[p] as int;
    assert(shape.node_ok(tree, p));
    if i > from {
        lemma_near_from(tree, shape, after, next, p, pair, key, from, i - 1);
        let n = q[i - 1];
        assert(q[(i - 1) + 1] == r[(i - 1) + 1]);
        let m = q[i];
        assert(shape.depth[m] == i);
        assert(shape.depth[n] == i - 1);
        assert(shape.node_ok(tree, m));
        assert(shape.up[q[(i - 1) + 1]].0 == n);
        if pair.contains(m) {
            assert(n == p);
            assert(i - 1 == d);
        }
    }
}

/// Where a key is routed among rising entries after the entry at `at` left
/// them: to the same entry as before, which has moved down by one if it stood
/// after `at`; but a key that was routed to the entry at `at` is now routed to
/// the entry that stood after it.
pub proof fn lemma_route_remove(above: Seq<KeyRowView>, at: int, key: ValueView)
    requires
        rising(above),
        0 <= at,
        at + 1 < above.len(),
    ensures
        ({
            let was = route(above, key);
            let now = route(above.remove(at), key);
            &&& 0 <= was < above.len()
            &&& was < at ==> now == was
            &&& was > at + 1 ==> now == was - 1
            &&& was == at || was == at + 1 ==> now == at
            &&& was <= at ==> key.lt(above[at].key)
            &&& was > at ==> !key.lt(above[at].key)
        }),
{
    let less = above.remove(at);
    lemma_entry_index_bounds(above, key);
    lemma_entry_index_bounds(less, key);
    let idx = entry_index(above, key);
    let now = entry_index(less, key);
    if idx <= at {
        if idx < at {
            assert(above[idx].key.lt(above[at].key));
            lemma_lt_transitive(key, above[idx].key, above[at].key);
        }
        // the first larger entry is where it was, or the one after the entry that left
        let to = idx;
        assert(less[to] == if to < at { above[to] } else { above[to + 1] });
        assert(key.lt(less[to].key)) by {
            if to == at {
                assert(above[at].key.lt(above[at + 1].key));
                lemma_lt_transitive(key, above[at].key, above[at + 1].key);
            }
        }
        if now < to {
            assert(less[now] == above[now]);
        }
        if now > to {
            assert(!key.lt(less[to].key));
        }
    } else {
        let to = idx - 1;
        if now < to {
            let o = if now < at { now } else { now + 1 };
            assert(less[now] == above[o]);
            assert(!key.lt(above[o].key));
        }
        if to < less.len() {
            assert(less[to] == above[idx]);
            if now > to {
                assert(!key.lt(less[to].key));
            }
        }
    }
}

/// What is found among the rising entries of two merged leaves: what was
/// found among the entries of the one that the key was routed to.
pub proof fn lemma_find_joined(
    left: Seq<KeyRowView>,
    right: Seq<KeyRowView>,
    all: Seq<KeyRowView>,
    d: ValueView,
    key: ValueView,
)
    requires
        rising(all),
        all.len() == left.len() + right.len(),
        forall|i: int| 0 <= i < left.len() ==> #[trigger] all[i] == left[i],
        forall|i: int| 0 <= i < right.len() ==> #[trigger] all[left.len() + i] == right[i],
        forall|i: int| 0 <= i < left.len() ==> (#[trigger] left[i]).key.lt(d),
        forall|i: int| 0 <= i < right.len() ==> !(#[trigger] right[i]).key.lt(d),
    ensures
        ({
            let part = if key.lt(d) { left } else { right };
            let was = entry_find(part, key);
            let now = entry_find(all, key);
            (was < part.len()) == (now < all.len()) && (was < part.len() ==> all[now].row
                == part[was].row)
        }),
{
    let part = if key.lt(d) { left } else { right };
    lemma_entry_find_bounds(part, key);
    let was = entry_find(part, key);
    if was < part.len() {
        let to = if key.lt(d) { was } else { left.len() + was };
        assert(all[to] == part[was]);
        lemma_rising_find(all, key, to);
    } else {
        assert forall|j: int| 0 <= j < all.len() implies (#[trigger] all[j]).key != key by {
            if j < left.len() {
                assert(all[j] == left[j]);
                if !key.lt(d) {
                    assert(left[j].key.lt(d));
                }
            } else {
                assert(all[left.len() + (j - left.len())] == right[j - left.len()]);
                if key.lt(d) {
                    assert(!right[j - left.len()].key.lt(d));
                }
            }
        }
        lemma_find_absent(all, key);
    }
}

/// Where a key is routed among the rising entries of two merged internal
/// nodes: to the child that it was routed to in the one that the key was
/// routed to.
pub proof fn lemma_route_joined(
    left: Seq<KeyRowView>,
    right: Seq<KeyRowView>,
    all: Seq<KeyRowView>,
    d: ValueView,
    key: ValueView,
)
    requires
        rising(all),
        left.len() >= 1,
        right.len() >= 1,
        all.len() == left.len() + right.len(),
        forall|i: int|
            0 <= i < left.len() ==> (#[trigger] all[i]).row == left[i].row && all[i].key == (if i
                == left.len() - 1 {
                d
            } else {
                left[i].key
            }),
        forall|i: int| 0 <= i < right.len() ==> #[trigger] all[left.len() + i] == right[i],
    ensures
        ({
            let part = if key.lt(d) { left } else { right };
            child_of(all[route(all, key)]) == child_of(part[route(part, key)]) && 0 <= route(
                all,
                key,
            ) < all.len()
        }),
{
    lemma_entry_index_bounds(all, key);
    lemma_entry_index_bounds(left, key);
    lemma_entry_index_bounds(right, key);
    let now = entry_index(all, key);
    let last = left.len() - 1;
    assert(all[last].key == d);
    if key.lt(d) {
        let was = entry_index(left, key);
        let to = if was < last { was } else { last };
        assert(now == to) by {
            if now < to {
                assert(all[now].key == left[now].key);
            }
            if now > to {
                if to < last {
                    assert(all[to].key == left[to].key);
                }
                assert(!key.lt(all[to].key));
            }
        }
        assert(all[to].row == left[to].row);
    } else {
        let was = entry_index(right, key);
        assert(now >= left.len()) by {
            if now < left.len() {
                if now < last {
                    assert(all[now].key.lt(all[last].key));
                    lemma_lt_transitive(key, all[now].key, d);
                }
            }
        }
        assert(now == left.len() + was) by {
            if now < left.len() + was {
                assert(all[left.len() + (now - left.len())] == right[now - left.len()]);
                assert(!key.lt(right[now - left.len()].key));
            }
            if now > left.len() + was {
                assert(all[left.len() + was] == right[was]);
                assert(!key.lt(all[left.len() + was].key));
            }
        }
        if was < right.len() {
            assert(all[left.len() + was] == right[was]);
        } else {
            assert(all[left.len() + (right.len() - 1)] == right[right.len() - 1]);
        }
    }
}


/// A merge changes no row: the tree holds under every key what it held.
#[verifier::rlimit(50)]
pub proof fn lemma_merge_lookup(tree: TreeView, shape: Shape, x: u32, key: ValueView)
    requires
        shape.can_balance(tree, x),
        tree.merges(x, shape.up[x].0),
    ensures
        tree.distributed(x, shape.up[x].0).lookup(key) == tree.lookup(key),
{
    lemma_pair(tree, shape, x);
    lemma_merge_nodes(tree, shape, x);
    lemma_merge_keeps_shape(tree, shape, x);
    let p = shape.up[x].0;
    let at = tree.left_index(x, p);
    let l = tree.left_id(x, p);
    let r = tree.right_id(x, p);
    let d = tree.pair_divider(x, p);
    let after = tree.distributed(x, p);
    let next = shape.merged(tree, x);
    let pair = set![l, r];
    let above = tree.nodes[p].entries;
    let left = tree.nodes[l].entries;
    let right = tree.nodes[r].entries;
    let all = after.nodes[r].entries;
    assert(shape.node_ok(tree, p));
    assert(shape.node_ok(tree, l));
    assert(shape.node_ok(tree, r));
    assert(differ_near(tree, shape, after, next, p, pair)) by {
        assert forall|n: u32| #[trigger] pair.contains(n) implies shape.live.contains(n) && n != 0
            && shape.up[n].0 == p by {
            assert(n == l || n == r);
        }
        assert forall|n: u32| shape.live.contains(n) && n != p && !pair.contains(n) implies #[trigger] after.nodes[n]
            == tree.nodes[n] by {
            assert(n != l && n != r);
        }
    }
    lemma_both_paths(tree, shape, after, next, key);
    let dp = shape.depth[p] as int;
    let h = shape.height as int;
    let q = tree.path(key)->0;
    let t = after.path(key)->0;
    assert(q.last() == q[h]);
    assert(t.last() == t[h]);
    lemma_near_upto(tree, shape, after, next, p, pair, key, dp);
    if q[dp] != p {
        lemma_near_from(tree, shape, after, next, p, pair, key, dp, h);
    } else {
        lemma_route_remove(above, at, key);
        let was = route(above, key);
        let now = route(above.remove(at), key);
        assert(q[dp + 1] == child_of(above[was]));
        assert(t[dp + 1] == child_of(above.remove(at)[now]));
        assert(shape.up[q[dp + 1]] == (p, was));
        if was < at || was > at + 1 {
            assert(t[dp + 1] == q[dp + 1]);
            lemma_near_from(tree, shape, after, next, p, pair, key, dp + 1, h);
        } else {
            assert(t[dp + 1] == r);
            assert(q[dp + 1] == (if key.lt(d) { l } else { r }));
            let part = if key.lt(d) { left } else { right };
            if tree.nodes[l].leaf {
                assert(dp + 1 == h);
                assert forall|i: int| 0 <= i < left.len() implies (#[trigger] left[i]).key.lt(d) by {
                    assert(within(left[i].key, shape.lo[l], shape.hi[l]));
                }
                assert forall|i: int| 0 <= i < right.len() implies !(#[trigger] right[i]).key.lt(d) by {
                    assert(within(right[i].key, shape.lo[r], shape.hi[r]));
                }
                lemma_find_joined(left, right, all, d, key);
            } else {
                lemma_route_joined(left, right, all, d, key);
                assert(q[(dp + 1) + 1] == child_of(part[route(part, key)]));
                assert(t[(dp + 1) + 1] == child_of(all[route(all, key)]));
                let c = q[dp + 2];
                assert(shape.depth[c] == dp + 2);
                assert(shape.node_ok(tree, c));
                lemma_near_from(tree, shape, after, next, p, pair, key, dp + 2, h);
            }
        }
    }
}


/// The keys of the two neighbours that are balanced, in one row: proper keys
/// in the range of the two, but for the last key of internal nodes, which
/// reads as "no upper bound".
#[verifier::rlimit(50)]
pub proof fn lemma_joined_keys(tree: TreeView, shape: Shape, x: u32)
    requires
        shape.can_balance(tree, x),
    ensures
        ({
            let p = shape.up[x].0;
            let l = tree.left_id(x, p);
            let r = tree.right_id(x, p);
            let d = tree.pair_divider(x, p);
            let leaf = tree.nodes[l].leaf;
            let all = joined(tree.nodes[l].entries, tree.nodes[r].entries, d, leaf);
            let last = all.len() - 1;
            &&& leaf ==> forall|i: int|
                0 <= i < all.len() ==> proper((#[trigger] all[i]).key, shape.text) && within(
                    all[i].key,
                    shape.lo[l],
                    shape.hi[r],
                )
            &&& !leaf ==> {
                &&& all[last].key == all[last].key.ceiling()
                &&& all[last].key.is_text() == shape.text
                &&& forall|i: int|
                    0 <= i < last ==> proper((#[trigger] all[i]).key, shape.text) && inside(
                        all[i].key,
                        shape.lo[l],
                        shape.hi[r],
                    )
            }
        }),
{
    lemma_pair(tree, shape, x);
    lemma_joined(tree, shape, x);
    let p = shape.up[x].0;
    let l = tree.left_id(x, p);
    let r = tree.right_id(x, p);
    let d = tree.pair_divider(x, p);
    let left = tree.nodes[l].entries;
    let right = tree.nodes[r].entries;
    let leaf = tree.nodes[l].leaf;
    let all = joined(left, right, d, leaf);
    assert(shape.node_ok(tree, l));
    assert(shape.node_ok(tree, r));
    if leaf {
        assert forall|i: int| 0 <= i < all.len() implies proper((#[trigger] all[i]).key, shape.text)
            && within(all[i].key, shape.lo[l], shape.hi[r]) by {
            if i < left.len() {
                assert(all[i].key == left[i].key);
                assert(proper(left[i].key, shape.text) && within(
                    left[i].key,
                    shape.lo[l],
                    shape.hi[l],
                ));
                if shape.hi[r] is Some {
                    lemma_lt_transitive(left[i].key, d, shape.hi[r]->0);
                }
            } else {
                let b = right[i - left.len()];
                assert(all[left.len() + (i - left.len())] == b);
                assert(proper(b.key, shape.text) && within(b.key, shape.lo[r], shape.hi[r]));
                if shape.lo[l] is Some {
                    lemma_lt_then_le(shape.lo[l]->0, d, b.key);
                    lemma_lt_asymmetric(shape.lo[l]->0, b.key);
                }
            }
        }
    } else {
        assert(all[left.len() + (right.len() - 1)] == right[right.len() - 1]);
        assert forall|i: int| 0 <= i < all.len() - 1 implies proper(
            (#[trigger] all[i]).key,
            shape.text,
        ) && inside(all[i].key, shape.lo[l], shape.hi[r]) by {
            if i < left.len() - 1 {
                assert(all[i].key == left[i].key);
                assert(proper(left[i].key, shape.text) && inside(
                    left[i].key,
                    shape.lo[l],
                    shape.hi[l],
                ));
                if shape.hi[r] is Some {
                    lemma_lt_transitive(left[i].key, d, shape.hi[r]->0);
                }
            } else if i == left.len() - 1 {
                assert(all[i].key == d);
            } else {
                let b = right[i - left.len()];
                assert(all[left.len() + (i - left.len())] == b);
                assert(proper(b.key, shape.text) && inside(b.key, shape.lo[r], shape.hi[r]));
                if shape.lo[l] is Some {
                    lemma_lt_transitive(shape.lo[l]->0, d, b.key);
                }
            }
        }
    }
}

/// Where a child of one of the two neighbours that are balanced stands in the
/// row of their entries, and the keys that it is there for.
#[verifier::rlimit(50)]
pub proof fn lemma_joined_child(tree: TreeView, shape: Shape, x: u32, n: u32)
    requires
        shape.can_balance(tree, x),
        shape.live.contains(n),
        n != 0,
        shape.up[n].0 == tree.left_id(x, shape.up[x].0) || shape.up[n].0 == tree.right_id(
            x,
            shape.up[x].0,
        ),
    ensures
        ({
            let p = shape.up[x].0;
            let l = tree.left_id(x, p);
            let r = tree.right_id(x, p);
            let d = tree.pair_divider(x, p);
            let left = tree.nodes[l].entries;
            let leaf = tree.nodes[l].leaf;
            let all = joined(left, tree.nodes[r].entries, d, leaf);
            let j = if shape.up[n].0 == l { shape.up[n].1 } else { left.len() + shape.up[n].1 };
            &&& !leaf
            &&& n != l && n != r && n != p
            &&& 0 <= j < all.len()
            &&& shape.up[n].0 == l ==> j < left.len()
            &&& shape.up[n].0 == r ==> j >= left.len()
            &&& child_of(all[j]) == n
            &&& shape.depth[n] == shape.depth[l] + 1
            &&& shape.lo[n] == (if j > 0 { Some(all[j - 1].key) } else { shape.lo[l] })
            &&& shape.hi[n] == (if j < all.len() - 1 { Some(all[j].key) } else { shape.hi[r] })
        }),
{
    lemma_pair(tree, shape, x);
    lemma_joined(tree, shape, x);
    let p = shape.up[x].0;
    let l = tree.left_id(x, p);
    let r = tree.right_id(x, p);
    let d = tree.pair_divider(x, p);
    let left = tree.nodes[l].entries;
    let right = tree.nodes[r].entries;
    let all = joined(left, right, d, tree.nodes[l].leaf);
    let i = shape.up[n].1;
    assert(shape.node_ok(tree, l));
    assert(shape.node_ok(tree, r));
    assert(shape.node_ok(tree, p));
    assert(shape.node_ok(tree, n));
    if shape.up[n].0 == l {
        assert(all[i].row == left[i].row);
        if i > 0 {
            assert(all[i - 1].key == left[i - 1].key);
        }
        assert(all[left.len() + 0int] == right[0]);
    } else {
        assert(all[left.len() + i] == right[i]);
        if i > 0 {
            assert(all[left.len() + (i - 1)] == right[i - 1]);
        } else {
            assert(all[left.len() - 1].key == d);
        }
    }
}

/// Each entry in the row of the entries of two internal neighbours that are
/// balanced leads to a child of one of the two.
#[verifier::rlimit(50)]
pub proof fn lemma_joined_children(tree: TreeView, shape: Shape, x: u32, j: int)
    requires
        shape.can_balance(tree, x),
        !tree.nodes[tree.left_id(x, shape.up[x].0)].leaf,
        0 <= j < tree.nodes[tree.left_id(x, shape.up[x].0)].entries.len() + tree.nodes[tree.right_id(
            x,
            shape.up[x].0,
        )].entries.len(),
    ensures
        ({
            let p = shape.up[x].0;
            let l = tree.left_id(x, p);
            let r = tree.right_id(x, p);
            let d = tree.pair_divider(x, p);
            let left = tree.nodes[l].entries;
            let all = joined(left, tree.nodes[r].entries, d, false);
            let child = child_of(all[j]);
            &&& child != 0
            &&& shape.live.contains(child)
            &&& shape.up[child] == (if j < left.len() {
                (l, j)
            } else {
                (r, j - left.len())
            })
        }),
{
    lemma_pair(tree, shape, x);
    lemma_joined(tree, shape, x);
    let p = shape.up[x].0;
    let l = tree.left_id(x, p);
    let r = tree.right_id(x, p);
    let d = tree.pair_divider(x, p);
    let left = tree.nodes[l].entries;
    let right = tree.nodes[r].entries;
    let all = joined(left, right, d, false);
    assert(shape.node_ok(tree, l));
    assert(shape.node_ok(tree, r));
    if j < left.len() {
        assert(all[j].row == left[j].row);
        let child = child_of(left[j]);
        assert(shape.up[child] == (l, j));
    } else {
        assert(all[left.len() + (j - left.len())] == right[j - left.len()]);
        let child = child_of(right[j - left.len()]);
        assert(shape.up[child] == (r, j - left.len()));
    }
}

impl Shape {
    /// How many entries the left one of the two neighbours holds after one
    /// entry moved between them.
    pub open spec fn cut(self, tree: TreeView, x: u32) -> int {
        let p = self.up[x].0;
        let held = tree.nodes[tree.left_id(x, p)].entries.len() as int;
        if tree.own_index(x, p) == 0 {
            held + 1
        } else {
            held - 1
        }
    }

    /// The key between the two neighbours after one entry moved between
    /// them.
    pub open spec fn boundary(self, tree: TreeView, x: u32) -> ValueView {
        let p = self.up[x].0;
        let l = tree.left_id(x, p);
        let r = tree.right_id(x, p);
        shift_plan(
            tree.nodes[l].entries,
            tree.nodes[r].entries,
            tree.pair_divider(x, p),
            tree.nodes[l].leaf,
            tree.own_index(x, p) == 0,
        ).2
    }

    /// The shape of the tree after one entry moved between page `x` and its
    /// neighbour: the two are there for the keys on either side of the new
    /// boundary, and between internal nodes the child of the moved entry hangs
    /// under the other one of the two.
    pub open spec fn shifted(self, tree: TreeView, x: u32) -> Shape {
        let p = self.up[x].0;
        let l = tree.left_id(x, p);
        let r = tree.right_id(x, p);
        let held = tree.nodes[l].entries.len() as int;
        let k = self.cut(tree, x);
        let e = self.boundary(tree, x);
        Shape {
            live: self.live,
            depth: self.depth,
            up: Map::new(
                |n: u32| true,
                |n: u32|
                    if self.live.contains(n) && n != 0 && (self.up[n].0 == l || self.up[n].0 == r) {
                        let j = if self.up[n].0 == l {
                            self.up[n].1
                        } else {
                            held + self.up[n].1
                        };
                        if j < k {
                            (l, j)
                        } else {
                            (r, j - k)
                        }
                    } else {
                        self.up[n]
                    },
            ),
            lo: self.lo.insert(r, Some(e)),
            hi: self.hi.insert(l, Some(e)),
            height: self.height,
            text: self.text,
        }
    }
}

/// What moving one entry between two neighbours makes of the nodes: the left
/// one holds the first entries of the row of their entries and the right one
/// the others, the parent holds the left one under the new boundary, and
/// every other page is as it was.
#[verifier::rlimit(50)]
pub proof fn lemma_shift_nodes(tree: TreeView, shape: Shape, x: u32)
    requires
        shape.can_balance(tree, x),
        !tree.merges(x, shape.up[x].0),
    ensures
        ({
            let p = shape.up[x].0;
            let at = tree.left_index(x, p);
            let l = tree.left_id(x, p);
            let r = tree.right_id(x, p);
            let d = tree.pair_divider(x, p);
            let leaf = tree.nodes[l].leaf;
            let all = joined(tree.nodes[l].entries, tree.nodes[r].entries, d, leaf);
            let k = shape.cut(tree, x);
            let e = shape.boundary(tree, x);
            let after = tree.distributed(x, p);
            let a = after.nodes[l].entries;
            let b = after.nodes[r].entries;
            &&& 1 <= k < all.len()
            &&& e == (if leaf { all[k].key } else { all[k - 1].key })
            &&& proper(e, shape.text)
            &&& after.nodes[l].leaf == leaf && after.nodes[r].leaf == leaf
            &&& a.len() == k
            &&& forall|i: int|
                0 <= i < k ==> (#[trigger] a[i]).row == all[i].row && a[i].key == (if i == k - 1
                    && !leaf {
                    e.ceiling()
                } else {
                    all[i].key
                })
            &&& b == all.skip(k)
            &&& after.nodes[p] == tree.nodes[p].rekeyed(at, e)
            &&& forall|n: u32| after.nodes.contains_key(n) == #[trigger] tree.nodes.contains_key(n)
            &&& forall|n: u32| n != l && n != r && n != p ==> #[trigger] after.nodes[n] == tree.nodes[n]
            &&& after.count == tree.count
            &&& after.free == tree.free
        }),
{
    lemma_pair(tree, shape, x);
    lemma_joined(tree, shape, x);
    lemma_joined_keys(tree, shape, x);
    reveal(TreeView::distribute_error);
    reveal(TreeView::distributed);
    let p = shape.up[x].0;
    let at = tree.left_index(x, p);
    let l = tree.left_id(x, p);
    let r = tree.right_id(x, p);
    let d = tree.pair_divider(x, p);
    let left = tree.nodes[l].entries;
    let right = tree.nodes[r].entries;
    let leaf = tree.nodes[l].leaf;
    let all = joined(left, right, d, leaf);
    let k = shape.cut(tree, x);
    let e = shape.boundary(tree, x);
    let to_left = tree.own_index(x, p) == 0;
    let plan = shift_plan(left, right, d, leaf, to_left);
    assert(shape.node_ok(tree, l));
    assert(shape.node_ok(tree, r));
    assert(shape.node_ok(tree, p));
    assert(plan.1 =~= all.skip(k));
    assert(plan.0.len() == k);
    assert forall|i: int| 0 <= i < k implies (#[trigger] plan.0[i]).row == all[i].row && plan.0[i].key
        == (if i == k - 1 && !leaf {
        e.ceiling()
    } else {
        all[i].key
    }) by {
        if i < left.len() {
            assert(all[i].row == left[i].row);
        } else {
            assert(all[left.len() + 0int] == right[0]);
        }
    }
    if to_left {
        assert(all[left.len() + 0int] == right[0]);
        assert(all[left.len() + 1int] == right[1]);
    } else {
        assert(all[left.len() - 1].key == (if leaf { left[left.len() - 1].key } else { d }));
        assert(all[left.len() - 2].key == left[left.len() - 2].key);
    }
    assert(rising(plan.1));
    assert(rising(plan.0)) by {
        assert forall|i: int, j: int| 0 <= i < j < k implies (#[trigger] plan.0[i]).key.lt(
            (#[trigger] plan.0[j]).key,
        ) by {
            assert(all[i].key.lt(all[j].key));
            if j == k - 1 && !leaf {
                assert(proper(all[i].key, shape.text));
                lemma_ceiling_of_kind(all[i].key, e);
            }
        }
    }
    lemma_built_rising(leaf, plan.0);
    lemma_built_rising(leaf, plan.1);
}


/// The new boundary between two neighbours lies strictly inside the range of
/// the two.
#[verifier::rlimit(50)]
pub proof fn lemma_shift_bounds(tree: TreeView, shape: Shape, x: u32)
    requires
        shape.can_balance(tree, x),
        !tree.merges(x, shape.up[x].0),
    ensures
        ({
            let p = shape.up[x].0;
            let l = tree.left_id(x, p);
            let r = tree.right_id(x, p);
            let e = shape.boundary(tree, x);
            &&& inside(e, shape.lo[l], shape.hi[r])
            &&& inside(e, shape.lo[p], shape.hi[p])
        }),
{
    lemma_pair(tree, shape, x);
    lemma_joined(tree, shape, x);
    lemma_joined_keys(tree, shape, x);
    lemma_shift_nodes(tree, shape, x);
    let p = shape.up[x].0;
    let at = tree.left_index(x, p);
    let l = tree.left_id(x, p);
    let r = tree.right_id(x, p);
    let d = tree.pair_divider(x, p);
    let leaf = tree.nodes[l].leaf;
    let all = joined(tree.nodes[l].entries, tree.nodes[r].entries, d, leaf);
    let k = shape.cut(tree, x);
    let e = shape.boundary(tree, x);
    let above = tree.nodes[p].entries;
    assert(shape.node_ok(tree, l));
    assert(shape.node_ok(tree, r));
    assert(shape.node_ok(tree, p));
    if leaf {
        assert(within(all[k].key, shape.lo[l], shape.hi[r]));
        assert(within(all[0].key, shape.lo[l], shape.hi[r]));
        assert(all[0].key.lt(all[k].key));
        if shape.lo[l] is Some {
            lemma_le_then_lt(shape.lo[l]->0, all[0].key, e);
        }
    } else {
        assert(inside(all[k - 1].key, shape.lo[l], shape.hi[r]));
    }
    if at > 0 {
        assert(inside(above[at - 1].key, shape.lo[p], shape.hi[p]));
        if shape.lo[p] is Some {
            lemma_lt_transitive(shape.lo[p]->0, above[at - 1].key, e);
        }
    }
    if at + 1 < above.len() - 1 {
        assert(inside(above[at + 1].key, shape.lo[p], shape.hi[p]));
        if shape.hi[p] is Some {
            lemma_lt_transitive(e, above[at + 1].key, shape.hi[p]->0);
        }
    }
}

/// After one entry moved between two neighbours the left one is a sound page
/// of the tree.
#[verifier::rlimit(50)]
proof fn lemma_shift_ok_left(tree: TreeView, shape: Shape, x: u32)
    requires
        shape.can_balance(tree, x),
        !tree.merges(x, shape.up[x].0),
    ensures
        shape.shifted(tree, x).node_ok(
            tree.distributed(x, shape.up[x].0),
            tree.left_id(x, shape.up[x].0),
        ),
{
    lemma_pair(tree, shape, x);
    lemma_joined(tree, shape, x);
    lemma_joined_keys(tree, shape, x);
    lemma_shift_nodes(tree, shape, x);
    lemma_shift_bounds(tree, shape, x);
    let p = shape.up[x].0;
    let at = tree.left_index(x, p);
    let l = tree.left_id(x, p);
    let r = tree.right_id(x, p);
    let d = tree.pair_divider(x, p);
    let leaf = tree.nodes[l].leaf;
    let all = joined(tree.nodes[l].entries, tree.nodes[r].entries, d, leaf);
    let k = shape.cut(tree, x);
    let e = shape.boundary(tree, x);
    let after = tree.distributed(x, p);
    let next = shape.shifted(tree, x);
    let a = after.nodes[l].entries;
    assert(shape.node_ok(tree, l));
    assert(shape.node_ok(tree, r));
    assert(shape.node_ok(tree, p));
    assert(next.keys_ok(after, l)) by {
        assert forall|i: int, j: int| 0 <= i < j < k implies (#[trigger] a[i]).key.lt(
            (#[trigger] a[j]).key,
        ) by {
            assert(all[i].key.lt(all[j].key));
            if j == k - 1 && !leaf {
                assert(proper(all[i].key, shape.text));
                lemma_ceiling_of_kind(all[i].key, e);
            }
        }
        if leaf {
            assert forall|i: int| 0 <= i < k implies proper((#[trigger] a[i]).key, next.text)
                && within(a[i].key, next.lo[l], next.hi[l]) by {
                assert(proper(all[i].key, shape.text) && within(all[i].key, shape.lo[l], shape.hi[r]));
                assert(all[i].key.lt(all[k].key));
            }
        } else {
            lemma_ceiling_of_kind(e, e);
            assert forall|i: int| 0 <= i < k - 1 implies proper((#[trigger] a[i]).key, next.text)
                && inside(a[i].key, next.lo[l], next.hi[l]) by {
                assert(proper(all[i].key, shape.text) && inside(all[i].key, shape.lo[l], shape.hi[r]));
                assert(all[i].key.lt(all[k - 1].key));
            }
        }
    }
    assert(next.children_ok(after, l)) by {
        if !leaf {
            assert forall|j: int| 0 <= j < k implies ({
                let child = child_of(#[trigger] after.nodes[l].entries[j]);
                child != 0 && next.live.contains(child) && next.up[child] == (l, j)
            }) by {
                assert(a[j].row == all[j].row);
                lemma_joined_children(tree, shape, x, j);
            }
        }
    }
    assert(next.link_ok(after, l)) by {
        assert(next.up[l] == shape.up[l]);
    }
}

/// After one entry moved between two neighbours the right one is a sound page
/// of the tree.
#[verifier::rlimit(50)]
proof fn lemma_shift_ok_right(tree: TreeView, shape: Shape, x: u32)
    requires
        shape.can_balance(tree, x),
        !tree.merges(x, shape.up[x].0),
    ensures
        shape.shifted(tree, x).node_ok(
            tree.distributed(x, shape.up[x].0),
            tree.right_id(x, shape.up[x].0),
        ),
{
    lemma_pair(tree, shape, x);
    lemma_joined(tree, shape, x);
    lemma_joined_keys(tree, shape, x);
    lemma_shift_nodes(tree, shape, x);
    lemma_shift_bounds(tree, shape, x);
    let p = shape.up[x].0;
    let at = tree.left_index(x, p);
    let l = tree.left_id(x, p);
    let r = tree.right_id(x, p);
    let d = tree.pair_divider(x, p);
    let leaf = tree.nodes[l].leaf;
    let all = joined(tree.nodes[l].entries, tree.nodes[r].entries, d, leaf);
    let k = shape.cut(tree, x);
    let e = shape.boundary(tree, x);
    let after = tree.distributed(x, p);
    let next = shape.shifted(tree, x);
    let b = after.nodes[r].entries;
    assert(shape.node_ok(tree, l));
    assert(shape.node_ok(tree, r));
    assert(shape.node_ok(tree, p));
    assert(next.keys_ok(after, r)) by {
        assert forall|i: int, j: int| 0 <= i < j < b.len() implies (#[trigger] b[i]).key.lt(
            (#[trigger] b[j]).key,
        ) by {
            assert(all[k + i].key.lt(all[k + j].key));
        }
        if leaf {
            assert forall|i: int| 0 <= i < b.len() implies proper((#[trigger] b[i]).key, next.text)
                && within(b[i].key, next.lo[r], next.hi[r]) by {
                assert(b[i] == all[k + i]);
                assert(proper(all[k + i].key, shape.text) && within(
                    all[k + i].key,
                    shape.lo[l],
                    shape.hi[r],
                ));
                if i > 0 {
                    assert(all[k].key.lt(all[k + i].key));
                    lemma_lt_asymmetric(all[k].key, all[k + i].key);
                } else {
                    lemma_lt_irreflexive(e);
                }
            }
        } else {
            assert(b[b.len() - 1] == all[k + (b.len() - 1)]);
            assert forall|i: int| 0 <= i < b.len() - 1 implies proper((#[trigger] b[i]).key, next.text)
                && inside(b[i].key, next.lo[r], next.hi[r]) by {
                assert(b[i] == all[k + i]);
                assert(proper(all[k + i].key, shape.text) && inside(
                    all[k + i].key,
                    shape.lo[l],
                    shape.hi[r],
                ));
                assert(all[k - 1].key.lt(all[k + i].key));
            }
        }
    }
    assert(next.children_ok(after, r)) by {
        if !leaf {
            assert forall|j: int| 0 <= j < b.len() implies ({
                let child = child_of(#[trigger] after.nodes[r].entries[j]);
                child != 0 && next.live.contains(child) && next.up[child] == (r, j)
            }) by {
                assert(b[j] == all[k + j]);
                lemma_joined_children(tree, shape, x, k + j);
            }
        }
    }
    assert(next.link_ok(after, r)) by {
        assert(next.up[r] == shape.up[r]);
    }
}

/// After one entry moved between two neighbours their parent is a sound page
/// of the tree.
#[verifier::rlimit(50)]
proof fn lemma_shift_ok_parent(tree: TreeView, shape: Shape, x: u32)
    requires
        shape.can_balance(tree, x),
        !tree.merges(x, shape.up[x].0),
    ensures
        shape.shifted(tree, x).node_ok(tree.distributed(x, shape.up[x].0), shape.up[x].0),
{
    lemma_pair(tree, shape, x);
    lemma_shift_nodes(tree, shape, x);
    lemma_shift_bounds(tree, shape, x);
    let p = shape.up[x].0;
    let at = tree.left_index(x, p);
    let l = tree.left_id(x, p);
    let r = tree.right_id(x, p);
    let e = shape.boundary(tree, x);
    let after = tree.distributed(x, p);
    let next = shape.shifted(tree, x);
    let above = tree.nodes[p].entries;
    let now = after.nodes[p].entries;
    assert(shape.node_ok(tree, p));
    assert(shape.node_ok(tree, l));
    assert(shape.node_ok(tree, r));
    let last = above.len() - 1;
    assert(e.lt(above[at + 1].key)) by {
        if at + 1 == last {
            lemma_ceiling_of_kind(e, above[last].key);
        }
    }
    assert(next.keys_ok(after, p)) by {
        assert forall|i: int, j: int| 0 <= i < j < now.len() implies (#[trigger] now[i]).key.lt(
            (#[trigger] now[j]).key,
        ) by {
            assert(above[i].key.lt(above[j].key));
            if i == at {
                if j > at + 1 {
                    assert(above[at + 1].key.lt(above[j].key));
                    lemma_lt_transitive(e, above[at + 1].key, above[j].key);
                }
            } else if j == at {
                if i < at - 1 {
                    assert(above[i].key.lt(above[at - 1].key));
                    lemma_lt_transitive(above[i].key, above[at - 1].key, e);
                }
            }
        }
        assert forall|i: int| 0 <= i < last implies proper((#[trigger] now[i]).key, next.text)
            && inside(now[i].key, next.lo[p], next.hi[p]) by {
            if i != at {
                assert(now[i] == above[i]);
                assert(proper(above[i].key, shape.text));
            }
        }
    }
    assert(next.children_ok(after, p)) by {
        assert forall|j: int| 0 <= j < now.len() implies ({
            let child = child_of(#[trigger] after.nodes[p].entries[j]);
            child != 0 && next.live.contains(child) && next.up[child] == (p, j)
        }) by {
            let child = child_of(above[j]);
            assert(shape.up[child] == (p, j));
        }
    }
    if p != 0 {
        let g = shape.up[p].0;
        assert(shape.node_ok(tree, g));
        assert(next.up[p] == shape.up[p]);
        assert(after.nodes[g] == tree.nodes[g]);
    }
}

/// After one entry moved between two neighbours every other page of the tree
/// is a sound page of the tree.
#[verifier::rlimit(50)]
proof fn lemma_shift_ok_other(tree: TreeView, shape: Shape, x: u32, n: u32)
    requires
        shape.can_balance(tree, x),
        !tree.merges(x, shape.up[x].0),
        shape.live.contains(n),
        n != tree.left_id(x, shape.up[x].0),
        n != tree.right_id(x, shape.up[x].0),
        n != shape.up[x].0,
    ensures
        shape.shifted(tree, x).node_ok(tree.distributed(x, shape.up[x].0), n),
{
    lemma_pair(tree, shape, x);
    lemma_joined(tree, shape, x);
    lemma_shift_nodes(tree, shape, x);
    let p = shape.up[x].0;
    let at = tree.left_index(x, p);
    let l = tree.left_id(x, p);
    let r = tree.right_id(x, p);
    let d = tree.pair_divider(x, p);
    let leaf = tree.nodes[l].leaf;
    let all = joined(tree.nodes[l].entries, tree.nodes[r].entries, d, leaf);
    let k = shape.cut(tree, x);
    let e = shape.boundary(tree, x);
    let after = tree.distributed(x, p);
    let next = shape.shifted(tree, x);
    let above = tree.nodes[p].entries;
    let a = after.nodes[l].entries;
    let b = after.nodes[r].entries;
    assert(shape.node_ok(tree, p));
    assert(shape.node_ok(tree, l));
    assert(shape.node_ok(tree, r));
    assert(shape.node_ok(tree, n));
    assert(after.nodes[n] == tree.nodes[n]);
    assert(next.children_ok(after, n)) by {
        if !tree.nodes[n].leaf {
            assert forall|j: int| 0 <= j < tree.nodes[n].entries.len() implies ({
                let child = child_of(#[trigger] after.nodes[n].entries[j]);
                child != 0 && next.live.contains(child) && next.up[child] == (n, j)
            }) by {
                let child = child_of(tree.nodes[n].entries[j]);
                assert(shape.up[child] == (n, j));
            }
        }
    }
    if n != 0 {
        let g = shape.up[n].0;
        let i = shape.up[n].1;
        assert(shape.node_ok(tree, g));
        if g == l || g == r {
            lemma_joined_child(tree, shape, x, n);
            let j = if g == l { i } else { tree.nodes[l].entries.len() + i };
            if j < k {
                assert(next.up[n] == (l, j));
                assert(a[j].row == all[j].row);
                if j > 0 {
                    assert(a[j - 1].key == all[j - 1].key);
                }
            } else {
                assert(next.up[n] == (r, j - k));
                assert(b[j - k] == all[k + (j - k)]);
                if j > k {
                    assert(b[j - k - 1] == all[k + (j - k - 1)]);
                }
            }
        } else if g == p {
            assert(i != at && i != at + 1);
            assert(next.up[n] == (p, i));
        } else {
            assert(next.up[n] == shape.up[n]);
            assert(after.nodes[g] == tree.nodes[g]);
        }
    }
}

/// A search tree in which one entry moved between two neighbours is a search
/// tree.
pub proof fn lemma_shift_keeps_shape(tree: TreeView, shape: Shape, x: u32)
    requires
        shape.can_balance(tree, x),
        !tree.merges(x, shape.up[x].0),
    ensures
        shape.shifted(tree, x).valid(tree.distributed(x, shape.up[x].0)),
        shape.shifted(tree, x).text == shape.text,
        shape.shifted(tree, x).height == shape.height,
{
    lemma_pair(tree, shape, x);
    lemma_shift_nodes(tree, shape, x);
    let p = shape.up[x].0;
    let l = tree.left_id(x, p);
    let r = tree.right_id(x, p);
    let after = tree.distributed(x, p);
    let next = shape.shifted(tree, x);
    assert forall|n: u32| next.live.contains(n) implies #[trigger] next.node_ok(after, n) by {
        assert(shape.node_ok(tree, n));
        if n == l {
            lemma_shift_ok_left(tree, shape, x);
        } else if n == r {
            lemma_shift_ok_right(tree, shape, x);
        } else if n == p {
            lemma_shift_ok_parent(tree, shape, x);
        } else {
            lemma_shift_ok_other(tree, shape, x, n);
        }
    }
}


/// Where a key is routed among rising entries after the entry at `at` got
/// another key under which the entries still rise: where it was routed
/// before, but that a key that was routed to the entry at `at` or to the one
/// after it is now routed to the first if it comes before the new key, and to
/// the second if not.
pub proof fn lemma_route_rekey(above: Seq<KeyRowView>, at: int, e: ValueView, key: ValueView)
    requires
        rising(above),
        0 <= at,
        at + 1 < above.len(),
        rising(with_key(above, at, e)),
    ensures
        ({
            let was = route(above, key);
            let now = route(with_key(above, at, e), key);
            &&& 0 <= was < above.len()
            &&& was < at || was > at + 1 ==> now == was
            &&& was == at || was == at + 1 ==> now == (if key.lt(e) {
                at
            } else {
                at + 1
            })
            &&& was <= at ==> key.lt(above[at].key)
            &&& was > at ==> !key.lt(above[at].key)
        }),
{
    let next = with_key(above, at, e);
    lemma_entry_index_bounds(above, key);
    let idx = entry_index(above, key);
    assert(next[at + 1] == above[at + 1]);
    assert(next[at].key.lt(next[at + 1].key));
    if idx < at {
        assert(above[idx].key.lt(above[at].key));
        lemma_lt_transitive(key, above[idx].key, above[at].key);
        assert forall|j: int| 0 <= j < idx implies !key.lt((#[trigger] next[j]).key) by {
            assert(next[j] == above[j]);
        }
        assert(next[idx] == above[idx]);
        lemma_rising_index(next, key, idx);
    } else if idx > at + 1 {
        assert forall|j: int| 0 <= j < idx implies !key.lt((#[trigger] next[j]).key) by {
            if j == at {
                if key.lt(e) {
                    lemma_lt_transitive(key, e, above[at + 1].key);
                }
            } else {
                assert(next[j] == above[j]);
            }
        }
        if idx < above.len() {
            assert(next[idx] == above[idx]);
        }
        lemma_rising_index(next, key, idx);
    } else {
        assert(key.lt(above[at + 1].key)) by {
            if idx == at {
                assert(above[at].key.lt(above[at + 1].key));
                lemma_lt_transitive(key, above[at].key, above[at + 1].key);
            }
        }
        let to = if key.lt(e) { at } else { at + 1 };
        assert forall|j: int| 0 <= j < to implies !key.lt((#[trigger] next[j]).key) by {
            if j < at {
                assert(next[j] == above[j]);
            }
        }
        lemma_rising_index(next, key, to);
    }
}

/// Moving one entry between two neighbours changes no row: the tree holds
/// under every key what it held.
#[verifier::rlimit(50)]
pub proof fn lemma_shift_lookup(tree: TreeView, shape: Shape, x: u32, key: ValueView)
    requires
        shape.can_balance(tree, x),
        !tree.merges(x, shape.up[x].0),
    ensures
        tree.distributed(x, shape.up[x].0).lookup(key) == tree.lookup(key),
{
    lemma_pair(tree, shape, x);
    lemma_joined(tree, shape, x);
    lemma_shift_nodes(tree, shape, x);
    lemma_shift_keeps_shape(tree, shape, x);
    let p = shape.up[x].0;
    let at = tree.left_index(x, p);
    let l = tree.left_id(x, p);
    let r = tree.right_id(x, p);
    let d = tree.pair_divider(x, p);
    let e = shape.boundary(tree, x);
    let k = shape.cut(tree, x);
    let after = tree.distributed(x, p);
    let next = shape.shifted(tree, x);
    let pair = set![l, r];
    let above = tree.nodes[p].entries;
    let left = tree.nodes[l].entries;
    let right = tree.nodes[r].entries;
    let leaf = tree.nodes[l].leaf;
    let all = joined(left, right, d, leaf);
    let a = after.nodes[l].entries;
    let b = after.nodes[r].entries;
    assert(shape.node_ok(tree, p));
    assert(shape.node_ok(tree, l));
    assert(shape.node_ok(tree, r));
    assert(next.node_ok(after, p));
    assert(differ_near(tree, shape, after, next, p, pair)) by {
        assert forall|n: u32| #[trigger] pair.contains(n) implies shape.live.contains(n) && n != 0
            && shape.up[n].0 == p by {
            assert(n == l || n == r);
        }
        assert forall|n: u32| shape.live.contains(n) && n != p && !pair.contains(n) implies #[trigger] after.nodes[n]
            == tree.nodes[n] by {
            assert(n != l && n != r);
        }
    }
    lemma_both_paths(tree, shape, after, next, key);
    let dp = shape.depth[p] as int;
    let h = shape.height as int;
    let q = tree.path(key)->0;
    let t = after.path(key)->0;
    assert(q.last() == q[h]);
    assert(t.last() == t[h]);
    lemma_near_upto(tree, shape, after, next, p, pair, key, dp);
    if q[dp] != p {
        lemma_near_from(tree, shape, after, next, p, pair, key, dp, h);
    } else {
        assert(after.nodes[p].entries == with_key(above, at, e));
        lemma_route_rekey(above, at, e, key);
        let was = route(above, key);
        let now = route(with_key(above, at, e), key);
        assert(q[dp + 1] == child_of(above[was]));
        assert(t[dp + 1] == child_of(with_key(above, at, e)[now]));
        assert(shape.up[q[dp + 1]] == (p, was));
        if was < at || was > at + 1 {
            assert(t[dp + 1] == q[dp + 1]);
            lemma_near_from(tree, shape, after, next, p, pair, key, dp + 1, h);
        } else {
            assert(q[dp + 1] == (if key.lt(d) { l } else { r }));
            assert(t[dp + 1] == (if key.lt(e) { l } else { r }));
            let part = if key.lt(d) { left } else { right };
            let side = if key.lt(e) { a } else { b };
            assert forall|i: int| 0 <= i < b.len() implies #[trigger] all[a.len() + i] == b[i] by {
                assert(b[i] == all[k + i]);
            }
            if leaf {
                assert(dp + 1 == h);
                assert forall|i: int| 0 <= i < left.len() implies (#[trigger] left[i]).key.lt(d) by {
                    assert(within(left[i].key, shape.lo[l], shape.hi[l]));
                }
                assert forall|i: int| 0 <= i < right.len() implies !(#[trigger] right[i]).key.lt(d) by {
                    assert(within(right[i].key, shape.lo[r], shape.hi[r]));
                }
                assert forall|i: int| 0 <= i < left.len() implies #[trigger] all[i] == left[i] by {
                    assert(all[i].row == left[i].row);
                }
                lemma_find_joined(left, right, all, d, key);
                assert forall|i: int| 0 <= i < a.len() implies #[trigger] all[i] == a[i] by {
                    assert(a[i].row == all[i].row);
                }
                assert forall|i: int| 0 <= i < a.len() implies (#[trigger] a[i]).key.lt(e) by {
                    assert(a[i].row == all[i].row);
                    assert(all[i].key.lt(all[k].key));
                }
                assert forall|i: int| 0 <= i < b.len() implies !(#[trigger] b[i]).key.lt(e) by {
                    assert(b[i] == all[k + i]);
                    if i > 0 {
                        assert(all[k].key.lt(all[k + i].key));
                        lemma_lt_asymmetric(all[k].key, all[k + i].key);
                    } else {
                        lemma_lt_irreflexive(e);
                    }
                }
                lemma_find_joined(a, b, all, e, key);
            } else {
                lemma_route_joined(left, right, all, d, key);
                assert forall|i: int| 0 <= i < a.len() implies (#[trigger] all[i]).row == a[i].row
                    && all[i].key == (if i == a.len() - 1 {
                    e
                } else {
                    a[i].key
                }) by {
                    assert(a[i].row == all[i].row);
                }
                lemma_route_joined(a, b, all, e, key);
                assert(q[(dp + 1) + 1] == child_of(part[route(part, key)]));
                assert(t[(dp + 1) + 1] == child_of(side[route(side, key)]));
                let c = q[dp + 2];
                assert(shape.depth[c] == dp + 2);
                assert(shape.node_ok(tree, c));
                lemma_near_from(tree, shape, after, next, p, pair, key, dp + 2, h);
            }
        }
    }
}


impl Shape {
    /// Whether the root of a search tree is ready to take the place of its
    /// only child.
    pub open spec fn can_collapse(self, tree: TreeView) -> bool {
        self.valid(tree) && tree.root_is_thin(0) && tree.collapse_error(0) is None
    }

    /// The shape of the tree after the root took the place of its only child:
    /// the child is gone, what hung under it hangs under the root, and every
    /// page but the root lies one step higher.
    pub open spec fn collapsed(self, tree: TreeView) -> Shape {
        let child = child_of(tree.nodes[0].entries[0]);
        Shape {
            live: self.live.remove(child),
            depth: Map::new(
                |n: u32| true,
                |n: u32|
                    if n == 0 {
                        0nat
                    } else {
                        (self.depth[n] - 1) as nat
                    },
            ),
            up: Map::new(
                |n: u32| true,
                |n: u32|
                    if self.live.contains(n) && n != 0 && self.up[n].0 == child {
                        (0u32, self.up[n].1)
                    } else {
                        self.up[n]
                    },
            ),
            lo: self.lo,
            hi: self.hi,
            height: (self.height - 1) as nat,
            text: self.text,
        }
    }
}

/// What the root's taking the place of its only child makes of the nodes.
#[verifier::rlimit(50)]
pub proof fn lemma_collapse_nodes(tree: TreeView, shape: Shape)
    requires
        shape.can_collapse(tree),
    ensures
        ({
            let child = child_of(tree.nodes[0].entries[0]);
            let after = tree.collapsed(0);
            &&& child != 0 && shape.live.contains(child)
            &&& shape.up[child] == (0u32, 0int)
            &&& shape.depth[child] == 1
            &&& shape.height >= 1
            &&& shape.lo[child] is None && shape.hi[child] is None
            &&& after.nodes.contains_key(0)
            &&& after.nodes[0] == tree.nodes[child]
            &&& !after.nodes.contains_key(child)
            &&& forall|n: u32|
                n != child && n != 0 ==> after.nodes.contains_key(n) == tree.nodes.contains_key(n)
                    && #[trigger] after.nodes[n] == tree.nodes[n]
            &&& after.count == tree.count
            &&& after.free.len() <= tree.free.len() + 1
            &&& after.free.no_duplicates()
            &&& forall|i: int| 0 <= i < after.free.len() ==> #[trigger] after.free[i] < after.count
            &&& forall|n: u32| after.free.contains(n) ==> n == child || tree.free.contains(n)
        }),
{
    reveal(TreeView::collapsed);
    reveal(TreeView::collapse_error);
    let child = child_of(tree.nodes[0].entries[0]);
    assert(shape.node_ok(tree, 0));
    assert(shape.up[child_of(tree.nodes[0].entries[0])] == (0u32, 0int));
    assert(shape.node_ok(tree, child));
    lemma_built_rising(tree.nodes[child].leaf, tree.nodes[child].entries);
    lemma_freed_list(tree.free, child, tree.count);
}

/// A search tree whose root took the place of its only child is a search
/// tree, one level lower.
#[verifier::rlimit(50)]
pub proof fn lemma_collapse_keeps_shape(tree: TreeView, shape: Shape)
    requires
        shape.can_collapse(tree),
    ensures
        shape.collapsed(tree).valid(tree.collapsed(0)),
        shape.collapsed(tree).text == shape.text,
        shape.collapsed(tree).height + 1 == shape.height,
{
    lemma_collapse_nodes(tree, shape);
    let child = child_of(tree.nodes[0].entries[0]);
    let after = tree.collapsed(0);
    let next = shape.collapsed(tree);
    let top = tree.nodes[child];
    assert(shape.node_ok(tree, 0));
    assert(shape.node_ok(tree, child));
    assert forall|n: u32| next.live.contains(n) implies #[trigger] next.node_ok(after, n) by {
        assert(shape.node_ok(tree, n));
        if n == 0 {
            assert(next.keys_ok(after, 0));
            assert(next.children_ok(after, 0)) by {
                if !top.leaf {
                    assert forall|j: int| 0 <= j < top.entries.len() implies ({
                        let c = child_of(#[trigger] after.nodes[0].entries[j]);
                        c != 0 && next.live.contains(c) && next.up[c] == (0u32, j)
                    }) by {
                        let c = child_of(top.entries[j]);
                        assert(shape.up[c] == (child, j));
                    }
                }
            }
        } else {
            assert(after.nodes[n] == tree.nodes[n]);
            let g = shape.up[n].0;
            assert(shape.node_ok(tree, g));
            assert(g != 0) by {
                if g == 0 {
                    assert(shape.up[n].1 == 0);
                }
            }
            assert(next.children_ok(after, n)) by {
                if !tree.nodes[n].leaf {
                    assert forall|j: int| 0 <= j < tree.nodes[n].entries.len() implies ({
                        let c = child_of(#[trigger] after.nodes[n].entries[j]);
                        c != 0 && next.live.contains(c) && next.up[c] == (n, j)
                    }) by {
                        let c = child_of(tree.nodes[n].entries[j]);
                        assert(shape.up[c] == (n, j));
                    }
                }
            }
            if g != child {
                assert(after.nodes[g] == tree.nodes[g]);
            }
            assert(next.link_ok(after, n));
        }
    }
}

/// The way down for a key after the root took the place of its only child
/// is the way down before, without the child.
#[verifier::rlimit(50)]
proof fn lemma_collapse_paths(tree: TreeView, shape: Shape, key: ValueView, i: int)
    requires
        shape.can_collapse(tree),
        1 <= i <= shape.height,
    ensures
        tree.path(key)->0[1] == child_of(tree.nodes[0].entries[0]),
        i >= 2 ==> tree.collapsed(0).path(key)->0[i - 1] == tree.path(key)->0[i],
    decreases i,
{
    lemma_collapse_nodes(tree, shape);
    lemma_collapse_keeps_shape(tree, shape);
    let child = child_of(tree.nodes[0].entries[0]);
    let after = tree.collapsed(0);
    let next = shape.collapsed(tree);
    lemma_both_paths(tree, shape, after, next, key);
    let q = tree.path(key)->0;
    let t = after.path(key)->0;
    lemma_entry_index_bounds(tree.nodes[0].entries, key);
    assert(q[0int + 1] == child);
    if i >= 2 {
        lemma_collapse_paths(tree, shape, key, i - 1);
        assert(t[(i - 2) + 1] == child_of(
            after.nodes[t[i - 2]].entries[route(after.nodes[t[i - 2]].entries, key)],
        ));
        assert(q[(i - 1) + 1] == child_of(
            tree.nodes[q[i - 1]].entries[route(tree.nodes[q[i - 1]].entries, key)],
        ));
        if i > 2 {
            let n = q[i - 1];
            assert(shape.depth[n] == i - 1);
            assert(t[i - 2] == n);
            assert(after.nodes[n] == tree.nodes[n]);
        }
    }
}

/// The root's taking the place of its only child changes no row: the tree
/// holds under every key what it held.
#[verifier::rlimit(50)]
pub proof fn lemma_collapse_lookup(tree: TreeView, shape: Shape, key: ValueView)
    requires
        shape.can_collapse(tree),
    ensures
        tree.collapsed(0).lookup(key) == tree.lookup(key),
{
    lemma_collapse_nodes(tree, shape);
    lemma_collapse_keeps_shape(tree, shape);
    let child = child_of(tree.nodes[0].entries[0]);
    let after = tree.collapsed(0);
    let next = shape.collapsed(tree);
    lemma_both_paths(tree, shape, after, next, key);
    let q = tree.path(key)->0;
    let t = after.path(key)->0;
    let h = shape.height as int;
    lemma_collapse_paths(tree, shape, key, h);
    assert(q.last() == q[h]);
    assert(t.last() == t[h - 1]);
    if h >= 2 {
        let n = q[h];
        assert(shape.depth[n] == h);
        assert(after.nodes[n] == tree.nodes[n]);
    }
}


/// A search tree stays a search tree and changes no row when the nodes on
/// the way of a delete are balanced where they hold too little and the root
/// takes the place of an only child.
#[verifier::rlimit(50)]
pub proof fn lemma_shrunk(tree: TreeView, shape: Shape, path: Seq<u32>, i: int, key: ValueView) -> (next:
    Shape)
    requires
        shape.valid(tree),
        0 <= i < path.len(),
        path[0] == 0,
        forall|j: int|
            0 <= j <= i ==> shape.live.contains(#[trigger] path[j]) && shape.depth[path[j]] == j,
        forall|j: int| 1 <= j <= i ==> shape.up[#[trigger] path[j]].0 == path[j - 1],
    ensures
        next.valid(tree.shrunk(path, i).0),
        next.text == shape.text,
        tree.shrunk(path, i).0.lookup(key) == tree.lookup(key),
    decreases i,
{
    if i <= 0 {
        if tree.collapse_error(0) is None && tree.root_is_thin(0) {
            lemma_collapse_keeps_shape(tree, shape);
            lemma_collapse_lookup(tree, shape, key);
            shape.collapsed(tree)
        } else {
            assert(tree.shrunk(path, i).0 == tree) by {
                reveal(TreeView::collapsed);
            }
            shape
        }
    } else {
        let x = path[i];
        let p = path[i - 1];
        assert(shape.node_ok(tree, x));
        assert(shape.depth[x] == i);
        assert(shape.up[x].0 == p);
        if tree.nodes[x].underflow() && tree.distribute_error(x, p) is None {
            assert(shape.can_balance(tree, x));
            lemma_pair(tree, shape, x);
            let after = tree.distributed(x, p);
            let above = if tree.merges(x, p) {
                shape.merged(tree, x)
            } else {
                shape.shifted(tree, x)
            };
            if tree.merges(x, p) {
                lemma_merge_keeps_shape(tree, shape, x);
                lemma_merge_lookup(tree, shape, x, key);
            } else {
                lemma_shift_keeps_shape(tree, shape, x);
                lemma_shift_lookup(tree, shape, x, key);
            }
            assert(shape.node_ok(tree, p));
            assert forall|j: int| 0 <= j <= i - 1 implies above.live.contains(#[trigger] path[j])
                && above.depth[path[j]] == j by {
                assert(shape.live.contains(path[j]));
            }
            assert forall|j: int| 1 <= j <= i - 1 implies above.up[#[trigger] path[j]].0 == path[j
                - 1] by {
                assert(shape.up[path[j]].0 == path[j - 1]);
                assert(shape.depth[path[j - 1]] == j - 1);
                assert(shape.depth[path[j]] == j);
                assert(shape.node_ok(tree, path[j]));
                assert(shape.node_ok(tree, path[j - 1]));
            }
            assert(tree.shrunk(path, i) == after.shrunk(path, i - 1));
            lemma_shrunk(after, above, path, i - 1, key)
        } else if tree.nodes[x].underflow() {
            assert(tree.shrunk(path, i).0 == tree);
            shape
        } else {
            assert(tree.shrunk(path, i) == tree.shrunk(path, i - 1));
            lemma_shrunk(tree, shape, path, i - 1, key)
        }
    }
}

} // verus!
