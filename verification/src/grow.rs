//! A search tree stays a search tree, with the same rows under the same keys,
//! when an entry is put into a leaf, a node is split, or the root is raised.

use vstd::prelude::*;
use crate::value::ValueView;
use crate::value::KeyRowView;
use crate::node::NodeView;
use crate::node::entry_index;
use crate::node::entry_find;
use crate::node::lemma_entry_index_bounds;
use crate::node::lemma_entry_find_bounds;
use crate::store::TreeView;
use crate::store::empty_node;
use crate::btrees::route;
use crate::btrees::child_of;
use crate::btrees::routing_entry;
use crate::btrees::lemma_path;
use crate::order::rising;
use crate::order::lemma_rising_insert;
use crate::order::lemma_rising_find;
use crate::order::lemma_rising_index;
use crate::order::lemma_find_absent;
use crate::order::lemma_lt_irreflexive;
use crate::order::lemma_lt_transitive;
use crate::order::lemma_lt_asymmetric;
use crate::order::lemma_lt_then_le;
use crate::order::lemma_le_then_lt;
use crate::shape::Shape;
use crate::shape::within;
use crate::shape::inside;
use crate::shape::proper;
use crate::shape::lemma_path_exists;
use crate::laws::ordered;
use crate::laws::lemma_put_all_ordered;

verus! {

/// A way down in one tree is a way down in every tree that has the same
/// internal nodes along it and a leaf at its end.
pub proof fn lemma_path_same(a: TreeView, b: TreeView, key: ValueView, id: u32, fuel: nat)
    requires
        a.path_from(key, id, fuel) is Some,
        forall|i: int|
            0 <= i < a.path_from(key, id, fuel)->0.len() - 1 ==> b.nodes.contains_key(
                #[trigger] a.path_from(key, id, fuel)->0[i],
            ) && b.nodes[a.path_from(key, id, fuel)->0[i]] == a.nodes[a.path_from(key, id, fuel)->0[i]],
        b.nodes.contains_key(a.path_from(key, id, fuel)->0.last()),
        b.nodes[a.path_from(key, id, fuel)->0.last()].leaf,
    ensures
        b.path_from(key, id, fuel) == a.path_from(key, id, fuel),
    decreases fuel,
{
    let path = a.path_from(key, id, fuel)->0;
    lemma_path(a, key, id, fuel);
    assert(path[0] == id);
    if !a.nodes[id].leaf {
        let at = route(a.nodes[id].entries, key);
        let child = child_of(a.nodes[id].entries[at]);
        let rest = a.path_from(key, child, (fuel - 1) as nat)->0;
        assert(path == seq![id] + rest);
        lemma_path(a, key, child, (fuel - 1) as nat);
        assert(path.last() == rest.last());
        assert forall|i: int| 0 <= i < rest.len() - 1 implies b.nodes.contains_key(
            #[trigger] rest[i],
        ) && b.nodes[rest[i]] == a.nodes[rest[i]] by {
            assert(path[i + 1] == rest[i]);
        }
        lemma_path_same(a, b, key, child, (fuel - 1) as nat);
    } else {
        assert(path =~= seq![id]);
    }
}

/// A search tree with one more entry in a leaf, for a proper key in the leaf's
/// range that the leaf did not hold, is a search tree in the same shape.
#[verifier::rlimit(50)]
pub proof fn lemma_put_keeps_shape(tree: TreeView, shape: Shape, leaf: u32, e: KeyRowView)
    requires
        shape.valid(tree),
        shape.live.contains(leaf),
        tree.nodes[leaf].leaf,
        proper(e.key, shape.text),
        within(e.key, shape.lo[leaf], shape.hi[leaf]),
        entry_find(tree.nodes[leaf].entries, e.key) == tree.nodes[leaf].entries.len(),
    ensures
        shape.valid(tree.with_node(leaf, tree.nodes[leaf].put(e))),
{
    let after = tree.with_node(leaf, tree.nodes[leaf].put(e));
    let old_entries = tree.nodes[leaf].entries;
    let at = entry_index(old_entries, e.key);
    lemma_entry_index_bounds(old_entries, e.key);
    assert(shape.node_ok(tree, leaf));
    lemma_rising_insert(old_entries, e);
    assert forall|n: u32| shape.live.contains(n) implies #[trigger] shape.node_ok(after, n) by {
        assert(shape.node_ok(tree, n));
        if n != 0 {
            let p = shape.up[n].0;
            assert(shape.node_ok(tree, p));
            assert(p != leaf);
            assert(after.nodes[p] == tree.nodes[p]);
        }
        if n == leaf {
            let entries = after.nodes[n].entries;
            assert forall|i: int| 0 <= i < entries.len() implies proper(
                (#[trigger] entries[i]).key,
                shape.text,
            ) && within(entries[i].key, shape.lo[n], shape.hi[n]) by {
                if i < at {
                    assert(entries[i] == old_entries[i]);
                } else if i > at {
                    assert(entries[i] == old_entries[i - 1]);
                }
            }
        } else {
            assert(after.nodes[n] == tree.nodes[n]);
        }
    }
}

/// What is found in a leaf of rising entries after one more entry was put in:
/// under the new key the new row, under every other key what was there.
pub proof fn lemma_put_find(entries: Seq<KeyRowView>, e: KeyRowView, key: ValueView)
    requires
        rising(entries),
        entry_find(entries, e.key) == entries.len(),
    ensures
        ({
            let after = entries.insert(entry_index(entries, e.key), e);
            let was = entry_find(entries, key);
            let now = entry_find(after, key);
            if key == e.key {
                now < after.len() && after[now].row == e.row
            } else if was < entries.len() {
                now < after.len() && after[now].row == entries[was].row
            } else {
                now == after.len()
            }
        }),
{
    lemma_entry_index_bounds(entries, e.key);
    lemma_entry_find_bounds(entries, key);
    lemma_entry_find_bounds(entries, e.key);
    lemma_rising_insert(entries, e);
    let at = entry_index(entries, e.key);
    let after = entries.insert(at, e);
    let was = entry_find(entries, key);
    if key == e.key {
        lemma_rising_find(after, key, at);
    } else if was < entries.len() {
        let to = if was < at { was } else { was + 1 };
        assert(after[to] == entries[was]);
        lemma_rising_find(after, key, to);
    } else {
        assert forall|j: int| 0 <= j < after.len() implies (#[trigger] after[j]).key != key by {
            if j < at {
                assert(after[j] == entries[j]);
            } else if j > at {
                assert(after[j] == entries[j - 1]);
            }
        }
        lemma_find_absent(after, key);
    }
}

/// After an entry was put into the leaf that its key is routed to, the tree
/// holds the new row under the new key and under every other key what it held.
#[verifier::rlimit(50)]
pub proof fn lemma_put_lookup(tree: TreeView, shape: Shape, e: KeyRowView, key: ValueView)
    requires
        shape.valid(tree),
        !tree.holds(e.key),
    ensures
        ({
            let leaf = tree.path(e.key)->0.last();
            let after = tree.with_node(leaf, tree.nodes[leaf].put(e));
            &&& tree.path(e.key) is Some
            &&& after.path(key) == tree.path(key)
            &&& after.lookup(key) == (if key == e.key {
                Some(e.row)
            } else {
                tree.lookup(key)
            })
        }),
{
    lemma_path_exists(tree, shape, e.key);
    lemma_path_exists(tree, shape, key);
    let leaf = tree.path(e.key)->0.last();
    let after = tree.with_node(leaf, tree.nodes[leaf].put(e));
    let q = tree.path(key)->0;
    lemma_path(tree, e.key, 0, tree.count as nat);
    lemma_path(tree, key, 0, tree.count as nat);
    assert forall|i: int| 0 <= i < q.len() - 1 implies after.nodes.contains_key(#[trigger] q[i])
        && after.nodes[q[i]] == tree.nodes[q[i]] by {
        assert(!tree.nodes[q[i]].leaf);
    }
    lemma_path_same(tree, after, key, 0, tree.count as nat);
    assert(shape.node_ok(tree, leaf));
    lemma_entry_find_bounds(tree.nodes[leaf].entries, e.key);
    if q.last() == leaf {
        lemma_put_find(tree.nodes[leaf].entries, e, key);
    } else {
        assert(after.nodes[q.last()] == tree.nodes[q.last()]);
        if key == e.key {
            assert(false);
        }
    }
}


/// Rising entries are in order.
pub proof fn lemma_rising_ordered(entries: Seq<KeyRowView>)
    requires
        rising(entries),
    ensures
        ordered(entries),
{
    assert forall|i: int, j: int| 0 <= i < j < entries.len() implies !(#[trigger] entries[j]).key.lt(
        (#[trigger] entries[i]).key,
    ) by {
        lemma_lt_asymmetric(entries[i].key, entries[j].key);
    }
}

/// Rising entries make the node that they are put into one after another.
pub proof fn lemma_built_rising(leaf: bool, entries: Seq<KeyRowView>)
    requires
        rising(entries),
    ensures
        TreeView::built(leaf, entries) == (NodeView { leaf, entries }),
{
    lemma_rising_ordered(entries);
    lemma_put_all_ordered(leaf, entries, entries.len() as int);
    crate::laws::lemma_put_all_len(empty_node(leaf), entries, entries.len() as int);
    assert(entries.take(entries.len() as int) =~= entries);
}

/// The key that stands for "no upper bound" is the same for all keys of one
/// kind.
pub proof fn lemma_ceiling_of_kind(a: ValueView, b: ValueView)
    requires
        a.is_text() == b.is_text(),
    ensures
        a.ceiling() == b.ceiling(),
        a.ceiling().ceiling() == a.ceiling(),
        a.ceiling().is_text() == a.is_text(),
{
}

impl Shape {
    /// Whether the page `x` of a search tree is ready to be split under its
    /// parent.
    pub open spec fn can_split(self, tree: TreeView, x: u32) -> bool {
        &&& self.valid(tree)
        &&& self.live.contains(x)
        &&& x != 0
        &&& tree.split_error(x, self.up[x].0) is None
    }

    /// The shape of the tree after page `x` was split: the new page stands
    /// where `x` stood, one step before `x` under the same parent, and is
    /// there for the keys of `x` below the divider; `x` is there for the rest;
    /// the children that went to the new page hang under it.
    pub open spec fn split(self, tree: TreeView, x: u32) -> Shape {
        let p = self.up[x].0;
        let c = self.up[x].1;
        let new = tree.next_id();
        let mid = tree.nodes[x].entries.len() as int / 2;
        let d = tree.nodes[x].divider();
        Shape {
            live: self.live.insert(new),
            depth: self.depth.insert(new, self.depth[x]),
            up: Map::new(
                |n: u32| true,
                |n: u32|
                    if n == new {
                        (p, c)
                    } else if self.live.contains(n) && n != 0 && self.up[n].0 == p && self.up[n].1
                        >= c {
                        (p, self.up[n].1 + 1)
                    } else if self.live.contains(n) && n != 0 && self.up[n].0 == x {
                        if self.up[n].1 < mid {
                            (new, self.up[n].1)
                        } else {
                            (x, self.up[n].1 - mid)
                        }
                    } else {
                        self.up[n]
                    },
            ),
            lo: self.lo.insert(new, self.lo[x]).insert(x, Some(d)),
            hi: self.hi.insert(new, Some(d)),
            height: self.height,
            text: self.text,
        }
    }
}

/// What a split makes of the nodes: the new page holds the lower half, the
/// split page the upper half, the parent one entry more right where the entry
/// of the split page stood, and every other page is as it was.
#[verifier::rlimit(50)]
pub proof fn lemma_split_nodes(tree: TreeView, shape: Shape, x: u32)
    requires
        shape.can_split(tree, x),
    ensures
        ({
            let p = shape.up[x].0;
            let c = shape.up[x].1;
            let new = tree.next_id();
            let node = tree.nodes[x];
            let mid = node.entries.len() as int / 2;
            let d = node.divider();
            let after = tree.split(x, p);
            &&& node.entries.len() >= 2
            &&& 1 <= mid < node.entries.len()
            &&& !node.leaf ==> mid < node.entries.len() - 1 || node.entries.len() == 2
            &&& new != x && new != p && p != x && !shape.live.contains(new)
            &&& shape.live.contains(p) && tree.nodes.contains_key(p) && !tree.nodes[p].leaf
            &&& 0 <= c < tree.nodes[p].entries.len()
            &&& child_of(tree.nodes[p].entries[c]) == x
            &&& proper(d, shape.text)
            &&& within(d, shape.lo[x], shape.hi[x])
            &&& (shape.lo[x] matches Some(l) ==> l.lt(d))
            &&& d.lt(tree.nodes[p].entries[c].key)
            &&& rising(tree.nodes[p].entries.insert(c, routing_entry(d, new)))
            &&& after.nodes.contains_key(new)
            &&& after.nodes[new] == (NodeView { leaf: node.leaf, entries: node.left_half() })
            &&& rising(node.left_half())
            &&& after.nodes.contains_key(x)
            &&& after.nodes[x] == node.right_half()
            &&& after.nodes.contains_key(p)
            &&& after.nodes[p] == (NodeView {
                leaf: false,
                entries: tree.nodes[p].entries.insert(c, routing_entry(d, new)),
            })
            &&& forall|n: u32|
                n != new && n != x && n != p ==> after.nodes.contains_key(n)
                    == tree.nodes.contains_key(n) && #[trigger] after.nodes[n] == tree.nodes[n]
            &&& after.count >= tree.count
            &&& new < after.count
            &&& !after.free.contains(new)
            &&& after.free.no_duplicates()
            &&& forall|i: int| 0 <= i < after.free.len() ==> #[trigger] after.free[i] < after.count
            &&& forall|n: u32| after.free.contains(n) ==> tree.free.contains(n)
            &&& shape.live.len() + 1 + after.free.len() <= after.count
            &&& after.types == tree.types
        }),
{
    reveal(TreeView::split);
    reveal(TreeView::split_error);
    let p = shape.up[x].0;
    let c = shape.up[x].1;
    let new = tree.next_id();
    let node = tree.nodes[x];
    let entries = node.entries;
    let mid = entries.len() as int / 2;
    let d = node.divider();
    let parent = tree.nodes[p];
    let after = tree.split(x, p);
    assert(shape.node_ok(tree, x));
    assert(shape.node_ok(tree, p));
    // the new page is no page of the tree
    if shape.live.contains(new) {
        assert(shape.node_ok(tree, new));
        if tree.free.len() > 0 {
            assert(tree.free[tree.free.len() - 1] == new);
        }
    }
    // the divider
    if node.leaf {
        assert(proper(entries[mid].key, shape.text));
        assert(entries[0].key.lt(entries[mid].key));
        assert(within(entries[0].key, shape.lo[x], shape.hi[x]));
        if shape.lo[x] is Some {
            lemma_le_then_lt(shape.lo[x]->0, entries[0].key, entries[mid].key);
            lemma_lt_asymmetric(shape.lo[x]->0, d);
        }
    } else {
        assert(proper(entries[mid - 1].key, shape.text));
        assert(inside(entries[mid - 1].key, shape.lo[x], shape.hi[x]));
        if shape.lo[x] is Some {
            lemma_lt_asymmetric(shape.lo[x]->0, d);
        }
    }
    // the lower half rises
    let left = node.left_half();
    assert(rising(left)) by {
        assert forall|i: int, j: int| 0 <= i < j < left.len() implies (#[trigger] left[i]).key.lt(
            (#[trigger] left[j]).key,
        ) by {
            assert(entries[i].key.lt(entries[j].key));
            if !node.leaf && j == mid - 1 {
                assert(proper(entries[i].key, shape.text));
                assert(proper(entries[j].key, shape.text));
                lemma_ceiling_of_kind(entries[i].key, entries[j].key);
            }
        }
    }
    lemma_built_rising(node.leaf, left);
    // the place of the divider in the parent
    let above = parent.entries;
    assert(entry_index(above, d) == c) by {
        assert forall|j: int| 0 <= j < c implies !d.lt((#[trigger] above[j]).key) by {
            assert(shape.lo[x] == Some(above[c - 1].key));
            if j < c - 1 {
                assert(above[j].key.lt(above[c - 1].key));
                lemma_lt_then_le(above[j].key, above[c - 1].key, d);
                lemma_lt_asymmetric(above[j].key, d);
            }
        }
        if c == above.len() - 1 {
            lemma_ceiling_of_kind(d, above[c].key);
        } else {
            assert(shape.hi[x] == Some(above[c].key));
        }
        lemma_rising_index(above, d, c);
    }
    assert(d.lt(above[c].key)) by {
        if c == above.len() - 1 {
            lemma_ceiling_of_kind(d, above[c].key);
        } else {
            assert(shape.hi[x] == Some(above[c].key));
        }
    }
    assert(rising(above.insert(c, routing_entry(d, new)))) by {
        let more = above.insert(c, routing_entry(d, new));
        assert forall|i: int, j: int| 0 <= i < j < more.len() implies (#[trigger] more[i]).key.lt(
            (#[trigger] more[j]).key,
        ) by {
            let oi = if i < c { i } else { i - 1 };
            let oj = if j < c { j } else { j - 1 };
            if i == c {
                assert(more[j] == above[oj]);
                if oj > c {
                    assert(above[c].key.lt(above[oj].key));
                    lemma_lt_transitive(d, above[c].key, above[oj].key);
                }
            } else if j == c {
                assert(more[i] == above[oi]);
                assert(shape.lo[x] == Some(above[c - 1].key));
                if oi < c - 1 {
                    assert(above[oi].key.lt(above[c - 1].key));
                    lemma_lt_transitive(above[oi].key, above[c - 1].key, d);
                }
            } else {
                assert(more[i] == above[oi]);
                assert(more[j] == above[oj]);
            }
        }
    }
    // the free list
    if tree.free.len() > 0 {
        let rest = tree.free.drop_last();
        assert forall|n: u32| rest.contains(n) implies tree.free.contains(n) by {
            let i = choose|i: int| 0 <= i < rest.len() && rest[i] == n;
            assert(tree.free[i] == n);
        }
        if rest.contains(new) {
            let i = choose|i: int| 0 <= i < rest.len() && rest[i] == new;
            assert(tree.free[i] == tree.free[tree.free.len() - 1]);
        }
        assert(tree.free[tree.free.len() - 1] < tree.count);
        assert forall|i: int| 0 <= i < rest.len() implies #[trigger] rest[i] < tree.count by {
            assert(rest[i] == tree.free[i]);
        }
        assert(rest.no_duplicates()) by {
            assert forall|i: int, j: int| 0 <= i < rest.len() && 0 <= j < rest.len() && i != j implies rest[i]
                != rest[j] by {
                assert(rest[i] == tree.free[i]);
                assert(rest[j] == tree.free[j]);
            }
        }
    }
}


/// After a split the new page is a sound page of the tree.
#[verifier::rlimit(50)]
proof fn lemma_split_ok_new(tree: TreeView, shape: Shape, x: u32)
    requires
        shape.can_split(tree, x),
    ensures
        shape.split(tree, x).node_ok(tree.split(x, shape.up[x].0), tree.next_id()),
{
    lemma_split_nodes(tree, shape, x);
    let p = shape.up[x].0;
    let c = shape.up[x].1;
    let new = tree.next_id();
    let node = tree.nodes[x];
    let entries = node.entries;
    let mid = entries.len() as int / 2;
    let d = node.divider();
    let after = tree.split(x, p);
    let next = shape.split(tree, x);
    let left = node.left_half();
    assert(shape.node_ok(tree, x));
    assert(shape.node_ok(tree, p));
    assert(next.keys_ok(after, new)) by {
        if node.leaf {
            assert forall|i: int| 0 <= i < left.len() implies proper(
                (#[trigger] left[i]).key,
                next.text,
            ) && within(left[i].key, next.lo[new], next.hi[new]) by {
                assert(left[i] == entries[i]);
                assert(entries[i].key.lt(entries[mid].key));
            }
        } else {
            lemma_ceiling_of_kind(entries[mid - 1].key, entries[mid - 1].key);
            assert(proper(entries[mid - 1].key, shape.text));
            assert forall|i: int| 0 <= i < left.len() - 1 implies proper(
                (#[trigger] left[i]).key,
                next.text,
            ) && inside(left[i].key, next.lo[new], next.hi[new]) by {
                assert(left[i] == entries[i]);
                assert(entries[i].key.lt(entries[mid - 1].key));
                assert(proper(entries[i].key, shape.text));
                assert(inside(entries[i].key, shape.lo[x], shape.hi[x]));
            }
        }
    }
    assert(next.children_ok(after, new)) by {
        if !node.leaf {
            assert forall|j: int| 0 <= j < left.len() implies ({
                let child = child_of(#[trigger] after.nodes[new].entries[j]);
                child != 0 && next.live.contains(child) && next.up[child] == (new, j)
            }) by {
                assert(child_of(left[j]) == child_of(entries[j]));
                let child = child_of(entries[j]);
                assert(shape.up[child] == (x, j));
            }
        }
    }
    assert(next.link_ok(after, new)) by {
        let more = after.nodes[p].entries;
        assert(more[c] == routing_entry(d, new));
        if c > 0 {
            assert(more[c - 1] == tree.nodes[p].entries[c - 1]);
        }
    }
}

/// After a split the split page is a sound page of the tree.
#[verifier::rlimit(50)]
proof fn lemma_split_ok_self(tree: TreeView, shape: Shape, x: u32)
    requires
        shape.can_split(tree, x),
    ensures
        shape.split(tree, x).node_ok(tree.split(x, shape.up[x].0), x),
{
    lemma_split_nodes(tree, shape, x);
    let p = shape.up[x].0;
    let c = shape.up[x].1;
    let new = tree.next_id();
    let node = tree.nodes[x];
    let entries = node.entries;
    let mid = entries.len() as int / 2;
    let d = node.divider();
    let after = tree.split(x, p);
    let next = shape.split(tree, x);
    let right = node.right_half().entries;
    assert(shape.node_ok(tree, x));
    assert(shape.node_ok(tree, p));
    assert(next.keys_ok(after, x)) by {
        assert forall|i: int, j: int| 0 <= i < j < right.len() implies (#[trigger] right[i]).key.lt(
            (#[trigger] right[j]).key,
        ) by {
            assert(entries[mid + i].key.lt(entries[mid + j].key));
        }
        if node.leaf {
            assert forall|i: int| 0 <= i < right.len() implies proper(
                (#[trigger] right[i]).key,
                next.text,
            ) && within(right[i].key, next.lo[x], next.hi[x]) by {
                assert(right[i] == entries[mid + i]);
                assert(proper(entries[mid + i].key, shape.text));
                assert(within(entries[mid + i].key, shape.lo[x], shape.hi[x]));
                if i > 0 {
                    assert(entries[mid].key.lt(entries[mid + i].key));
                    lemma_lt_asymmetric(entries[mid].key, entries[mid + i].key);
                } else {
                    lemma_lt_irreflexive(d);
                }
            }
        } else {
            assert(right[right.len() - 1] == entries[entries.len() - 1]);
            assert forall|i: int| 0 <= i < right.len() - 1 implies proper(
                (#[trigger] right[i]).key,
                next.text,
            ) && inside(right[i].key, next.lo[x], next.hi[x]) by {
                assert(right[i] == entries[mid + i]);
                assert(proper(entries[mid + i].key, shape.text));
                assert(inside(entries[mid + i].key, shape.lo[x], shape.hi[x]));
                assert(entries[mid - 1].key.lt(entries[mid + i].key));
            }
        }
    }
    assert(next.children_ok(after, x)) by {
        if !node.leaf {
            assert forall|j: int| 0 <= j < right.len() implies ({
                let child = child_of(#[trigger] after.nodes[x].entries[j]);
                child != 0 && next.live.contains(child) && next.up[child] == (x, j)
            }) by {
                assert(right[j] == entries[mid + j]);
                let child = child_of(entries[mid + j]);
                assert(shape.up[child] == (x, mid + j));
            }
        }
    }
    assert(next.link_ok(after, x)) by {
        let more = after.nodes[p].entries;
        assert(next.up[x] == (p, c + 1));
        assert(more[c + 1] == tree.nodes[p].entries[c]);
        assert(more[c] == routing_entry(d, new));
    }
}

/// After a split the parent is a sound page of the tree.
#[verifier::rlimit(50)]
proof fn lemma_split_ok_parent(tree: TreeView, shape: Shape, x: u32)
    requires
        shape.can_split(tree, x),
    ensures
        shape.split(tree, x).node_ok(tree.split(x, shape.up[x].0), shape.up[x].0),
{
    lemma_split_nodes(tree, shape, x);
    let p = shape.up[x].0;
    let c = shape.up[x].1;
    let new = tree.next_id();
    let d = tree.nodes[x].divider();
    let after = tree.split(x, p);
    let next = shape.split(tree, x);
    let above = tree.nodes[p].entries;
    let more = after.nodes[p].entries;
    assert(shape.node_ok(tree, x));
    assert(shape.node_ok(tree, p));
    assert(next.keys_ok(after, p)) by {
        assert(more[more.len() - 1] == above[above.len() - 1]);
        assert forall|i: int| 0 <= i < more.len() - 1 implies proper(
            (#[trigger] more[i]).key,
            next.text,
        ) && inside(more[i].key, next.lo[p], next.hi[p]) by {
            if i < c {
                assert(more[i] == above[i]);
            } else if i > c {
                assert(more[i] == above[i - 1]);
            } else {
                if c > 0 {
                    assert(inside(above[c - 1].key, shape.lo[p], shape.hi[p]));
                    assert(shape.lo[x] == Some(above[c - 1].key));
                    if shape.lo[p] is Some {
                        lemma_lt_transitive(shape.lo[p]->0, above[c - 1].key, d);
                    }
                }
                if c < above.len() - 1 {
                    assert(inside(above[c].key, shape.lo[p], shape.hi[p]));
                    if shape.hi[p] is Some {
                        lemma_lt_transitive(d, above[c].key, shape.hi[p]->0);
                    }
                }
            }
        }
    }
    assert(next.children_ok(after, p)) by {
        assert forall|j: int| 0 <= j < more.len() implies ({
            let child = child_of(#[trigger] after.nodes[p].entries[j]);
            child != 0 && next.live.contains(child) && next.up[child] == (p, j)
        }) by {
            if j < c {
                assert(more[j] == above[j]);
                let child = child_of(above[j]);
                assert(shape.up[child] == (p, j));
            } else if j > c {
                assert(more[j] == above[j - 1]);
                let child = child_of(above[j - 1]);
                assert(shape.up[child] == (p, j - 1));
            } else {
                assert(more[c] == routing_entry(d, new));
            }
        }
    }
    if p != 0 {
        let g = shape.up[p].0;
        assert(shape.node_ok(tree, g));
        assert(next.up[p] == shape.up[p]);
        assert(after.nodes[g] == tree.nodes[g]);
    }
}

/// After a split every other page of the tree is a sound page of the tree.
#[verifier::rlimit(50)]
proof fn lemma_split_ok_other(tree: TreeView, shape: Shape, x: u32, n: u32)
    requires
        shape.can_split(tree, x),
        shape.live.contains(n),
        n != x,
        n != shape.up[x].0,
    ensures
        shape.split(tree, x).node_ok(tree.split(x, shape.up[x].0), n),
{
    lemma_split_nodes(tree, shape, x);
    let p = shape.up[x].0;
    let c = shape.up[x].1;
    let new = tree.next_id();
    let node = tree.nodes[x];
    let entries = node.entries;
    let mid = entries.len() as int / 2;
    let d = node.divider();
    let after = tree.split(x, p);
    let next = shape.split(tree, x);
    let above = tree.nodes[p].entries;
    let more = after.nodes[p].entries;
    assert(shape.node_ok(tree, x));
    assert(shape.node_ok(tree, p));
    assert(shape.node_ok(tree, n));
    assert(after.nodes[n] == tree.nodes[n]);
    assert(next.children_ok(after, n)) by {
        if !tree.nodes[n].leaf {
            assert forall|j: int| 0 <= j < tree.nodes[n].entries.len() implies ({
                let child = child_of(#[trigger] after.nodes[n].entries[j]);
                child != 0 && next.live.contains(child) && next.up[child] == (n, j)
            }) by {
                let child = child_of(tree.nodes[n].entries[j]);
                assert(shape.up[child] == (n, j));
            }
        }
    }
    if n != 0 {
        let g = shape.up[n].0;
        let i = shape.up[n].1;
        assert(shape.node_ok(tree, g));
        if g == p {
            assert(i != c);
            if i < c {
                assert(next.up[n] == (p, i));
                assert(more[i] == above[i]);
                if i > 0 {
                    assert(more[i - 1] == above[i - 1]);
                }
            } else {
                assert(next.up[n] == (p, i + 1));
                assert(more[i + 1] == above[i]);
                assert(more[i] == if i == c + 1 { above[c] } else { above[i - 1] });
            }
        } else if g == x {
            let left = node.left_half();
            let right = node.right_half().entries;
            if i < mid {
                assert(next.up[n] == (new, i));
                assert(child_of(left[i]) == child_of(entries[i]));
                if i > 0 {
                    assert(left[i - 1] == entries[i - 1]);
                }
                if i < mid - 1 {
                    assert(left[i] == entries[i]);
                }
            } else {
                assert(next.up[n] == (x, i - mid));
                assert(right[i - mid] == entries[i]);
                if i > mid {
                    assert(right[i - mid - 1] == entries[i - 1]);
                }
            }
        } else {
            assert(next.up[n] == shape.up[n]);
            assert(after.nodes[g] == tree.nodes[g]);
        }
    }
}

/// A search tree in which a page was split is a search tree.
#[verifier::rlimit(50)]
pub proof fn lemma_split_keeps_shape(tree: TreeView, shape: Shape, x: u32)
    requires
        shape.can_split(tree, x),
    ensures
        shape.split(tree, x).valid(tree.split(x, shape.up[x].0)),
        shape.split(tree, x).text == shape.text,
        shape.split(tree, x).height == shape.height,
{
    lemma_split_nodes(tree, shape, x);
    let p = shape.up[x].0;
    let after = tree.split(x, p);
    let next = shape.split(tree, x);
    assert forall|n: u32| next.live.contains(n) implies #[trigger] next.node_ok(after, n) by {
        if n == tree.next_id() {
            lemma_split_ok_new(tree, shape, x);
        } else if n == x {
            lemma_split_ok_self(tree, shape, x);
        } else if n == p {
            lemma_split_ok_parent(tree, shape, x);
        } else {
            lemma_split_ok_other(tree, shape, x, n);
        }
    }
}


/// Where a key is routed among rising entries after one more entry was put in
/// at place `c`: to the same entry as before, which has moved up by one if it
/// stood at `c` or after it; but a key below the new entry's key that was
/// routed to the entry at `c` is now routed to the new entry.
pub proof fn lemma_route_insert(above: Seq<KeyRowView>, e: KeyRowView, c: int, key: ValueView)
    requires
        rising(above),
        0 <= c < above.len(),
        rising(above.insert(c, e)),
    ensures
        ({
            let was = route(above, key);
            let now = route(above.insert(c, e), key);
            &&& 0 <= was < above.len()
            &&& was < c ==> now == was
            &&& was > c ==> now == was + 1
            &&& was == c && key.lt(e.key) ==> now == c
            &&& was == c && !key.lt(e.key) ==> now == c + 1
        }),
{
    let more = above.insert(c, e);
    lemma_entry_index_bounds(above, key);
    let idx = entry_index(above, key);
    assert(more[c] == e);
    assert(more[c + 1] == above[c]);
    assert(e.key.lt(above[c].key));
    if key.lt(e.key) {
        lemma_lt_transitive(key, e.key, above[c].key);
        assert(idx <= c) by {
            if idx > c {
                assert(!key.lt(above[c].key));
            }
        }
        let at = idx;
        assert forall|j: int| 0 <= j < at implies !key.lt((#[trigger] more[j]).key) by {
            assert(more[j] == above[j]);
        }
        if idx < c {
            assert(more[idx] == above[idx]);
        }
        lemma_rising_index(more, key, at);
    } else {
        assert(idx >= c) by {
            if idx < c {
                assert(more[idx] == above[idx]);
                assert(more[idx].key.lt(more[c].key));
                lemma_lt_then_le(above[idx].key, e.key, key);
                lemma_lt_asymmetric(above[idx].key, key);
            }
        }
        assert forall|j: int| 0 <= j < idx + 1 implies !key.lt((#[trigger] more[j]).key) by {
            if j < c {
                assert(more[j] == above[j]);
            } else if j > c {
                assert(more[j] == above[j - 1]);
            }
        }
        if idx < above.len() {
            assert(more[idx + 1] == above[idx]);
        }
        lemma_rising_index(more, key, idx + 1);
    }
}

/// A key below the key of entry `mid` of rising entries is found among the
/// entries before `mid` as it is found among them all.
pub proof fn lemma_find_take(entries: Seq<KeyRowView>, mid: int, key: ValueView)
    requires
        rising(entries),
        0 <= mid < entries.len(),
        key.lt(entries[mid].key),
    ensures
        ({
            let was = entry_find(entries, key);
            let now = entry_find(entries.take(mid), key);
            (was < entries.len()) == (now < mid) && (was < entries.len() ==> entries.take(mid)[now].row
                == entries[was].row)
        }),
{
    lemma_entry_find_bounds(entries, key);
    let part = entries.take(mid);
    let was = entry_find(entries, key);
    assert(rising(part)) by {
        assert forall|i: int, j: int| 0 <= i < j < part.len() implies (#[trigger] part[i]).key.lt(
            (#[trigger] part[j]).key,
        ) by {
            assert(entries[i].key.lt(entries[j].key));
        }
    }
    if was < entries.len() {
        if was >= mid {
            if was > mid {
                assert(entries[mid].key.lt(entries[was].key));
                lemma_lt_asymmetric(entries[mid].key, key);
            } else {
                lemma_lt_irreflexive(key);
            }
        }
        assert(part[was] == entries[was]);
        lemma_rising_find(part, key, was);
    } else {
        assert forall|j: int| 0 <= j < part.len() implies (#[trigger] part[j]).key != key by {
            assert(part[j] == entries[j]);
        }
        lemma_find_absent(part, key);
    }
}

/// A key not below the key of entry `mid` of rising entries is found among
/// the entries from `mid` on as it is found among them all.
pub proof fn lemma_find_skip(entries: Seq<KeyRowView>, mid: int, key: ValueView)
    requires
        rising(entries),
        0 <= mid < entries.len(),
        !key.lt(entries[mid].key),
    ensures
        ({
            let was = entry_find(entries, key);
            let rest = entries.skip(mid);
            let now = entry_find(rest, key);
            (was < entries.len()) == (now < rest.len()) && (was < entries.len() ==> rest[now].row
                == entries[was].row)
        }),
{
    lemma_entry_find_bounds(entries, key);
    let rest = entries.skip(mid);
    let was = entry_find(entries, key);
    assert(rising(rest)) by {
        assert forall|i: int, j: int| 0 <= i < j < rest.len() implies (#[trigger] rest[i]).key.lt(
            (#[trigger] rest[j]).key,
        ) by {
            assert(entries[mid + i].key.lt(entries[mid + j].key));
        }
    }
    if was < entries.len() {
        if was < mid {
            assert(entries[was].key.lt(entries[mid].key));
        }
        assert(rest[was - mid] == entries[was]);
        lemma_rising_find(rest, key, was - mid);
    } else {
        assert forall|j: int| 0 <= j < rest.len() implies (#[trigger] rest[j]).key != key by {
            assert(rest[j] == entries[mid + j]);
        }
        lemma_find_absent(rest, key);
    }
}

/// In the lower half of a split internal node a key below the divider is
/// routed to the child that it was routed to in the whole node.
pub proof fn lemma_route_left(node: NodeView, key: ValueView, text: bool)
    requires
        !node.leaf,
        node.entries.len() >= 2,
        rising(node.entries),
        key.lt(node.divider()),
        proper(node.divider(), text),
    ensures
        child_of(node.left_half()[route(node.left_half(), key)]) == child_of(
            node.entries[route(node.entries, key)],
        ),
        0 <= route(node.left_half(), key) < node.left_half().len(),
{
    let entries = node.entries;
    let mid = entries.len() as int / 2;
    let left = node.left_half();
    lemma_entry_index_bounds(entries, key);
    let idx = entry_index(entries, key);
    assert(idx <= mid - 1) by {
        if idx > mid - 1 {
            assert(!key.lt(entries[mid - 1].key));
        }
    }
    assert forall|j: int| 0 <= j < idx implies !key.lt((#[trigger] left[j]).key) by {
        assert(left[j] == entries[j]);
    }
    if idx < mid - 1 {
        assert(left[idx] == entries[idx]);
    } else {
        lemma_lt_transitive(key, node.divider(), node.divider().ceiling());
    }
    lemma_entry_index_bounds(left, key);
    let found = entry_index(left, key);
    if found < idx {
        assert(!key.lt(left[found].key));
    }
    assert(found == idx);
}

/// In the upper half of a split internal node a key not below the divider is
/// routed to the child that it was routed to in the whole node.
pub proof fn lemma_route_right(node: NodeView, key: ValueView)
    requires
        !node.leaf,
        node.entries.len() >= 2,
        rising(node.entries),
        !key.lt(node.divider()),
    ensures
        child_of(node.right_half().entries[route(node.right_half().entries, key)]) == child_of(
            node.entries[route(node.entries, key)],
        ),
        0 <= route(node.right_half().entries, key) < node.right_half().entries.len(),
{
    let entries = node.entries;
    let mid = entries.len() as int / 2;
    let right = node.right_half().entries;
    lemma_entry_index_bounds(entries, key);
    lemma_entry_index_bounds(right, key);
    let idx = entry_index(entries, key);
    assert(idx >= mid) by {
        if idx < mid {
            if idx < mid - 1 {
                assert(entries[idx].key.lt(entries[mid - 1].key));
                lemma_lt_transitive(key, entries[idx].key, entries[mid - 1].key);
            }
        }
    }
    let found = entry_index(right, key);
    assert(found == idx - mid) by {
        if found < idx - mid {
            assert(right[found] == entries[mid + found]);
            assert(!key.lt(entries[mid + found].key));
        }
        if found > idx - mid {
            assert(right[idx - mid] == entries[idx]);
            assert(!key.lt(right[idx - mid].key));
        }
    }
    if idx < entries.len() {
        assert(right[idx - mid] == entries[idx]);
    } else {
        assert(right[right.len() - 1] == entries[entries.len() - 1]);
    }
}


/// The ways down for a key before and after a split, page by page.
#[verifier::rlimit(50)]
proof fn lemma_split_paths(tree: TreeView, shape: Shape, x: u32, key: ValueView)
    requires
        shape.can_split(tree, x),
    ensures
        ({
            let after = tree.split(x, shape.up[x].0);
            let next = shape.split(tree, x);
            let q = tree.path(key)->0;
            let r = after.path(key)->0;
            &&& next.valid(after)
            &&& tree.path(key) is Some
            &&& after.path(key) is Some
            &&& q.len() == shape.height + 1
            &&& r.len() == shape.height + 1
            &&& q[0] == 0
            &&& r[0] == 0
            &&& forall|i: int|
                0 <= i < q.len() ==> shape.live.contains(#[trigger] q[i]) && shape.depth[q[i]] == i
            &&& forall|i: int|
                0 <= i < r.len() ==> next.live.contains(#[trigger] r[i]) && next.depth[r[i]] == i
            &&& forall|i: int|
                0 <= i < q.len() - 1 ==> #[trigger] q[i + 1] == child_of(
                    tree.nodes[q[i]].entries[route(tree.nodes[q[i]].entries, key)],
                ) && shape.up[q[i + 1]] == (q[i], route(tree.nodes[q[i]].entries, key)) && 0 <= route(
                    tree.nodes[q[i]].entries,
                    key,
                ) < tree.nodes[q[i]].entries.len()
            &&& forall|i: int|
                0 <= i < r.len() - 1 ==> #[trigger] r[i + 1] == child_of(
                    after.nodes[r[i]].entries[route(after.nodes[r[i]].entries, key)],
                )
        }),
{
    lemma_split_keeps_shape(tree, shape, x);
    let after = tree.split(x, shape.up[x].0);
    let next = shape.split(tree, x);
    lemma_path_exists(tree, shape, key);
    lemma_path_exists(after, next, key);
    let q = tree.path(key)->0;
    let r = after.path(key)->0;
    assert(shape.node_ok(tree, 0));
    assert(next.node_ok(after, 0));
    assert forall|i: int| 0 <= i < q.len() - 1 implies #[trigger] q[i + 1] == child_of(
        tree.nodes[q[i]].entries[route(tree.nodes[q[i]].entries, key)],
    ) && shape.up[q[i + 1]] == (q[i], route(tree.nodes[q[i]].entries, key)) && 0 <= route(
        tree.nodes[q[i]].entries,
        key,
    ) < tree.nodes[q[i]].entries.len() by {
        assert(shape.node_ok(tree, q[i + 1]));
        assert(shape.depth[q[i + 1]] == i + 1);
    }
    assert forall|i: int| 0 <= i < r.len() - 1 implies #[trigger] r[i + 1] == child_of(
        after.nodes[r[i]].entries[route(after.nodes[r[i]].entries, key)],
    ) by {
        assert(next.node_ok(after, r[i + 1]));
        assert(next.depth[r[i + 1]] == i + 1);
    }
}

/// Down to the parent of the split page, the way down for a key is the same
/// after the split as before.
proof fn lemma_split_path_upto(tree: TreeView, shape: Shape, x: u32, key: ValueView, i: int)
    requires
        shape.can_split(tree, x),
        0 <= i <= shape.depth[shape.up[x].0],
    ensures
        tree.split(x, shape.up[x].0).path(key)->0[i] == tree.path(key)->0[i],
    decreases i,
{
    lemma_split_paths(tree, shape, x, key);
    lemma_split_nodes(tree, shape, x);
    if i > 0 {
        lemma_split_path_upto(tree, shape, x, key, i - 1);
        let q = tree.path(key)->0;
        let r = tree.split(x, shape.up[x].0).path(key)->0;
        let n = q[i - 1];
        assert(shape.node_ok(tree, x));
        assert(shape.depth[n] == i - 1);
        assert(n != x && n != shape.up[x].0 && n != tree.next_id());
        assert(q[(i - 1) + 1] == r[(i - 1) + 1]);
    }
}

/// Where the way down for a key does not pass the split page, it is the same
/// after the split as before.
#[verifier::rlimit(50)]
proof fn lemma_split_path_beside(tree: TreeView, shape: Shape, x: u32, key: ValueView, i: int)
    requires
        shape.can_split(tree, x),
        tree.path(key)->0[shape.depth[x] as int] != x,
        0 <= i <= shape.height,
    ensures
        tree.split(x, shape.up[x].0).path(key)->0[i] == tree.path(key)->0[i],
    decreases i,
{
    lemma_split_paths(tree, shape, x, key);
    lemma_split_nodes(tree, shape, x);
    let p = shape.up[x].0;
    let c = shape.up[x].1;
    assert(shape.node_ok(tree, x));
    let d = shape.depth[p] as int;
    if i <= d {
        lemma_split_path_upto(tree, shape, x, key, i);
    } else {
        lemma_split_path_beside(tree, shape, x, key, i - 1);
        let after = tree.split(x, p);
        let q = tree.path(key)->0;
        let r = after.path(key)->0;
        let n = q[i - 1];
        assert(shape.depth[n] == i - 1);
        assert(q[(i - 1) + 1] == child_of(
            tree.nodes[n].entries[route(tree.nodes[n].entries, key)],
        ));
        assert(r[(i - 1) + 1] == child_of(
            after.nodes[n].entries[route(after.nodes[n].entries, key)],
        ));
        if n == p {
            let above = tree.nodes[p].entries;
            let e = routing_entry(tree.nodes[x].divider(), tree.next_id());
            assert(shape.node_ok(tree, p));
            lemma_route_insert(above, e, c, key);
            let was = route(above, key);
            let more = above.insert(c, e);
            assert(was != c);
            if was < c {
                assert(more[was] == above[was]);
            } else {
                assert(more[was + 1] == above[was]);
            }
        } else {
            assert(n != tree.next_id());
            assert(n != x);
        }
    }
}

/// Where the way down for a key passes the split page, afterwards it passes
/// the new page if the key is below the divider, and the split page if not.
#[verifier::rlimit(50)]
proof fn lemma_split_path_at(tree: TreeView, shape: Shape, x: u32, key: ValueView)
    requires
        shape.can_split(tree, x),
        tree.path(key)->0[shape.depth[x] as int] == x,
    ensures
        tree.split(x, shape.up[x].0).path(key)->0[shape.depth[x] as int] == (if key.lt(
            tree.nodes[x].divider(),
        ) {
            tree.next_id()
        } else {
            x
        }),
{
    lemma_split_paths(tree, shape, x, key);
    lemma_split_nodes(tree, shape, x);
    let p = shape.up[x].0;
    let c = shape.up[x].1;
    assert(shape.node_ok(tree, x));
    assert(shape.node_ok(tree, p));
    let d = shape.depth[p] as int;
    lemma_split_path_upto(tree, shape, x, key, d);
    let after = tree.split(x, p);
    let q = tree.path(key)->0;
    let r = after.path(key)->0;
    assert(q[d + 1] == x);
    assert(shape.up[q[d + 1]] == (q[d], route(tree.nodes[q[d]].entries, key)));
    assert(q[d] == p);
    let above = tree.nodes[p].entries;
    let e = routing_entry(tree.nodes[x].divider(), tree.next_id());
    lemma_route_insert(above, e, c, key);
    let more = above.insert(c, e);
    assert(more[c] == e);
    assert(more[c + 1] == above[c]);
    assert(r[d + 1] == child_of(after.nodes[p].entries[route(after.nodes[p].entries, key)]));
}

/// Below the split page, the way down for a key is the same after the split
/// as before.
#[verifier::rlimit(50)]
proof fn lemma_split_path_under(tree: TreeView, shape: Shape, x: u32, key: ValueView, i: int)
    requires
        shape.can_split(tree, x),
        tree.path(key)->0[shape.depth[x] as int] == x,
        shape.depth[x] < i <= shape.height,
    ensures
        tree.split(x, shape.up[x].0).path(key)->0[i] == tree.path(key)->0[i],
    decreases i,
{
    lemma_split_paths(tree, shape, x, key);
    lemma_split_nodes(tree, shape, x);
    let p = shape.up[x].0;
    assert(shape.node_ok(tree, x));
    assert(shape.node_ok(tree, p));
    let dx = shape.depth[x] as int;
    let after = tree.split(x, p);
    let q = tree.path(key)->0;
    let r = after.path(key)->0;
    let node = tree.nodes[x];
    assert(q[(i - 1) + 1] == child_of(
        tree.nodes[q[i - 1]].entries[route(tree.nodes[q[i - 1]].entries, key)],
    ));
    assert(r[(i - 1) + 1] == child_of(
        after.nodes[r[i - 1]].entries[route(after.nodes[r[i - 1]].entries, key)],
    ));
    if i == dx + 1 {
        lemma_split_path_at(tree, shape, x, key);
        if key.lt(node.divider()) {
            lemma_route_left(node, key, shape.text);
        } else {
            lemma_route_right(node, key);
        }
    } else {
        lemma_split_path_under(tree, shape, x, key, i - 1);
        let n = q[i - 1];
        assert(shape.depth[n] == i - 1);
        assert(n != x && n != p && n != tree.next_id());
    }
}

/// A split changes no row: the tree holds under every key what it held.
#[verifier::rlimit(50)]
pub proof fn lemma_split_lookup(tree: TreeView, shape: Shape, x: u32, key: ValueView)
    requires
        shape.can_split(tree, x),
    ensures
        tree.split(x, shape.up[x].0).lookup(key) == tree.lookup(key),
{
    lemma_split_paths(tree, shape, x, key);
    lemma_split_nodes(tree, shape, x);
    let p = shape.up[x].0;
    assert(shape.node_ok(tree, x));
    assert(shape.node_ok(tree, p));
    let dx = shape.depth[x] as int;
    let h = shape.height as int;
    let after = tree.split(x, p);
    let q = tree.path(key)->0;
    let r = after.path(key)->0;
    let node = tree.nodes[x];
    assert(q.last() == q[h]);
    assert(r.last() == r[h]);
    if q[dx] != x {
        lemma_split_path_beside(tree, shape, x, key, h);
        let leaf = q[h];
        assert(shape.node_ok(tree, leaf));
        assert(shape.depth[leaf] == h);
        assert(leaf != p && leaf != tree.next_id());
        if leaf == x {
            assert(dx == h);
        }
    } else if dx < h {
        lemma_split_path_under(tree, shape, x, key, h);
        let leaf = q[h];
        assert(shape.depth[leaf] == h);
        assert(leaf != p && leaf != tree.next_id() && leaf != x);
    } else {
        lemma_split_path_at(tree, shape, x, key);
        let mid = node.entries.len() as int / 2;
        if key.lt(node.divider()) {
            lemma_find_take(node.entries, mid, key);
        } else {
            lemma_find_skip(node.entries, mid, key);
        }
    }
}


impl Shape {
    /// Whether the root of a search tree is ready to be raised.
    pub open spec fn can_raise(self, tree: TreeView) -> bool {
        self.valid(tree) && tree.raise_error(0) is None
    }

    /// The shape of the tree after the root was raised: the new page hangs
    /// under the root and is there for all keys; what hung under the root
    /// hangs under the new page; every page but the root lies one step
    /// deeper.
    pub open spec fn raised(self, tree: TreeView) -> Shape {
        let new = tree.next_id();
        Shape {
            live: self.live.insert(new),
            depth: Map::new(
                |n: u32| true,
                |n: u32|
                    if n == new {
                        1nat
                    } else if n == 0 {
                        0nat
                    } else {
                        self.depth[n] + 1
                    },
            ),
            up: Map::new(
                |n: u32| true,
                |n: u32|
                    if n == new {
                        (0u32, 0int)
                    } else if self.live.contains(n) && n != 0 && self.up[n].0 == 0 {
                        (new, self.up[n].1)
                    } else {
                        self.up[n]
                    },
            ),
            lo: self.lo.insert(new, None),
            hi: self.hi.insert(new, None),
            height: self.height + 1,
            text: self.text,
        }
    }
}

/// What raising the root makes of the nodes.
#[verifier::rlimit(50)]
pub proof fn lemma_raise_nodes(tree: TreeView, shape: Shape)
    requires
        shape.can_raise(tree),
    ensures
        ({
            let new = tree.next_id();
            let root = tree.nodes[0];
            let after = tree.raised(0);
            &&& root.entries.len() >= 1
            &&& new != 0 && !shape.live.contains(new)
            &&& after.nodes.contains_key(new)
            &&& after.nodes[new] == root
            &&& after.nodes.contains_key(0)
            &&& after.nodes[0] == (NodeView {
                leaf: false,
                entries: seq![routing_entry(root.entries[0].key.ceiling(), new)],
            })
            &&& root.entries[0].key.is_text() == shape.text
            &&& forall|n: u32|
                n != new && n != 0 ==> after.nodes.contains_key(n) == tree.nodes.contains_key(n)
                    && #[trigger] after.nodes[n] == tree.nodes[n]
            &&& after.count >= tree.count
            &&& new < after.count
            &&& !after.free.contains(new)
            &&& after.free.no_duplicates()
            &&& forall|i: int| 0 <= i < after.free.len() ==> #[trigger] after.free[i] < after.count
            &&& forall|n: u32| after.free.contains(n) ==> tree.free.contains(n)
            &&& shape.live.len() + 1 + after.free.len() <= after.count
        }),
{
    reveal(TreeView::raised);
    reveal(TreeView::raise_error);
    let new = tree.next_id();
    let root = tree.nodes[0];
    assert(shape.node_ok(tree, 0));
    if shape.live.contains(new) {
        assert(shape.node_ok(tree, new));
        if tree.free.len() > 0 {
            assert(tree.free[tree.free.len() - 1] == new);
        }
    }
    lemma_built_rising(root.leaf, root.entries);
    let top = root.entries[0].key.ceiling();
    lemma_ceiling_of_kind(root.entries[0].key, root.entries[0].key);
    assert(top.wf()) by {
        crate::value::lemma_ceiling_text();
        vstd::utf8::encode_utf8_valid_utf8("zzzzzzzz"@);
    }
    crate::btrees::lemma_single_entry(tree, top, new);
    if tree.free.len() > 0 {
        let rest = tree.free.drop_last();
        assert forall|n: u32| rest.contains(n) implies tree.free.contains(n) by {
            let i = choose|i: int| 0 <= i < rest.len() && rest[i] == n;
            assert(tree.free[i] == n);
        }
        if rest.contains(new) {
            let i = choose|i: int| 0 <= i < rest.len() && rest[i] == new;
            assert(tree.free[i] == tree.free[tree.free.len() - 1]);
        }
        assert(tree.free[tree.free.len() - 1] < tree.count);
        assert forall|i: int| 0 <= i < rest.len() implies #[trigger] rest[i] < tree.count by {
            assert(rest[i] == tree.free[i]);
        }
        assert(rest.no_duplicates()) by {
            assert forall|i: int, j: int| 0 <= i < rest.len() && 0 <= j < rest.len() && i != j implies rest[i]
                != rest[j] by {
                assert(rest[i] == tree.free[i]);
                assert(rest[j] == tree.free[j]);
            }
        }
    }
}

/// A search tree whose root was raised is a search tree, one level higher.
#[verifier::rlimit(50)]
pub proof fn lemma_raise_keeps_shape(tree: TreeView, shape: Shape)
    requires
        shape.can_raise(tree),
    ensures
        shape.raised(tree).valid(tree.raised(0)),
        shape.raised(tree).live.contains(tree.next_id()),
        shape.raised(tree).up[tree.next_id()] == (0u32, 0int),
        shape.raised(tree).depth[tree.next_id()] == 1,
{
    lemma_raise_nodes(tree, shape);
    let new = tree.next_id();
    let root = tree.nodes[0];
    let after = tree.raised(0);
    let next = shape.raised(tree);
    assert(shape.node_ok(tree, 0));
    assert forall|n: u32| next.live.contains(n) implies #[trigger] next.node_ok(after, n) by {
        if n == new {
            assert(next.children_ok(after, new)) by {
                if !root.leaf {
                    assert forall|j: int| 0 <= j < root.entries.len() implies ({
                        let child = child_of(#[trigger] after.nodes[new].entries[j]);
                        child != 0 && next.live.contains(child) && next.up[child] == (new, j)
                    }) by {
                        let child = child_of(root.entries[j]);
                        assert(shape.up[child] == (0u32, j));
                    }
                }
            }
            assert(next.keys_ok(after, new));
            assert(next.link_ok(after, new));
        } else if n == 0 {
            lemma_ceiling_of_kind(root.entries[0].key, root.entries[0].key);
            assert(next.keys_ok(after, 0));
            assert(next.children_ok(after, 0));
        } else {
            assert(shape.node_ok(tree, n));
            assert(after.nodes[n] == tree.nodes[n]);
            assert(next.children_ok(after, n)) by {
                if !tree.nodes[n].leaf {
                    assert forall|j: int| 0 <= j < tree.nodes[n].entries.len() implies ({
                        let child = child_of(#[trigger] after.nodes[n].entries[j]);
                        child != 0 && next.live.contains(child) && next.up[child] == (n, j)
                    }) by {
                        let child = child_of(tree.nodes[n].entries[j]);
                        assert(shape.up[child] == (n, j));
                    }
                }
            }
            let g = shape.up[n].0;
            assert(shape.node_ok(tree, g));
            if g != 0 {
                assert(after.nodes[g] == tree.nodes[g]);
            }
            assert(next.link_ok(after, n));
        }
    }
}

/// The ways down for a key before and after the root was raised.
#[verifier::rlimit(50)]
proof fn lemma_raise_paths(tree: TreeView, shape: Shape, key: ValueView, i: int)
    requires
        shape.can_raise(tree),
        0 <= i <= shape.height,
    ensures
        tree.path(key) is Some,
        tree.raised(0).path(key) is Some,
        tree.path(key)->0.len() == shape.height + 1,
        tree.raised(0).path(key)->0.len() == shape.height + 2,
        tree.raised(0).path(key)->0[1] == tree.next_id(),
        i >= 1 ==> tree.raised(0).path(key)->0[i + 1] == tree.path(key)->0[i],
    decreases i,
{
    lemma_raise_keeps_shape(tree, shape);
    lemma_raise_nodes(tree, shape);
    let after = tree.raised(0);
    let next = shape.raised(tree);
    let new = tree.next_id();
    lemma_path_exists(tree, shape, key);
    lemma_path_exists(after, next, key);
    let q = tree.path(key)->0;
    let r = after.path(key)->0;
    assert(next.node_ok(after, r[0int + 1]));
    assert(next.up[r[0int + 1]] == (r[0], route(after.nodes[r[0]].entries, key)));
    lemma_entry_index_bounds(after.nodes[0].entries, key);
    assert(r[1] == new);
    if i >= 1 {
        if i > 1 {
            lemma_raise_paths(tree, shape, key, i - 1);
        }
        assert(shape.node_ok(tree, q[(i - 1) + 1]));
        assert(shape.up[q[(i - 1) + 1]] == (q[i - 1], route(tree.nodes[q[i - 1]].entries, key)));
        assert(next.node_ok(after, r[i + 1]));
        assert(next.up[r[i + 1]] == (r[i], route(after.nodes[r[i]].entries, key)));
        assert(next.depth[r[i + 1]] == i + 1);
        if i == 1 {
            assert(q[0] == 0);
            assert(after.nodes[new] == tree.nodes[0]);
        } else {
            assert(r[i] == q[i - 1]);
            assert(shape.depth[q[i - 1]] == i - 1);
            assert(q[i - 1] != 0 && q[i - 1] != new);
            assert(after.nodes[q[i - 1]] == tree.nodes[q[i - 1]]);
        }
    }
}

/// Raising the root changes no row.
pub proof fn lemma_raise_lookup(tree: TreeView, shape: Shape, key: ValueView)
    requires
        shape.can_raise(tree),
    ensures
        tree.raised(0).lookup(key) == tree.lookup(key),
{
    lemma_raise_nodes(tree, shape);
    let h = shape.height as int;
    lemma_raise_paths(tree, shape, key, h);
    lemma_path_exists(tree, shape, key);
    let after = tree.raised(0);
    let q = tree.path(key)->0;
    let r = after.path(key)->0;
    assert(q.last() == q[h]);
    assert(r.last() == r[h + 1]);
    if h >= 1 {
        assert(shape.depth[q[h]] == h);
        assert(q[h] != 0);
        assert(q[h] != tree.next_id());
    }
}

/// A search tree stays a search tree and changes no row when the nodes on
/// the way of an insert are split where they hold too much, the root last.
#[verifier::rlimit(50)]
pub proof fn lemma_rebalanced(
    tree: TreeView,
    shape: Shape,
    path: Seq<u32>,
    i: int,
    key: ValueView,
) -> (next: Shape)
    requires
        shape.valid(tree),
        0 <= i < path.len(),
        path[0] == 0,
        forall|j: int|
            0 <= j <= i ==> shape.live.contains(#[trigger] path[j]) && shape.depth[path[j]] == j,
        forall|j: int| 1 <= j <= i ==> shape.up[#[trigger] path[j]].0 == path[j - 1],
    ensures
        next.valid(tree.rebalanced(path, i).0),
        next.text == shape.text,
        tree.rebalanced(path, i).0.lookup(key) == tree.lookup(key),
    decreases i,
{
    if i <= 0 {
        assert(shape.node_ok(tree, 0));
        if tree.nodes[0].overflow() && tree.raise_error(0) is None {
            lemma_raise_keeps_shape(tree, shape);
            lemma_raise_lookup(tree, shape, key);
            let raised = tree.raised(0);
            let above = shape.raised(tree);
            let new = tree.next_id();
            if raised.split_error(new, 0) is None {
                assert(above.can_split(raised, new));
                lemma_split_keeps_shape(raised, above, new);
                lemma_split_lookup(raised, above, new, key);
                assert(tree.rebalanced(path, i).0 == raised.split(new, 0));
                above.split(raised, new)
            } else {
                assert(tree.rebalanced(path, i).0 == raised);
                above
            }
        } else {
            assert(tree.rebalanced(path, i).0 == tree);
            shape
        }
    } else {
        let x = path[i];
        assert(shape.node_ok(tree, x));
        assert(shape.depth[x] == i);
        if tree.nodes[x].overflow() && tree.split_error(x, path[i - 1]) is None {
            lemma_split_keeps_shape(tree, shape, x);
            lemma_split_lookup(tree, shape, x, key);
            lemma_split_nodes(tree, shape, x);
            let after = tree.split(x, path[i - 1]);
            let above = shape.split(tree, x);
            assert forall|j: int| 0 <= j <= i - 1 implies above.live.contains(#[trigger] path[j])
                && above.depth[path[j]] == j by {
                assert(shape.live.contains(path[j]));
            }
            assert forall|j: int| 1 <= j <= i - 1 implies above.up[#[trigger] path[j]].0 == path[j
                - 1] by {
                assert(shape.up[path[j]].0 == path[j - 1]);
                assert(shape.depth[path[j - 1]] == j - 1);
                assert(shape.node_ok(tree, path[j - 1]));
                assert(shape.node_ok(tree, path[i - 1]));
            }
            assert(tree.rebalanced(path, i) == after.rebalanced(path, i - 1));
            lemma_rebalanced(after, above, path, i - 1, key)
        } else if tree.nodes[x].overflow() {
            assert(tree.rebalanced(path, i).0 == tree);
            shape
        } else {
            assert(tree.rebalanced(path, i) == tree.rebalanced(path, i - 1));
            lemma_rebalanced(tree, shape, path, i - 1, key)
        }
    }
}

} // verus!
