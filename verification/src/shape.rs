//! What makes the nodes of a table a search tree: every page in the tree has
//! one place in it, a depth, and a range of keys, and holds its entries in
//! rising order within that range.

use vstd::prelude::*;
use crate::value::ValueView;
use crate::node::entry_index;
use crate::node::lemma_entry_index_bounds;
use crate::store::TreeView;
use crate::btrees::route;
use crate::btrees::child_of;
use crate::order::rising;

verus! {

/// The places of the pages in a tree: which pages belong to it, how deep each
/// lies, under which entry of which parent, and which keys it is there for.
pub struct Shape {
    /// The pages of the tree.
    pub live: Set<u32>,
    /// How many steps below the root each page lies.
    pub depth: Map<u32, nat>,
    /// The parent of each page but the root, and the entry that leads to it.
    pub up: Map<u32, (u32, int)>,
    /// The key from which on a page is there for keys, if there is one.
    pub lo: Map<u32, Option<ValueView>>,
    /// The key up to which a page is there for keys, if there is one.
    pub hi: Map<u32, Option<ValueView>>,
    /// The depth of the leaves.
    pub height: nat,
    /// Whether the keys are texts.
    pub text: bool,
}

/// `key` is at or after `lo` and before `hi`.
pub open spec fn within(key: ValueView, lo: Option<ValueView>, hi: Option<ValueView>) -> bool {
    (lo matches Some(l) ==> !key.lt(l)) && (hi matches Some(h) ==> key.lt(h))
}

/// `key` is after `lo` and before `hi`.
pub open spec fn inside(key: ValueView, lo: Option<ValueView>, hi: Option<ValueView>) -> bool {
    (lo matches Some(l) ==> l.lt(key)) && (hi matches Some(h) ==> key.lt(h))
}

/// A sound key of the tree's kind that comes before the key that stands for
/// "no upper bound".
pub open spec fn proper(key: ValueView, text: bool) -> bool {
    key.wf() && key.is_text() == text && key.lt(key.ceiling())
}

impl Shape {
    /// The key from which on child `j` of page `p` is there for keys.
    pub open spec fn child_lo(self, tree: TreeView, p: u32, j: int) -> Option<ValueView> {
        if j == 0 {
            self.lo[p]
        } else {
            Some(tree.nodes[p].entries[j - 1].key)
        }
    }

    /// The key up to which child `j` of page `p` is there for keys.
    pub open spec fn child_hi(self, tree: TreeView, p: u32, j: int) -> Option<ValueView> {
        if j == tree.nodes[p].entries.len() - 1 {
            self.hi[p]
        } else {
            Some(tree.nodes[p].entries[j].key)
        }
    }

    /// The entries of page `n` rise, and their keys are proper keys in the
    /// page's range; the last entry of an internal page has the key that
    /// stands for "no upper bound".
    pub open spec fn keys_ok(self, tree: TreeView, n: u32) -> bool {
        let node = tree.nodes[n];
        let last = node.entries.len() - 1;
        &&& rising(node.entries)
        &&& node.leaf ==> forall|i: int|
            0 <= i < node.entries.len() ==> proper((#[trigger] node.entries[i]).key, self.text)
                && within(node.entries[i].key, self.lo[n], self.hi[n])
        &&& !node.leaf ==> {
            &&& node.entries.len() >= 1
            &&& node.entries[last].key == node.entries[last].key.ceiling()
            &&& node.entries[last].key.is_text() == self.text
            &&& forall|i: int|
                0 <= i < last ==> proper((#[trigger] node.entries[i]).key, self.text) && inside(
                    node.entries[i].key,
                    self.lo[n],
                    self.hi[n],
                )
        }
    }

    /// Every entry of the internal page `n` leads to a page of the tree that
    /// knows it as its parent.
    pub open spec fn children_ok(self, tree: TreeView, n: u32) -> bool {
        !tree.nodes[n].leaf ==> forall|j: int|
            0 <= j < tree.nodes[n].entries.len() ==> {
                let child = child_of(#[trigger] tree.nodes[n].entries[j]);
                child != 0 && self.live.contains(child) && self.up[child] == (n, j)
            }
    }

    /// Page `n` hangs under the entry of its parent that leads to it, one step
    /// deeper, and is there for the keys between that entry's neighbours.
    pub open spec fn link_ok(self, tree: TreeView, n: u32) -> bool {
        let (p, j) = self.up[n];
        &&& self.live.contains(p)
        &&& !tree.nodes[p].leaf
        &&& 0 <= j < tree.nodes[p].entries.len()
        &&& child_of(tree.nodes[p].entries[j]) == n
        &&& self.depth[n] == self.depth[p] + 1
        &&& self.lo[n] == self.child_lo(tree, p, j)
        &&& self.hi[n] == self.child_hi(tree, p, j)
    }

    /// Page `n` is a sound page of the tree.
    pub open spec fn node_ok(self, tree: TreeView, n: u32) -> bool {
        &&& tree.nodes.contains_key(n)
        &&& n < tree.count
        &&& !tree.free.contains(n)
        &&& self.depth[n] <= self.height
        &&& tree.nodes[n].leaf == (self.depth[n] == self.height)
        &&& self.keys_ok(tree, n)
        &&& self.children_ok(tree, n)
        &&& if n == 0 {
            self.depth[n] == 0 && self.lo[n] is None && self.hi[n] is None
        } else {
            self.link_ok(tree, n)
        }
    }

    /// The pages of `tree` form a search tree in this shape, and the table has
    /// given out as many pages as are in the tree or free.
    pub open spec fn valid(self, tree: TreeView) -> bool {
        &&& self.live.contains(0)
        &&& self.live.finite()
        &&& self.live.len() + tree.free.len() <= tree.count
        &&& tree.free.no_duplicates()
        &&& forall|i: int| 0 <= i < tree.free.len() ==> #[trigger] tree.free[i] < tree.count
        &&& forall|n: u32| self.live.contains(n) ==> #[trigger] self.node_ok(tree, n)
    }
}

impl TreeView {
    /// Whether the pages form a search tree for keys of the kind `text`.
    pub open spec fn searchable(self, text: bool) -> bool {
        exists|shape: Shape| shape.valid(self) && shape.text == text
    }

    /// The row found under `key`, if one is found.
    pub open spec fn lookup(self, key: ValueView) -> Option<Seq<ValueView>> {
        if self.holds(key) {
            Some(self.row_of(key))
        } else {
            None
        }
    }
}

/// The way down from a page of a search tree, for a key in the page's range:
/// it ends in a leaf, goes one step deeper with each page, and stays in the
/// range of each page on it.
pub proof fn lemma_way_down(tree: TreeView, shape: Shape, key: ValueView, n: u32, fuel: nat)
    requires
        shape.valid(tree),
        shape.live.contains(n),
        within(key, shape.lo[n], shape.hi[n]),
        fuel + shape.depth[n] >= shape.height,
    ensures
        tree.path_from(key, n, fuel) is Some,
        ({
            let p = tree.path_from(key, n, fuel)->0;
            &&& p.len() == shape.height - shape.depth[n] + 1
            &&& p[0] == n
            &&& forall|i: int|
                0 <= i < p.len() ==> shape.live.contains(#[trigger] p[i]) && shape.depth[p[i]]
                    == shape.depth[n] + i && within(key, shape.lo[p[i]], shape.hi[p[i]])
            &&& forall|i: int|
                0 <= i < p.len() - 1 ==> shape.up[#[trigger] p[i + 1]] == (
                    p[i],
                    route(tree.nodes[p[i]].entries, key),
                )
        }),
    decreases shape.height - shape.depth[n],
{
    assert(shape.node_ok(tree, n));
    let node = tree.nodes[n];
    if !node.leaf {
        let at = route(node.entries, key);
        lemma_entry_index_bounds(node.entries, key);
        let child = child_of(node.entries[at]);
        assert(shape.node_ok(tree, child));
        assert(within(key, shape.lo[child], shape.hi[child])) by {
            let idx = entry_index(node.entries, key);
            if at > 0 {
                assert(!key.lt(node.entries[at - 1].key));
            }
        }
        lemma_way_down(tree, shape, key, child, (fuel - 1) as nat);
        let rest = tree.path_from(key, child, (fuel - 1) as nat)->0;
        let p = tree.path_from(key, n, fuel)->0;
        assert(p == seq![n] + rest);
        assert forall|i: int| 0 <= i < p.len() implies shape.live.contains(#[trigger] p[i])
            && shape.depth[p[i]] == shape.depth[n] + i && within(
            key,
            shape.lo[p[i]],
            shape.hi[p[i]],
        ) by {
            if i > 0 {
                assert(p[i] == rest[i - 1]);
            }
        }
        assert forall|i: int| 0 <= i < p.len() - 1 implies shape.up[#[trigger] p[i + 1]] == (
            p[i],
            route(tree.nodes[p[i]].entries, key),
        ) by {
            if i > 0 {
                assert(p[i] == rest[i - 1]);
                assert(p[i + 1] == rest[(i - 1) + 1]);
                assert(shape.up[rest[(i - 1) + 1]] == (
                    rest[i - 1],
                    route(tree.nodes[rest[i - 1]].entries, key),
                ));
            } else {
                assert(p[1] == rest[0]);
                assert(p[0] == n);
                assert(shape.up[child] == (n, at));
            }
        }
    }
}

/// A search tree has more pages than its leaves lie deep.
pub proof fn lemma_height_bound(tree: TreeView, shape: Shape)
    requires
        shape.valid(tree),
    ensures
        shape.height + 1 <= shape.live.len(),
        shape.height < tree.count,
{
    let key = ValueView::Number(0);
    assert(shape.node_ok(tree, 0));
    lemma_way_down(tree, shape, key, 0, shape.height);
    let p = tree.path_from(key, 0, shape.height)->0;
    assert(p.no_duplicates()) by {
        assert forall|i: int, j: int| 0 <= i < p.len() && 0 <= j < p.len() && i != j implies p[i]
            != p[j] by {
            assert(shape.depth[p[i]] == i);
            assert(shape.depth[p[j]] == j);
        }
    }
    p.unique_seq_to_set();
    assert(p.to_set().subset_of(shape.live)) by {
        assert forall|n: u32| p.to_set().contains(n) implies shape.live.contains(n) by {
            let i = choose|i: int| 0 <= i < p.len() && p[i] == n;
            assert(shape.live.contains(p[i]));
        }
    }
    vstd::set_lib::lemma_len_subset(p.to_set(), shape.live);
}

/// In a search tree every key has a way down from the root.
pub proof fn lemma_path_exists(tree: TreeView, shape: Shape, key: ValueView)
    requires
        shape.valid(tree),
    ensures
        tree.path(key) is Some,
        tree.path(key)->0.len() == shape.height + 1,
        tree.path(key)->0[0] == 0,
        forall|i: int|
            0 <= i < tree.path(key)->0.len() ==> shape.live.contains(#[trigger] tree.path(key)->0[i])
                && shape.depth[tree.path(key)->0[i]] == i && within(
                key,
                shape.lo[tree.path(key)->0[i]],
                shape.hi[tree.path(key)->0[i]],
            ),
        forall|i: int|
            0 <= i < tree.path(key)->0.len() - 1 ==> shape.up[#[trigger] tree.path(key)->0[i + 1]]
                == (tree.path(key)->0[i], route(tree.nodes[tree.path(key)->0[i]].entries, key)),
{
    assert(shape.node_ok(tree, 0));
    lemma_height_bound(tree, shape);
    lemma_way_down(tree, shape, key, 0, tree.count as nat);
}

} // verus!
