//! A search tree whose nodes hold neither too much nor too little stays one
//! through the splits of an insert and the balancing of a delete.

use vstd::prelude::*;
use crate::store::TreeView;
use crate::shape::Shape;
use crate::btrees::child_of;
use crate::grow::lemma_split_nodes;
use crate::grow::lemma_split_keeps_shape;
use crate::grow::lemma_raise_nodes;
use crate::grow::lemma_raise_keeps_shape;
use crate::shrink::lemma_pair;
use crate::shrink::lemma_joined;
use crate::shrink::lemma_merge_nodes;
use crate::shrink::lemma_merge_keeps_shape;
use crate::shrink::lemma_shift_nodes;
use crate::shrink::lemma_shift_keeps_shape;
use crate::shrink::lemma_collapse_nodes;
use crate::shrink::lemma_collapse_keeps_shape;

verus! {

impl Shape {
    /// Page `n` holds neither more nor less than a node of its kind may. The
    /// root may hold less: as a leaf anything, as an internal node two
    /// children.
    pub open spec fn fits(self, tree: TreeView, n: u32) -> bool {
        !tree.nodes[n].overflow() && self.holds_enough(tree, n)
    }

    /// Page `n` holds no less than a node of its kind may.
    pub open spec fn holds_enough(self, tree: TreeView, n: u32) -> bool {
        let node = tree.nodes[n];
        if n == 0 {
            node.leaf || node.entries.len() >= 2
        } else {
            !node.underflow()
        }
    }

    /// The pages of `tree` form a search tree in this shape, and each holds
    /// neither more nor less than a node of its kind may.
    pub open spec fn sized(self, tree: TreeView) -> bool {
        self.valid(tree) && forall|n: u32| self.live.contains(n) ==> #[trigger] self.fits(tree, n)
    }
}

impl TreeView {
    /// Whether the pages form a search tree for keys of the kind `text` in
    /// which each node holds neither more nor less than a node of its kind
    /// may.
    pub open spec fn balanced(self, text: bool) -> bool {
        exists|shape: Shape| shape.sized(self) && shape.text == text
    }
}

/// Where only the node `path[i]` of a search tree holds too much, by one
/// entry, the splits on the way up from there, if none is refused, leave a
/// tree in which no node holds too much or too little.
#[verifier::rlimit(50)]
pub proof fn lemma_rebalanced_sized(tree: TreeView, shape: Shape, path: Seq<u32>, i: int) -> (next:
    Shape)
    requires
        shape.valid(tree),
        0 <= i < path.len(),
        path[0] == 0,
        forall|j: int|
            0 <= j <= i ==> shape.live.contains(#[trigger] path[j]) && shape.depth[path[j]] == j,
        forall|j: int| 1 <= j <= i ==> shape.up[#[trigger] path[j]].0 == path[j - 1],
        forall|n: u32| shape.live.contains(n) && n != path[i] ==> #[trigger] shape.fits(tree, n),
        tree.nodes[path[i]].entries.len() <= tree.nodes[path[i]].most() + 1,
        shape.holds_enough(tree, path[i]),
        tree.rebalanced(path, i).1 is None,
    ensures
        next.sized(tree.rebalanced(path, i).0),
        next.text == shape.text,
    decreases i,
{
    let x = path[i];
    assert(shape.node_ok(tree, x));
    assert(shape.depth[x] == i);
    if i <= 0 {
        if tree.nodes[0].overflow() {
            assert(shape.can_raise(tree));
            lemma_raise_keeps_shape(tree, shape);
            lemma_raise_nodes(tree, shape);
            let raised = tree.raised(0);
            let above = shape.raised(tree);
            let new = tree.next_id();
            assert(above.can_split(raised, new));
            lemma_split_keeps_shape(raised, above, new);
            lemma_split_nodes(raised, above, new);
            let after = raised.split(new, 0);
            let last = above.split(raised, new);
            assert forall|n: u32| last.live.contains(n) implies #[trigger] last.fits(after, n) by {
                if n != new && n != 0 && n != raised.next_id() {
                    assert(shape.fits(tree, n));
                    assert(raised.nodes[n] == tree.nodes[n]);
                    assert(after.nodes[n] == raised.nodes[n]);
                }
            }
            last
        } else {
            shape
        }
    } else {
        let p = path[i - 1];
        assert(shape.up[x].0 == p);
        assert(shape.node_ok(tree, p));
        assert(shape.depth[p] == i - 1);
        if tree.nodes[x].overflow() {
            assert(shape.can_split(tree, x));
            lemma_split_keeps_shape(tree, shape, x);
            lemma_split_nodes(tree, shape, x);
            let after = tree.split(x, p);
            let above = shape.split(tree, x);
            let new = tree.next_id();
            assert forall|j: int| 0 <= j <= i - 1 implies above.live.contains(#[trigger] path[j])
                && above.depth[path[j]] == j by {
                assert(shape.live.contains(path[j]));
            }
            assert forall|j: int| 1 <= j <= i - 1 implies above.up[#[trigger] path[j]].0 == path[j
                - 1] by {
                assert(shape.up[path[j]].0 == path[j - 1]);
                assert(shape.depth[path[j - 1]] == j - 1);
                assert(shape.node_ok(tree, path[j - 1]));
            }
            assert forall|n: u32| above.live.contains(n) && n != p implies #[trigger] above.fits(
                after,
                n,
            ) by {
                if n != new && n != x {
                    assert(shape.fits(tree, n));
                    assert(after.nodes[n] == tree.nodes[n]);
                }
            }
            assert(shape.fits(tree, p));
            assert(tree.rebalanced(path, i) == after.rebalanced(path, i - 1));
            lemma_rebalanced_sized(after, above, path, i - 1)
        } else {
            assert(shape.fits(tree, p));
            assert(tree.rebalanced(path, i) == tree.rebalanced(path, i - 1));
            lemma_rebalanced_sized(tree, shape, path, i - 1)
        }
    }
}


/// Where only the node `path[i]` of a search tree holds too little, by one
/// entry, the balancing on the way up from there, if none is refused, leaves
/// a tree in which no node holds too much or too little.
#[verifier::rlimit(50)]
pub proof fn lemma_shrunk_sized(tree: TreeView, shape: Shape, path: Seq<u32>, i: int) -> (next: Shape)
    requires
        shape.valid(tree),
        0 <= i < path.len(),
        path[0] == 0,
        forall|j: int|
            0 <= j <= i ==> shape.live.contains(#[trigger] path[j]) && shape.depth[path[j]] == j,
        forall|j: int| 1 <= j <= i ==> shape.up[#[trigger] path[j]].0 == path[j - 1],
        forall|n: u32| shape.live.contains(n) && n != path[i] ==> #[trigger] shape.fits(tree, n),
        !tree.nodes[path[i]].overflow(),
        i > 0 ==> tree.nodes[path[i]].entries.len() >= tree.nodes[path[i]].fewest() - 1,
        tree.shrunk(path, i).1 is None,
    ensures
        next.sized(tree.shrunk(path, i).0),
        next.text == shape.text,
    decreases i,
{
    let x = path[i];
    assert(shape.node_ok(tree, x));
    assert(shape.depth[x] == i);
    if i <= 0 {
        if tree.root_is_thin(0) {
            assert(shape.can_collapse(tree));
            lemma_collapse_keeps_shape(tree, shape);
            lemma_collapse_nodes(tree, shape);
            let after = tree.collapsed(0);
            let above = shape.collapsed(tree);
            let child = child_of(tree.nodes[0].entries[0]);
            assert(shape.fits(tree, child));
            assert forall|n: u32| above.live.contains(n) implies #[trigger] above.fits(after, n) by {
                if n != 0 {
                    assert(shape.fits(tree, n));
                    assert(after.nodes[n] == tree.nodes[n]);
                }
            }
            above
        } else {
            assert(tree.shrunk(path, i).0 == tree) by {
                reveal(TreeView::collapsed);
            }
            shape
        }
    } else {
        let p = path[i - 1];
        assert(shape.up[x].0 == p);
        assert(shape.node_ok(tree, p));
        assert(shape.depth[p] == i - 1);
        assert(shape.fits(tree, p));
        if tree.nodes[x].underflow() {
            assert(shape.can_balance(tree, x));
            lemma_pair(tree, shape, x);
            lemma_joined(tree, shape, x);
            let l = tree.left_id(x, p);
            let r = tree.right_id(x, p);
            assert(shape.node_ok(tree, l));
            assert(shape.node_ok(tree, r));
            let other = if x == l { r } else { l };
            assert(shape.fits(tree, other));
            let after = tree.distributed(x, p);
            let above = if tree.merges(x, p) {
                shape.merged(tree, x)
            } else {
                shape.shifted(tree, x)
            };
            if tree.merges(x, p) {
                lemma_merge_keeps_shape(tree, shape, x);
                lemma_merge_nodes(tree, shape, x);
            } else {
                lemma_shift_keeps_shape(tree, shape, x);
                lemma_shift_nodes(tree, shape, x);
            }
            assert forall|j: int| 0 <= j <= i - 1 implies above.live.contains(#[trigger] path[j])
                && above.depth[path[j]] == j by {
                assert(shape.live.contains(path[j]));
            }
            assert forall|j: int| 1 <= j <= i - 1 implies above.up[#[trigger] path[j]].0 == path[j
                - 1] by {
                assert(shape.up[path[j]].0 == path[j - 1]);
                assert(shape.depth[path[j - 1]] == j - 1);
                assert(shape.depth[path[j]] == j);
                assert(shape.node_ok(tree, path[j]));
                assert(shape.node_ok(tree, path[j - 1]));
            }
            assert forall|n: u32| above.live.contains(n) && n != p implies #[trigger] above.fits(
                after,
                n,
            ) by {
                if n != l && n != r {
                    assert(shape.fits(tree, n));
                    assert(after.nodes[n] == tree.nodes[n]);
                }
            }
            assert(tree.shrunk(path, i) == after.shrunk(path, i - 1));
            lemma_shrunk_sized(after, above, path, i - 1)
        } else {
            assert(tree.shrunk(path, i) == tree.shrunk(path, i - 1));
            lemma_shrunk_sized(tree, shape, path, i - 1)
        }
    }
}

} // verus!
