//! Trees laid out in arrays: what a node array and a bounds array mean as a
//! [`Tree`], and when one can be read as such.

use vstd::prelude::*;
use crate::accel::tree::Tree;

verus! {

/// A node of an array-held tree, as a plain record.  `bounds_lo..bounds_hi`
/// are its samples in the bounds array; a leaf owns the objects
/// `obj_lo..obj_hi`, an internal node has the children `left` and `right`.
pub struct FlatNode {
    pub leaf: bool,
    pub bounds_lo: int,
    pub bounds_hi: int,
    pub split_axis: u8,
    pub left: int,
    pub right: int,
    pub obj_lo: int,
    pub obj_hi: int,
}

/// Whether the nodes reachable from `i` all lie in `i..end`, children after
/// their parent, and refer to bounds samples below `nbounds`.
pub open spec fn subtree_ok(nodes: Seq<FlatNode>, nbounds: int, i: int, end: int) -> bool
    decreases end - i,
{
    &&& 0 <= i < end <= nodes.len()
    &&& 0 <= nodes[i].bounds_lo <= nodes[i].bounds_hi <= nbounds
    &&& (!nodes[i].leaf ==> {
        &&& i < nodes[i].left < end
        &&& i < nodes[i].right < end
        &&& subtree_ok(nodes, nbounds, nodes[i].left, end)
        &&& subtree_ok(nodes, nbounds, nodes[i].right, end)
    })
}

/// The tree below node `i`.
pub open spec fn tree_at<B>(nodes: Seq<FlatNode>, bounds: Seq<B>, i: int) -> Tree<B>
    decreases nodes.len() - i,
{
    if 0 <= i < nodes.len() {
        let node = nodes[i];
        let own = bounds.subrange(node.bounds_lo, node.bounds_hi);
        if node.leaf {
            Tree::Leaf { bounds: own, lo: node.obj_lo, hi: node.obj_hi }
        } else if i < node.left < nodes.len() && i < node.right < nodes.len() {
            Tree::Internal {
                bounds: own,
                split_axis: node.split_axis,
                left: Box::new(tree_at(nodes, bounds, node.left)),
                right: Box::new(tree_at(nodes, bounds, node.right)),
            }
        } else {
            Tree::Leaf { bounds: Seq::empty(), lo: 0, hi: 0 }
        }
    } else {
        Tree::Leaf { bounds: Seq::empty(), lo: 0, hi: 0 }
    }
}

/// A subtree that lies in `i..end` also lies in any longer stretch.
pub proof fn lemma_wider_end(nodes: Seq<FlatNode>, nbounds: int, i: int, end: int, end2: int)
    requires
        subtree_ok(nodes, nbounds, i, end),
        end <= end2 <= nodes.len(),
    ensures
        subtree_ok(nodes, nbounds, i, end2),
    decreases end - i,
{
    if !nodes[i].leaf {
        lemma_wider_end(nodes, nbounds, nodes[i].left, end, end2);
        lemma_wider_end(nodes, nbounds, nodes[i].right, end, end2);
    }
}

/// A subtree reads the same in any arrays that agree with its own on the
/// nodes `i..end` and on the bounds samples it had.
pub proof fn lemma_frame<B>(
    nodes: Seq<FlatNode>,
    bounds: Seq<B>,
    nodes2: Seq<FlatNode>,
    bounds2: Seq<B>,
    i: int,
    end: int,
)
    requires
        subtree_ok(nodes, bounds.len() as int, i, end),
        end <= nodes2.len(),
        forall|k: int| i <= k < end ==> nodes2[k] == nodes[k],
        bounds.len() <= bounds2.len(),
        forall|k: int| 0 <= k < bounds.len() ==> bounds2[k] == bounds[k],
    ensures
        subtree_ok(nodes2, bounds2.len() as int, i, end),
        tree_at(nodes2, bounds2, i) == tree_at(nodes, bounds, i),
    decreases end - i,
{
    let node = nodes[i];
    assert(bounds2.subrange(node.bounds_lo, node.bounds_hi) =~= bounds.subrange(
        node.bounds_lo,
        node.bounds_hi,
    ));
    if !node.leaf {
        lemma_frame(nodes, bounds, nodes2, bounds2, node.left, end);
        lemma_frame(nodes, bounds, nodes2, bounds2, node.right, end);
    }
}

} // verus!
