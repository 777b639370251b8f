//! What it means for a ray to get into a node, and into a leaf.

use vstd::prelude::*;
use crate::accel::tree::Tree;
use crate::ray::AccelRay;

verus! {

/// Whether `test` lets the ray `r` into a node with bounds `bounds`: the ray
/// is not done and the test answers yes.
pub open spec fn kept<B, P: Fn(&[B], &AccelRay) -> bool>(
    test: P,
    bounds: Seq<B>,
    r: AccelRay,
) -> bool {
    !r.done() && exists|s: &[B]| s@ == bounds && #[trigger] call_ensures(test, (s, &r), true)
}

/// Whether `test` turns the ray `r` away from a node with bounds `bounds`:
/// the ray is done or the test answers no.
pub open spec fn rejected<B, P: Fn(&[B], &AccelRay) -> bool>(
    test: P,
    bounds: Seq<B>,
    r: AccelRay,
) -> bool {
    r.done() || exists|s: &[B]| s@ == bounds && #[trigger] call_ensures(test, (s, &r), false)
}

/// Whether `test` never answers both yes and no to one question.
pub open spec fn decides<B, P: Fn(&[B], &AccelRay) -> bool>(test: P) -> bool {
    forall|s1: &[B], s2: &[B], r: AccelRay|
        s1@ == s2@ && #[trigger] call_ensures(test, (s1, &r), true) ==> !#[trigger] call_ensures(
            test,
            (s2, &r),
            false,
        )
}

/// Whether the ray `r` gets into the leaf of `tree` whose first object is
/// `leaf`: `test` lets it into every node on the way down from the root of
/// `tree` to that leaf.
pub open spec fn enters<B, P: Fn(&[B], &AccelRay) -> bool>(
    test: P,
    tree: Tree<B>,
    r: AccelRay,
    leaf: int,
) -> bool
    decreases tree,
{
    kept(test, tree.bounds(), r) && match tree {
        Tree::Leaf { lo, .. } => lo == leaf,
        Tree::Internal { left, right, .. } => enters(test, *left, r, leaf) || enters(
            test,
            *right,
            r,
            leaf,
        ),
    }
}

/// Whether the ray `after` is the ray `before` with nothing gained: it has
/// the same `id`, and `test` lets it in nowhere where it did not let
/// `before` in.
pub open spec fn narrowed<B, P: Fn(&[B], &AccelRay) -> bool>(
    test: P,
    before: AccelRay,
    after: AccelRay,
) -> bool {
    &&& after.id == before.id
    &&& forall|bounds: Seq<B>| #[trigger] kept(test, bounds, after) ==> kept(test, bounds, before)
}

/// Whether the ray `r` gets to the node `sub` of `tree`: `test` lets it
/// into every node on the way down from the root of `tree` to `sub`, `sub`
/// itself not counted.
pub open spec fn reaches<B, P: Fn(&[B], &AccelRay) -> bool>(
    test: P,
    tree: Tree<B>,
    sub: Tree<B>,
    r: AccelRay,
) -> bool
    decreases tree,
{
    tree == sub || match tree {
        Tree::Leaf { .. } => false,
        Tree::Internal { left, right, .. } => kept(test, tree.bounds(), r) && (reaches(
            test,
            *left,
            sub,
            r,
        ) || reaches(test, *right, sub, r)),
    }
}

/// A ray that gets to an internal node and is let into it gets to both of
/// its children.
pub proof fn lemma_reaches_children<B, P: Fn(&[B], &AccelRay) -> bool>(
    test: P,
    tree: Tree<B>,
    sub: Tree<B>,
    r: AccelRay,
)
    requires
        reaches(test, tree, sub, r),
        sub is Internal,
        kept(test, sub.bounds(), r),
    ensures
        reaches(test, tree, *sub->left, r),
        reaches(test, tree, *sub->right, r),
    decreases tree,
{
    match tree {
        Tree::Leaf { .. } => {},
        Tree::Internal { left, right, .. } => {
            if tree == sub {
                assert(reaches(test, *left, *left, r));
                assert(reaches(test, *right, *right, r));
            } else if reaches(test, *left, sub, r) {
                lemma_reaches_children(test, *left, sub, r);
            } else {
                lemma_reaches_children(test, *right, sub, r);
            }
        },
    }
}

/// A ray that gets to a leaf and is let into it enters the leaf.
pub proof fn lemma_reaches_enters<B, P: Fn(&[B], &AccelRay) -> bool>(
    test: P,
    tree: Tree<B>,
    sub: Tree<B>,
    r: AccelRay,
)
    requires
        reaches(test, tree, sub, r),
        sub is Leaf,
        kept(test, sub.bounds(), r),
    ensures
        enters(test, tree, r, sub->lo),
    decreases tree,
{
    match tree {
        Tree::Leaf { .. } => {},
        Tree::Internal { left, right, .. } => {
            if reaches(test, *left, sub, r) {
                lemma_reaches_enters(test, *left, sub, r);
            } else {
                lemma_reaches_enters(test, *right, sub, r);
            }
        },
    }
}

/// A ray that enters a leaf enters a leaf that the tree has.
pub proof fn lemma_enters_a_leaf<B, P: Fn(&[B], &AccelRay) -> bool>(
    test: P,
    tree: Tree<B>,
    r: AccelRay,
    leaf: int,
)
    requires
        enters(test, tree, r, leaf),
    ensures
        exists|bounds: Seq<B>, hi: int| #[trigger] tree.has_leaf(bounds, leaf, hi),
    decreases tree,
{
    match tree {
        Tree::Leaf { bounds, lo, hi } => {
            assert(tree.has_leaf(bounds, leaf, hi));
        },
        Tree::Internal { left, right, .. } => {
            if enters(test, *left, r, leaf) {
                lemma_enters_a_leaf(test, *left, r, leaf);
                let (bounds, hi) = choose|bounds: Seq<B>, hi: int| #[trigger]
                    left.has_leaf(bounds, leaf, hi);
                assert(tree.has_leaf(bounds, leaf, hi));
            } else {
                lemma_enters_a_leaf(test, *right, r, leaf);
                let (bounds, hi) = choose|bounds: Seq<B>, hi: int| #[trigger]
                    right.has_leaf(bounds, leaf, hi);
                assert(tree.has_leaf(bounds, leaf, hi));
            }
        },
    }
}

/// A ray that is done gets into nothing: no test keeps it, and it enters no
/// leaf of any tree.
pub proof fn lemma_done_enters_nothing<B, P: Fn(&[B], &AccelRay) -> bool>(
    test: P,
    tree: Tree<B>,
    r: AccelRay,
    leaf: int,
)
    requires
        r.done(),
    ensures
        !kept(test, tree.bounds(), r),
        !enters(test, tree, r, leaf),
{
}

/// A ray that enters a leaf of a tree enters a leaf within the tree's range.
pub proof fn lemma_enters_in_range<B, P: Fn(&[B], &AccelRay) -> bool>(
    test: P,
    tree: Tree<B>,
    r: AccelRay,
    leaf: int,
)
    requires
        tree.well_formed(),
        enters(test, tree, r, leaf),
    ensures
        tree.lo() <= leaf < tree.hi(),
    decreases tree,
{
    match tree {
        Tree::Leaf { .. } => {},
        Tree::Internal { left, right, .. } => {
            left.lemma_range_not_empty();
            right.lemma_range_not_empty();
            if enters(test, *left, r, leaf) {
                lemma_enters_in_range(test, *left, r, leaf);
            } else {
                lemma_enters_in_range(test, *right, r, leaf);
            }
        },
    }
}

/// A narrowed ray enters no leaf that the ray it was did not enter.
pub proof fn lemma_narrowed_enters<B, P: Fn(&[B], &AccelRay) -> bool>(
    test: P,
    tree: Tree<B>,
    before: AccelRay,
    after: AccelRay,
    leaf: int,
)
    requires
        narrowed(test, before, after),
        enters(test, tree, after, leaf),
    ensures
        enters(test, tree, before, leaf),
    decreases tree,
{
    assert(kept(test, tree.bounds(), after));
    match tree {
        Tree::Leaf { .. } => {},
        Tree::Internal { left, right, .. } => {
            if enters(test, *left, after, leaf) {
                lemma_narrowed_enters(test, *left, before, after, leaf);
            } else {
                lemma_narrowed_enters(test, *right, before, after, leaf);
            }
        },
    }
}

/// A node of a well-formed tree lies within the tree's range.
pub proof fn lemma_contained_in_range<B>(tree: Tree<B>, sub: Tree<B>)
    requires
        tree.well_formed(),
        tree.contains(sub),
    ensures
        sub.well_formed(),
        tree.lo() <= sub.lo() < sub.hi() <= tree.hi(),
    decreases tree,
{
    tree.lemma_range_not_empty();
    if tree != sub {
        match tree {
            Tree::Leaf { .. } => {},
            Tree::Internal { left, right, .. } => {
                left.lemma_range_not_empty();
                right.lemma_range_not_empty();
                if left.contains(sub) {
                    lemma_contained_in_range(*left, sub);
                } else {
                    lemma_contained_in_range(*right, sub);
                }
            },
        }
    }
}

/// A ray that enters a leaf from the root of a tree enters it from every
/// node of the tree that the leaf lies under.
pub proof fn lemma_enters_from_node<B, P: Fn(&[B], &AccelRay) -> bool>(
    test: P,
    tree: Tree<B>,
    sub: Tree<B>,
    r: AccelRay,
    leaf: int,
)
    requires
        tree.well_formed(),
        tree.contains(sub),
        enters(test, tree, r, leaf),
        sub.lo() <= leaf < sub.hi(),
    ensures
        enters(test, sub, r, leaf),
    decreases tree,
{
    if tree != sub {
        match tree {
            Tree::Leaf { .. } => {},
            Tree::Internal { left, right, .. } => {
                left.lemma_range_not_empty();
                right.lemma_range_not_empty();
                if left.contains(sub) {
                    lemma_contained_in_range(*left, sub);
                    if enters(test, *right, r, leaf) {
                        lemma_enters_in_range(test, *right, r, leaf);
                    }
                    lemma_enters_from_node(test, *left, sub, r, leaf);
                } else {
                    lemma_contained_in_range(*right, sub);
                    if enters(test, *left, r, leaf) {
                        lemma_enters_in_range(test, *left, r, leaf);
                    }
                    lemma_enters_from_node(test, *right, sub, r, leaf);
                }
            },
        }
    }
}

} // verus!
