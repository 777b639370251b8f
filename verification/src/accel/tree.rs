use vstd::prelude::*;

verus! {

/// The shape of a bounding volume hierarchy, as mathematics sees it.
///
/// A leaf holds the motion slice of its bounds and the half-open range
/// `[lo, hi)` of the objects it owns.  An internal node holds the motion
/// slice of its bounds, the axis it was split along, and its two children.
pub enum Tree<B> {
    Leaf { bounds: Seq<B>, lo: int, hi: int },
    Internal { bounds: Seq<B>, split_axis: u8, left: Box<Tree<B>>, right: Box<Tree<B>> },
}

impl<B> Tree<B> {
    /// The motion slice of the node's bounds.
    pub open spec fn bounds(self) -> Seq<B> {
        match self {
            Tree::Leaf { bounds, .. } => bounds,
            Tree::Internal { bounds, .. } => bounds,
        }
    }

    /// The first object under this node.
    pub open spec fn lo(self) -> int
        decreases self,
    {
        match self {
            Tree::Leaf { lo, .. } => lo,
            Tree::Internal { left, .. } => left.lo(),
        }
    }

    /// One past the last object under this node.
    pub open spec fn hi(self) -> int
        decreases self,
    {
        match self {
            Tree::Leaf { hi, .. } => hi,
            Tree::Internal { right, .. } => right.hi(),
        }
    }

    /// The number of edges on the longest path down to a leaf.
    pub open spec fn height(self) -> nat
        decreases self,
    {
        match self {
            Tree::Leaf { .. } => 0,
            Tree::Internal { left, right, .. } => {
                let l = left.height();
                let r = right.height();
                if l >= r {
                    l + 1
                } else {
                    r + 1
                }
            },
        }
    }

    /// The number of nodes, leaves included.
    pub open spec fn node_count(self) -> nat
        decreases self,
    {
        match self {
            Tree::Leaf { .. } => 1,
            Tree::Internal { left, right, .. } => 1 + left.node_count() + right.node_count(),
        }
    }

    /// Every node has at least one bounds sample, every leaf owns at least
    /// one object, every split axis is one of the three, and the children of
    /// an internal node own adjacent object ranges, left before right.
    pub open spec fn well_formed(self) -> bool
        decreases self,
    {
        match self {
            Tree::Leaf { bounds, lo, hi } => bounds.len() > 0 && 0 <= lo < hi,
            Tree::Internal { bounds, split_axis, left, right } => {
                &&& bounds.len() > 0
                &&& split_axis < 3
                &&& left.well_formed()
                &&& right.well_formed()
                &&& left.hi() == right.lo()
            },
        }
    }

    /// The number of leaves whose range holds object `k`.
    pub open spec fn leaves_holding(self, k: int) -> nat
        decreases self,
    {
        match self {
            Tree::Leaf { lo, hi, .. } => if lo <= k < hi {
                1
            } else {
                0
            },
            Tree::Internal { left, right, .. } => left.leaves_holding(k) + right.leaves_holding(k),
        }
    }

    /// Whether some leaf of the tree owns exactly the objects `[lo, hi)` with
    /// bounds `bounds`.
    pub open spec fn has_leaf(self, bounds: Seq<B>, lo: int, hi: int) -> bool
        decreases self,
    {
        match self {
            Tree::Leaf { bounds: b, lo: l, hi: h } => b == bounds && l == lo && h == hi,
            Tree::Internal { left, right, .. } => left.has_leaf(bounds, lo, hi) || right.has_leaf(
                bounds,
                lo,
                hi,
            ),
        }
    }

    /// Whether `sub` is this tree or the tree below one of its nodes.
    pub open spec fn contains(self, sub: Tree<B>) -> bool
        decreases self,
    {
        self == sub || match self {
            Tree::Leaf { .. } => false,
            Tree::Internal { left, right, .. } => left.contains(sub) || right.contains(sub),
        }
    }

    /// Whether every internal node's bounds are what `merged` relates to the
    /// bounds of its two children.
    pub open spec fn bounds_follow(self, merged: spec_fn(Seq<B>, Seq<B>, Seq<B>) -> bool) -> bool
        decreases self,
    {
        match self {
            Tree::Leaf { .. } => true,
            Tree::Internal { bounds, left, right, .. } => {
                &&& merged(left.bounds(), right.bounds(), bounds)
                &&& left.bounds_follow(merged)
                &&& right.bounds_follow(merged)
            },
        }
    }

    /// Whether every leaf, given as bounds and object range, satisfies `p`.
    pub open spec fn leaves_satisfy(self, p: spec_fn(Seq<B>, int, int) -> bool) -> bool
        decreases self,
    {
        match self {
            Tree::Leaf { bounds, lo, hi } => p(bounds, lo, hi),
            Tree::Internal { left, right, .. } => left.leaves_satisfy(p) && right.leaves_satisfy(p),
        }
    }

    /// Whether every internal node, given as its depth (the root of `self`
    /// being at `depth`), the first object it owns, the first object of its
    /// right child, one past the last object it owns, and its split axis,
    /// satisfies `p`.
    pub open spec fn splits_satisfy(
        self,
        depth: int,
        p: spec_fn(int, int, int, int, u8) -> bool,
    ) -> bool
        decreases self,
    {
        match self {
            Tree::Leaf { .. } => true,
            Tree::Internal { split_axis, left, right, .. } => {
                &&& p(depth, self.lo(), left.hi(), self.hi(), split_axis)
                &&& left.splits_satisfy(depth + 1, p)
                &&& right.splits_satisfy(depth + 1, p)
            },
        }
    }

    /// What holds of every internal node under `p` holds under any `q` that
    /// `p` implies on ranges within the tree's range.
    pub proof fn lemma_splits_satisfy_weaker(
        self,
        depth: int,
        p: spec_fn(int, int, int, int, u8) -> bool,
        q: spec_fn(int, int, int, int, u8) -> bool,
    )
        requires
            self.well_formed(),
            self.splits_satisfy(depth, p),
            forall|d: int, lo: int, mid: int, hi: int, axis: u8|
                self.lo() <= lo < hi <= self.hi() && #[trigger] p(d, lo, mid, hi, axis) ==> q(
                    d,
                    lo,
                    mid,
                    hi,
                    axis,
                ),
        ensures
            self.splits_satisfy(depth, q),
        decreases self,
    {
        match self {
            Tree::Leaf { .. } => {},
            Tree::Internal { left, right, .. } => {
                left.lemma_range_not_empty();
                right.lemma_range_not_empty();
                left.lemma_splits_satisfy_weaker(depth + 1, p, q);
                right.lemma_splits_satisfy_weaker(depth + 1, p, q);
            },
        }
    }

    /// Whether every leaf owns at most `k` objects and every internal node
    /// owns more than `k`.
    pub open spec fn split_above(self, k: int) -> bool
        decreases self,
    {
        match self {
            Tree::Leaf { lo, hi, .. } => hi - lo <= k,
            Tree::Internal { left, right, .. } => {
                &&& self.hi() - self.lo() > k
                &&& left.split_above(k)
                &&& right.split_above(k)
            },
        }
    }

    /// What holds of every leaf under `p` holds under any `q` that `p`
    /// implies on leaves within the tree's range.
    pub proof fn lemma_leaves_satisfy_weaker(
        self,
        p: spec_fn(Seq<B>, int, int) -> bool,
        q: spec_fn(Seq<B>, int, int) -> bool,
    )
        requires
            self.well_formed(),
            self.leaves_satisfy(p),
            forall|b: Seq<B>, lo: int, hi: int|
                self.lo() <= lo < hi <= self.hi() && #[trigger] p(b, lo, hi) ==> q(b, lo, hi),
        ensures
            self.leaves_satisfy(q),
        decreases self,
    {
        match self {
            Tree::Leaf { .. } => {},
            Tree::Internal { left, right, .. } => {
                left.lemma_range_not_empty();
                right.lemma_range_not_empty();
                left.lemma_leaves_satisfy_weaker(p, q);
                right.lemma_leaves_satisfy_weaker(p, q);
            },
        }
    }

    /// A well-formed tree owns a non-empty range of objects.
    pub proof fn lemma_range_not_empty(self)
        requires
            self.well_formed(),
        ensures
            0 <= self.lo() < self.hi(),
            self.node_count() >= 1,
        decreases self,
    {
        match self {
            Tree::Leaf { .. } => {},
            Tree::Internal { left, right, .. } => {
                left.lemma_range_not_empty();
                right.lemma_range_not_empty();
            },
        }
    }

    /// Every object under a well-formed tree is owned by exactly one leaf,
    /// and no leaf owns an object outside the tree's range.
    pub proof fn lemma_exactly_one_leaf(self, k: int)
        requires
            self.well_formed(),
        ensures
            self.lo() <= k < self.hi() ==> self.leaves_holding(k) == 1,
            !(self.lo() <= k < self.hi()) ==> self.leaves_holding(k) == 0,
        decreases self,
    {
        match self {
            Tree::Leaf { .. } => {},
            Tree::Internal { left, right, .. } => {
                left.lemma_range_not_empty();
                right.lemma_range_not_empty();
                left.lemma_exactly_one_leaf(k);
                right.lemma_exactly_one_leaf(k);
            },
        }
    }

    /// The children of a node of the tree are nodes of the tree.
    pub proof fn lemma_contains_children(self, sub: Tree<B>)
        requires
            self.contains(sub),
            sub is Internal,
        ensures
            self.contains(*sub->left),
            self.contains(*sub->right),
        decreases self,
    {
        match self {
            Tree::Leaf { .. } => {},
            Tree::Internal { left, right, .. } => {
                if self == sub {
                    assert(left.contains(*left));
                    assert(right.contains(*right));
                } else if left.contains(sub) {
                    left.lemma_contains_children(sub);
                } else {
                    right.lemma_contains_children(sub);
                }
            },
        }
    }

    /// A leaf among the nodes of the tree is one of the tree's leaves.
    pub proof fn lemma_contains_leaf(self, sub: Tree<B>)
        requires
            self.contains(sub),
            sub is Leaf,
        ensures
            self.has_leaf(sub->Leaf_bounds, sub->lo, sub->hi),
        decreases self,
    {
        if self == sub {
        } else {
            match self {
                Tree::Leaf { .. } => {},
                Tree::Internal { left, right, .. } => {
                    if left.contains(sub) {
                        left.lemma_contains_leaf(sub);
                    } else {
                        right.lemma_contains_leaf(sub);
                    }
                },
            }
        }
    }

    /// The leaves of a well-formed tree own ranges that do not overlap: a
    /// leaf that begins within the range of another is that other leaf.
    pub proof fn lemma_leaves_apart(
        self,
        bounds1: Seq<B>,
        lo1: int,
        hi1: int,
        bounds2: Seq<B>,
        lo2: int,
        hi2: int,
    )
        requires
            self.well_formed(),
            self.has_leaf(bounds1, lo1, hi1),
            self.has_leaf(bounds2, lo2, hi2),
            lo1 <= lo2 < hi1,
        ensures
            lo1 == lo2,
            hi1 == hi2,
        decreases self,
    {
        match self {
            Tree::Leaf { .. } => {},
            Tree::Internal { left, right, .. } => {
                left.lemma_range_not_empty();
                right.lemma_range_not_empty();
                if left.has_leaf(bounds1, lo1, hi1) {
                    left.lemma_leaf_in_range(bounds1, lo1, hi1);
                    if left.has_leaf(bounds2, lo2, hi2) {
                        left.lemma_leaves_apart(bounds1, lo1, hi1, bounds2, lo2, hi2);
                    } else {
                        right.lemma_leaf_in_range(bounds2, lo2, hi2);
                    }
                } else {
                    right.lemma_leaf_in_range(bounds1, lo1, hi1);
                    if right.has_leaf(bounds2, lo2, hi2) {
                        right.lemma_leaves_apart(bounds1, lo1, hi1, bounds2, lo2, hi2);
                    } else {
                        left.lemma_leaf_in_range(bounds2, lo2, hi2);
                    }
                }
            },
        }
    }

    /// A leaf of a well-formed tree lies within the tree's range and has
    /// bounds and at least one object.
    pub proof fn lemma_leaf_in_range(self, bounds: Seq<B>, lo: int, hi: int)
        requires
            self.well_formed(),
            self.has_leaf(bounds, lo, hi),
        ensures
            self.lo() <= lo < hi <= self.hi(),
            bounds.len() > 0,
        decreases self,
    {
        match self {
            Tree::Leaf { .. } => {},
            Tree::Internal { left, right, .. } => {
                left.lemma_range_not_empty();
                right.lemma_range_not_empty();
                if left.has_leaf(bounds, lo, hi) {
                    left.lemma_leaf_in_range(bounds, lo, hi);
                } else {
                    right.lemma_leaf_in_range(bounds, lo, hi);
                }
            },
        }
    }
}

} // verus!
