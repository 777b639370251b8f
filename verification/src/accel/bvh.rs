use vstd::prelude::*;
use vstd::slice::slice_subrange;
use crate::accel::bvh_base::{
    append_copies, bounds_functions_ok, built, split_by, BVHBase, BVHBaseNode, BVH_MAX_DEPTH,
};
use crate::accel::entering::{
    decides, enters, kept, lemma_contained_in_range, lemma_enters_a_leaf, lemma_enters_from_node,
    lemma_enters_in_range, lemma_narrowed_enters, lemma_reaches_children, lemma_reaches_enters,
    narrowed, reaches, rejected,
};
use crate::accel::flat;
use crate::accel::flat::FlatNode;
use crate::accel::tree::Tree;
use crate::algorithm::{lemma_map_permutation, partition};
use crate::boundable::Boundable;
use crate::math::lanes::{lanes_nonneg, mask_bits};
use crate::ray::{id_of, ids, AccelRay};

verus! {

/// A node of the hierarchy.  Nodes and bounds samples live in the arrays of
/// the [`BVH`] that owns them and are referred to by index.
#[derive(Copy, Clone, Debug)]
pub enum BVHNode {
    Internal { bounds_start: usize, bounds_len: usize, split_axis: u8, children: (usize, usize) },
    Leaf { bounds_start: usize, bounds_len: usize, object_range: (usize, usize) },
}

impl BVHNode {
    /// The node as a plain record.
    pub open spec fn flat(self) -> FlatNode {
        match self {
            BVHNode::Internal { bounds_start, bounds_len, split_axis, children } => FlatNode {
                leaf: false,
                bounds_lo: bounds_start as int,
                bounds_hi: bounds_start + bounds_len,
                split_axis,
                left: children.0 as int,
                right: children.1 as int,
                obj_lo: 0,
                obj_hi: 0,
            },
            BVHNode::Leaf { bounds_start, bounds_len, object_range } => FlatNode {
                leaf: true,
                bounds_lo: bounds_start as int,
                bounds_hi: bounds_start + bounds_len,
                split_axis: 0,
                left: 0,
                right: 0,
                obj_lo: object_range.0 as int,
                obj_hi: object_range.1 as int,
            },
        }
    }
}

/// A node array as plain records.
pub open spec fn flat_nodes(nodes: Seq<BVHNode>) -> Seq<FlatNode> {
    Seq::new(nodes.len(), |i: int| nodes[i].flat())
}

/// A bounding volume hierarchy over motion slices of bounds of type `B`.
pub struct BVH<B> {
    nodes: Vec<BVHNode>,
    bounds: Vec<B>,
    root: Option<usize>,
    depth: usize,
}

/// What a step hands over: for a leaf that rays entered, the leaf's first
/// object paired with the `id` of each ray that entered.
pub open spec fn handed_over(out: TraversalStep, rays: Seq<AccelRay>) -> Set<(int, u32)> {
    match out {
        TraversalStep::Leaf { lo, part, .. } => Set::new(
            |pair: (int, u32)|
                pair.0 == lo && exists|j: int| 0 <= j < part && #[trigger] rays[j].id == pair.1,
        ),
        _ => Set::empty(),
    }
}

/// Whether `lanes` is not negative along `axis`.
pub open spec fn sign_bit(lanes: glam::Vec4, axis: int) -> bool {
    let bits = mask_bits(lanes_nonneg(lanes));
    if axis == 0 {
        bits & 1 != 0
    } else if axis == 1 {
        bits & 2 != 0
    } else {
        bits & 4 != 0
    }
}

/// The signs that the direction of the first of `rays` has along the three
/// axes.
pub open spec fn first_signs(rays: Seq<AccelRay>) -> Seq<bool> {
    Seq::new(3, |axis: int| sign_bit(rays[0].dir_inv.co, axis))
}

/// Objects of a leaf whose turn with the rays is still to come: `next` is
/// the object that is handed the rays next, `end` is one past the last
/// object of the leaf, and `part` is the number of leading rays handed over.
pub struct Visit {
    pub next: int,
    pub end: int,
    pub part: int,
}

/// A moment in the course of a traversal: the pending entries, the rays as
/// they stand, the number of tests made, and the visit to a leaf's objects
/// that is under way, if one is.
#[verifier::ext_equal]
pub struct Moment {
    pub stack: Seq<(usize, usize)>,
    pub rays: Seq<AccelRay>,
    pub tests: u64,
    pub visit: Option<Visit>,
}

/// Whether the moment `m1` is the moment `m0` after the next object of the
/// leaf being visited has had its turn, as far as the traversal itself goes:
/// nothing changes but the leading rays that were handed over, and the
/// visit moves on to the next object or is over.
pub open spec fn handed_on(m0: Moment, m1: Moment) -> bool {
    &&& m0.visit is Some
    &&& m1.stack == m0.stack
    &&& m1.tests == m0.tests
    &&& m1.rays.len() == m0.rays.len()
    &&& m1.rays.skip(m0.visit.unwrap().part) == m0.rays.skip(m0.visit.unwrap().part)
    &&& m1.visit == if m0.visit.unwrap().next + 1 < m0.visit.unwrap().end {
        Some(Visit { next: m0.visit.unwrap().next + 1, ..m0.visit.unwrap() })
    } else {
        None
    }
}

/// Whether a course of moments begins with the given entries pending, the
/// given rays, the given number of tests made, and no visit under way.
pub open spec fn resumed(
    run: Seq<Moment>,
    stack: Seq<(usize, usize)>,
    rays: Seq<AccelRay>,
    tests: u64,
) -> bool {
    run.len() > 0 && run[0] == (Moment { stack, rays, tests, visit: None })
}

/// Whether at moment `i` of `run` object `k` is about to be handed rays
/// among which is the ray with the given `id`.
pub open spec fn hands_at(run: Seq<Moment>, i: int, k: int, id: u32) -> bool {
    &&& 0 <= i < run.len()
    &&& run[i].visit is Some
    &&& run[i].visit.unwrap().next == k
    &&& exists|j: int| 0 <= j < run[i].visit.unwrap().part && #[trigger] run[i].rays[j].id == id
}

/// Whether in the course `run` object `k` is handed rays among which is the
/// ray with the given `id`.
pub open spec fn handed(run: Seq<Moment>, k: int, id: u32) -> bool {
    exists|i: int| #[trigger] hands_at(run, i, k, id)
}

/// The objects and ray `id`s such that up to moment `upto` of `run` the
/// object has been, or is about to be, handed that ray.
pub open spec fn handed_by(run: Seq<Moment>, upto: int) -> Set<(int, u32)> {
    Set::new(|pair: (int, u32)| exists|i: int| i <= upto && #[trigger] hands_at(run, i, pair.0, pair.1))
}

/// Whether a course of moments has come to its end: nothing is pending and
/// no visit is under way.
pub open spec fn ended(run: Seq<Moment>) -> bool {
    run.last().stack.len() == 0 && run.last().visit is None
}

/// What one step of a traversal did.
#[derive(Copy, Clone, Debug, PartialEq, Eq, Structural)]
pub enum TraversalStep {
    /// Nothing was left to do.
    Finished,
    /// A node was tested and no ray entered it.
    Culled,
    /// An internal node was entered by the first `part` rays.
    Descended { part: usize },
    /// A leaf owning the objects `[lo, hi)` was entered by the first `part` rays.
    Leaf { lo: usize, hi: usize, part: usize },
}

/// Adds `n` tests to a count of tests, which stops at the largest number it
/// can hold.
pub fn add_tests(tests: u64, n: usize) -> (sum: u64)
    ensures
        sum == counted(tests, n),
{
    if n as u64 <= u64::MAX - tests {
        tests + n as u64
    } else {
        u64::MAX
    }
}

impl TraversalStep {
    /// The number of rays that entered the node.
    pub open spec fn part(self) -> int {
        match self {
            TraversalStep::Finished => 0,
            TraversalStep::Culled => 0,
            TraversalStep::Descended { part } => part as int,
            TraversalStep::Leaf { part, .. } => part as int,
        }
    }
}

/// The state of a traversal in progress: the nodes still to be visited, each
/// with the number of leading rays that are active for it, the signs of the
/// first ray's direction, which decide which child is visited first, and the
/// number of ray-against-node tests made so far.
pub struct Traversal {
    stack: Vec<(usize, usize)>,
    ray_sign: [bool; 3],
    node_tests: u64,
}

/// A count of tests with `n` more tests added; the count stops at the
/// largest number it can hold.
pub open spec fn counted(tests: u64, n: usize) -> u64 {
    if tests + n <= u64::MAX {
        (tests + n) as u64
    } else {
        u64::MAX
    }
}

impl Traversal {
    /// The pending `(node, active rays)` entries, the next one last.
    pub closed spec fn view(&self) -> Seq<(usize, usize)> {
        self.stack@
    }

    /// Per axis, whether the child on the low side is visited first.
    pub closed spec fn signs(&self) -> Seq<bool> {
        self.ray_sign@
    }

    /// The number of tests of a ray against a node made so far: every step
    /// adds the number of rays that were active for the node it tested.
    pub closed spec fn tests(&self) -> u64 {
        self.node_tests
    }

    /// The number of tests of a ray against a node made so far.
    pub fn node_tests(&self) -> (n: u64)
        ensures
            n == self.tests(),
    {
        self.node_tests
    }

    /// The number of rays that are active for the entry that the next step
    /// takes, and zero if nothing is pending.
    pub fn active(&self) -> (n: usize)
        ensures
            n == if self@.len() > 0 {
                self@.last().1
            } else {
                0
            },
    {
        if self.stack.len() > 0 {
            self.stack[self.stack.len() - 1].1
        } else {
            0
        }
    }

    /// Whether nothing is left to visit.
    pub fn is_finished(&self) -> (r: bool)
        ensures
            r == (self@.len() == 0),
    {
        self.stack.len() == 0
    }
}

impl<B> View for BVH<B> {
    type V = Option<Tree<B>>;

    closed spec fn view(&self) -> Option<Tree<B>> {
        match self.root {
            None => None,
            Some(r) => Some(self.tree_at(r as int)),
        }
    }
}

impl<B> BVH<B> {
    /// The node array as plain records.
    spec fn flat(self) -> Seq<FlatNode> {
        flat_nodes(self.nodes@)
    }

    /// The tree below node `i`.
    spec fn tree_at(self, i: int) -> Tree<B> {
        flat::tree_at(self.flat(), self.bounds@, i)
    }

    /// Whether the nodes below `i` refer only to bounds samples and nodes
    /// that exist, children always after their parent.
    spec fn subtree_ok(self, i: int) -> bool {
        flat::subtree_ok(self.flat(), self.bounds@.len() as int, i, self.nodes@.len() as int)
    }

    /// The invariant of a hierarchy.  An empty one has no node and a single
    /// bounds sample.  Otherwise the tree below the root is well formed, owns
    /// the objects from 0 on, and is exactly `tree_depth()` deep, which is at
    /// most `BVH_MAX_DEPTH`.
    pub closed spec fn wf(self) -> bool {
        match self.root {
            None => self.depth == 0 && self.nodes@.len() == 0 && self.bounds@.len() == 1,
            Some(r) => {
                &&& self.subtree_ok(r as int)
                &&& self.tree_at(r as int).well_formed()
                &&& self.tree_at(r as int).lo() == 0
                &&& self.depth == self.tree_at(r as int).height()
                &&& self.depth <= BVH_MAX_DEPTH
            },
        }
    }

    #[verifier::type_invariant]
    spec fn inv(self) -> bool {
        self.wf()
    }

    /// The number of objects the hierarchy was built over.
    pub open spec fn object_count(self) -> int {
        match self@ {
            None => 0,
            Some(t) => t.hi(),
        }
    }

    /// The number of nodes still to be tested before the entries of `stack`
    /// are used up.
    pub closed spec fn pending(self, stack: Seq<(usize, usize)>) -> nat
        decreases stack.len(),
    {
        if stack.len() == 0 {
            0
        } else {
            self.tree_at(stack.last().0 as int).node_count() + self.pending(stack.drop_last())
        }
    }

    /// Whether `stack` can be walked over `n` rays: every entry names a node
    /// of this hierarchy and no more than `n` active rays, and no entry has
    /// more active rays than the one below it.
    pub closed spec fn admits(self, stack: Seq<(usize, usize)>, n: int) -> bool {
        &&& self.wf()
        &&& forall|i: int|
            0 <= i < stack.len() ==> {
                &&& self.subtree_ok((#[trigger] stack[i]).0 as int)
                &&& self.tree_at(stack[i].0 as int).well_formed()
                &&& self@ is Some
                &&& self@->0.contains(self.tree_at(stack[i].0 as int))
                &&& stack[i].1 <= n
            }
        &&& forall|i: int, j: int| 0 <= i <= j < stack.len() ==> stack[i].1 >= stack[j].1
    }

    /// The tree below the node of a traversal entry.
    pub closed spec fn entry_tree(self, entry: (usize, usize)) -> Tree<B> {
        self.tree_at(entry.0 as int)
    }

    /// The entries that take the place of an internal node's entry once
    /// `part` rays have entered it: both children, the one to visit first
    /// last.
    pub closed spec fn descend(
        self,
        stack: Seq<(usize, usize)>,
        signs: Seq<bool>,
        part: usize,
    ) -> Seq<(usize, usize)> {
        let rest = stack.drop_last();
        match self.nodes@[stack.last().0 as int] {
            BVHNode::Internal { split_axis, children, .. } => if signs[split_axis as int] {
                rest.push((children.1, part)).push((children.0, part))
            } else {
                rest.push((children.0, part)).push((children.1, part))
            },
            BVHNode::Leaf { .. } => rest,
        }
    }

    /// What one step does to a traversal with entries `before` over the rays
    /// `rays0`, leaving entries `after` and rays `rays1`.
    ///
    /// With nothing pending, nothing changes.  Otherwise the top entry is
    /// taken off.  Its active rays are rearranged so that the first
    /// `out.part()` of them are those that `test` lets into the node, and the
    /// rays behind the active ones stay where they were.  If no ray entered,
    /// that is all.  If the node is a leaf, the step reports its object
    /// range.  If it is internal, both children are entered on the stack with
    /// `out.part()` active rays each.
    pub open spec fn stepped<P: Fn(&[B], &AccelRay) -> bool>(
        self,
        test: P,
        signs: Seq<bool>,
        before: Seq<(usize, usize)>,
        rays0: Seq<AccelRay>,
        out: TraversalStep,
        after: Seq<(usize, usize)>,
        rays1: Seq<AccelRay>,
    ) -> bool {
        if before.len() == 0 {
            out == TraversalStep::Finished && after == before && rays1 == rays0
        } else {
            let n = before.last().1 as int;
            let tree = self.entry_tree(before.last());
            &&& rays1.len() == rays0.len()
            &&& rays1.to_multiset() == rays0.to_multiset()
            &&& rays1.take(n).to_multiset() == rays0.take(n).to_multiset()
            &&& rays1.subrange(n, rays0.len() as int) == rays0.subrange(n, rays0.len() as int)
            &&& 0 <= out.part() <= n
            &&& forall|i: int| 0 <= i < out.part() ==> kept(test, tree.bounds(), #[trigger] rays1[i])
            &&& forall|i: int|
                out.part() <= i < n ==> rejected(test, tree.bounds(), #[trigger] rays1[i])
            &&& if out.part() == 0 {
                out == TraversalStep::Culled && after == before.drop_last()
            } else {
                match tree {
                    Tree::Leaf { lo, hi, .. } => {
                        &&& out matches TraversalStep::Leaf { lo: l, hi: h, .. }
                        &&& l == lo
                        &&& h == hi
                        &&& after == before.drop_last()
                    },
                    Tree::Internal { .. } => {
                        &&& out is Descended
                        &&& after == self.descend(before, signs, out->Descended_part)
                    },
                }
            }
        }
    }

    /// Adding an entry adds the nodes below it to what is pending.
    proof fn lemma_pending_push(self, stack: Seq<(usize, usize)>, entry: (usize, usize))
        ensures
            self.pending(stack.push(entry)) == self.pending(stack) + self.tree_at(
                entry.0 as int,
            ).node_count(),
    {
        assert(stack.push(entry).drop_last() =~= stack);
        assert(stack.push(entry).last() == entry);
    }

    /// The entries that a traversal of `n` rays starts with: the root with
    /// all rays active, or nothing if there is no root or no ray.
    pub closed spec fn first_stack(self, n: int) -> Seq<(usize, usize)> {
        match self.root {
            Some(r) if n > 0 => seq![(r, n as usize)],
            _ => Seq::empty(),
        }
    }

    /// Whether a course of moments begins where a traversal of `rays`
    /// begins: with the first entries pending, the rays as given, and no test
    /// made.
    pub open spec fn begun(self, run: Seq<Moment>, rays: Seq<AccelRay>) -> bool {
        &&& run.len() > 0
        &&& run[0] == (Moment {
            stack: self.first_stack(rays.len() as int),
            rays,
            tests: 0,
            visit: None,
        })
    }

    /// Whether the moment `m1` is the moment `m0` after one step: no visit
    /// was under way, an entry was pending, the step did to entries and rays
    /// what `stepped` says, the active rays of the tested node were counted
    /// as tests, and if rays entered a leaf, the visit to its objects is
    /// under way.
    pub open spec fn advanced<P: Fn(&[B], &AccelRay) -> bool>(
        self,
        test: P,
        signs: Seq<bool>,
        m0: Moment,
        m1: Moment,
    ) -> bool {
        &&& m0.visit is None
        &&& m0.stack.len() > 0
        &&& m1.tests == counted(m0.tests, m0.stack.last().1)
        &&& exists|out: TraversalStep|
            {
                &&& #[trigger] self.stepped(test, signs, m0.stack, m0.rays, out, m1.stack, m1.rays)
                &&& m1.visit == match out {
                    TraversalStep::Leaf { lo, hi, part } => Some(
                        Visit { next: lo as int, end: hi as int, part: part as int },
                    ),
                    _ => None,
                }
            }
    }

    /// Begins a traversal over `rays`: the root is pending with every ray
    /// active, unless there is no root or no ray, and the first ray's
    /// direction decides the order in which children will be visited.
    pub fn start(&self, rays: &[AccelRay]) -> (cur: Traversal)
        ensures
            self.admits(cur@, rays@.len() as int),
            cur.tests() == 0,
            cur.signs().len() == 3,
            rays@.len() > 0 ==> forall|axis: int|
                0 <= axis < 3 ==> #[trigger] cur.signs()[axis] == sign_bit(
                    rays@[0].dir_inv.co,
                    axis,
                ),
            rays@.len() > 0 ==> cur.signs() == first_signs(rays@),
            cur@ == self.first_stack(rays@.len() as int),
            match self@ {
                Some(t) if rays@.len() > 0 => {
                    &&& cur@.len() == 1
                    &&& cur@[0].1 == rays@.len()
                    &&& self.entry_tree(cur@.last()) == t
                },
                _ => cur@.len() == 0,
            },
    {
        proof {
            use_type_invariant(self);
        }
        let mut stack: Vec<(usize, usize)> = Vec::new();
        let mut ray_sign: [bool; 3] = [true, true, true];
        if rays.len() > 0 {
            let bits = rays[0].dir_signs();
            ray_sign = [(bits & 1) != 0, (bits & 2) != 0, (bits & 4) != 0];
            match self.root {
                Some(r) => {
                    stack.push((r, rays.len()));
                },
                None => {},
            }
        }
        Traversal { stack, ray_sign, node_tests: 0 }
    }

    /// Takes one step of a traversal: tests the next pending node against
    /// its active rays and says what came of it.
    pub fn step<P: Fn(&[B], &AccelRay) -> bool>(
        &self,
        cur: &mut Traversal,
        rays: &mut [AccelRay],
        test: &P,
    ) -> (out: TraversalStep)
        requires
            self.admits(old(cur)@, old(rays)@.len() as int),
            forall|s: &[B], r: &AccelRay| call_requires(*test, (s, r)),
        ensures
            self.admits(final(cur)@, old(rays)@.len() as int),
            final(cur).signs() == old(cur).signs(),
            self.stepped(
                *test,
                old(cur).signs(),
                old(cur)@,
                old(rays)@,
                out,
                final(cur)@,
                final(rays)@,
            ),
            old(cur)@.len() > 0 ==> self.pending(final(cur)@) < self.pending(old(cur)@),
            final(cur).tests() == if old(cur)@.len() > 0 {
                counted(old(cur).tests(), old(cur)@.last().1)
            } else {
                old(cur).tests()
            },
            out.part() <= old(rays)@.len(),
            out matches TraversalStep::Leaf { lo, hi, .. } ==> {
                &&& self@ is Some
                &&& self@->0.has_leaf(self.entry_tree(old(cur)@.last()).bounds(), lo as int, hi as int)
                &&& lo < hi <= self.object_count()
            },
    {
        let ghost before = cur@;
        let ghost rays0 = rays@;
        let top = cur.stack.pop();
        let (node, n) = match top {
            None => {
                assert(cur@ =~= before);
                return TraversalStep::Finished;
            },
            Some(entry) => entry,
        };
        cur.node_tests = if n as u64 <= u64::MAX - cur.node_tests {
            cur.node_tests + n as u64
        } else {
            u64::MAX
        };
        let ghost rest = before.drop_last();
        let ghost tree = self.tree_at(node as int);
        proof {
            assert(cur@ =~= rest);
            assert(before[before.len() - 1] == (node, n));
            assert(self.subtree_ok(node as int));
            tree.lemma_range_not_empty();
        }
        let (bounds_start, bounds_len) = match self.nodes[node] {
            BVHNode::Internal { bounds_start, bounds_len, .. } => (bounds_start, bounds_len),
            BVHNode::Leaf { bounds_start, bounds_len, .. } => (bounds_start, bounds_len),
        };
        let all_bounds = self.bounds.as_slice();
        assert(bounds_start + bounds_len <= all_bounds.len()) by {
            assert(self.subtree_ok(node as int));
        }
        let b = slice_subrange(all_bounds, bounds_start, bounds_start + bounds_len);
        assert(b@ == tree.bounds());
        let (head, tail) = rays.split_at_mut(n);
        let ghost head0 = head@;
        let keep = |r: &AccelRay| -> (k: bool)
            requires
                call_requires(test, (b, r)),
            ensures
                k ==> !r.done() && call_ensures(test, (b, r), true),
                !k ==> r.done() || call_ensures(test, (b, r), false),
            { !r.is_done() && test(b, r) };
        let part = partition(head, keep);
        proof {
            let head1 = head@;
            assert(rays@ == head1 + tail@);
            assert(rays@.take(n as int) =~= head1);
            assert(rays0.take(n as int) =~= head0);
            assert(rays0 =~= head0 + tail@);
            vstd::seq_lib::lemma_multiset_commutative(head1, tail@);
            vstd::seq_lib::lemma_multiset_commutative(head0, tail@);
            assert(rays@.subrange(n as int, rays0.len() as int) =~= rays0.subrange(
                n as int,
                rays0.len() as int,
            ));
            assert forall|i: int| 0 <= i < part implies kept(*test, tree.bounds(), #[trigger] rays@[i]) by {
                assert(rays@[i] == head1[i]);
                assert(call_ensures(keep, (&head1[i],), true));
                assert(call_ensures(*test, (b, &head1[i]), true));
            }
            assert forall|i: int| part <= i < n implies rejected(
                *test,
                tree.bounds(),
                #[trigger] rays@[i],
            ) by {
                assert(rays@[i] == head1[i]);
                assert(call_ensures(keep, (&head1[i],), false));
                if !head1[i].done() {
                    assert(call_ensures(*test, (b, &head1[i]), false));
                }
            }
        }
        if part == 0 {
            return TraversalStep::Culled;
        }
        match self.nodes[node] {
            BVHNode::Leaf { object_range, .. } => {
                proof {
                    let root = self@->0;
                    root.lemma_contains_leaf(tree);
                    root.lemma_leaf_in_range(
                        tree.bounds(),
                        object_range.0 as int,
                        object_range.1 as int,
                    );
                }
                TraversalStep::Leaf { lo: object_range.0, hi: object_range.1, part }
            },
            BVHNode::Internal { split_axis, children, .. } => {
                let (far, near) = if cur.ray_sign[split_axis as usize] {
                    (children.1, children.0)
                } else {
                    (children.0, children.1)
                };
                proof {
                    self@->0.lemma_contains_children(tree);
                    self.lemma_pending_push(rest, (far, part));
                    self.lemma_pending_push(rest.push((far, part)), (near, part));
                }
                cur.stack.push((far, part));
                cur.stack.push((near, part));
                TraversalStep::Descended { part }
            },
        }
    }

    /// Steps the traversal on to the next leaf that any ray enters.
    ///
    /// Returns the leaf's object range and the number of leading rays that
    /// entered it, or `None` once nothing is pending.  Every ray among those
    /// leading ones is not done and passed the test against the leaf's
    /// bounds.  The rays are rearranged, never changed.
    ///
    /// What is done is a course of moments that begins with the traversal
    /// as it is handed in and, step by step as `advanced` says, goes on until
    /// a step finds rays in a leaf or nothing is pending any more; the
    /// traversal, the rays and the leaf returned are those of its last
    /// moment.
    #[verifier::loop_isolation(false)]
    #[verifier::rlimit(40)]
    pub fn next_leaf<P: Fn(&[B], &AccelRay) -> bool>(
        &self,
        cur: &mut Traversal,
        rays: &mut [AccelRay],
        test: &P,
    ) -> (leaf: Option<(usize, usize, usize)>)
        requires
            self.admits(old(cur)@, old(rays)@.len() as int),
            forall|s: &[B], r: &AccelRay| call_requires(*test, (s, r)),
        ensures
            self.admits(final(cur)@, old(rays)@.len() as int),
            final(cur).signs() == old(cur).signs(),
            final(cur).tests() >= old(cur).tests(),
            final(rays)@.len() == old(rays)@.len(),
            final(rays)@.to_multiset() == old(rays)@.to_multiset(),
            old(cur)@.len() == 0 ==> leaf is None && final(rays)@ == old(rays)@ && final(cur).tests() == old(cur).tests(),
            match leaf {
                None => final(cur)@.len() == 0,
                Some((lo, hi, part)) => {
                    &&& self.pending(final(cur)@) < self.pending(old(cur)@)
                    &&& 0 < part <= old(rays)@.len()
                    &&& lo < hi <= self.object_count()
                    &&& exists|bounds: Seq<B>|
                        {
                            &&& (#[trigger] self@->0.has_leaf(bounds, lo as int, hi as int))
                            &&& forall|i: int|
                                0 <= i < part ==> kept(*test, bounds, #[trigger] final(rays)@[i])
                        }
                },
            },
            exists|run: Seq<Moment>|
                {
                    &&& #[trigger] resumed(run, old(cur)@, old(rays)@, old(cur).tests())
                    &&& run.last().stack == final(cur)@
                    &&& run.last().rays == final(rays)@
                    &&& run.last().tests == final(cur).tests()
                    &&& run.last().visit == match leaf {
                        Some((lo, hi, part)) => Some(
                            Visit { next: lo as int, end: hi as int, part: part as int },
                        ),
                        None => None,
                    }
                    &&& forall|i: int|
                        0 <= i < run.len() - 1 ==> (#[trigger] run[i]).visit is None
                            && self.advanced(*test, old(cur).signs(), run[i], run[i + 1])
                },
    {
        let ghost signs = cur.signs();
        let ghost mut run: Seq<Moment> = seq![
            Moment { stack: cur@, rays: rays@, tests: cur.tests(), visit: None },
        ];
        loop
            invariant
                self.admits(cur@, old(rays)@.len() as int),
                cur.signs() == old(cur).signs(),
                cur.tests() >= old(cur).tests(),
                rays@.len() == old(rays)@.len(),
                rays@.to_multiset() == old(rays)@.to_multiset(),
                old(cur)@.len() == 0 ==> cur@.len() == 0 && rays@ == old(rays)@ && cur.tests()
                    == old(cur).tests(),
                self.pending(cur@) <= self.pending(old(cur)@),
                resumed(run, old(cur)@, old(rays)@, old(cur).tests()),
                run.last() == (Moment {
                    stack: cur@,
                    rays: rays@,
                    tests: cur.tests(),
                    visit: None,
                }),
                forall|i: int|
                    0 <= i < run.len() - 1 ==> (#[trigger] run[i]).visit is None && self.advanced(
                        *test,
                        signs,
                        run[i],
                        run[i + 1],
                    ),
            decreases self.pending(cur@),
        {
            let ghost before = cur@;
            let ghost m0 = run.last();
            let out = self.step(cur, rays, test);
            let ghost m1 = Moment {
                stack: cur@,
                rays: rays@,
                tests: cur.tests(),
                visit: match out {
                    TraversalStep::Leaf { lo, hi, part } => Some(
                        Visit { next: lo as int, end: hi as int, part: part as int },
                    ),
                    _ => None,
                },
            };
            proof {
                if before.len() > 0 {
                    assert(self.stepped(*test, signs, m0.stack, m0.rays, out, m1.stack, m1.rays));
                    assert(self.advanced(*test, signs, m0, m1));
                    run = run.push(m1);
                    assert(run.last() == m1);
                }
            }
            match out {
                TraversalStep::Finished => {
                    return None;
                },
                TraversalStep::Leaf { lo, hi, part } => {
                    assert(self@->0.has_leaf(
                        self.entry_tree(before.last()).bounds(),
                        lo as int,
                        hi as int,
                    ));
                    assert(self.pending(cur@) < self.pending(old(cur)@));
                    assert(0 < part <= old(rays)@.len());
                    assert(lo < hi <= self.object_count());
                    assert(forall|i: int|
                        0 <= i < part ==> kept(
                            *test,
                            self.entry_tree(before.last()).bounds(),
                            #[trigger] rays@[i],
                        ));
                    assert(resumed(run, old(cur)@, old(rays)@, old(cur).tests()));
                    assert(run.last() == m1);
                    return Some((lo, hi, part));
                },
                _ => {},
            }
        }
    }

    /// Whether the traversal of `n` rays may hand the rays `s` to the hook
    /// for object `k`: the object is owned by a leaf, there is at least one
    /// ray and no more than `n`, and if the object is the first of its leaf,
    /// every one of the rays is not done and passed the test against the
    /// leaf's bounds.  (The other objects of a leaf are handed the same rays
    /// as the hooks before them left them.)
    pub open spec fn hands<P: Fn(&[B], &AccelRay) -> bool>(
        self,
        test: P,
        k: int,
        s: Seq<AccelRay>,
        n: int,
    ) -> bool {
        &&& 0 < s.len() <= n
        &&& self@ is Some
        &&& exists|bounds: Seq<B>, lo: int, hi: int|
            {
                &&& #[trigger] self@->0.has_leaf(bounds, lo, hi)
                &&& lo <= k < hi
                &&& k == lo ==> forall|i: int| 0 <= i < s.len() ==> kept(test, bounds, #[trigger] s[i])
            }
    }

    /// Traverses the hierarchy with a whole batch of rays.
    ///
    /// Every leaf that some ray enters has `obj_ray_test` called once for
    /// each of its objects, in order, with the rays that entered the leaf as
    /// they stand at the time of the call.  A ray enters a node when it is
    /// not done and `test` accepts it against the node's bounds.  Traversing
    /// an empty hierarchy, or with no ray, does nothing.
    ///
    /// The hook is only ever called with what `hands` admits.  If the hook
    /// leaves every ray's `id` as it is, the rays end up with the `id`s they
    /// had, in some order.  Returns the number of tests of a ray against a
    /// node that were made.
    ///
    /// What is done is a course of moments that begins as `begun` says and
    /// goes on until nothing is pending.  From one moment to the next either
    /// a step is taken, as `advanced` says, or the next object of the leaf
    /// being visited is handed the leading rays that entered the leaf, and
    /// these rays are then what the hook left of them.  The rays and the
    /// count at the last moment are the outcome.  If the hook leaves every
    /// ray narrowed, the course is a `narrowing_course`, of which
    /// `lemma_traversal_misses_nothing` says that it misses nothing.  If the
    /// hook leaves the rays as they are, the course is a `steady_course`, of
    /// which `lemma_handed_what_is_due` says that it hands over exactly what
    /// is due, whatever the order of the rays.
    #[verifier::loop_isolation(false)]
    #[verifier::rlimit(60)]
    pub fn traverse<T, P, F>(
        &self,
        rays: &mut [AccelRay],
        objects: &[T],
        test: P,
        mut obj_ray_test: F,
    ) -> (node_tests: u64) where P: Fn(&[B], &AccelRay) -> bool, F: FnMut(&T, &mut [AccelRay])
        requires
            self.object_count() <= objects@.len(),
            forall|s: &[B], r: &AccelRay| call_requires(test, (s, r)),
            forall|k: int, s: &mut [AccelRay]|
                self.hands(test, k, s@, old(rays)@.len() as int) ==> #[trigger] call_requires(
                    obj_ray_test,
                    (&objects@[k], s),
                ),
            forall|o: &T, s: &mut [AccelRay]| #[trigger]
                call_ensures(obj_ray_test, (o, s), ()) ==> final(s)@.len() == s@.len(),
        ensures
            final(rays)@.len() == old(rays)@.len(),
            (self@ is None || old(rays)@.len() == 0) ==> final(rays)@ == old(rays)@ && node_tests
                == 0,
            (forall|o: &T, s: &mut [AccelRay]| #[trigger]
                call_ensures(obj_ray_test, (o, s), ()) ==> ids(final(s)@) == ids(s@))
                ==> ids(final(rays)@).to_multiset() == ids(old(rays)@).to_multiset(),
            exists|run: Seq<Moment>|
                {
                    &&& #[trigger] self.begun(run, old(rays)@)
                    &&& ended(run)
                    &&& final(rays)@ == run.last().rays
                    &&& node_tests == run.last().tests
                    &&& (forall|o: &T, s: &mut [AccelRay]| #[trigger]
                        call_ensures(obj_ray_test, (o, s), ()) ==> forall|j: int|
                            0 <= j < s@.len() ==> narrowed(test, s@[j], #[trigger] final(s)@[j]))
                        ==> self.narrowing_course(test, first_signs(old(rays)@), run)
                    &&& (forall|o: &T, s: &mut [AccelRay]| #[trigger]
                        call_ensures(obj_ray_test, (o, s), ()) ==> final(s)@ == s@)
                        ==> self.steady_course(test, first_signs(old(rays)@), run)
                    &&& forall|i: int|
                        0 <= i < run.len() - 1 ==> {
                            ||| self.advanced(
                                test,
                                first_signs(old(rays)@),
                                #[trigger] run[i],
                                run[i + 1],
                            )
                            ||| handed_on(run[i], run[i + 1]) && exists|s: &mut [AccelRay]|
                                {
                                    &&& s@ == run[i].rays.take(run[i].visit.unwrap().part)
                                    &&& final(s)@ == run[i + 1].rays.take(
                                        run[i].visit.unwrap().part,
                                    )
                                    &&& #[trigger] call_ensures(
                                        obj_ray_test,
                                        (&objects@[run[i].visit.unwrap().next], s),
                                        (),
                                    )
                                }
                        }
                },
    {
        let ghost hook = obj_ray_test;
        let ghost signs = first_signs(old(rays)@);
        let ghost keeps_ids = forall|o: &T, s: &mut [AccelRay]| #[trigger]
            call_ensures(hook, (o, s), ()) ==> ids(final(s)@) == ids(s@);
        let ghost narrows = forall|o: &T, s: &mut [AccelRay]| #[trigger]
            call_ensures(hook, (o, s), ()) ==> forall|j: int|
                0 <= j < s@.len() ==> narrowed(test, s@[j], #[trigger] final(s)@[j]);
        let ghost steady = forall|o: &T, s: &mut [AccelRay]| #[trigger]
            call_ensures(hook, (o, s), ()) ==> final(s)@ == s@;
        let mut cur = self.start(rays);
        let ghost mut run: Seq<Moment> = seq![
            Moment { stack: cur@, rays: rays@, tests: 0, visit: None },
        ];
        loop
            invariant
                self.admits(cur@, old(rays)@.len() as int),
                rays@.len() == old(rays)@.len(),
                (self@ is None || old(rays)@.len() == 0) ==> cur@.len() == 0 && rays@ == old(rays)@
                    && cur.tests() == 0,
                obj_ray_test == hook,
                keeps_ids ==> ids(rays@).to_multiset() == ids(old(rays)@).to_multiset(),
                old(rays)@.len() > 0 ==> cur.signs() == signs,
                self.begun(run, old(rays)@),
                narrows ==> self.narrowing_course(test, signs, run),
                steady ==> self.steady_course(test, signs, run),
                run.last() == (Moment {
                    stack: cur@,
                    rays: rays@,
                    tests: cur.tests(),
                    visit: None,
                }),
                forall|i: int|
                    0 <= i < run.len() - 1 ==> {
                        ||| self.advanced(test, signs, #[trigger] run[i], run[i + 1])
                        ||| handed_on(run[i], run[i + 1]) && exists|s: &mut [AccelRay]|
                            {
                                &&& s@ == run[i].rays.take(run[i].visit.unwrap().part)
                                &&& final(s)@ == run[i + 1].rays.take(run[i].visit.unwrap().part)
                                &&& #[trigger] call_ensures(
                                    hook,
                                    (&objects@[run[i].visit.unwrap().next], s),
                                    (),
                                )
                            }
                    },
            decreases self.pending(cur@),
        {
            let ghost m0 = run.last();
            let ghost rays_before = rays@;
            let out = self.step(&mut cur, rays, &test);
            proof {
                if m0.stack.len() > 0 {
                    lemma_map_permutation(rays@, rays_before, id_of());
                }
            }
            match out {
                TraversalStep::Finished => {
                    return cur.node_tests();
                },
                TraversalStep::Leaf { lo, hi, part } => {
                    let ghost m1 = Moment {
                        stack: cur@,
                        rays: rays@,
                        tests: cur.tests(),
                        visit: Some(Visit { next: lo as int, end: hi as int, part: part as int }),
                    };
                    proof {
                        run = run.push(m1);
                        assert(run.last() == m1);
                        assert(m0.stack.len() > 0);
                        assert(self.stepped(test, signs, m0.stack, m0.rays, out, m1.stack, m1.rays));
                        assert(self.advanced(test, signs, m0, m1));
                    }
                    let ghost rays_at_leaf = rays@;
                    let ghost leaf_bounds = self.entry_tree(m0.stack.last()).bounds();
                    let (head, tail) = rays.split_at_mut(part);
                    assert forall|i: int| 0 <= i < part implies kept(
                        test,
                        leaf_bounds,
                        #[trigger] head@[i],
                    ) by {
                        assert(head@[i] == rays_at_leaf[i]);
                    }
                    let mut k = lo;
                    while k < hi
                        invariant
                            lo <= k <= hi,
                            head@.len() == part,
                            k == lo ==> forall|i: int|
                                0 <= i < part ==> kept(test, leaf_bounds, #[trigger] head@[i]),
                            obj_ray_test == hook,
                            keeps_ids ==> ids(head@) == ids(rays_at_leaf.take(part as int)),
                            self.begun(run, old(rays)@),
                            narrows ==> self.narrowing_course(test, signs, run),
                            steady ==> self.steady_course(test, signs, run),
                            run.last() == (Moment {
                                stack: cur@,
                                rays: head@ + tail@,
                                tests: cur.tests(),
                                visit: if k < hi {
                                    Some(Visit { next: k as int, end: hi as int, part: part as int })
                                } else {
                                    None
                                },
                            }),
                            forall|i: int|
                                0 <= i < run.len() - 1 ==> {
                                    ||| self.advanced(test, signs, #[trigger] run[i], run[i + 1])
                                    ||| handed_on(run[i], run[i + 1]) && exists|s: &mut [AccelRay]|
                                        {
                                            &&& s@ == run[i].rays.take(run[i].visit.unwrap().part)
                                            &&& final(s)@ == run[i + 1].rays.take(
                                                run[i].visit.unwrap().part,
                                            )
                                            &&& #[trigger] call_ensures(
                                                hook,
                                                (&objects@[run[i].visit.unwrap().next], s),
                                                (),
                                            )
                                        }
                                },
                        decreases hi - k,
                    {
                        let ghost before_turn = run.last();
                        let ghost head0 = head@;
                        assert(self.hands(test, k as int, head@, old(rays)@.len() as int));
                        obj_ray_test(&objects[k], head);
                        k = k + 1;
                        proof {
                            run = run.push(
                                Moment {
                                    stack: cur@,
                                    rays: head@ + tail@,
                                    tests: cur.tests(),
                                    visit: if k < hi {
                                        Some(
                                            Visit {
                                                next: k as int,
                                                end: hi as int,
                                                part: part as int,
                                            },
                                        )
                                    } else {
                                        None
                                    },
                                },
                            );
                        }
                        assert((head0 + tail@).take(part as int) =~= head0);
                        assert((head@ + tail@).take(part as int) =~= head@);
                        assert((head0 + tail@).skip(part as int) =~= (head@ + tail@).skip(
                            part as int,
                        ));
                        assert(handed_on(before_turn, run.last()));
                        assert(steady ==> run.last().rays =~= before_turn.rays);
                        assert forall|j: int| narrows && 0 <= j < part implies narrowed(
                            test,
                            before_turn.rays[j],
                            #[trigger] run.last().rays[j],
                        ) by {
                            assert(before_turn.rays[j] == head0[j]);
                            assert(run.last().rays[j] == head@[j]);
                        }
                    }
                    assert(rays@ =~= head@ + tail@);
                    assert(rays_at_leaf =~= rays_at_leaf.take(part as int) + tail@);
                    assert forall|i: int| keeps_ids && 0 <= i < rays@.len() implies ids(rays@)[i]
                        == ids(rays_at_leaf)[i] by {
                        if i < part {
                            assert(ids(head@)[i] == ids(rays_at_leaf.take(part as int))[i]);
                        }
                    }
                    assert(keeps_ids ==> ids(rays@) =~= ids(rays_at_leaf));
                },
                _ => {
                    let ghost m1 = Moment {
                        stack: cur@,
                        rays: rays@,
                        tests: cur.tests(),
                        visit: None,
                    };
                    proof {
                        run = run.push(m1);
                        assert(run.last() == m1);
                        assert(m0.stack.len() > 0);
                        assert(self.stepped(test, signs, m0.stack, m0.rays, out, m1.stack, m1.rays));
                        assert(self.advanced(test, signs, m0, m1));
                    }
                },
            }
        }
    }

    /// The single sample that stands for the bounds of an empty hierarchy.
    pub closed spec fn empty_bounds(self) -> Seq<B> {
        self.bounds@
    }

    /// Copies the subtree at `node_index` of `base` to the end of `nodes`
    /// and `bounds`: first the node itself and its bounds samples, then its
    /// first child's subtree, then its second child's.  Returns the index of
    /// the copy.
    fn construct_from_base(
        nodes: &mut Vec<BVHNode>,
        bounds: &mut Vec<B>,
        base: &BVHBase<B>,
        node_index: usize,
    ) -> (out: usize) where B: Copy
        requires
            base.subtree_ok(node_index as int, base.nodes@.len() as int),
        ensures
            out == old(nodes)@.len(),
            final(nodes)@.len() > old(nodes)@.len(),
            forall|k: int| 0 <= k < old(nodes)@.len() ==> final(nodes)@[k] == old(nodes)@[k],
            final(bounds)@.len() >= old(bounds)@.len(),
            forall|k: int| 0 <= k < old(bounds)@.len() ==> final(bounds)@[k] == old(bounds)@[k],
            flat::subtree_ok(
                flat_nodes(final(nodes)@),
                final(bounds)@.len() as int,
                out as int,
                final(nodes)@.len() as int,
            ),
            flat::tree_at(flat_nodes(final(nodes)@), final(bounds)@, out as int) == base.tree_at(
                node_index as int,
            ),
        decreases base.nodes@.len() - node_index,
    {
        let me = nodes.len();
        let start = bounds.len();
        assert(base.flat()[node_index as int] == base.nodes@[node_index as int].flat());
        match base.nodes[node_index] {
            BVHBaseNode::Internal { bounds_range, children_indices, split_axis } => {
                nodes.push(
                    BVHNode::Leaf { bounds_start: 0, bounds_len: 0, object_range: (0, 0) },
                );
                let own = slice_subrange(base.bounds.as_slice(), bounds_range.0, bounds_range.1);
                append_copies(bounds, own);
                let child1 = Self::construct_from_base(nodes, bounds, base, children_indices.0);
                let ghost nodes1 = nodes@;
                let ghost bounds1 = bounds@;
                let child2 = Self::construct_from_base(nodes, bounds, base, children_indices.1);
                let ghost nodes2 = nodes@;
                nodes[me] = BVHNode::Internal {
                    bounds_start: start,
                    bounds_len: bounds_range.1 - bounds_range.0,
                    split_axis,
                    children: (child1, child2),
                };
                proof {
                    let f = flat_nodes(nodes@);
                    flat::lemma_frame(
                        flat_nodes(nodes1),
                        bounds1,
                        f,
                        bounds@,
                        child1 as int,
                        nodes1.len() as int,
                    );
                    flat::lemma_wider_end(
                        f,
                        bounds@.len() as int,
                        child1 as int,
                        nodes1.len() as int,
                        nodes@.len() as int,
                    );
                    flat::lemma_frame(
                        flat_nodes(nodes2),
                        bounds@,
                        f,
                        bounds@,
                        child2 as int,
                        nodes2.len() as int,
                    );
                    assert(f[me as int] == nodes@[me as int].flat());
                    assert(bounds@.subrange(start as int, start + (bounds_range.1 - bounds_range.0))
                        =~= own@);
                }
            },
            BVHBaseNode::Leaf { bounds_range, object_range } => {
                let own = slice_subrange(base.bounds.as_slice(), bounds_range.0, bounds_range.1);
                append_copies(bounds, own);
                nodes.push(
                    BVHNode::Leaf {
                        bounds_start: start,
                        bounds_len: bounds_range.1 - bounds_range.0,
                        object_range,
                    },
                );
                proof {
                    assert(flat_nodes(nodes@)[me as int] == nodes@[me as int].flat());
                    assert(bounds@.subrange(start as int, start + (bounds_range.1 - bounds_range.0))
                        =~= own@);
                }
            },
        }
        me
    }

    /// Builds a hierarchy over `objects`, which are rearranged so that every
    /// node owns a contiguous range of them.
    ///
    /// With no objects the hierarchy is empty and has `degenerate` as its
    /// only bounds sample.  Otherwise ranges of at most `objects_per_leaf`
    /// objects become leaves and larger ones are split, `bounder` gives each
    /// object's motion slice, `merger` the union of two motion slices, and
    /// `splitter` proposes where and along which axis to split a range; every
    /// split of the tree is what `split_taken` makes of such a proposal.
    pub fn from_objects<T, F, M, S>(
        objects: &mut [T],
        objects_per_leaf: usize,
        degenerate: B,
        bounder: F,
        merger: M,
        splitter: S,
    ) -> (bvh: BVH<B>) where
        B: Copy,
        F: Fn(&T) -> Vec<B>,
        M: Fn(&[B], &[B]) -> Vec<B>,
        S: Fn(&mut [T], bool) -> (usize, u8),

        requires
            objects_per_leaf >= 1,
            bounds_functions_ok(bounder, merger),
            forall|s: &mut [T], balanced: bool| call_requires(splitter, (s, balanced)),
            forall|s: &mut [T], balanced: bool, r: (usize, u8)| #[trigger]
                call_ensures(splitter, (s, balanced), r) ==> final(s)@.len() == s@.len() && final(s)@.to_multiset() == s@.to_multiset(),
        ensures
            bvh.wf(),
            final(objects)@.len() == old(objects)@.len(),
            final(objects)@.to_multiset() == old(objects)@.to_multiset(),
            bvh.object_count() == old(objects)@.len(),
            match bvh@ {
                None => old(objects)@.len() == 0 && bvh.empty_bounds() == seq![degenerate],
                Some(t) => {
                    &&& old(objects)@.len() > 0
                    &&& built(
                        t,
                        0,
                        old(objects)@.len() as int,
                        objects_per_leaf as int,
                        bounder,
                        merger,
                        final(objects)@,
                    )
                    &&& t.splits_satisfy(0, split_by(splitter, final(objects)@, 0))
                },
            },
    {
        let mut nodes: Vec<BVHNode> = Vec::new();
        let mut bounds: Vec<B> = Vec::new();
        if objects.len() == 0 {
            bounds.push(degenerate);
            assert(bounds@ =~= seq![degenerate]);
            BVH { nodes, bounds, root: None, depth: 0 }
        } else {
            let base = BVHBase::from_objects(objects, objects_per_leaf, bounder, merger, splitter);
            let root = Self::construct_from_base(
                &mut nodes,
                &mut bounds,
                &base,
                base.root_node_index(),
            );
            BVH { nodes, bounds, root: Some(root), depth: base.depth }
        }
    }

    /// What entering an internal node leaves on the stack: the entries
    /// below stay, and on top of them come both children with `part` active
    /// rays each.  The child to be visited next, on top, is the left one if
    /// the first ray's direction is not negative along the split axis, and
    /// the right one otherwise.
    pub proof fn lemma_descended(self, stack: Seq<(usize, usize)>, signs: Seq<bool>, part: usize)
        requires
            self.admits(stack, stack.last().1 as int),
            stack.len() > 0,
            self.entry_tree(stack.last()) is Internal,
        ensures
            ({
                let after = self.descend(stack, signs, part);
                let tree = self.entry_tree(stack.last());
                let next = after.last();
                let later = after[after.len() - 2];
                &&& after.len() == stack.len() + 1
                &&& after.take(stack.len() - 1) == stack.drop_last()
                &&& next.1 == part
                &&& later.1 == part
                &&& self.entry_tree(next) == (if signs[tree->split_axis as int] {
                    *tree->left
                } else {
                    *tree->right
                })
                &&& self.entry_tree(later) == (if signs[tree->split_axis as int] {
                    *tree->right
                } else {
                    *tree->left
                })
            }),
    {
        let top = stack.len() - 1;
        assert(stack[top] == stack.last());
        assert(self.subtree_ok(stack[top].0 as int));
        assert(self.flat()[stack[top].0 as int] == self.nodes@[stack[top].0 as int].flat());
        let after = self.descend(stack, signs, part);
        assert(after.take(stack.len() - 1) =~= stack.drop_last());
    }

    /// Whether nothing is missed so far: every ray that gets into a leaf
    /// from the root has been handed over for that leaf, as recorded in
    /// `handed`, or is still among the active rays of a pending entry from
    /// whose node it gets into the leaf.
    pub open spec fn covered<P: Fn(&[B], &AccelRay) -> bool>(
        self,
        test: P,
        stack: Seq<(usize, usize)>,
        rays: Seq<AccelRay>,
        handed: Set<(int, u32)>,
    ) -> bool {
        forall|i: int, leaf: int|
            0 <= i < rays.len() && #[trigger] enters(test, self@->0, rays[i], leaf)
                ==> handed.contains((leaf, rays[i].id)) || exists|e: int|
                0 <= e < stack.len() && i < stack[e].1 && #[trigger] enters(
                    test,
                    self.entry_tree(stack[e]),
                    rays[i],
                    leaf,
                )
    }

    /// At the start of a traversal nothing is missed.
    pub proof fn lemma_start_covered<P: Fn(&[B], &AccelRay) -> bool>(
        self,
        test: P,
        stack: Seq<(usize, usize)>,
        rays: Seq<AccelRay>,
    )
        requires
            self@ is Some,
            rays.len() > 0,
            stack.len() == 1,
            stack[0].1 == rays.len(),
            self.entry_tree(stack.last()) == self@->0,
        ensures
            self.covered(test, stack, rays, Set::empty()),
    {
        assert forall|i: int, leaf: int|
            0 <= i < rays.len() && #[trigger] enters(test, self@->0, rays[i], leaf) implies exists|e: int|
            0 <= e < stack.len() && i < stack[e].1 && #[trigger] enters(
                test,
                self.entry_tree(stack[e]),
                rays[i],
                leaf,
            ) by {
            assert(stack[0] == stack.last());
            assert(enters(test, self.entry_tree(stack[0]), rays[i], leaf));
        }
    }

    /// A step misses nothing: if nothing was missed before it, nothing is
    /// missed after it, what the step handed over included.
    pub proof fn lemma_step_covered<P: Fn(&[B], &AccelRay) -> bool>(
        self,
        test: P,
        signs: Seq<bool>,
        before: Seq<(usize, usize)>,
        rays0: Seq<AccelRay>,
        out: TraversalStep,
        after: Seq<(usize, usize)>,
        rays1: Seq<AccelRay>,
        handed: Set<(int, u32)>,
    )
        requires
            self.admits(before, rays0.len() as int),
            self.stepped(test, signs, before, rays0, out, after, rays1),
            decides(test),
            self.covered(test, before, rays0, handed),
        ensures
            self.covered(test, after, rays1, handed.union(handed_over(out, rays1))),
    {
        if before.len() == 0 {
            assert(handed.union(handed_over(out, rays1)) =~= handed);
        } else {
            let top = before.len() - 1;
            let n = before[top].1 as int;
            let tree = self.entry_tree(before.last());
            let now = handed.union(handed_over(out, rays1));
            assert(before[top] == before.last());
            assert forall|i: int, leaf: int|
                0 <= i < rays1.len() && #[trigger] enters(
                    test,
                    self@->0,
                    rays1[i],
                    leaf,
                ) implies now.contains((leaf, rays1[i].id)) || exists|e: int|
                0 <= e < after.len() && i < after[e].1 && #[trigger] enters(
                    test,
                    self.entry_tree(after[e]),
                    rays1[i],
                    leaf,
                ) by {
                // Where the ray was before the step.
                let i0 = if i >= n {
                    assert(rays1[i] == rays1.subrange(n, rays0.len() as int)[i - n]);
                    assert(rays0[i] == rays0.subrange(n, rays0.len() as int)[i - n]);
                    i
                } else {
                    let head1 = rays1.take(n);
                    let head0 = rays0.take(n);
                    head0.to_multiset_ensures();
                    head1.to_multiset_ensures();
                    assert(head1[i] == rays1[i]);
                    assert(head1.contains(rays1[i]));
                    assert(head1.to_multiset().count(rays1[i]) > 0);
                    assert(head0.contains(rays1[i]));
                    let j = choose|j: int| 0 <= j < head0.len() && head0[j] == rays1[i];
                    assert(rays0[j] == rays1[i]);
                    j
                };
                assert(rays0[i0] == rays1[i]);
                assert(enters(test, self@->0, rays0[i0], leaf));
                if handed.contains((leaf, rays0[i0].id)) {
                } else {
                    let e = choose|e: int|
                        0 <= e < before.len() && i0 < before[e].1 && #[trigger] enters(
                            test,
                            self.entry_tree(before[e]),
                            rays0[i0],
                            leaf,
                        );
                    if e < top {
                        // An entry below the top stays, and has at least as
                        // many active rays as the top had.
                        assert(before[e].1 >= before[top].1);
                        assert(before.drop_last()[e] == before[e]);
                        if out.part() > 0 && tree is Internal {
                            let entered = self.descend(before, signs, out->Descended_part);
                            assert(entered[e] == before[e]);
                        }
                        assert(after[e] == before[e]);
                        assert(enters(test, self.entry_tree(after[e]), rays1[i], leaf));
                    } else {
                        // The ray was active for the top entry and gets into
                        // its node, so the step kept it.
                        assert(kept(test, tree.bounds(), rays1[i]));
                        assert(i < n);
                        if i >= out.part() {
                            assert(rejected(test, tree.bounds(), rays1[i]));
                            assert(false);
                        }
                        match tree {
                            Tree::Leaf { lo, .. } => {
                                assert(handed_over(out, rays1).contains((leaf, rays1[i].id)));
                            },
                            Tree::Internal { left, right, .. } => {
                                let part = out->Descended_part;
                                let entered = self.descend(before, signs, part);
                                let last = entered.len() - 1;
                                assert(self.subtree_ok(before[top].0 as int));
                                assert(self.flat()[before[top].0 as int] == self.nodes@[before[top].0 as int].flat());
                                if enters(test, self.entry_tree(entered[last]), rays1[i], leaf) {
                                    assert(i < entered[last].1);
                                } else {
                                    assert(enters(
                                        test,
                                        self.entry_tree(entered[last - 1]),
                                        rays1[i],
                                        leaf,
                                    ));
                                    assert(i < entered[last - 1].1);
                                }
                            },
                        }
                    }
                }
            }
        }
    }

    /// Rays that were narrowed where they stand are not missed either: if
    /// nothing was missed with the rays `rays0`, nothing is missed with rays
    /// `rays1` that are those rays narrowed, each in its place.
    pub proof fn lemma_narrowed_covered<P: Fn(&[B], &AccelRay) -> bool>(
        self,
        test: P,
        stack: Seq<(usize, usize)>,
        rays0: Seq<AccelRay>,
        rays1: Seq<AccelRay>,
        handed: Set<(int, u32)>,
    )
        requires
            self.admits(stack, rays0.len() as int),
            self.covered(test, stack, rays0, handed),
            rays1.len() == rays0.len(),
            forall|i: int| 0 <= i < rays0.len() ==> narrowed(test, rays0[i], #[trigger] rays1[i]),
        ensures
            self.covered(test, stack, rays1, handed),
    {
        assert forall|i: int, leaf: int|
            0 <= i < rays1.len() && #[trigger] enters(
                test,
                self@->0,
                rays1[i],
                leaf,
            ) implies handed.contains((leaf, rays1[i].id)) || exists|e: int|
            0 <= e < stack.len() && i < stack[e].1 && #[trigger] enters(
                test,
                self.entry_tree(stack[e]),
                rays1[i],
                leaf,
            ) by {
            assert(narrowed(test, rays0[i], rays1[i]));
            lemma_narrowed_enters(test, self@->0, rays0[i], rays1[i], leaf);
            if !handed.contains((leaf, rays0[i].id)) {
                let e = choose|e: int|
                    0 <= e < stack.len() && i < stack[e].1 && #[trigger] enters(
                        test,
                        self.entry_tree(stack[e]),
                        rays0[i],
                        leaf,
                    );
                let sub = self.entry_tree(stack[e]);
                assert(self@->0.contains(sub));
                lemma_contained_in_range(self@->0, sub);
                lemma_enters_in_range(test, sub, rays0[i], leaf);
                lemma_enters_from_node(test, self@->0, sub, rays1[i], leaf);
            }
        }
    }

    /// Once nothing is pending, everything has been handed over: every ray
    /// that gets into a leaf from the root is recorded in `handed` with that
    /// leaf.
    pub proof fn lemma_finished_covered<P: Fn(&[B], &AccelRay) -> bool>(
        self,
        test: P,
        rays: Seq<AccelRay>,
        handed: Set<(int, u32)>,
        i: int,
        leaf: int,
    )
        requires
            self.covered(test, Seq::empty(), rays, handed),
            0 <= i < rays.len(),
            enters(test, self@->0, rays[i], leaf),
        ensures
            handed.contains((leaf, rays[i].id)),
    {
    }

    /// The entries that a traversal starts with can be walked.
    pub proof fn lemma_first_admits(self, n: int)
        requires
            self.wf(),
            0 <= n <= usize::MAX,
        ensures
            self.admits(self.first_stack(n), n),
            self@ is None ==> self.first_stack(n).len() == 0,
    {
        let stack = self.first_stack(n);
        if stack.len() > 0 {
            assert(self@->0.contains(self.tree_at(stack[0].0 as int)));
        }
    }

    /// What is covered with less handed over is covered with more.
    pub proof fn lemma_covered_more<P: Fn(&[B], &AccelRay) -> bool>(
        self,
        test: P,
        stack: Seq<(usize, usize)>,
        rays: Seq<AccelRay>,
        handed: Set<(int, u32)>,
        more: Set<(int, u32)>,
    )
        requires
            self.covered(test, stack, rays, handed),
            handed.subset_of(more),
        ensures
            self.covered(test, stack, rays, more),
    {
        assert forall|i: int, leaf: int|
            0 <= i < rays.len() && #[trigger] enters(
                test,
                self@->0,
                rays[i],
                leaf,
            ) implies more.contains((leaf, rays[i].id)) || exists|e: int|
            0 <= e < stack.len() && i < stack[e].1 && #[trigger] enters(
                test,
                self.entry_tree(stack[e]),
                rays[i],
                leaf,
            ) by {
            if handed.contains((leaf, rays[i].id)) {
                assert(more.contains((leaf, rays[i].id)));
            }
        }
    }

    /// A step leaves entries that can be walked over as many rays as before.
    pub proof fn lemma_stepped_admits<P: Fn(&[B], &AccelRay) -> bool>(
        self,
        test: P,
        signs: Seq<bool>,
        before: Seq<(usize, usize)>,
        rays0: Seq<AccelRay>,
        out: TraversalStep,
        after: Seq<(usize, usize)>,
        rays1: Seq<AccelRay>,
    )
        requires
            self.admits(before, rays0.len() as int),
            self.stepped(test, signs, before, rays0, out, after, rays1),
        ensures
            self.admits(after, rays0.len() as int),
            rays1.len() == rays0.len(),
            0 <= out.part() <= rays0.len(),
            out matches TraversalStep::Leaf { lo, hi, .. } ==> lo < hi && exists|bounds: Seq<B>| #[trigger]
                self@->0.has_leaf(bounds, lo as int, hi as int),
    {
        if before.len() > 0 {
            let top = before.len() - 1;
            assert(before[top] == before.last());
            let tree = self.entry_tree(before.last());
            let rest = before.drop_last();
            let node = before[top].0 as int;
            assert(self.subtree_ok(node));
            assert(self.flat()[node] == self.nodes@[node].flat());
            if out.part() > 0 && tree is Internal {
                let part = out->Descended_part;
                self@->0.lemma_contains_children(tree);
                assert(after == self.descend(before, signs, part));
                assert forall|i: int| 0 <= i < after.len() implies {
                    &&& self.subtree_ok((#[trigger] after[i]).0 as int)
                    &&& self.tree_at(after[i].0 as int).well_formed()
                    &&& self@ is Some
                    &&& self@->0.contains(self.tree_at(after[i].0 as int))
                    &&& after[i].1 <= rays0.len()
                } by {
                    if i < rest.len() {
                        assert(after[i] == before[i]);
                    }
                }
                assert forall|i: int, j: int| 0 <= i <= j < after.len() implies after[i].1
                    >= after[j].1 by {
                    if i < rest.len() {
                        assert(after[i] == before[i]);
                        assert(before[i].1 >= before[top].1);
                    }
                    if j < rest.len() {
                        assert(after[j] == before[j]);
                    }
                }
            } else {
                assert(after == rest);
                assert forall|i: int| 0 <= i < after.len() implies after[i] == before[i] by {}
                if out.part() > 0 {
                    self@->0.lemma_contains_leaf(tree);
                    tree.lemma_range_not_empty();
                    assert(self@->0.has_leaf(tree.bounds(), tree.lo(), tree.hi()));
                }
            }
        }
    }

    /// Whether in the course `run` every move is a step, as `advanced` says,
    /// or the turn of the next object of the leaf being visited, which is
    /// handed the leading rays that entered the leaf and leaves each of them
    /// narrowed, in its place.
    pub open spec fn narrowing_course<P: Fn(&[B], &AccelRay) -> bool>(
        self,
        test: P,
        signs: Seq<bool>,
        run: Seq<Moment>,
    ) -> bool {
        forall|i: int|
            0 <= i < run.len() - 1 ==> {
                ||| self.advanced(test, signs, #[trigger] run[i], run[i + 1])
                ||| handed_on(run[i], run[i + 1]) && forall|j: int|
                    0 <= j < run[i].visit.unwrap().part ==> narrowed(
                        test,
                        run[i].rays[j],
                        #[trigger] run[i + 1].rays[j],
                    )
            }
    }

    /// What holds at every moment of a narrowing course over `n` rays: the
    /// pending entries can be walked, there are `n` rays, nothing is missed,
    /// and a visit that is under way is to objects of one leaf.
    pub open spec fn sound_at<P: Fn(&[B], &AccelRay) -> bool>(
        self,
        test: P,
        run: Seq<Moment>,
        n: int,
        i: int,
    ) -> bool {
        &&& self.admits(run[i].stack, n)
        &&& run[i].rays.len() == n
        &&& self.covered(test, run[i].stack, run[i].rays, handed_by(run, i))
        &&& run[i].visit is Some ==> 0 <= run[i].visit.unwrap().part <= n
        &&& run[i].visit is Some ==> exists|bounds: Seq<B>, lo: int| #[trigger]
            self@->0.has_leaf(bounds, lo, run[i].visit.unwrap().end) && lo
                <= run[i].visit.unwrap().next < run[i].visit.unwrap().end
    }

    /// What has been handed over up to one moment has been handed over up to
    /// the next.
    pub proof fn lemma_handed_by_grows(run: Seq<Moment>, i: int)
        ensures
            handed_by(run, i - 1).subset_of(handed_by(run, i)),
    {
        assert forall|pair: (int, u32)| handed_by(run, i - 1).contains(pair) implies handed_by(
            run,
            i,
        ).contains(pair) by {
            let at = choose|at: int| at <= i - 1 && #[trigger] hands_at(run, at, pair.0, pair.1);
            assert(at <= i && hands_at(run, at, pair.0, pair.1));
        }
    }

    /// The first moment of a course is sound.
    pub proof fn lemma_course_begins<P: Fn(&[B], &AccelRay) -> bool>(
        self,
        test: P,
        run: Seq<Moment>,
        rays0: Seq<AccelRay>,
    )
        requires
            self.wf(),
            self@ is Some,
            self.begun(run, rays0),
            rays0.len() <= usize::MAX,
        ensures
            self.sound_at(test, run, rays0.len() as int, 0),
    {
        let stack = run[0].stack;
        if rays0.len() > 0 {
            assert(stack[0] == stack.last());
            self.lemma_start_covered(test, stack, rays0);
            self.lemma_covered_more(test, stack, rays0, Set::empty(), handed_by(run, 0));
        }
    }

    /// A step leads from a sound moment to a sound moment.
    pub proof fn lemma_course_steps<P: Fn(&[B], &AccelRay) -> bool>(
        self,
        test: P,
        signs: Seq<bool>,
        run: Seq<Moment>,
        n: int,
        i: int,
    )
        requires
            decides(test),
            0 < i < run.len(),
            self.sound_at(test, run, n, i - 1),
            self.advanced(test, signs, run[i - 1], run[i]),
        ensures
            self.sound_at(test, run, n, i),
    {
        let m0 = run[i - 1];
        let m1 = run[i];
        let h0 = handed_by(run, i - 1);
        let h1 = handed_by(run, i);
        Self::lemma_handed_by_grows(run, i);
        let out = choose|out: TraversalStep|
            {
                &&& #[trigger] self.stepped(test, signs, m0.stack, m0.rays, out, m1.stack, m1.rays)
                &&& m1.visit == match out {
                    TraversalStep::Leaf { lo, hi, part } => Some(
                        Visit { next: lo as int, end: hi as int, part: part as int },
                    ),
                    _ => None,
                }
            };
        self.lemma_stepped_admits(test, signs, m0.stack, m0.rays, out, m1.stack, m1.rays);
        self.lemma_step_covered(test, signs, m0.stack, m0.rays, out, m1.stack, m1.rays, h0);
        let now = h0.union(handed_over(out, m1.rays));
        assert forall|pair: (int, u32)| now.contains(pair) implies h1.contains(pair) by {
            if !h0.contains(pair) {
                assert(hands_at(run, i, pair.0, pair.1));
            }
        }
        self.lemma_covered_more(test, m1.stack, m1.rays, now, h1);
        if m1.visit is Some {
            let v = m1.visit.unwrap();
            let bounds = choose|bounds: Seq<B>| #[trigger] self@->0.has_leaf(bounds, v.next, v.end);
            assert(self@->0.has_leaf(bounds, v.next, v.end) && v.next <= v.next < v.end);
        }
    }

    /// The turn of an object of the leaf being visited leads from a sound
    /// moment to a sound moment, if it leaves the rays narrowed.
    pub proof fn lemma_course_turns<P: Fn(&[B], &AccelRay) -> bool>(
        self,
        test: P,
        run: Seq<Moment>,
        n: int,
        i: int,
    )
        requires
            0 < i < run.len(),
            self.sound_at(test, run, n, i - 1),
            handed_on(run[i - 1], run[i]),
            forall|j: int|
                0 <= j < run[i - 1].visit.unwrap().part ==> narrowed(
                    test,
                    run[i - 1].rays[j],
                    #[trigger] run[i].rays[j],
                ),
        ensures
            self.sound_at(test, run, n, i),
    {
        let m0 = run[i - 1];
        let m1 = run[i];
        let h0 = handed_by(run, i - 1);
        let h1 = handed_by(run, i);
        Self::lemma_handed_by_grows(run, i);
        let part = m0.visit.unwrap().part;
        assert forall|j: int| 0 <= j < m0.rays.len() implies narrowed(
            test,
            m0.rays[j],
            #[trigger] m1.rays[j],
        ) by {
            if j >= part {
                assert(m1.rays[j] == m1.rays.skip(part)[j - part]);
                assert(m0.rays[j] == m0.rays.skip(part)[j - part]);
            }
        }
        self.lemma_narrowed_covered(test, m0.stack, m0.rays, m1.rays, h0);
        self.lemma_covered_more(test, m1.stack, m1.rays, h0, h1);
        if m1.visit is Some {
            let (bounds, lo) = choose|bounds: Seq<B>, lo: int| #[trigger]
                self@->0.has_leaf(bounds, lo, m0.visit.unwrap().end) && lo
                    <= m0.visit.unwrap().next < m0.visit.unwrap().end;
            assert(self@->0.has_leaf(bounds, lo, m1.visit.unwrap().end) && lo
                <= m1.visit.unwrap().next < m1.visit.unwrap().end);
        }
    }

    /// Every moment of a narrowing course from the beginning of a traversal
    /// is sound.
    pub proof fn lemma_course_covered<P: Fn(&[B], &AccelRay) -> bool>(
        self,
        test: P,
        signs: Seq<bool>,
        run: Seq<Moment>,
        rays0: Seq<AccelRay>,
        i: int,
    )
        requires
            self.wf(),
            self@ is Some,
            decides(test),
            self.begun(run, rays0),
            rays0.len() <= usize::MAX,
            self.narrowing_course(test, signs, run),
            0 <= i < run.len(),
        ensures
            self.sound_at(test, run, rays0.len() as int, i),
        decreases i,
    {
        if i == 0 {
            self.lemma_course_begins(test, run, rays0);
        } else {
            self.lemma_course_covered(test, signs, run, rays0, i - 1);
            assert(run[i - 1] == run[i - 1]);
            if self.advanced(test, signs, run[i - 1], run[i]) {
                self.lemma_course_steps(test, signs, run, rays0.len() as int, i);
            } else {
                self.lemma_course_turns(test, run, rays0.len() as int, i);
            }
        }
    }

    /// A visit that is under way goes on to every object that is left of
    /// its leaf, and each of them is handed rays with the same `id`s in the
    /// same places.
    pub proof fn lemma_visit_goes_on<P: Fn(&[B], &AccelRay) -> bool>(
        self,
        test: P,
        signs: Seq<bool>,
        run: Seq<Moment>,
        i: int,
        k: int,
    )
        requires
            self.narrowing_course(test, signs, run),
            ended(run),
            0 <= i < run.len(),
            run[i].visit is Some,
            run[i].visit.unwrap().next <= k < run[i].visit.unwrap().end,
        ensures
            i + (k - run[i].visit.unwrap().next) < run.len(),
            run[i + (k - run[i].visit.unwrap().next)].visit == Some(
                Visit { next: k, ..run[i].visit.unwrap() },
            ),
            forall|j: int|
                0 <= j < run[i].visit.unwrap().part ==> (#[trigger] run[i + (k
                    - run[i].visit.unwrap().next)].rays[j]).id == run[i].rays[j].id,
        decreases k - run[i].visit.unwrap().next,
    {
        let v = run[i].visit.unwrap();
        if k > v.next {
            self.lemma_visit_goes_on(test, signs, run, i, k - 1);
            let at = i + (k - 1 - v.next);
            assert(run[at].visit is Some);
            assert(at < run.len() - 1);
            assert(!self.advanced(test, signs, run[at], run[at + 1]));
            assert(handed_on(run[at], run[at + 1]));
            assert forall|j: int| 0 <= j < v.part implies (#[trigger] run[at + 1].rays[j]).id
                == run[i].rays[j].id by {
                assert(narrowed(test, run[at].rays[j], run[at + 1].rays[j]));
                assert(run[at].rays[j].id == run[i].rays[j].id);
            }
        } else {
            assert(run[i].visit == Some(Visit { next: k, ..v }));
        }
    }

    /// A traversal misses nothing.  In a narrowing course from the
    /// beginning of a traversal to its end, a ray that, as it stands at the
    /// end, gets into a leaf from the root has been handed to every object
    /// that the leaf owns.
    pub proof fn lemma_traversal_misses_nothing<P: Fn(&[B], &AccelRay) -> bool>(
        self,
        test: P,
        signs: Seq<bool>,
        run: Seq<Moment>,
        rays0: Seq<AccelRay>,
        j: int,
        bounds: Seq<B>,
        lo: int,
        hi: int,
        k: int,
    )
        requires
            self.wf(),
            self@ is Some,
            decides(test),
            self.begun(run, rays0),
            rays0.len() <= usize::MAX,
            ended(run),
            self.narrowing_course(test, signs, run),
            0 <= j < run.last().rays.len(),
            enters(test, self@->0, run.last().rays[j], lo),
            self@->0.has_leaf(bounds, lo, hi),
            lo <= k < hi,
        ensures
            handed(run, k, run.last().rays[j].id),
    {
        let last = run.len() - 1;
        let id = run.last().rays[j].id;
        self.lemma_course_covered(test, signs, run, rays0, last);
        assert(handed_by(run, last).contains((lo, id)));
        let at = choose|at: int| at <= last && #[trigger] hands_at(run, at, lo, id);
        let v = run[at].visit.unwrap();
        self.lemma_course_covered(test, signs, run, rays0, at);
        let (b2, lo2) = choose|b2: Seq<B>, lo2: int| #[trigger]
            self@->0.has_leaf(b2, lo2, v.end) && lo2 <= v.next < v.end;
        self@->0.lemma_leaves_apart(b2, lo2, v.end, bounds, lo, hi);
        self.lemma_visit_goes_on(test, signs, run, at, k);
        let then = at + (k - lo);
        let place = choose|place: int| 0 <= place < v.part && #[trigger] run[at].rays[place].id == id;
        assert(run[then].rays[place].id == id);
        assert(hands_at(run, then, k, id));
    }

    /// Whether every ray that is active for a pending entry has got to the
    /// entry's node.
    pub open spec fn arrived<P: Fn(&[B], &AccelRay) -> bool>(
        self,
        test: P,
        stack: Seq<(usize, usize)>,
        rays: Seq<AccelRay>,
    ) -> bool {
        forall|e: int, j: int|
            0 <= e < stack.len() && 0 <= j < stack[e].1 ==> reaches(
                test,
                self@->0,
                self.entry_tree(#[trigger] stack[e]),
                #[trigger] rays[j],
            )
    }

    /// A step hands on only rays that have arrived: if the active rays of
    /// every pending entry had got to the entry's node before the step, they
    /// have after it, and the rays that the step finds in a leaf enter that
    /// leaf from the root.
    pub proof fn lemma_step_arrived<P: Fn(&[B], &AccelRay) -> bool>(
        self,
        test: P,
        signs: Seq<bool>,
        before: Seq<(usize, usize)>,
        rays0: Seq<AccelRay>,
        out: TraversalStep,
        after: Seq<(usize, usize)>,
        rays1: Seq<AccelRay>,
    )
        requires
            self.admits(before, rays0.len() as int),
            self.stepped(test, signs, before, rays0, out, after, rays1),
            self.arrived(test, before, rays0),
        ensures
            self.arrived(test, after, rays1),
            out matches TraversalStep::Leaf { lo, part, .. } ==> forall|j: int|
                0 <= j < part ==> enters(test, self@->0, #[trigger] rays1[j], lo as int),
    {
        if before.len() > 0 {
            let top = before.len() - 1;
            let n = before[top].1 as int;
            assert(before[top] == before.last());
            let tree = self.entry_tree(before.last());
            let rest = before.drop_last();
            let node = before[top].0 as int;
            let root = self@->0;
            assert(self.subtree_ok(node));
            assert(self.flat()[node] == self.nodes@[node].flat());
            // Every active ray of the top entry was one before the step.
            assert forall|j: int| 0 <= j < n implies reaches(
                test,
                root,
                tree,
                #[trigger] rays1[j],
            ) by {
                let head1 = rays1.take(n);
                let head0 = rays0.take(n);
                head0.to_multiset_ensures();
                head1.to_multiset_ensures();
                assert(head1[j] == rays1[j]);
                assert(head1.contains(rays1[j]));
                assert(head1.to_multiset().count(rays1[j]) > 0);
                assert(head0.contains(rays1[j]));
                let j0 = choose|j0: int| 0 <= j0 < head0.len() && head0[j0] == rays1[j];
                assert(rays0[j0] == rays1[j]);
                assert(reaches(test, root, self.entry_tree(before[top]), rays0[j0]));
            }
            assert forall|e: int, j: int|
                0 <= e < after.len() && 0 <= j < after[e].1 implies reaches(
                test,
                root,
                self.entry_tree(#[trigger] after[e]),
                #[trigger] rays1[j],
            ) by {
                if e < rest.len() {
                    assert(rest[e] == before[e]);
                    if out.part() > 0 && tree is Internal {
                        assert(self.descend(before, signs, out->Descended_part)[e] == before[e]);
                    }
                    assert(after[e] == before[e]);
                    assert(before[e].1 >= before[top].1);
                    if j >= n {
                        assert(rays1[j] == rays1.subrange(n, rays0.len() as int)[j - n]);
                        assert(rays0[j] == rays0.subrange(n, rays0.len() as int)[j - n]);
                        assert(reaches(test, root, self.entry_tree(before[e]), rays0[j]));
                    } else {
                        let head1 = rays1.take(n);
                        let head0 = rays0.take(n);
                        head0.to_multiset_ensures();
                        head1.to_multiset_ensures();
                        assert(head1[j] == rays1[j]);
                        assert(head1.contains(rays1[j]));
                        assert(head1.to_multiset().count(rays1[j]) > 0);
                        assert(head0.contains(rays1[j]));
                        let j0 = choose|j0: int| 0 <= j0 < head0.len() && head0[j0] == rays1[j];
                        assert(rays0[j0] == rays1[j]);
                        assert(reaches(test, root, self.entry_tree(before[e]), rays0[j0]));
                    }
                } else {
                    // A child of the tested node, with the rays that entered.
                    assert(tree is Internal && out.part() > 0);
                    assert(j < out.part());
                    assert(kept(test, tree.bounds(), rays1[j]));
                    lemma_reaches_children(test, root, tree, rays1[j]);
                }
            }
            if out is Leaf {
                assert forall|j: int| 0 <= j < out.part() implies enters(
                    test,
                    root,
                    #[trigger] rays1[j],
                    tree.lo(),
                ) by {
                    assert(kept(test, tree.bounds(), rays1[j]));
                    lemma_reaches_enters(test, root, tree, rays1[j]);
                }
            }
        }
    }

    /// Whether in the course `run` every move is a step, as `advanced` says,
    /// or the turn of the next object of the leaf being visited, which leaves
    /// the rays as they are.
    pub open spec fn steady_course<P: Fn(&[B], &AccelRay) -> bool>(
        self,
        test: P,
        signs: Seq<bool>,
        run: Seq<Moment>,
    ) -> bool {
        forall|i: int|
            0 <= i < run.len() - 1 ==> {
                ||| self.advanced(test, signs, #[trigger] run[i], run[i + 1])
                ||| handed_on(run[i], run[i + 1]) && run[i + 1].rays == run[i].rays
            }
    }

    /// A course that leaves the rays as they are is a narrowing course.
    pub proof fn lemma_steady_narrows<P: Fn(&[B], &AccelRay) -> bool>(
        self,
        test: P,
        signs: Seq<bool>,
        run: Seq<Moment>,
    )
        requires
            self.steady_course(test, signs, run),
        ensures
            self.narrowing_course(test, signs, run),
    {
        assert forall|i: int| 0 <= i < run.len() - 1 implies {
            ||| self.advanced(test, signs, #[trigger] run[i], run[i + 1])
            ||| handed_on(run[i], run[i + 1]) && forall|j: int|
                0 <= j < run[i].visit.unwrap().part ==> narrowed(
                    test,
                    run[i].rays[j],
                    #[trigger] run[i + 1].rays[j],
                )
        } by {
            if !self.advanced(test, signs, run[i], run[i + 1]) {
                assert(run[i + 1].rays == run[i].rays);
            }
        }
    }

    /// Whether the rays being handed over in a visit enter the visited leaf:
    /// the visit is to objects of one leaf, and every one of the first `part`
    /// of `rays` enters that leaf from the root.
    pub open spec fn visit_entered<P: Fn(&[B], &AccelRay) -> bool>(
        self,
        test: P,
        rays: Seq<AccelRay>,
        visit: Visit,
    ) -> bool {
        exists|bounds: Seq<B>, lo: int|
            {
                &&& #[trigger] self@->0.has_leaf(bounds, lo, visit.end)
                &&& lo <= visit.next < visit.end
                &&& forall|j: int|
                    0 <= j < visit.part ==> enters(test, self@->0, #[trigger] rays[j], lo)
            }
    }

    /// What holds at every moment of a steady course over the rays `rays0`:
    /// the pending entries can be walked, the rays are those rays in some
    /// order, the active rays of every pending entry have got to its node,
    /// and the rays being handed over in a visit enter the visited leaf.
    pub open spec fn true_at<P: Fn(&[B], &AccelRay) -> bool>(
        self,
        test: P,
        run: Seq<Moment>,
        rays0: Seq<AccelRay>,
        i: int,
    ) -> bool {
        &&& self.admits(run[i].stack, rays0.len() as int)
        &&& run[i].rays.len() == rays0.len()
        &&& run[i].rays.to_multiset() == rays0.to_multiset()
        &&& self.arrived(test, run[i].stack, run[i].rays)
        &&& run[i].visit is Some ==> 0 <= run[i].visit.unwrap().part <= rays0.len()
            && self.visit_entered(test, run[i].rays, run[i].visit.unwrap())
    }

    /// The first moment of a course is true.
    pub proof fn lemma_true_begins<P: Fn(&[B], &AccelRay) -> bool>(
        self,
        test: P,
        run: Seq<Moment>,
        rays0: Seq<AccelRay>,
    )
        requires
            self.wf(),
            self@ is Some,
            self.begun(run, rays0),
            rays0.len() <= usize::MAX,
        ensures
            self.true_at(test, run, rays0, 0),
    {
        self.lemma_first_admits(rays0.len() as int);
        let stack = run[0].stack;
        assert forall|e: int, j: int| 0 <= e < stack.len() && 0 <= j < stack[e].1 implies reaches(
            test,
            self@->0,
            self.entry_tree(#[trigger] stack[e]),
            #[trigger] rays0[j],
        ) by {
            assert(self.entry_tree(stack[e]) == self@->0);
        }
    }

    /// A step leads from a true moment to a true moment.
    pub proof fn lemma_true_steps<P: Fn(&[B], &AccelRay) -> bool>(
        self,
        test: P,
        signs: Seq<bool>,
        run: Seq<Moment>,
        rays0: Seq<AccelRay>,
        i: int,
    )
        requires
            0 < i < run.len(),
            self.true_at(test, run, rays0, i - 1),
            self.advanced(test, signs, run[i - 1], run[i]),
        ensures
            self.true_at(test, run, rays0, i),
    {
        let m0 = run[i - 1];
        let m1 = run[i];
        let out = choose|out: TraversalStep|
            {
                &&& #[trigger] self.stepped(test, signs, m0.stack, m0.rays, out, m1.stack, m1.rays)
                &&& m1.visit == match out {
                    TraversalStep::Leaf { lo, hi, part } => Some(
                        Visit { next: lo as int, end: hi as int, part: part as int },
                    ),
                    _ => None,
                }
            };
        self.lemma_stepped_admits(test, signs, m0.stack, m0.rays, out, m1.stack, m1.rays);
        self.lemma_step_arrived(test, signs, m0.stack, m0.rays, out, m1.stack, m1.rays);
        if m1.visit is Some {
            let v = m1.visit.unwrap();
            let bounds = choose|bounds: Seq<B>| #[trigger] self@->0.has_leaf(bounds, v.next, v.end);
            assert(self@->0.has_leaf(bounds, v.next, v.end) && v.next <= v.next < v.end
                && forall|j: int|
                0 <= j < v.part ==> enters(test, self@->0, #[trigger] m1.rays[j], v.next));
        }
    }

    /// The turn of an object that leaves the rays as they are leads from a
    /// true moment to a true moment.
    pub proof fn lemma_true_turns<P: Fn(&[B], &AccelRay) -> bool>(
        self,
        test: P,
        run: Seq<Moment>,
        rays0: Seq<AccelRay>,
        i: int,
    )
        requires
            0 < i < run.len(),
            self.true_at(test, run, rays0, i - 1),
            handed_on(run[i - 1], run[i]),
            run[i].rays == run[i - 1].rays,
        ensures
            self.true_at(test, run, rays0, i),
    {
        let m0 = run[i - 1];
        let m1 = run[i];
        if m1.visit is Some {
            let v0 = m0.visit.unwrap();
            let (bounds, lo) = choose|bounds: Seq<B>, lo: int|
                {
                    &&& #[trigger] self@->0.has_leaf(bounds, lo, v0.end)
                    &&& lo <= v0.next < v0.end
                    &&& forall|j: int|
                        0 <= j < v0.part ==> enters(test, self@->0, #[trigger] m0.rays[j], lo)
                };
            let v1 = m1.visit.unwrap();
            assert(self@->0.has_leaf(bounds, lo, v1.end) && lo <= v1.next < v1.end && forall|j: int|
                0 <= j < v1.part ==> enters(test, self@->0, #[trigger] m1.rays[j], lo));
        }
    }

    /// Every moment of a steady course from the beginning of a traversal
    /// is true.
    pub proof fn lemma_course_true<P: Fn(&[B], &AccelRay) -> bool>(
        self,
        test: P,
        signs: Seq<bool>,
        run: Seq<Moment>,
        rays0: Seq<AccelRay>,
        i: int,
    )
        requires
            self.wf(),
            self@ is Some,
            self.begun(run, rays0),
            rays0.len() <= usize::MAX,
            self.steady_course(test, signs, run),
            0 <= i < run.len(),
        ensures
            self.true_at(test, run, rays0, i),
        decreases i,
    {
        if i == 0 {
            self.lemma_true_begins(test, run, rays0);
        } else {
            self.lemma_course_true(test, signs, run, rays0, i - 1);
            assert(run[i - 1] == run[i - 1]);
            if self.advanced(test, signs, run[i - 1], run[i]) {
                self.lemma_true_steps(test, signs, run, rays0, i);
            } else {
                self.lemma_true_turns(test, run, rays0, i);
            }
        }
    }

    /// Whether object `k` is due the ray with the given `id`: one of `rays`
    /// has that `id` and enters, from the root, the leaf that owns the
    /// object.
    pub open spec fn due<P: Fn(&[B], &AccelRay) -> bool>(
        self,
        test: P,
        rays: Seq<AccelRay>,
        k: int,
        id: u32,
    ) -> bool {
        exists|r: AccelRay, bounds: Seq<B>, lo: int, hi: int|
            {
                &&& rays.contains(r)
                &&& r.id == id
                &&& #[trigger] self@->0.has_leaf(bounds, lo, hi)
                &&& lo <= k < hi
                &&& #[trigger] enters(test, self@->0, r, lo)
            }
    }

    /// A traversal hands over exactly what is due.  In a steady course from
    /// the beginning of a traversal to its end, an object is handed a ray if
    /// and only if it is due that ray.
    pub proof fn lemma_handed_what_is_due<P: Fn(&[B], &AccelRay) -> bool>(
        self,
        test: P,
        signs: Seq<bool>,
        run: Seq<Moment>,
        rays0: Seq<AccelRay>,
        k: int,
        id: u32,
    )
        requires
            self.wf(),
            self@ is Some,
            decides(test),
            self.begun(run, rays0),
            rays0.len() <= usize::MAX,
            ended(run),
            self.steady_course(test, signs, run),
        ensures
            handed(run, k, id) <==> self.due(test, rays0, k, id),
    {
        let root = self@->0;
        if handed(run, k, id) {
            let i = choose|i: int| #[trigger] hands_at(run, i, k, id);
            self.lemma_course_true(test, signs, run, rays0, i);
            let v = run[i].visit.unwrap();
            let j = choose|j: int| 0 <= j < v.part && #[trigger] run[i].rays[j].id == id;
            let (bounds, lo) = choose|bounds: Seq<B>, lo: int|
                {
                    &&& #[trigger] root.has_leaf(bounds, lo, v.end)
                    &&& lo <= v.next < v.end
                    &&& forall|j: int|
                        0 <= j < v.part ==> enters(test, root, #[trigger] run[i].rays[j], lo)
                };
            let r = run[i].rays[j];
            run[i].rays.to_multiset_ensures();
            rays0.to_multiset_ensures();
            assert(run[i].rays.contains(r));
            assert(run[i].rays.to_multiset().count(r) > 0);
            assert(rays0.contains(r));
            assert(root.has_leaf(bounds, lo, v.end) && enters(test, root, r, lo));
        }
        if self.due(test, rays0, k, id) {
            let (r, bounds, lo, hi) = choose|r: AccelRay, bounds: Seq<B>, lo: int, hi: int|
                {
                    &&& rays0.contains(r)
                    &&& r.id == id
                    &&& #[trigger] root.has_leaf(bounds, lo, hi)
                    &&& lo <= k < hi
                    &&& #[trigger] enters(test, root, r, lo)
                };
            let last = run.len() - 1;
            self.lemma_course_true(test, signs, run, rays0, last);
            run[last].rays.to_multiset_ensures();
            rays0.to_multiset_ensures();
            assert(rays0.to_multiset().count(r) > 0);
            assert(run[last].rays.contains(r));
            let j = choose|j: int| 0 <= j < run[last].rays.len() && run[last].rays[j] == r;
            self.lemma_steady_narrows(test, signs, run);
            self.lemma_traversal_misses_nothing(test, signs, run, rays0, j, bounds, lo, hi, k);
        }
    }

    /// What a traversal hands over does not depend on the order of the rays.
    /// Two steady courses, each from the beginning of a traversal to its end,
    /// over the same rays in different orders hand every object the same
    /// rays.
    pub proof fn lemma_order_of_rays_does_not_matter<P: Fn(&[B], &AccelRay) -> bool>(
        self,
        test: P,
        signs1: Seq<bool>,
        run1: Seq<Moment>,
        rays1: Seq<AccelRay>,
        signs2: Seq<bool>,
        run2: Seq<Moment>,
        rays2: Seq<AccelRay>,
        k: int,
        id: u32,
    )
        requires
            self.wf(),
            self@ is Some,
            decides(test),
            rays1.to_multiset() == rays2.to_multiset(),
            rays1.len() <= usize::MAX,
            self.begun(run1, rays1),
            ended(run1),
            self.steady_course(test, signs1, run1),
            self.begun(run2, rays2),
            ended(run2),
            self.steady_course(test, signs2, run2),
        ensures
            handed(run1, k, id) <==> handed(run2, k, id),
    {
        rays1.to_multiset_ensures();
        rays2.to_multiset_ensures();
        self.lemma_handed_what_is_due(test, signs1, run1, rays1, k, id);
        self.lemma_handed_what_is_due(test, signs2, run2, rays2, k, id);
        let root = self@->0;
        if self.due(test, rays1, k, id) {
            let (r, bounds, lo, hi) = choose|r: AccelRay, bounds: Seq<B>, lo: int, hi: int|
                {
                    &&& rays1.contains(r)
                    &&& r.id == id
                    &&& #[trigger] root.has_leaf(bounds, lo, hi)
                    &&& lo <= k < hi
                    &&& #[trigger] enters(test, root, r, lo)
                };
            assert(rays1.to_multiset().count(r) > 0);
            assert(rays2.contains(r));
            assert(root.has_leaf(bounds, lo, hi) && enters(test, root, r, lo));
        }
        if self.due(test, rays2, k, id) {
            let (r, bounds, lo, hi) = choose|r: AccelRay, bounds: Seq<B>, lo: int, hi: int|
                {
                    &&& rays2.contains(r)
                    &&& r.id == id
                    &&& #[trigger] root.has_leaf(bounds, lo, hi)
                    &&& lo <= k < hi
                    &&& #[trigger] enters(test, root, r, lo)
                };
            assert(rays2.to_multiset().count(r) > 0);
            assert(rays1.contains(r));
            assert(root.has_leaf(bounds, lo, hi) && enters(test, root, r, lo));
        }
    }

    /// Every object that a hierarchy was built over is owned by exactly one
    /// of its leaves, and no leaf owns anything else.
    pub proof fn lemma_every_object_in_one_leaf(self, k: int)
        requires
            self.wf(),
        ensures
            0 <= k < self.object_count() ==> self@ is Some && self@->0.leaves_holding(k) == 1,
            self@ is Some && !(0 <= k < self.object_count()) ==> self@->0.leaves_holding(k) == 0,
    {
        if self@ is Some {
            self@->0.lemma_exactly_one_leaf(k);
        }
    }

    /// No hierarchy is deeper than `BVH_MAX_DEPTH`.
    pub proof fn lemma_depth_bounded(self)
        requires
            self.wf(),
        ensures
            self@ is Some ==> self@->0.height() <= BVH_MAX_DEPTH && self@->0.well_formed(),
    {
    }

    /// The number of objects that the hierarchy was built over, read off
    /// the last leaf.  A hierarchy always satisfies its invariant, and this
    /// says so as well.
    pub fn object_total(&self) -> (n: usize)
        ensures
            self.wf(),
            n == self.object_count(),
    {
        proof {
            use_type_invariant(self);
        }
        match self.root {
            None => 0,
            Some(root) => {
                let mut node = root;
                loop
                    invariant
                        self.wf(),
                        self.root == Some(root),
                        self.subtree_ok(node as int),
                        self.tree_at(node as int).hi() == self.tree_at(root as int).hi(),
                    decreases self.nodes@.len() - node,
                {
                    assert(self.flat()[node as int] == self.nodes@[node as int].flat());
                    match self.nodes[node] {
                        BVHNode::Leaf { object_range, .. } => {
                            return object_range.1;
                        },
                        BVHNode::Internal { children, .. } => {
                            node = children.1;
                        },
                    }
                }
            },
        }
    }

    /// The depth of the tree: the number of edges from the root to the
    /// deepest leaf, and zero for an empty hierarchy.
    pub fn tree_depth(&self) -> (d: usize)
        ensures
            d <= BVH_MAX_DEPTH,
            d == match self@ {
                None => 0,
                Some(t) => t.height(),
            },
    {
        proof {
            use_type_invariant(self);
        }
        self.depth
    }
}

impl<B> Boundable<B> for BVH<B> {
    /// The motion slice of the root's bounds, or the single degenerate
    /// sample of an empty hierarchy.
    fn bounds(&self) -> (b: &[B])
        ensures
            b@.len() >= 1,
            b@ == match self@ {
                None => self.empty_bounds(),
                Some(t) => t.bounds(),
            },
    {
        proof {
            use_type_invariant(self);
        }
        match self.root {
            None => self.bounds.as_slice(),
            Some(root) => {
                assert(self.subtree_ok(root as int));
                assert(self.flat()[root as int] == self.nodes@[root as int].flat());
                let all = self.bounds.as_slice();
                let (bounds_start, bounds_len) = match self.nodes[root] {
                    BVHNode::Internal { bounds_start, bounds_len, .. } => (bounds_start, bounds_len),
                    BVHNode::Leaf { bounds_start, bounds_len, .. } => (bounds_start, bounds_len),
                };
                assert(bounds_start + bounds_len <= all.len());
                slice_subrange(all, bounds_start, bounds_start + bounds_len)
            },
        }
    }
}

} // verus!
