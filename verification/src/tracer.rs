use vstd::prelude::*;
use vstd::slice::slice_subrange;
use crate::accel::bvh::{add_tests, counted, ended, first_signs, handed_on, Moment, Visit};
use crate::accel::{TraversalStep, BVH};
use crate::algorithm::partition;
use crate::assembly::{Assembly, InstanceType, Object};
use crate::math::lanes::{lane_sign_positive, lanes_reciprocal};
use crate::math::{Matrix4x4, Vector};
use crate::ray::{AccelRay, Ray};
use crate::surface::{Surface, SurfaceIntersection};

verus! {

/// Whether `compose` can give `out` as the composition of the motion slices
/// `outer` and `inner` of transforms.
pub open spec fn composed<C: Fn(&[Matrix4x4], &[Matrix4x4]) -> Vec<Matrix4x4>>(
    compose: C,
    outer: Seq<Matrix4x4>,
    inner: Seq<Matrix4x4>,
    out: Seq<Matrix4x4>,
) -> bool {
    exists|x: &[Matrix4x4], y: &[Matrix4x4], v: Vec<Matrix4x4>|
        x@ == outer && y@ == inner && v@ == out && #[trigger] call_ensures(compose, (x, y), v)
}

/// The motion slice of the innermost of `levels`, empty when there is none.
pub open spec fn top_of(levels: Seq<Seq<Matrix4x4>>) -> Seq<Matrix4x4> {
    if levels.len() == 0 {
        Seq::empty()
    } else {
        levels.last()
    }
}

/// Whether `block` is the motion slice of the level that is entered by
/// `xforms` on top of `levels`, which hold `count` matrices in all: `xforms`
/// itself while nothing is stored, and otherwise what `compose` makes of the
/// innermost level and `xforms`.
pub open spec fn entered<C: Fn(&[Matrix4x4], &[Matrix4x4]) -> Vec<Matrix4x4>>(
    compose: C,
    levels: Seq<Seq<Matrix4x4>>,
    count: nat,
    xforms: Seq<Matrix4x4>,
    block: Seq<Matrix4x4>,
) -> bool {
    if count == 0 {
        block == xforms
    } else {
        composed(compose, top_of(levels), xforms, block)
    }
}

/// The transforms that lead from world space into the space being
/// traversed: one motion slice for every level entered, each already
/// composed with the levels below it.
pub struct TransformStack {
    stack: Vec<Matrix4x4>,
    stack_indices: Vec<usize>,
}

impl TransformStack {
    /// The invariant: there are at least two indices, the first two of them
    /// zero; they never decrease and end at the number of matrices stored.
    pub closed spec fn wf(self) -> bool {
        &&& self.stack_indices@.len() >= 2
        &&& self.stack_indices@[0] == 0
        &&& self.stack_indices@[1] == 0
        &&& forall|i: int, j: int|
            0 <= i <= j < self.stack_indices@.len() ==> self.stack_indices@[i]
                <= self.stack_indices@[j]
        &&& self.stack_indices@.last() == self.stack@.len()
    }

    /// The motion slices of the levels entered, the innermost last.
    pub closed spec fn levels(self) -> Seq<Seq<Matrix4x4>> {
        Seq::new(
            (self.stack_indices@.len() - 2) as nat,
            |k: int|
                self.stack@.subrange(
                    self.stack_indices@[k + 1] as int,
                    self.stack_indices@[k + 2] as int,
                ),
        )
    }

    /// The number of matrices stored on all levels together.
    pub closed spec fn count(self) -> nat {
        self.stack@.len()
    }

    /// The motion slice of the innermost level, empty when no level has been
    /// entered.
    pub open spec fn top_view(self) -> Seq<Matrix4x4> {
        top_of(self.levels())
    }

    /// How the number of matrices stored goes with the levels: with no
    /// level entered nothing is stored, every level's matrices are among
    /// those stored, and a stack on which nothing is stored has only empty
    /// levels.
    pub proof fn lemma_count_and_levels(self)
        requires
            self.wf(),
        ensures
            self.levels().len() == 0 ==> self.count() == 0,
            self.top_view().len() <= self.count(),
            self.top_view().len() > 0 ==> self.count() > 0,
            forall|k: int|
                0 <= k < self.levels().len() ==> (#[trigger] self.levels()[k]).len() <= self.count(),
    {
        let n = self.stack_indices@.len() as int;
        assert forall|k: int| 0 <= k < self.levels().len() implies (#[trigger] self.levels()[k]).len()
            <= self.count() by {
            assert(self.stack_indices@[k + 1] <= self.stack_indices@[k + 2]);
            assert(self.stack_indices@[k + 2] <= self.stack_indices@[n - 1]);
        }
        if self.levels().len() > 0 {
            assert(self.levels().last() == self.levels()[self.levels().len() - 1]);
        }
    }

    /// A stack with no level entered.
    pub fn new() -> (ts: TransformStack)
        ensures
            ts.wf(),
            ts.levels().len() == 0,
            ts.count() == 0,
    {
        let mut ts = TransformStack { stack: Vec::new(), stack_indices: Vec::new() };
        ts.stack_indices.push(0);
        ts.stack_indices.push(0);
        ts
    }

    /// Enters a level placed by the motion slice `xforms`.
    ///
    /// While nothing is stored the slice is taken as it is; otherwise the
    /// new level holds what `compose` makes of the innermost level and
    /// `xforms`.  The levels below stay as they are.
    pub fn push<C: Fn(&[Matrix4x4], &[Matrix4x4]) -> Vec<Matrix4x4>>(
        &mut self,
        xforms: &[Matrix4x4],
        compose: &C,
    )
        requires
            old(self).wf(),
            xforms@.len() > 0,
            forall|x: &[Matrix4x4], y: &[Matrix4x4]| call_requires(*compose, (x, y)),
        ensures
            final(self).wf(),
            final(self).levels().len() == old(self).levels().len() + 1,
            final(self).levels().drop_last() == old(self).levels(),
            old(self).count() == 0 ==> final(self).top_view() == xforms@,
            old(self).count() > 0 ==> composed(
                *compose,
                old(self).top_view(),
                xforms@,
                final(self).top_view(),
            ),
            final(self).count() == old(self).count() + final(self).top_view().len(),
    {
        let ghost before = *self;
        let ghost block: Seq<Matrix4x4>;
        if self.stack.len() == 0 {
            proof {
                block = xforms@;
            }
            let mut k: usize = 0;
            while k < xforms.len()
                invariant
                    k <= xforms@.len(),
                    self.stack@ == before.stack@ + xforms@.subrange(0, k as int),
                    self.stack_indices == before.stack_indices,
                decreases xforms@.len() - k,
            {
                self.stack.push(xforms[k]);
                k = k + 1;
            }
            assert(xforms@.subrange(0, k as int) =~= xforms@);
        } else {
            let product = {
                let top = self.top();
                compose(top, xforms)
            };
            proof {
                block = product@;
            }
            let mut k: usize = 0;
            while k < product.len()
                invariant
                    k <= product@.len(),
                    self.stack@ == before.stack@ + product@.subrange(0, k as int),
                    self.stack_indices == before.stack_indices,
                decreases product@.len() - k,
            {
                self.stack.push(product[k]);
                k = k + 1;
            }
            assert(product@.subrange(0, k as int) =~= product@);
        }
        self.stack_indices.push(self.stack.len());
        proof {
            assert(self.stack@ == before.stack@ + block);
            let n = before.stack_indices@.len() as int;
            assert(self.levels().last() =~= block);
            assert(self.levels().drop_last() =~= before.levels()) by {
                assert forall|k: int| 0 <= k < n - 2 implies #[trigger] self.levels()[k]
                    =~= before.levels()[k] by {
                    assert(before.stack_indices@[k + 2] <= before.stack_indices@[n - 1]);
                }
            }
        }
    }

    /// Leaves the innermost level.  The levels below stay as they are.
    pub fn pop(&mut self)
        requires
            old(self).wf(),
            old(self).levels().len() > 0,
        ensures
            final(self).wf(),
            final(self).levels() == old(self).levels().drop_last(),
            final(self).count() == old(self).count() - old(self).top_view().len(),
    {
        let ghost before = *self;
        let sil = self.stack_indices.len();
        let i1 = self.stack_indices[sil - 2];
        let i2 = self.stack_indices[sil - 1];
        let sl = self.stack.len();
        assert(i1 <= i2);
        self.stack.truncate(sl - (i2 - i1));
        self.stack_indices.pop();
        proof {
            assert(self.levels() =~= before.levels().drop_last()) by {
                assert forall|k: int| 0 <= k < sil - 3 implies #[trigger] self.levels()[k]
                    =~= before.levels()[k] by {
                    assert(before.stack_indices@[k + 2] <= before.stack_indices@[sil - 2]);
                }
            }
        }
    }

    /// The motion slice of the innermost level, empty when no level has been
    /// entered.
    pub fn top(&self) -> (top: &[Matrix4x4])
        requires
            self.wf(),
        ensures
            top@ == self.top_view(),
    {
        let sil = self.stack_indices.len();
        let i1 = self.stack_indices[sil - 2];
        let i2 = self.stack_indices[sil - 1];
        assert(i1 <= i2);
        let top = slice_subrange(self.stack.as_slice(), i1, i2);
        proof {
            if self.levels().len() == 0 {
                assert(i1 == 0 && i2 == 0);
                assert(top@ =~= Seq::empty());
            }
        }
        top
    }

    /// The number of levels entered.
    pub fn depth(&self) -> (d: usize)
        requires
            self.wf(),
        ensures
            d == self.levels().len(),
    {
        self.stack_indices.len() - 2
    }
}

/// Entering a level and leaving it again restores every level, and with
/// them the innermost motion slice, exactly: whatever `pushed` holds above
/// the levels of `before`, a stack `popped` that holds all but the last
/// level of `pushed` holds what `before` held.
pub proof fn lemma_push_then_pop_restores(
    before: TransformStack,
    pushed: TransformStack,
    popped: TransformStack,
)
    requires
        pushed.levels().len() == before.levels().len() + 1,
        pushed.levels().drop_last() == before.levels(),
        popped.levels() == pushed.levels().drop_last(),
    ensures
        popped.levels() == before.levels(),
        popped.top_view() == before.top_view(),
{
}

/// Whether every ray of `s` in `lo..hi` has the given sign along `axis`:
/// the sign bit of its reciprocal direction is clear, or is set.
pub open spec fn uniform(s: Seq<AccelRay>, lo: int, hi: int, axis: int, positive: bool) -> bool {
    forall|i: int|
        lo <= i < hi ==> lane_sign_positive((#[trigger] s[i]).dir_inv.co, axis) == positive
}

/// The octant of a ray's direction: 4 if the reciprocal direction has its
/// sign bit set along x, plus 2 if it has it set along y, plus 1 if it has it
/// set along z.  Zero counts by its sign.
pub open spec fn octant(r: AccelRay) -> int {
    (if lane_sign_positive(r.dir_inv.co, 0) {
        0int
    } else {
        4int
    }) + (if lane_sign_positive(r.dir_inv.co, 1) {
        0int
    } else {
        2int
    }) + (if lane_sign_positive(r.dir_inv.co, 2) {
        0int
    } else {
        1int
    })
}

/// Rearranges the rays in `lo..hi` so that those that are sign-positive
/// along `axis` come first, and returns where the others begin.  Rays
/// outside `lo..hi` stay where they are.
fn partition_range(rays: &mut [AccelRay], lo: usize, hi: usize, axis: usize) -> (mid: usize)
    requires
        lo <= hi <= old(rays)@.len(),
        axis < 3,
    ensures
        lo <= mid <= hi,
        final(rays)@.len() == old(rays)@.len(),
        final(rays)@.to_multiset() == old(rays)@.to_multiset(),
        forall|i: int|
            0 <= i < final(rays)@.len() && !(lo <= i < hi) ==> final(rays)@[i] == old(rays)@[i],
        uniform(final(rays)@, lo as int, mid as int, axis as int, true),
        uniform(final(rays)@, mid as int, hi as int, axis as int, false),
        forall|i: int|
            lo <= i < hi ==> old(rays)@.subrange(lo as int, hi as int).contains(
                #[trigger] final(rays)@[i],
            ),
{
    let (upto, after) = rays.split_at_mut(hi);
    let (before, range) = upto.split_at_mut(lo);
    let ghost range0 = range@;
    let positive = |r: &AccelRay| -> (k: bool)
        ensures
            k == lane_sign_positive(r.dir_inv.co, axis as int),
        { r.dir_sign_positive(axis) };
    let part = partition(range, positive);
    proof {
        let range1 = range@;
        assert(rays@ =~= before@ + range1 + after@);
        assert(old(rays)@ =~= before@ + range0 + after@);
        vstd::seq_lib::lemma_multiset_commutative(before@, range1);
        vstd::seq_lib::lemma_multiset_commutative(before@ + range1, after@);
        vstd::seq_lib::lemma_multiset_commutative(before@, range0);
        vstd::seq_lib::lemma_multiset_commutative(before@ + range0, after@);
        assert(old(rays)@.subrange(lo as int, hi as int) =~= range0);
        assert forall|i: int| lo <= i < hi implies range0.contains(#[trigger] rays@[i]) by {
            let x = range1[i - lo];
            assert(rays@[i] == x);
            range0.to_multiset_ensures();
            range1.to_multiset_ensures();
            assert(range1.contains(x));
            assert(range1.to_multiset().count(x) > 0);
            assert(range0.to_multiset().count(x) > 0);
        }
        assert forall|i: int| lo <= i < lo + part implies lane_sign_positive(
            (#[trigger] rays@[i]).dir_inv.co,
            axis as int,
        ) by {
            assert(call_ensures(positive, (&range1[i - lo],), true));
        }
        assert forall|i: int| lo + part <= i < hi implies !lane_sign_positive(
            (#[trigger] rays@[i]).dir_inv.co,
            axis as int,
        ) by {
            assert(call_ensures(positive, (&range1[i - lo],), false));
        }
    }
    lo + part
}

/// A rearrangement of `lo..hi` that takes every ray from that range keeps
/// what held of all rays in the range.
pub proof fn lemma_uniform_kept(
    before: Seq<AccelRay>,
    after: Seq<AccelRay>,
    lo: int,
    hi: int,
    axis: int,
    positive: bool,
)
    requires
        0 <= lo <= hi <= before.len(),
        uniform(before, lo, hi, axis, positive),
        forall|i: int| lo <= i < hi ==> before.subrange(lo, hi).contains(#[trigger] after[i]),
    ensures
        uniform(after, lo, hi, axis, positive),
{
    assert forall|i: int| lo <= i < hi implies lane_sign_positive((#[trigger] after[i]).dir_inv.co, axis)
        == positive by {
        let sub = before.subrange(lo, hi);
        assert(sub.contains(after[i]));
        let j = choose|j: int| 0 <= j < sub.len() && sub[j] == after[i];
        assert(before[lo + j] == after[i]);
    }
}

/// Rearranges `rays` into eight contiguous groups by the octant of their
/// direction, and returns the nine indices that bound the groups: the rays
/// of octant `k` are those in `cuts[k]..cuts[k + 1]`.
pub fn split_rays_by_direction(rays: &mut [AccelRay]) -> (cuts: [usize; 9])
    ensures
        octants_split(old(rays)@, final(rays)@, cuts@),
        final(rays)@.len() == old(rays)@.len(),
        final(rays)@.to_multiset() == old(rays)@.to_multiset(),
        cuts@[0] == 0,
        cuts@[8] == old(rays)@.len(),
        forall|j: int, k: int| 0 <= j <= k <= 8 ==> cuts@[j] <= cuts@[k],
        forall|k: int, i: int|
            #![trigger cuts@[k], final(rays)@[i]]
            0 <= k < 8 && cuts@[k] <= i < cuts@[k + 1] ==> octant(final(rays)@[i]) == k,
{
    split_in_three_rounds(rays)
}

/// Splits by the sign along x, then each half by the sign along y, then
/// each quarter by the sign along z.
#[verifier::rlimit(40)]
fn split_in_three_rounds(rays: &mut [AccelRay]) -> (cuts: [usize; 9])
    ensures
        final(rays)@.len() == old(rays)@.len(),
        final(rays)@.to_multiset() == old(rays)@.to_multiset(),
        cuts@[0] == 0,
        cuts@[8] == old(rays)@.len(),
        forall|j: int, k: int| 0 <= j <= k <= 8 ==> cuts@[j] <= cuts@[k],
        forall|k: int, i: int|
            #![trigger cuts@[k], final(rays)@[i]]
            0 <= k < 8 && cuts@[k] <= i < cuts@[k + 1] ==> octant(final(rays)@[i]) == k,
{
    let len = rays.len();
    let s4 = partition_range(rays, 0, len, 0);
    let ghost r1 = rays@;
    let s2 = partition_range(rays, 0, s4, 1);
    let ghost r2 = rays@;
    proof {
        lemma_uniform_kept(r1, r2, 0, s4 as int, 0, true);
    }
    let s6 = partition_range(rays, s4, len, 1);
    let ghost r3 = rays@;
    proof {
        lemma_uniform_kept(r2, r3, s4 as int, len as int, 0, false);
    }
    let s1 = partition_range(rays, 0, s2, 2);
    let ghost r4 = rays@;
    proof {
        lemma_uniform_kept(r3, r4, 0, s2 as int, 0, true);
        lemma_uniform_kept(r3, r4, 0, s2 as int, 1, true);
    }
    let s3 = partition_range(rays, s2, s4, 2);
    let ghost r5 = rays@;
    proof {
        lemma_uniform_kept(r4, r5, s2 as int, s4 as int, 0, true);
        lemma_uniform_kept(r4, r5, s2 as int, s4 as int, 1, false);
    }
    let s5 = partition_range(rays, s4, s6, 2);
    let ghost r6 = rays@;
    proof {
        lemma_uniform_kept(r5, r6, s4 as int, s6 as int, 0, false);
        lemma_uniform_kept(r5, r6, s4 as int, s6 as int, 1, true);
    }
    let s7 = partition_range(rays, s6, len, 2);
    proof {
        lemma_uniform_kept(r6, rays@, s6 as int, len as int, 0, false);
        lemma_uniform_kept(r6, rays@, s6 as int, len as int, 1, false);
    }
    [0, s1, s2, s3, s4, s5, s6, s7, len]
}

/// Whether the three functions that compute with coordinates can be called
/// on anything: `test` says whether a ray meets bounds, `compose` composes
/// two motion slices of transforms, and `sample` reads a motion slice of
/// transforms at a ray's time.
pub open spec fn kernels_callable<
    B,
    P: Fn(&[B], &AccelRay) -> bool,
    C: Fn(&[Matrix4x4], &[Matrix4x4]) -> Vec<Matrix4x4>,
    X: Fn(&[Matrix4x4], u32) -> Matrix4x4,
>(test: P, compose: C, sample: X) -> bool {
    &&& forall|s: &[B], r: &AccelRay| call_requires(test, (s, r))
    &&& forall|x: &[Matrix4x4], y: &[Matrix4x4]| call_requires(compose, (x, y))
    &&& forall|x: &[Matrix4x4], t: u32| call_requires(sample, (x, t))
}

/// What taking the ray `r0` into the space of `xforms` makes of it: the
/// ray relocated by its world ray through what `sample` reads from `xforms`
/// at the ray's time, or the ray itself if it names no world ray.
pub open spec fn localized<X: Fn(&[Matrix4x4], u32) -> Matrix4x4>(
    sample: X,
    wrays: Seq<Ray>,
    xforms: Seq<Matrix4x4>,
    r0: AccelRay,
    r1: AccelRay,
) -> bool {
    if r0.id < wrays.len() {
        exists|x: &[Matrix4x4], m: Matrix4x4|
            x@ == xforms && #[trigger] call_ensures(sample, (x, r0.time), m) && r1 == r0.relocated(
                wrays[r0.id as int],
                Some(m),
            )
    } else {
        r1 == r0
    }
}

/// Whether the rays `rays1` are the rays `rays0` taken into the space of
/// `xforms`, each in its place and at its own time.
pub open spec fn all_localized<X: Fn(&[Matrix4x4], u32) -> Matrix4x4>(
    sample: X,
    wrays: Seq<Ray>,
    xforms: Seq<Matrix4x4>,
    rays0: Seq<AccelRay>,
    rays1: Seq<AccelRay>,
) -> bool {
    &&& rays1.len() == rays0.len()
    &&& forall|i: int|
        0 <= i < rays0.len() ==> localized(sample, wrays, xforms, rays0[i], #[trigger] rays1[i])
}

/// Whether the rays `rays1` are the rays `rays0` taken back into world
/// space, each in its place.
pub open spec fn all_globalized(wrays: Seq<Ray>, rays0: Seq<AccelRay>, rays1: Seq<AccelRay>) -> bool {
    &&& rays1.len() == rays0.len()
    &&& forall|i: int| 0 <= i < rays0.len() ==> #[trigger] rays1[i] == globalized(wrays, rays0[i])
}

/// Whether the rays `after` are the rays `before` rearranged into the eight
/// octant groups that `cuts` bounds.
pub open spec fn octants_split(before: Seq<AccelRay>, after: Seq<AccelRay>, cuts: Seq<usize>) -> bool {
    &&& cuts.len() == 9
    &&& after.len() == before.len()
    &&& after.to_multiset() == before.to_multiset()
    &&& cuts[0] == 0
    &&& cuts[8] == before.len()
    &&& forall|j: int, k: int| 0 <= j <= k <= 8 ==> cuts[j] <= cuts[k]
    &&& forall|k: int, i: int|
        #![trigger cuts[k], after[i]]
        0 <= k < 8 && cuts[k] <= i < cuts[k + 1] ==> octant(after[i]) == k
}

/// What taking the ray `r0` back into world space makes of it.
pub open spec fn globalized(wrays: Seq<Ray>, r0: AccelRay) -> AccelRay {
    if r0.id < wrays.len() {
        r0.relocated(wrays[r0.id as int], None)
    } else {
        r0
    }
}

/// Takes every ray into the space that `xforms` leads to, each at its own
/// time.
pub fn localize<X: Fn(&[Matrix4x4], u32) -> Matrix4x4>(
    rays: &mut [AccelRay],
    wrays: &[Ray],
    xforms: &[Matrix4x4],
    sample: &X,
)
    requires
        forall|x: &[Matrix4x4], t: u32| call_requires(*sample, (x, t)),
    ensures
        final(rays)@.len() == old(rays)@.len(),
        forall|i: int|
            0 <= i < old(rays)@.len() ==> localized(
                *sample,
                wrays@,
                xforms@,
                old(rays)@[i],
                #[trigger] final(rays)@[i],
            ),
        all_localized(*sample, wrays@, xforms@, old(rays)@, final(rays)@),
{
    let mut i: usize = 0;
    while i < rays.len()
        invariant
            i <= rays@.len(),
            rays@.len() == old(rays)@.len(),
            forall|x: &[Matrix4x4], t: u32| call_requires(*sample, (x, t)),
            forall|k: int| i <= k < rays@.len() ==> rays@[k] == old(rays)@[k],
            forall|k: int|
                0 <= k < i ==> localized(*sample, wrays@, xforms@, old(rays)@[k], #[trigger] rays@[k]),
        decreases rays@.len() - i,
    {
        let mut ray = rays[i];
        let id = ray.id as usize;
        if id < wrays.len() {
            let mat = sample(xforms, ray.time);
            ray.update_from_xformed_world_ray(&wrays[id], &mat);
            rays[i] = ray;
        }
        i = i + 1;
    }
}

/// Takes every ray back into world space.
pub fn globalize(rays: &mut [AccelRay], wrays: &[Ray])
    ensures
        final(rays)@.len() == old(rays)@.len(),
        all_globalized(wrays@, old(rays)@, final(rays)@),
        forall|i: int|
            0 <= i < old(rays)@.len() ==> #[trigger] final(rays)@[i] == globalized(
                wrays@,
                old(rays)@[i],
            ),
{
    let mut i: usize = 0;
    while i < rays.len()
        invariant
            i <= rays@.len(),
            rays@.len() == old(rays)@.len(),
            forall|k: int| i <= k < rays@.len() ==> rays@[k] == old(rays)@[k],
            forall|k: int| 0 <= k < i ==> #[trigger] rays@[k] == globalized(wrays@, old(rays)@[k]),
        decreases rays@.len() - i,
    {
        let mut ray = rays[i];
        let id = ray.id as usize;
        if id < wrays.len() {
            ray.update_from_world_ray(&wrays[id]);
            rays[i] = ray;
        }
        i = i + 1;
    }
}

/// Holds of everything.  It gives a course that was taken a name by which
/// to point at it.
pub open spec fn named<A>(course: A) -> bool {
    true
}

/// Rays in the course of being traced, what has become of each world ray
/// so far, and the number of tests of a ray against a node made so far.
#[verifier::ext_equal]
pub struct Scene {
    pub rays: Seq<AccelRay>,
    pub isects: Seq<SurfaceIntersection>,
    pub tests: u64,
}

/// What has become of each world ray so far, and the number of tests of a
/// ray against a node made so far.
#[verifier::ext_equal]
pub struct Tally {
    pub isects: Seq<SurfaceIntersection>,
    pub tests: u64,
}

/// What tracing through an object does: a surface does to rays and results
/// what it says of itself, in the space given; a light changes nothing.
pub open spec fn object_traced<S: Surface, L>(
    obj: Object<S, L>,
    wrays: Seq<Ray>,
    space: Seq<Matrix4x4>,
    s0: Scene,
    s1: Scene,
) -> bool {
    match obj {
        Object::Surface(surface) => s1.tests == s0.tests && surface.intersected(
            s0.rays,
            wrays,
            s0.isects,
            space,
            s1.rays,
            s1.isects,
        ),
        Object::Light(_) => s1 == s0,
    }
}

/// What tracing through what instance `k` of `assembly` refers to does,
/// with the transform `levels` entered: an object is traced in the space of
/// the innermost level, an assembly is traced in turn.
pub open spec fn range_traced<
    S: Surface,
    L,
    B,
    P: Fn(&[B], &AccelRay) -> bool,
    C: Fn(&[Matrix4x4], &[Matrix4x4]) -> Vec<Matrix4x4>,
    X: Fn(&[Matrix4x4], u32) -> Matrix4x4,
>(
    assembly: Assembly<S, L, B>,
    k: int,
    test: P,
    compose: C,
    sample: X,
    wrays: Seq<Ray>,
    levels: Seq<Seq<Matrix4x4>>,
    count: nat,
    s0: Scene,
    s1: Scene,
) -> bool
    decreases assembly, 0nat,
{
    let inst = assembly.instances@[k];
    match inst.instance_type {
        InstanceType::Object => inst.data_index < assembly.objects@.len() && object_traced(
            assembly.objects@[inst.data_index as int],
            wrays,
            top_of(levels),
            s0,
            s1,
        ),
        InstanceType::Assembly => inst.data_index < assembly.assemblies@.len() && assembly_traced(
            assembly.assemblies@[inst.data_index as int],
            test,
            compose,
            sample,
            wrays,
            levels,
            count,
            s0,
            s1,
        ),
    }
}

/// What tracing one octant does, the rays `from..to` of the scene: if there
/// are any, they are traced through what instance `k` refers to and nothing
/// else changes; if there are none, nothing changes.
pub open spec fn octant_traced<
    S: Surface,
    L,
    B,
    P: Fn(&[B], &AccelRay) -> bool,
    C: Fn(&[Matrix4x4], &[Matrix4x4]) -> Vec<Matrix4x4>,
    X: Fn(&[Matrix4x4], u32) -> Matrix4x4,
>(
    assembly: Assembly<S, L, B>,
    k: int,
    test: P,
    compose: C,
    sample: X,
    wrays: Seq<Ray>,
    levels: Seq<Seq<Matrix4x4>>,
    count: nat,
    from: int,
    to: int,
    s0: Scene,
    s1: Scene,
) -> bool
    decreases assembly, 1nat,
{
    if from < to {
        &&& s1.rays.len() == s0.rays.len()
        &&& s1.rays.take(from) == s0.rays.take(from)
        &&& s1.rays.skip(to) == s0.rays.skip(to)
        &&& range_traced(
            assembly,
            k,
            test,
            compose,
            sample,
            wrays,
            levels,
            count,
            Scene { rays: s0.rays.subrange(from, to), isects: s0.isects, tests: s0.tests },
            Scene { rays: s1.rays.subrange(from, to), isects: s1.isects, tests: s1.tests },
        )
    } else {
        s1 == s0
    }
}

/// The course that tracing through an instance with a transform takes:
/// the level `block` is entered; the rays are taken into its space, which
/// gives `inside`; these are split by octant at `cuts`, which gives the
/// first of `chain`; the eight octants are traced one after the other, each
/// leading from one scene of `chain` to the next; the level is left; and the
/// rays are taken back into the space they came from, or into world space
/// if there is none.
pub open spec fn instance_course<
    S: Surface,
    L,
    B,
    P: Fn(&[B], &AccelRay) -> bool,
    C: Fn(&[Matrix4x4], &[Matrix4x4]) -> Vec<Matrix4x4>,
    X: Fn(&[Matrix4x4], u32) -> Matrix4x4,
>(
    assembly: Assembly<S, L, B>,
    k: int,
    test: P,
    compose: C,
    sample: X,
    wrays: Seq<Ray>,
    levels: Seq<Seq<Matrix4x4>>,
    count: nat,
    s0: Scene,
    s1: Scene,
    block: Seq<Matrix4x4>,
    inside: Seq<AccelRay>,
    cuts: Seq<usize>,
    chain: Seq<Scene>,
) -> bool
    decreases assembly, 2nat,
{
    let placed = assembly.instances@[k].transform_indices.unwrap();
    &&& entered(
        compose,
        levels,
        count,
        assembly.xforms@.subrange(placed.0 as int, placed.1 as int),
        block,
    )
    &&& all_localized(sample, wrays, block, s0.rays, inside)
    &&& chain.len() == 9
    &&& octants_split(inside, chain[0].rays, cuts)
    &&& chain[0].isects == s0.isects
    &&& chain[0].tests == s0.tests
    &&& forall|o: int|
        0 <= o < 8 ==> octant_traced(
            assembly,
            k,
            test,
            compose,
            sample,
            wrays,
            levels.push(block),
            count + block.len(),
            cuts[o] as int,
            cuts[o + 1] as int,
            #[trigger] chain[o],
            chain[o + 1],
        )
    &&& s1.isects == chain[8].isects
    &&& s1.tests == chain[8].tests
    &&& if top_of(levels).len() > 0 {
        all_localized(sample, wrays, top_of(levels), chain[8].rays, s1.rays)
    } else {
        all_globalized(wrays, chain[8].rays, s1.rays)
    }
}

/// What tracing through instance `k` of `assembly` does: without a
/// transform, what `range_traced` says; with one, some course as
/// `instance_course` describes it.
pub open spec fn instance_traced<
    S: Surface,
    L,
    B,
    P: Fn(&[B], &AccelRay) -> bool,
    C: Fn(&[Matrix4x4], &[Matrix4x4]) -> Vec<Matrix4x4>,
    X: Fn(&[Matrix4x4], u32) -> Matrix4x4,
>(
    assembly: Assembly<S, L, B>,
    k: int,
    test: P,
    compose: C,
    sample: X,
    wrays: Seq<Ray>,
    levels: Seq<Seq<Matrix4x4>>,
    count: nat,
    s0: Scene,
    s1: Scene,
) -> bool
    decreases assembly, 3nat,
{
    if assembly.instances@[k].transform_indices is Some {
        exists|block: Seq<Matrix4x4>, inside: Seq<AccelRay>, cuts: Seq<usize>, chain: Seq<Scene>| #[trigger]
            named((block, inside, cuts, chain)) && instance_course(
                assembly,
                k,
                test,
                compose,
                sample,
                wrays,
                levels,
                count,
                s0,
                s1,
                block,
                inside,
                cuts,
                chain,
            )
    } else {
        range_traced(assembly, k, test, compose, sample, wrays, levels, count, s0, s1)
    }
}

/// Whether the course of tracing through `assembly` can move from the moment
/// `m0` with the results `r0` to the moment `m1` with the results `r1`: by a
/// step of the traversal, which leaves the results alone and counts the
/// rays that were active for the tested node as tests, or by tracing the
/// next instance of the leaf being visited with the leading rays that
/// entered the leaf.
pub open spec fn moved<
    S: Surface,
    L,
    B,
    P: Fn(&[B], &AccelRay) -> bool,
    C: Fn(&[Matrix4x4], &[Matrix4x4]) -> Vec<Matrix4x4>,
    X: Fn(&[Matrix4x4], u32) -> Matrix4x4,
>(
    assembly: Assembly<S, L, B>,
    test: P,
    compose: C,
    sample: X,
    wrays: Seq<Ray>,
    levels: Seq<Seq<Matrix4x4>>,
    count: nat,
    signs: Seq<bool>,
    m0: Moment,
    m1: Moment,
    r0: Tally,
    r1: Tally,
) -> bool
    decreases assembly, 4nat,
{
    ||| assembly.object_accel.advanced(test, signs, m0, m1) && r1.isects == r0.isects && r1.tests
        == counted(r0.tests, m0.stack.last().1)
    ||| {
        &&& handed_on(m0, m1)
        &&& 0 <= m0.visit.unwrap().next < assembly.instances@.len()
        &&& instance_traced(
            assembly,
            m0.visit.unwrap().next,
            test,
            compose,
            sample,
            wrays,
            levels,
            count,
            Scene { rays: m0.rays.take(m0.visit.unwrap().part), isects: r0.isects, tests: r0.tests },
            Scene { rays: m1.rays.take(m0.visit.unwrap().part), isects: r1.isects, tests: r1.tests },
        )
    }
}

/// The course that tracing through an assembly takes: `run` is a course of
/// moments of the traversal of the assembly's hierarchy, from its beginning
/// to its end, and `results` holds what has become of the world rays at each
/// of these moments.  From one moment to the next either a step of the
/// traversal is taken, which leaves the results alone, or the next instance
/// of the leaf being visited is traced with the leading rays that entered
/// the leaf.
pub open spec fn assembly_course<
    S: Surface,
    L,
    B,
    P: Fn(&[B], &AccelRay) -> bool,
    C: Fn(&[Matrix4x4], &[Matrix4x4]) -> Vec<Matrix4x4>,
    X: Fn(&[Matrix4x4], u32) -> Matrix4x4,
>(
    assembly: Assembly<S, L, B>,
    test: P,
    compose: C,
    sample: X,
    wrays: Seq<Ray>,
    levels: Seq<Seq<Matrix4x4>>,
    count: nat,
    s0: Scene,
    s1: Scene,
    run: Seq<Moment>,
    results: Seq<Tally>,
) -> bool
    decreases assembly, 5nat,
{
    &&& assembly.object_accel.begun(run, s0.rays)
    &&& results.len() == run.len()
    &&& results[0] == (Tally { isects: s0.isects, tests: s0.tests })
    &&& ended(run)
    &&& s1.rays == run.last().rays
    &&& s1.isects == results.last().isects
    &&& s1.tests == results.last().tests
    &&& forall|i: int|
        0 <= i < run.len() - 1 ==> moved(
            assembly,
            test,
            compose,
            sample,
            wrays,
            levels,
            count,
            first_signs(s0.rays),
            #[trigger] run[i],
            run[i + 1],
            results[i],
            results[i + 1],
        )
}

/// What tracing through an assembly does: some course as `assembly_course`
/// describes it leads from the scene `s0` to the scene `s1`.
pub open spec fn assembly_traced<
    S: Surface,
    L,
    B,
    P: Fn(&[B], &AccelRay) -> bool,
    C: Fn(&[Matrix4x4], &[Matrix4x4]) -> Vec<Matrix4x4>,
    X: Fn(&[Matrix4x4], u32) -> Matrix4x4,
>(
    assembly: Assembly<S, L, B>,
    test: P,
    compose: C,
    sample: X,
    wrays: Seq<Ray>,
    levels: Seq<Seq<Matrix4x4>>,
    count: nat,
    s0: Scene,
    s1: Scene,
) -> bool
    decreases assembly, 6nat,
{
    exists|run: Seq<Moment>, results: Seq<Tally>| #[trigger]
        named((run, results)) && assembly_course(
            assembly,
            test,
            compose,
            sample,
            wrays,
            levels,
            count,
            s0,
            s1,
            run,
            results,
        )
}

/// The traversal rays that tracing starts with: one for each world ray, in
/// world space, with no flag set and its position as `id`.
pub open spec fn fresh_rays(wrays: Seq<Ray>) -> Seq<AccelRay> {
    Seq::new(
        wrays.len(),
        |i: int|
            AccelRay {
                orig: wrays[i].orig,
                dir_inv: Vector { co: lanes_reciprocal(wrays[i].dir.co) },
                max_t: wrays[i].max_t,
                time: wrays[i].time,
                flags: 0,
                id: i as u32,
            },
    )
}

/// The results that tracing starts with: `n` misses.
pub open spec fn all_misses(n: nat) -> Seq<SurfaceIntersection> {
    Seq::new(n, |i: int| SurfaceIntersection::Miss)
}

/// Walks an assembly graph with batches of rays.
pub struct Tracer<'a, S, L, B> {
    root: &'a Assembly<S, L, B>,
    rays: Vec<AccelRay>,
    xform_stack: TransformStack,
    isects: Vec<SurfaceIntersection>,
    node_tests: u64,
}

impl<'a, S: Surface, L, B> Tracer<'a, S, L, B> {
    /// The assembly that is traced.
    pub closed spec fn root(self) -> Assembly<S, L, B> {
        *self.root
    }

    /// The invariant between calls: the assembly hangs together and no
    /// transform level is entered.
    pub closed spec fn wf(self) -> bool {
        &&& self.root.wf()
        &&& self.xform_stack.wf()
        &&& self.xform_stack.levels().len() == 0
        &&& self.xform_stack.count() == 0
    }

    /// The number of tests of a ray against a node of a hierarchy that all
    /// tracing so far has made; the count stops at the largest number it can
    /// hold.
    pub closed spec fn tests(self) -> u64 {
        self.node_tests
    }

    /// The number of tests of a ray against a node of a hierarchy that all
    /// tracing so far has made.
    pub fn node_tests(&self) -> (n: u64)
        ensures
            n == self.tests(),
    {
        self.node_tests
    }

    /// A tracer for the scene below `assembly`.
    pub fn from_assembly(assembly: &'a Assembly<S, L, B>) -> (tracer: Tracer<'a, S, L, B>)
        requires
            assembly.wf(),
        ensures
            tracer.wf(),
            tracer.root() == *assembly,
            tracer.tests() == 0,
    {
        Tracer {
            root: assembly,
            rays: Vec::new(),
            xform_stack: TransformStack::new(),
            isects: Vec::new(),
            node_tests: 0,
        }
    }

    /// Traces the world rays `wrays` through the scene and returns what
    /// became of each, in the order of `wrays`.
    ///
    /// Every world ray is given a traversal ray with its position as `id`,
    /// every result starts as a miss, and the root assembly is traced with no
    /// transform level entered, as `assembly_traced` says.  No transform
    /// level stays entered.
    pub fn trace<P, C, X>(&mut self, wrays: &[Ray], test: &P, compose: &C, sample: &X) -> (isects:
        &[SurfaceIntersection]) where
        P: Fn(&[B], &AccelRay) -> bool,
        C: Fn(&[Matrix4x4], &[Matrix4x4]) -> Vec<Matrix4x4>,
        X: Fn(&[Matrix4x4], u32) -> Matrix4x4,

        requires
            old(self).wf(),
            wrays@.len() <= u32::MAX,
            kernels_callable(*test, *compose, *sample),
        ensures
            final(self).wf(),
            final(self).root() == old(self).root(),
            isects@.len() == wrays@.len(),
            old(self).root().object_accel@ is None ==> forall|i: int|
                0 <= i < isects@.len() ==> #[trigger] isects@[i] is Miss,
            exists|left: Seq<AccelRay>| #[trigger]
                named(left) && assembly_traced(
                    old(self).root(),
                    *test,
                    *compose,
                    *sample,
                    wrays@,
                    Seq::empty(),
                    0,
                    Scene {
                        rays: fresh_rays(wrays@),
                        isects: all_misses(wrays@.len()),
                        tests: old(self).tests(),
                    },
                    Scene { rays: left, isects: isects@, tests: final(self).tests() },
                ),
    {
        self.rays.clear();
        self.isects.clear();
        let mut i: usize = 0;
        while i < wrays.len()
            invariant
                i <= wrays@.len() <= u32::MAX,
                self.rays@ == fresh_rays(wrays@).take(i as int),
                self.isects@ == all_misses(i as nat),
                self.root == old(self).root,
                self.xform_stack == old(self).xform_stack,
                self.node_tests == old(self).node_tests,
            decreases wrays@.len() - i,
        {
            self.rays.push(AccelRay::new(&wrays[i], i as u32));
            self.isects.push(SurfaceIntersection::Miss);
            i = i + 1;
        }
        assert(fresh_rays(wrays@).take(i as int) =~= fresh_rays(wrays@));
        assert(self.xform_stack.levels() =~= Seq::empty());
        Self::trace_assembly(
            self.root,
            wrays,
            self.rays.as_mut_slice(),
            &mut self.xform_stack,
            self.isects.as_mut_slice(),
            &mut self.node_tests,
            test,
            compose,
            sample,
        );
        assert(named(self.rays@));
        self.isects.as_slice()
    }

    /// Traces `accel_rays` through `assembly`: traverses the hierarchy over
    /// its instances and, for every leaf that rays enter, traces those rays
    /// through each instance of the leaf.
    ///
    /// What is done, step by step, is what `assembly_traced` says.  The
    /// transform levels are afterwards what they were before, and
    /// `node_tests` has grown by the tests of rays against nodes that were
    /// made, here and in the assemblies below.
    #[verifier::loop_isolation(false)]
    #[verifier::rlimit(60)]
    pub fn trace_assembly<P, C, X>(
        assembly: &Assembly<S, L, B>,
        wrays: &[Ray],
        accel_rays: &mut [AccelRay],
        xform_stack: &mut TransformStack,
        isects: &mut [SurfaceIntersection],
        node_tests: &mut u64,
        test: &P,
        compose: &C,
        sample: &X,
    ) where
        P: Fn(&[B], &AccelRay) -> bool,
        C: Fn(&[Matrix4x4], &[Matrix4x4]) -> Vec<Matrix4x4>,
        X: Fn(&[Matrix4x4], u32) -> Matrix4x4,

        requires
            assembly.wf(),
            old(xform_stack).wf(),
            wrays@.len() == old(isects)@.len(),
            kernels_callable(*test, *compose, *sample),
        ensures
            final(accel_rays)@.len() == old(accel_rays)@.len(),
            final(isects)@.len() == old(isects)@.len(),
            final(xform_stack).wf(),
            final(xform_stack).levels() == old(xform_stack).levels(),
            final(xform_stack).count() == old(xform_stack).count(),
            assembly.object_accel@ is None ==> final(accel_rays)@ == old(accel_rays)@ && final(isects)@
                == old(isects)@ && *final(node_tests) == *old(node_tests),
            assembly_traced(
                *assembly,
                *test,
                *compose,
                *sample,
                wrays@,
                old(xform_stack).levels(),
                old(xform_stack).count(),
                Scene { rays: old(accel_rays)@, isects: old(isects)@, tests: *old(node_tests) },
                Scene {
                    rays: final(accel_rays)@,
                    isects: final(isects)@,
                    tests: *final(node_tests),
                },
            ),
        decreases assembly, 2nat,
    {
        let accel = &assembly.object_accel;
        let ghost scene0 = Scene { rays: accel_rays@, isects: isects@, tests: *node_tests };
        let ghost levels0 = xform_stack.levels();
        let ghost count0 = xform_stack.count();
        let ghost signs = first_signs(accel_rays@);
        let mut cur = accel.start(accel_rays);
        let ghost mut run: Seq<Moment> = seq![
            Moment { stack: cur@, rays: accel_rays@, tests: 0, visit: None },
        ];
        let ghost mut results: Seq<Tally> = seq![Tally { isects: isects@, tests: *node_tests }];
        loop
            invariant
                accel.admits(cur@, scene0.rays.len() as int),
                accel_rays@.len() == scene0.rays.len(),
                isects@.len() == scene0.isects.len(),
                xform_stack.wf(),
                xform_stack.levels() == levels0,
                xform_stack.count() == count0,
                accel@ is None ==> cur@.len() == 0 && accel_rays@ == scene0.rays && isects@
                    == scene0.isects && *node_tests == scene0.tests,
                scene0.rays.len() == 0 ==> cur@.len() == 0,
                scene0.rays.len() > 0 ==> cur.signs() == signs,
                accel.begun(run, scene0.rays),
                results.len() == run.len(),
                results[0] == (Tally { isects: scene0.isects, tests: scene0.tests }),
                results.last() == (Tally { isects: isects@, tests: *node_tests }),
                run.last() == (Moment {
                    stack: cur@,
                    rays: accel_rays@,
                    tests: cur.tests(),
                    visit: None,
                }),
                forall|i: int|
                    0 <= i < run.len() - 1 ==> moved(
                        *assembly,
                        *test,
                        *compose,
                        *sample,
                        wrays@,
                        levels0,
                        count0,
                        signs,
                        #[trigger] run[i],
                        run[i + 1],
                        results[i],
                        results[i + 1],
                    ),
            decreases accel.pending(cur@),
        {
            let ghost m0 = run.last();
            let ghost tests0 = *node_tests;
            let active = cur.active();
            let out = accel.step(&mut cur, accel_rays, test);
            match out {
                TraversalStep::Finished => {},
                _ => {
                    *node_tests = add_tests(*node_tests, active);
                },
            }
            match out {
                TraversalStep::Finished => {
                    proof {
                        let s1 = Scene { rays: accel_rays@, isects: isects@, tests: *node_tests };
                        assert(assembly_course(
                            *assembly,
                            *test,
                            *compose,
                            *sample,
                            wrays@,
                            levels0,
                            count0,
                            scene0,
                            s1,
                            run,
                            results,
                        ));
                        assert(named((run, results)));
                    }
                    return ;
                },
                TraversalStep::Leaf { lo, hi, part } => {
                    let ghost m1 = Moment {
                        stack: cur@,
                        rays: accel_rays@,
                        tests: cur.tests(),
                        visit: Some(Visit { next: lo as int, end: hi as int, part: part as int }),
                    };
                    proof {
                        run = run.push(m1);
                        results = results.push(Tally { isects: isects@, tests: *node_tests });
                        assert(run.last() == m1);
                        assert(m0.stack.len() > 0);
                        assert(accel.stepped(
                            *test,
                            signs,
                            m0.stack,
                            m0.rays,
                            out,
                            m1.stack,
                            m1.rays,
                        ));
                        assert(accel.advanced(*test, signs, m0, m1));
                        assert(*node_tests == counted(tests0, m0.stack.last().1));
                    }
                    let (rs, rest) = accel_rays.split_at_mut(part);
                    let mut k = lo;
                    while k < hi
                        invariant
                            lo <= k <= hi,
                            rs@.len() == part,
                            isects@.len() == scene0.isects.len(),
                            xform_stack.wf(),
                            xform_stack.levels() == levels0,
                            xform_stack.count() == count0,
                            accel.begun(run, scene0.rays),
                            results.len() == run.len(),
                            results[0] == (Tally { isects: scene0.isects, tests: scene0.tests }),
                            results.last() == (Tally { isects: isects@, tests: *node_tests }),
                            run.last() == (Moment {
                                stack: cur@,
                                rays: rs@ + rest@,
                                tests: cur.tests(),
                                visit: if k < hi {
                                    Some(Visit { next: k as int, end: hi as int, part: part as int })
                                } else {
                                    None
                                },
                            }),
                            forall|i: int|
                                0 <= i < run.len() - 1 ==> moved(
                                    *assembly,
                                    *test,
                                    *compose,
                                    *sample,
                                    wrays@,
                                    levels0,
                                    count0,
                                    signs,
                                    #[trigger] run[i],
                                    run[i + 1],
                                    results[i],
                                    results[i + 1],
                                ),
                        decreases hi - k,
                    {
                        let ghost before_turn = run.last();
                        let ghost rs0 = rs@;
                        let ghost isects0 = isects@;
                    let ghost tests0 = *node_tests;
                        Self::trace_instance(
                            assembly,
                            k,
                            wrays,
                            rs,
                            xform_stack,
                            isects,
                            node_tests,
                            test,
                            compose,
                            sample,
                        );
                        k = k + 1;
                        proof {
                            let after_turn = Moment {
                                stack: cur@,
                                rays: rs@ + rest@,
                                tests: cur.tests(),
                                visit: if k < hi {
                                    Some(Visit { next: k as int, end: hi as int, part: part as int })
                                } else {
                                    None
                                },
                            };
                            run = run.push(after_turn);
                            results = results.push(Tally { isects: isects@, tests: *node_tests });
                            assert((rs0 + rest@).take(part as int) =~= rs0);
                            assert((rs@ + rest@).take(part as int) =~= rs@);
                            assert((rs0 + rest@).skip(part as int) =~= (rs@ + rest@).skip(
                                part as int,
                            ));
                            assert(handed_on(before_turn, after_turn));
                            assert(Scene { rays: before_turn.rays.take(part as int), isects: isects0, tests: tests0 }
                                =~= Scene { rays: rs0, isects: isects0, tests: tests0 });
                            assert(Scene { rays: after_turn.rays.take(part as int), isects: isects@, tests: *node_tests }
                                =~= Scene { rays: rs@, isects: isects@, tests: *node_tests });
                            assert(moved(
                                *assembly,
                                *test,
                                *compose,
                                *sample,
                                wrays@,
                                levels0,
                                count0,
                                signs,
                                before_turn,
                                after_turn,
                                Tally { isects: isects0, tests: tests0 },
                                Tally { isects: isects@, tests: *node_tests },
                            ));
                        }
                    }
                    assert(accel_rays@ =~= rs@ + rest@);
                },
                _ => {
                    let ghost m1 = Moment {
                        stack: cur@,
                        rays: accel_rays@,
                        tests: cur.tests(),
                        visit: None,
                    };
                    proof {
                        run = run.push(m1);
                        results = results.push(Tally { isects: isects@, tests: *node_tests });
                        assert(run.last() == m1);
                        assert(m0.stack.len() > 0);
                        assert(accel.stepped(
                            *test,
                            signs,
                            m0.stack,
                            m0.rays,
                            out,
                            m1.stack,
                            m1.rays,
                        ));
                        assert(accel.advanced(*test, signs, m0, m1));
                        assert(*node_tests == counted(tests0, m0.stack.last().1));
                    }
                },
            }
        }
    }

    /// Traces `rs` through instance `k` of `assembly`.
    ///
    /// An instance with a transform has its level entered and the rays taken
    /// into its space; the rays are then split by direction octant and each
    /// octant is traced on its own; at the end the level is left and the
    /// rays are taken back to where they were.  An instance without one is
    /// traced as the rays stand.  All of this is what `instance_traced` says.
    #[verifier::loop_isolation(false)]
    #[verifier::rlimit(60)]
    fn trace_instance<P, C, X>(
        assembly: &Assembly<S, L, B>,
        k: usize,
        wrays: &[Ray],
        rs: &mut [AccelRay],
        xform_stack: &mut TransformStack,
        isects: &mut [SurfaceIntersection],
        node_tests: &mut u64,
        test: &P,
        compose: &C,
        sample: &X,
    ) where
        P: Fn(&[B], &AccelRay) -> bool,
        C: Fn(&[Matrix4x4], &[Matrix4x4]) -> Vec<Matrix4x4>,
        X: Fn(&[Matrix4x4], u32) -> Matrix4x4,

        requires
            assembly.wf(),
            k < assembly.instances@.len(),
            old(rs)@.len() > 0,
            old(xform_stack).wf(),
            wrays@.len() == old(isects)@.len(),
            kernels_callable(*test, *compose, *sample),
        ensures
            final(rs)@.len() == old(rs)@.len(),
            final(isects)@.len() == old(isects)@.len(),
            final(xform_stack).wf(),
            final(xform_stack).levels() == old(xform_stack).levels(),
            final(xform_stack).count() == old(xform_stack).count(),
            instance_traced(
                *assembly,
                k as int,
                *test,
                *compose,
                *sample,
                wrays@,
                old(xform_stack).levels(),
                old(xform_stack).count(),
                Scene { rays: old(rs)@, isects: old(isects)@, tests: *old(node_tests) },
                Scene {
                    rays: final(rs)@,
                    isects: final(isects)@,
                    tests: *final(node_tests),
                },
            ),
        decreases assembly, 1nat,
    {
        assert(assembly.instance_ok(k as int));
        let inst = assembly.instances[k];
        let ghost scene0 = Scene { rays: rs@, isects: isects@, tests: *node_tests };
        let ghost levels0 = xform_stack.levels();
        let ghost count0 = xform_stack.count();
        match inst.transform_indices {
            Some((xstart, xend)) => {
                let xforms = slice_subrange(assembly.xforms.as_slice(), xstart, xend);
                xform_stack.push(xforms, compose);
                let ghost block = xform_stack.top_view();
                let ghost levels1 = levels0.push(block);
                let ghost count1 = count0 + block.len();
                assert(xform_stack.levels() =~= levels1);
                assert(entered(*compose, levels0, count0, xforms@, block));
                localize(rs, wrays, xform_stack.top(), sample);
                let ghost inside = rs@;
                let cuts = split_rays_by_direction(rs);
                let ghost mut chain: Seq<Scene> = seq![Scene { rays: rs@, isects: isects@, tests: *node_tests }];
                let ghost first = chain[0];
                let mut o: usize = 0;
                while o < 8
                    invariant
                        o <= 8,
                        rs@.len() == scene0.rays.len(),
                        isects@.len() == scene0.isects.len(),
                        xform_stack.wf(),
                        xform_stack.levels() == levels1,
                        xform_stack.count() == count1,
                        chain.len() == o + 1,
                        chain[0] == first,
                        chain.last() == (Scene { rays: rs@, isects: isects@, tests: *node_tests }),
                        forall|j: int|
                            0 <= j < o ==> octant_traced(
                                *assembly,
                                k as int,
                                *test,
                                *compose,
                                *sample,
                                wrays@,
                                levels1,
                                count1,
                                cuts@[j] as int,
                                cuts@[j + 1] as int,
                                #[trigger] chain[j],
                                chain[j + 1],
                            ),
                    decreases 8 - o,
                {
                    let from = cuts[o];
                    let to = cuts[o + 1];
                    assert(cuts@[o as int] <= cuts@[o + 1] <= cuts@[8]);
                    let ghost c0 = chain.last();
                    let ghost isects0 = isects@;
                    let ghost tests0 = *node_tests;
                    let ghost mut set0: Seq<AccelRay> = Seq::empty();
                    let ghost mut set1: Seq<AccelRay> = Seq::empty();
                    let ghost mut lead: Seq<AccelRay> = Seq::empty();
                    let ghost mut tail: Seq<AccelRay> = Seq::empty();
                    if from < to {
                        let (upto, after) = rs.split_at_mut(to);
                        let (before, ray_set) = upto.split_at_mut(from);
                        proof {
                            set0 = ray_set@;
                            lead = before@;
                            tail = after@;
                        }
                        Self::trace_range(
                            assembly,
                            k,
                            wrays,
                            ray_set,
                            xform_stack,
                            isects,
                            node_tests,
                            test,
                            compose,
                            sample,
                        );
                        proof {
                            set1 = ray_set@;
                        }
                    }
                    proof {
                        let c1 = Scene { rays: rs@, isects: isects@, tests: *node_tests };
                        chain = chain.push(c1);
                        if from < to {
                            assert(c0.rays =~= lead + set0 + tail);
                            assert(c1.rays =~= lead + set1 + tail);
                            assert(c1.rays.take(from as int) =~= c0.rays.take(from as int));
                            assert(c1.rays.skip(to as int) =~= c0.rays.skip(to as int));
                            assert(Scene { rays: c0.rays.subrange(from as int, to as int), isects: c0.isects, tests: c0.tests }
                                =~= Scene { rays: set0, isects: isects0, tests: tests0 });
                            assert(Scene { rays: c1.rays.subrange(from as int, to as int), isects: c1.isects, tests: c1.tests }
                                =~= Scene { rays: set1, isects: isects@, tests: *node_tests });
                        } else {
                            assert(c1 =~= c0);
                        }
                        assert(octant_traced(
                            *assembly,
                            k as int,
                            *test,
                            *compose,
                            *sample,
                            wrays@,
                            levels1,
                            count1,
                            from as int,
                            to as int,
                            c0,
                            c1,
                        ));
                    }
                    o = o + 1;
                }
                xform_stack.pop();
                assert(xform_stack.levels() =~= levels0);
                let top = xform_stack.top();
                if top.len() > 0 {
                    localize(rs, wrays, top, sample);
                } else {
                    globalize(rs, wrays);
                }
                assert(instance_course(
                    *assembly,
                    k as int,
                    *test,
                    *compose,
                    *sample,
                    wrays@,
                    levels0,
                    count0,
                    scene0,
                    Scene { rays: rs@, isects: isects@, tests: *node_tests },
                    block,
                    inside,
                    cuts@,
                    chain,
                ));
                assert(named((block, inside, cuts@, chain)));
            },
            None => {
                Self::trace_range(
                    assembly,
                    k,
                    wrays,
                    rs,
                    xform_stack,
                    isects,
                    node_tests,
                    test,
                    compose,
                    sample,
                );
            },
        }
    }

    /// Traces `ray_set` through what instance `k` of `assembly` refers to:
    /// an object is intersected, an assembly is traced in turn.
    fn trace_range<P, C, X>(
        assembly: &Assembly<S, L, B>,
        k: usize,
        wrays: &[Ray],
        ray_set: &mut [AccelRay],
        xform_stack: &mut TransformStack,
        isects: &mut [SurfaceIntersection],
        node_tests: &mut u64,
        test: &P,
        compose: &C,
        sample: &X,
    ) where
        P: Fn(&[B], &AccelRay) -> bool,
        C: Fn(&[Matrix4x4], &[Matrix4x4]) -> Vec<Matrix4x4>,
        X: Fn(&[Matrix4x4], u32) -> Matrix4x4,

        requires
            assembly.wf(),
            k < assembly.instances@.len(),
            old(ray_set)@.len() > 0,
            old(xform_stack).wf(),
            wrays@.len() == old(isects)@.len(),
            kernels_callable(*test, *compose, *sample),
        ensures
            final(ray_set)@.len() == old(ray_set)@.len(),
            final(isects)@.len() == old(isects)@.len(),
            final(xform_stack).wf(),
            final(xform_stack).levels() == old(xform_stack).levels(),
            final(xform_stack).count() == old(xform_stack).count(),
            range_traced(
                *assembly,
                k as int,
                *test,
                *compose,
                *sample,
                wrays@,
                old(xform_stack).levels(),
                old(xform_stack).count(),
                Scene { rays: old(ray_set)@, isects: old(isects)@, tests: *old(node_tests) },
                Scene {
                    rays: final(ray_set)@,
                    isects: final(isects)@,
                    tests: *final(node_tests),
                },
            ),
        decreases assembly, 0nat,
    {
        assert(assembly.instance_ok(k as int));
        let inst = assembly.instances[k];
        match inst.instance_type {
            InstanceType::Object => {
                let ghost scene0 = Scene { rays: ray_set@, isects: isects@, tests: *node_tests };
                Self::trace_object(
                    &assembly.objects[inst.data_index],
                    wrays,
                    ray_set,
                    isects,
                    xform_stack.top(),
                );
                assert(object_traced(
                    assembly.objects@[inst.data_index as int],
                    wrays@,
                    top_of(xform_stack.levels()),
                    scene0,
                    Scene { rays: ray_set@, isects: isects@, tests: *node_tests },
                ));
            },
            InstanceType::Assembly => {
                Self::trace_assembly(
                    &assembly.assemblies[inst.data_index],
                    wrays,
                    ray_set,
                    xform_stack,
                    isects,
                    node_tests,
                    test,
                    compose,
                    sample,
                );
            },
        }
    }

    /// Intersects `rays` with `obj` if it is a surface; a light is passed by
    /// and nothing changes.
    pub fn trace_object(
        obj: &Object<S, L>,
        wrays: &[Ray],
        rays: &mut [AccelRay],
        isects: &mut [SurfaceIntersection],
        space: &[Matrix4x4],
    )
        requires
            old(rays)@.len() > 0,
            wrays@.len() == old(isects)@.len(),
        ensures
            final(rays)@.len() == old(rays)@.len(),
            final(isects)@.len() == old(isects)@.len(),
            obj is Light ==> final(rays)@ == old(rays)@ && final(isects)@ == old(isects)@,
            forall|tests: u64| #[trigger]
                object_traced(
                    *obj,
                    wrays@,
                    space@,
                    Scene { rays: old(rays)@, isects: old(isects)@, tests },
                    Scene { rays: final(rays)@, isects: final(isects)@, tests },
                ),
    {
        match obj {
            Object::Surface(surface) => {
                surface.intersect_rays(rays, wrays, isects, space);
            },
            Object::Light(_) => {},
        }
    }
}

/// Whether the ray `r` is in the space that `space` leads to, or in world
/// space if `space` is empty: its origin and reciprocal direction are what
/// its world ray gives, seen through what `sample` reads from `space` at the
/// ray's time.  Nothing is asked of a ray that names no world ray.
pub open spec fn placed<X: Fn(&[Matrix4x4], u32) -> Matrix4x4>(
    sample: X,
    wrays: Seq<Ray>,
    space: Seq<Matrix4x4>,
    r: AccelRay,
) -> bool {
    r.id < wrays.len() ==> if space.len() > 0 {
        exists|x: &[Matrix4x4], m: Matrix4x4|
            x@ == space && #[trigger] call_ensures(sample, (x, r.time), m) && r == r.relocated(
                wrays[r.id as int],
                Some(m),
            )
    } else {
        r == r.relocated(wrays[r.id as int], None)
    }
}

/// Whether every one of `rays` is in the space that `space` leads to.
pub open spec fn all_placed<X: Fn(&[Matrix4x4], u32) -> Matrix4x4>(
    sample: X,
    wrays: Seq<Ray>,
    space: Seq<Matrix4x4>,
    rays: Seq<AccelRay>,
) -> bool {
    forall|i: int| 0 <= i < rays.len() ==> placed(sample, wrays, space, #[trigger] rays[i])
}

/// Whether the ray `r1` is where the ray `r0` was: it has the same origin,
/// reciprocal direction, time and `id`.
pub open spec fn stays_put(r0: AccelRay, r1: AccelRay) -> bool {
    r1.orig == r0.orig && r1.dir_inv == r0.dir_inv && r1.time == r0.time && r1.id == r0.id
}

/// Whether a surface leaves every ray where it was, whatever else it does
/// to it.
pub open spec fn surface_leaves_in_place<S: Surface>(surface: S) -> bool {
    forall|
        rays0: Seq<AccelRay>,
        wrays: Seq<Ray>,
        isects0: Seq<SurfaceIntersection>,
        space: Seq<Matrix4x4>,
        rays1: Seq<AccelRay>,
        isects1: Seq<SurfaceIntersection>,
    | #[trigger]
        surface.intersected(rays0, wrays, isects0, space, rays1, isects1) ==> rays1.len()
            == rays0.len() && forall|i: int|
            0 <= i < rays0.len() ==> stays_put(rays0[i], #[trigger] rays1[i])
}

/// Whether every surface of the assembly and of the assemblies below it
/// leaves every ray where it was.
pub open spec fn surfaces_leave_in_place<S: Surface, L, B>(assembly: Assembly<S, L, B>) -> bool
    decreases assembly,
{
    &&& forall|o: int|
        0 <= o < assembly.objects@.len() ==> match #[trigger] assembly.objects@[o] {
            Object::Surface(surface) => surface_leaves_in_place(surface),
            Object::Light(_) => true,
        }
    &&& forall|a: int|
        0 <= a < assembly.assemblies@.len() ==> surfaces_leave_in_place(
            #[trigger] assembly.assemblies@[a],
        )
}

/// A ray that stays where it was stays in the space it was in.
pub proof fn lemma_stays_placed<X: Fn(&[Matrix4x4], u32) -> Matrix4x4>(
    sample: X,
    wrays: Seq<Ray>,
    space: Seq<Matrix4x4>,
    r0: AccelRay,
    r1: AccelRay,
)
    requires
        placed(sample, wrays, space, r0),
        stays_put(r0, r1),
    ensures
        placed(sample, wrays, space, r1),
{
    if r0.id < wrays.len() && space.len() > 0 {
        let (x, m) = choose|x: &[Matrix4x4], m: Matrix4x4|
            x@ == space && #[trigger] call_ensures(sample, (x, r0.time), m) && r0 == r0.relocated(
                wrays[r0.id as int],
                Some(m),
            );
        assert(x@ == space && call_ensures(sample, (x, r1.time), m) && r1 == r1.relocated(
            wrays[r1.id as int],
            Some(m),
        ));
    }
}

/// Rays taken into a space, or back into world space, are in it.
pub proof fn lemma_relocated_placed<X: Fn(&[Matrix4x4], u32) -> Matrix4x4>(
    sample: X,
    wrays: Seq<Ray>,
    space: Seq<Matrix4x4>,
    rays0: Seq<AccelRay>,
    rays1: Seq<AccelRay>,
)
    requires
        if space.len() > 0 {
            all_localized(sample, wrays, space, rays0, rays1)
        } else {
            all_globalized(wrays, rays0, rays1)
        },
    ensures
        all_placed(sample, wrays, space, rays1),
        rays1.len() == rays0.len(),
{
    assert forall|i: int| 0 <= i < rays1.len() implies placed(
        sample,
        wrays,
        space,
        #[trigger] rays1[i],
    ) by {
        let r0 = rays0[i];
        let r1 = rays1[i];
        if space.len() > 0 {
            assert(localized(sample, wrays, space, r0, r1));
            if r0.id < wrays.len() {
                let (x, m) = choose|x: &[Matrix4x4], m: Matrix4x4|
                    x@ == space && #[trigger] call_ensures(sample, (x, r0.time), m) && r1
                        == r0.relocated(wrays[r0.id as int], Some(m));
                assert(x@ == space && call_ensures(sample, (x, r1.time), m) && r1 == r1.relocated(
                    wrays[r1.id as int],
                    Some(m),
                ));
            }
        } else {
            assert(r1 == globalized(wrays, r0));
        }
    }
}

/// Tracing through what an instance refers to leaves the rays in the space
/// they were in, if surfaces leave rays where they were.
pub proof fn lemma_range_placed<
    S: Surface,
    L,
    B,
    P: Fn(&[B], &AccelRay) -> bool,
    C: Fn(&[Matrix4x4], &[Matrix4x4]) -> Vec<Matrix4x4>,
    X: Fn(&[Matrix4x4], u32) -> Matrix4x4,
>(
    assembly: Assembly<S, L, B>,
    k: int,
    test: P,
    compose: C,
    sample: X,
    wrays: Seq<Ray>,
    levels: Seq<Seq<Matrix4x4>>,
    count: nat,
    s0: Scene,
    s1: Scene,
)
    requires
        assembly.wf(),
        surfaces_leave_in_place(assembly),
        0 <= k < assembly.instances@.len(),
        s0.rays.len() <= usize::MAX,
        range_traced(assembly, k, test, compose, sample, wrays, levels, count, s0, s1),
        all_placed(sample, wrays, top_of(levels), s0.rays),
    ensures
        all_placed(sample, wrays, top_of(levels), s1.rays),
        s1.rays.len() == s0.rays.len(),
    decreases assembly, 0nat, 0nat,
{
    let inst = assembly.instances@[k];
    match inst.instance_type {
        InstanceType::Object => {
            let obj = assembly.objects@[inst.data_index as int];
            match obj {
                Object::Surface(surface) => {
                    assert(surface_leaves_in_place(surface));
                    assert(surface.intersected(
                        s0.rays,
                        wrays,
                        s0.isects,
                        top_of(levels),
                        s1.rays,
                        s1.isects,
                    ));
                    assert forall|i: int| 0 <= i < s1.rays.len() implies placed(
                        sample,
                        wrays,
                        top_of(levels),
                        #[trigger] s1.rays[i],
                    ) by {
                        assert(stays_put(s0.rays[i], s1.rays[i]));
                        lemma_stays_placed(sample, wrays, top_of(levels), s0.rays[i], s1.rays[i]);
                    }
                },
                Object::Light(_) => {},
            }
        },
        InstanceType::Assembly => {
            lemma_assembly_placed(
                assembly.assemblies@[inst.data_index as int],
                test,
                compose,
                sample,
                wrays,
                levels,
                count,
                s0,
                s1,
            );
        },
    }
}

/// Tracing through an instance leaves the rays in the space they were in,
/// if surfaces leave rays where they were.
pub proof fn lemma_instance_placed<
    S: Surface,
    L,
    B,
    P: Fn(&[B], &AccelRay) -> bool,
    C: Fn(&[Matrix4x4], &[Matrix4x4]) -> Vec<Matrix4x4>,
    X: Fn(&[Matrix4x4], u32) -> Matrix4x4,
>(
    assembly: Assembly<S, L, B>,
    k: int,
    test: P,
    compose: C,
    sample: X,
    wrays: Seq<Ray>,
    levels: Seq<Seq<Matrix4x4>>,
    count: nat,
    s0: Scene,
    s1: Scene,
)
    requires
        assembly.wf(),
        surfaces_leave_in_place(assembly),
        0 <= k < assembly.instances@.len(),
        s0.rays.len() <= usize::MAX,
        instance_traced(assembly, k, test, compose, sample, wrays, levels, count, s0, s1),
        all_placed(sample, wrays, top_of(levels), s0.rays),
    ensures
        all_placed(sample, wrays, top_of(levels), s1.rays),
        s1.rays.len() == s0.rays.len(),
    decreases assembly, 1nat, 0nat,
{
    if assembly.instances@[k].transform_indices is Some {
        let (block, inside, cuts, chain) = choose|
            block: Seq<Matrix4x4>,
            inside: Seq<AccelRay>,
            cuts: Seq<usize>,
            chain: Seq<Scene>,
        | #[trigger]
            named((block, inside, cuts, chain)) && instance_course(
                assembly,
                k,
                test,
                compose,
                sample,
                wrays,
                levels,
                count,
                s0,
                s1,
                block,
                inside,
                cuts,
                chain,
            );
        lemma_relocated_placed(sample, wrays, top_of(levels), chain[8].rays, s1.rays);
        lemma_chain_keeps_length(
            assembly,
            k,
            test,
            compose,
            sample,
            wrays,
            levels.push(block),
            count + block.len(),
            cuts,
            chain,
            8,
        );
    } else {
        lemma_range_placed(assembly, k, test, compose, sample, wrays, levels, count, s0, s1);
    }
}

/// The octants are traced without the number of rays changing.
pub proof fn lemma_chain_keeps_length<
    S: Surface,
    L,
    B,
    P: Fn(&[B], &AccelRay) -> bool,
    C: Fn(&[Matrix4x4], &[Matrix4x4]) -> Vec<Matrix4x4>,
    X: Fn(&[Matrix4x4], u32) -> Matrix4x4,
>(
    assembly: Assembly<S, L, B>,
    k: int,
    test: P,
    compose: C,
    sample: X,
    wrays: Seq<Ray>,
    levels: Seq<Seq<Matrix4x4>>,
    count: nat,
    cuts: Seq<usize>,
    chain: Seq<Scene>,
    o: int,
)
    requires
        chain.len() == 9,
        0 <= o <= 8,
        forall|j: int|
            0 <= j < 8 ==> octant_traced(
                assembly,
                k,
                test,
                compose,
                sample,
                wrays,
                levels,
                count,
                cuts[j] as int,
                cuts[j + 1] as int,
                #[trigger] chain[j],
                chain[j + 1],
            ),
    ensures
        chain[o].rays.len() == chain[0].rays.len(),
    decreases o,
{
    if o > 0 {
        lemma_chain_keeps_length(
            assembly,
            k,
            test,
            compose,
            sample,
            wrays,
            levels,
            count,
            cuts,
            chain,
            o - 1,
        );
        assert(octant_traced(
            assembly,
            k,
            test,
            compose,
            sample,
            wrays,
            levels,
            count,
            cuts[o - 1] as int,
            cuts[o] as int,
            chain[o - 1],
            chain[o],
        ));
    }
}

/// A step of a traversal leaves the rays in the space they were in.
pub proof fn lemma_step_placed<
    B,
    P: Fn(&[B], &AccelRay) -> bool,
    X: Fn(&[Matrix4x4], u32) -> Matrix4x4,
>(
    accel: BVH<B>,
    test: P,
    signs: Seq<bool>,
    sample: X,
    wrays: Seq<Ray>,
    space: Seq<Matrix4x4>,
    n: int,
    m0: Moment,
    m1: Moment,
)
    requires
        accel.admits(m0.stack, n),
        m0.rays.len() == n,
        all_placed(sample, wrays, space, m0.rays),
        accel.advanced(test, signs, m0, m1),
    ensures
        accel.admits(m1.stack, n),
        m1.rays.len() == n,
        all_placed(sample, wrays, space, m1.rays),
        m1.visit is Some ==> 0 <= m1.visit.unwrap().part <= n,
{
    let out = choose|out: TraversalStep|
        {
            &&& #[trigger] accel.stepped(test, signs, m0.stack, m0.rays, out, m1.stack, m1.rays)
            &&& m1.visit == match out {
                TraversalStep::Leaf { lo, hi, part } => Some(
                    Visit { next: lo as int, end: hi as int, part: part as int },
                ),
                _ => None,
            }
        };
    accel.lemma_stepped_admits(test, signs, m0.stack, m0.rays, out, m1.stack, m1.rays);
    assert forall|j: int| 0 <= j < m1.rays.len() implies placed(
        sample,
        wrays,
        space,
        #[trigger] m1.rays[j],
    ) by {
        m0.rays.to_multiset_ensures();
        m1.rays.to_multiset_ensures();
        assert(m1.rays.contains(m1.rays[j]));
        assert(m1.rays.to_multiset().count(m1.rays[j]) > 0);
        assert(m0.rays.contains(m1.rays[j]));
        let at = choose|at: int| 0 <= at < m0.rays.len() && m0.rays[at] == m1.rays[j];
        assert(placed(sample, wrays, space, m0.rays[at]));
    }
}

/// The turn of an instance of the leaf being visited leaves the rays in the
/// space they were in, if surfaces leave rays where they were.
pub proof fn lemma_turn_placed<
    S: Surface,
    L,
    B,
    P: Fn(&[B], &AccelRay) -> bool,
    C: Fn(&[Matrix4x4], &[Matrix4x4]) -> Vec<Matrix4x4>,
    X: Fn(&[Matrix4x4], u32) -> Matrix4x4,
>(
    assembly: Assembly<S, L, B>,
    test: P,
    compose: C,
    sample: X,
    wrays: Seq<Ray>,
    levels: Seq<Seq<Matrix4x4>>,
    count: nat,
    n: int,
    m0: Moment,
    m1: Moment,
    r0: Tally,
    r1: Tally,
)
    requires
        assembly.wf(),
        surfaces_leave_in_place(assembly),
        0 <= n <= usize::MAX,
        m0.rays.len() == n,
        all_placed(sample, wrays, top_of(levels), m0.rays),
        m0.visit is Some,
        0 <= m0.visit.unwrap().part <= n,
        handed_on(m0, m1),
        0 <= m0.visit.unwrap().next < assembly.instances@.len(),
        instance_traced(
            assembly,
            m0.visit.unwrap().next,
            test,
            compose,
            sample,
            wrays,
            levels,
            count,
            Scene { rays: m0.rays.take(m0.visit.unwrap().part), isects: r0.isects, tests: r0.tests },
            Scene { rays: m1.rays.take(m0.visit.unwrap().part), isects: r1.isects, tests: r1.tests },
        ),
    ensures
        m1.rays.len() == n,
        all_placed(sample, wrays, top_of(levels), m1.rays),
        m1.visit is Some ==> 0 <= m1.visit.unwrap().part <= n,
    decreases assembly, 2nat, 0nat,
{
    let v = m0.visit.unwrap();
    let space = top_of(levels);
    let before = Scene { rays: m0.rays.take(v.part), isects: r0.isects, tests: r0.tests };
    let after = Scene { rays: m1.rays.take(v.part), isects: r1.isects, tests: r1.tests };
    assert forall|j: int| 0 <= j < before.rays.len() implies placed(
        sample,
        wrays,
        space,
        #[trigger] before.rays[j],
    ) by {
        assert(before.rays[j] == m0.rays[j]);
    }
    lemma_instance_placed(
        assembly,
        v.next,
        test,
        compose,
        sample,
        wrays,
        levels,
        count,
        before,
        after,
    );
    assert forall|j: int| 0 <= j < m1.rays.len() implies placed(
        sample,
        wrays,
        space,
        #[trigger] m1.rays[j],
    ) by {
        if j < v.part {
            assert(m1.rays[j] == after.rays[j]);
        } else {
            assert(m1.rays[j] == m1.rays.skip(v.part)[j - v.part]);
            assert(m0.rays[j] == m0.rays.skip(v.part)[j - v.part]);
        }
    }
}

/// At every moment of the course of tracing through an assembly the
/// pending entries can be walked and the rays are in the space they were in,
/// if surfaces leave rays where they were.
pub proof fn lemma_course_placed<
    S: Surface,
    L,
    B,
    P: Fn(&[B], &AccelRay) -> bool,
    C: Fn(&[Matrix4x4], &[Matrix4x4]) -> Vec<Matrix4x4>,
    X: Fn(&[Matrix4x4], u32) -> Matrix4x4,
>(
    assembly: Assembly<S, L, B>,
    test: P,
    compose: C,
    sample: X,
    wrays: Seq<Ray>,
    levels: Seq<Seq<Matrix4x4>>,
    count: nat,
    s0: Scene,
    s1: Scene,
    run: Seq<Moment>,
    results: Seq<Tally>,
    i: int,
)
    requires
        assembly.wf(),
        surfaces_leave_in_place(assembly),
        s0.rays.len() <= usize::MAX,
        assembly_course(assembly, test, compose, sample, wrays, levels, count, s0, s1, run, results),
        all_placed(sample, wrays, top_of(levels), s0.rays),
        0 <= i < run.len(),
    ensures
        assembly.object_accel.admits(run[i].stack, s0.rays.len() as int),
        run[i].rays.len() == s0.rays.len(),
        all_placed(sample, wrays, top_of(levels), run[i].rays),
        run[i].visit is Some ==> 0 <= run[i].visit.unwrap().part <= s0.rays.len(),
    decreases assembly, 3nat, i,
{
    let accel = assembly.object_accel;
    let n = s0.rays.len() as int;
    if i == 0 {
        accel.lemma_first_admits(n);
    } else {
        lemma_course_placed(
            assembly,
            test,
            compose,
            sample,
            wrays,
            levels,
            count,
            s0,
            s1,
            run,
            results,
            i - 1,
        );
        let m0 = run[i - 1];
        let m1 = run[i];
        assert(moved(
            assembly,
            test,
            compose,
            sample,
            wrays,
            levels,
            count,
            first_signs(s0.rays),
            m0,
            m1,
            results[i - 1],
            results[i],
        ));
        if accel.advanced(test, first_signs(s0.rays), m0, m1) {
            lemma_step_placed(
                accel,
                test,
                first_signs(s0.rays),
                sample,
                wrays,
                top_of(levels),
                n,
                m0,
                m1,
            );
        } else {
            lemma_turn_placed(
                assembly,
                test,
                compose,
                sample,
                wrays,
                levels,
                count,
                n,
                m0,
                m1,
                results[i - 1],
                results[i],
            );
            assert(m1.stack == m0.stack);
        }
    }
}

/// Tracing through an assembly leaves the rays in the space they were in:
/// if every surface leaves rays where they were, and the rays are in the
/// space of the innermost level entered (or in world space if none is) when
/// tracing begins, they are in it when tracing ends.
pub proof fn lemma_assembly_placed<
    S: Surface,
    L,
    B,
    P: Fn(&[B], &AccelRay) -> bool,
    C: Fn(&[Matrix4x4], &[Matrix4x4]) -> Vec<Matrix4x4>,
    X: Fn(&[Matrix4x4], u32) -> Matrix4x4,
>(
    assembly: Assembly<S, L, B>,
    test: P,
    compose: C,
    sample: X,
    wrays: Seq<Ray>,
    levels: Seq<Seq<Matrix4x4>>,
    count: nat,
    s0: Scene,
    s1: Scene,
)
    requires
        assembly.wf(),
        surfaces_leave_in_place(assembly),
        s0.rays.len() <= usize::MAX,
        assembly_traced(assembly, test, compose, sample, wrays, levels, count, s0, s1),
        all_placed(sample, wrays, top_of(levels), s0.rays),
    ensures
        all_placed(sample, wrays, top_of(levels), s1.rays),
        s1.rays.len() == s0.rays.len(),
    decreases assembly, 4nat, 0nat,
{
    let (run, results) = choose|run: Seq<Moment>, results: Seq<Tally>| #[trigger]
        named((run, results)) && assembly_course(
            assembly,
            test,
            compose,
            sample,
            wrays,
            levels,
            count,
            s0,
            s1,
            run,
            results,
        );
    lemma_course_placed(
        assembly,
        test,
        compose,
        sample,
        wrays,
        levels,
        count,
        s0,
        s1,
        run,
        results,
        run.len() - 1,
    );
}

} // verus!
