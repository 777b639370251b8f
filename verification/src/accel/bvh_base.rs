use vstd::prelude::*;
use vstd::arithmetic::power2::{lemma2_to64, lemma2_to64_rest, lemma_pow2_unfold, pow2};
use vstd::slice::slice_subrange;
use crate::accel::flat;
use crate::accel::flat::FlatNode;
use crate::accel::tree::Tree;

verus! {

/// No hierarchy is deeper than this.
pub const BVH_MAX_DEPTH: usize = 64;

/// A node of a hierarchy under construction.
#[derive(Copy, Clone, Debug)]
pub enum BVHBaseNode {
    Internal { bounds_range: (usize, usize), children_indices: (usize, usize), split_axis: u8 },
    Leaf { bounds_range: (usize, usize), object_range: (usize, usize) },
}

impl BVHBaseNode {
    /// The node as a plain record.
    pub open spec fn flat(self) -> FlatNode {
        match self {
            BVHBaseNode::Internal { bounds_range, children_indices, split_axis } => FlatNode {
                leaf: false,
                bounds_lo: bounds_range.0 as int,
                bounds_hi: bounds_range.1 as int,
                split_axis,
                left: children_indices.0 as int,
                right: children_indices.1 as int,
                obj_lo: 0,
                obj_hi: 0,
            },
            BVHBaseNode::Leaf { bounds_range, object_range } => FlatNode {
                leaf: true,
                bounds_lo: bounds_range.0 as int,
                bounds_hi: bounds_range.1 as int,
                split_axis: 0,
                left: 0,
                right: 0,
                obj_lo: object_range.0 as int,
                obj_hi: object_range.1 as int,
            },
        }
    }
}

/// The splits that a balanced build of `len` objects needs below its root.
pub open spec fn levels_needed(len: int) -> nat
    decreases len,
{
    if len <= 1 {
        0
    } else {
        1 + levels_needed((len + 1) / 2)
    }
}

/// Fewer objects never need more levels.
pub proof fn lemma_levels_monotonic(a: int, b: int)
    requires
        a <= b,
    ensures
        levels_needed(a) <= levels_needed(b),
    decreases b,
{
    if a > 1 {
        lemma_levels_monotonic((a + 1) / 2, (b + 1) / 2);
    }
}

/// `2^k` objects need no more than `k` levels.
pub proof fn lemma_levels_of_pow2(len: int, k: nat)
    requires
        len <= pow2(k),
    ensures
        levels_needed(len) <= k,
    decreases k,
{
    if len > 1 {
        if k == 0 {
            lemma2_to64();
        } else {
            lemma_pow2_unfold(k);
            lemma_levels_of_pow2((len + 1) / 2, (k - 1) as nat);
        }
    }
}

/// Counts the splits that a balanced build of `len` objects needs.
pub fn count_levels(len: usize) -> (k: usize)
    ensures
        k == levels_needed(len as int),
        k <= BVH_MAX_DEPTH,
{
    proof {
        lemma2_to64_rest();
        lemma_levels_of_pow2(len as int, 64);
    }
    let mut rest = len;
    let mut k: usize = 0;
    while rest > 1
        invariant
            k + levels_needed(rest as int) == levels_needed(len as int),
            levels_needed(len as int) <= 64,
        decreases rest,
    {
        rest = rest - rest / 2;
        k = k + 1;
    }
    k
}

/// Whether `bounder` can give `out` as the motion slice of `obj`.
pub open spec fn bounded<T, B, F: Fn(&T) -> Vec<B>>(bounder: F, obj: T, out: Seq<B>) -> bool {
    exists|v: Vec<B>| v@ == out && #[trigger] call_ensures(bounder, (&obj,), v)
}

/// Whether `merger` can give `out` as the union of the motion slices `a` and `b`.
pub open spec fn merged<B, M: Fn(&[B], &[B]) -> Vec<B>>(
    merger: M,
    a: Seq<B>,
    b: Seq<B>,
    out: Seq<B>,
) -> bool {
    exists|x: &[B], y: &[B], v: Vec<B>|
        x@ == a && y@ == b && v@ == out && #[trigger] call_ensures(merger, (x, y), v)
}

/// Whether `out` can be had by taking the motion slice of the first of
/// `objs` and merging in those of the others, one after the other.
pub open spec fn accumulated<T, B, F: Fn(&T) -> Vec<B>, M: Fn(&[B], &[B]) -> Vec<B>>(
    bounder: F,
    merger: M,
    objs: Seq<T>,
    out: Seq<B>,
) -> bool
    decreases objs.len(),
{
    if objs.len() == 0 {
        false
    } else if objs.len() == 1 {
        bounded(bounder, objs[0], out)
    } else {
        exists|prev: Seq<B>, next: Seq<B>| #[trigger]
            merged(merger, prev, next, out) && accumulated(bounder, merger, objs.drop_last(), prev)
                && bounded(bounder, objs.last(), next)
    }
}

/// `merged` with the merging function fixed.
pub open spec fn merged_by<B, M: Fn(&[B], &[B]) -> Vec<B>>(merger: M) -> spec_fn(
    Seq<B>,
    Seq<B>,
    Seq<B>,
) -> bool {
    |a: Seq<B>, b: Seq<B>, out: Seq<B>| merged(merger, a, b, out)
}

/// Says of a leaf with bounds `b` and object range `lo..hi` that `b` is
/// accumulated over the objects it owns, the object array being `objs` and
/// starting at object `offset`.
pub open spec fn leaf_bounds_by<T, B, F: Fn(&T) -> Vec<B>, M: Fn(&[B], &[B]) -> Vec<B>>(
    bounder: F,
    merger: M,
    objs: Seq<T>,
    offset: int,
) -> spec_fn(Seq<B>, int, int) -> bool {
    |b: Seq<B>, lo: int, hi: int|
        accumulated(bounder, merger, objs.subrange(lo - offset, hi - offset), b)
}

/// The larger of two depths.
pub open spec fn deeper(a: int, b: int) -> int {
    if a >= b {
        a
    } else {
        b
    }
}

/// Appends a copy of every element of `src` to `dst`.
pub fn append_copies<B: Copy>(dst: &mut Vec<B>, src: &[B])
    ensures
        final(dst)@ == old(dst)@ + src@,
{
    let mut k: usize = 0;
    while k < src.len()
        invariant
            k <= src@.len(),
            dst@ == old(dst)@ + src@.subrange(0, k as int),
        decreases src@.len() - k,
    {
        dst.push(src[k]);
        k = k + 1;
    }
    assert(src@.subrange(0, k as int) =~= src@);
}

/// Merging one more object's motion slice into an accumulated one gives an
/// accumulated one.
pub proof fn lemma_accumulated_step<T, B, F: Fn(&T) -> Vec<B>, M: Fn(&[B], &[B]) -> Vec<B>>(
    bounder: F,
    merger: M,
    objs: Seq<T>,
    prev: Seq<B>,
    next: Seq<B>,
    out: Seq<B>,
)
    requires
        objs.len() >= 2,
        accumulated(bounder, merger, objs.drop_last(), prev),
        bounded(bounder, objs.last(), next),
        merged(merger, prev, next, out),
    ensures
        accumulated(bounder, merger, objs, out),
{
    assert(merged(merger, prev, next, out) && accumulated(bounder, merger, objs.drop_last(), prev)
        && bounded(bounder, objs.last(), next));
}

/// What the builder needs of the functions that bound and merge: they can
/// be called on anything, and the motion slices they give are never empty.
pub open spec fn bounds_functions_ok<T, B, F: Fn(&T) -> Vec<B>, M: Fn(&[B], &[B]) -> Vec<B>>(
    bounder: F,
    merger: M,
) -> bool {
    &&& forall|o: &T| call_requires(bounder, (o,))
    &&& forall|o: &T, v: Vec<B>| #[trigger] call_ensures(bounder, (o,), v) ==> v@.len() > 0
    &&& forall|x: &[B], y: &[B]| call_requires(merger, (x, y))
    &&& forall|x: &[B], y: &[B], v: Vec<B>| #[trigger]
        call_ensures(merger, (x, y), v) ==> v@.len() > 0
}

/// Whether `encloses`, read as "the first motion slice encloses the second",
/// is respected by `merger`: it holds of every slice and itself, it carries
/// over from slice to slice to slice, and what `merger` makes of two slices
/// encloses both.
pub open spec fn respected<B, M: Fn(&[B], &[B]) -> Vec<B>>(
    merger: M,
    encloses: spec_fn(Seq<B>, Seq<B>) -> bool,
) -> bool {
    &&& forall|a: Seq<B>| #[trigger] encloses(a, a)
    &&& forall|a: Seq<B>, b: Seq<B>, c: Seq<B>|
        #[trigger] encloses(a, b) && #[trigger] encloses(b, c) ==> encloses(a, c)
    &&& forall|a: Seq<B>, b: Seq<B>, out: Seq<B>| #[trigger]
        merged(merger, a, b, out) ==> encloses(out, a) && encloses(out, b)
}

/// Enclosure of nodes: in a tree whose internal nodes have the merged bounds
/// of their children, the bounds of every node enclose the bounds of every
/// node below it, under any reading of "encloses" that the merging function
/// respects.
pub proof fn lemma_nodes_enclosed<B, M: Fn(&[B], &[B]) -> Vec<B>>(
    tree: Tree<B>,
    sub: Tree<B>,
    merger: M,
    encloses: spec_fn(Seq<B>, Seq<B>) -> bool,
)
    requires
        respected(merger, encloses),
        tree.bounds_follow(merged_by(merger)),
        tree.contains(sub),
    ensures
        encloses(tree.bounds(), sub.bounds()),
        sub.bounds_follow(merged_by(merger)),
    decreases tree,
{
    if tree == sub {
        assert(encloses(tree.bounds(), tree.bounds()));
    } else {
        match tree {
            Tree::Leaf { .. } => {},
            Tree::Internal { bounds, left, right, .. } => {
                assert(merged(merger, left.bounds(), right.bounds(), bounds));
                if left.contains(sub) {
                    lemma_nodes_enclosed(*left, sub, merger, encloses);
                    assert(encloses(bounds, left.bounds()) && encloses(left.bounds(), sub.bounds()));
                } else {
                    lemma_nodes_enclosed(*right, sub, merger, encloses);
                    assert(encloses(bounds, right.bounds()) && encloses(
                        right.bounds(),
                        sub.bounds(),
                    ));
                }
            },
        }
    }
}

/// Enclosure of objects: bounds accumulated over objects enclose a motion
/// slice of each of the objects, under any reading of "encloses" that the
/// merging function respects.
pub proof fn lemma_objects_enclosed<T, B, F: Fn(&T) -> Vec<B>, M: Fn(&[B], &[B]) -> Vec<B>>(
    bounder: F,
    merger: M,
    encloses: spec_fn(Seq<B>, Seq<B>) -> bool,
    objs: Seq<T>,
    out: Seq<B>,
    i: int,
)
    requires
        respected(merger, encloses),
        accumulated(bounder, merger, objs, out),
        0 <= i < objs.len(),
    ensures
        exists|own: Seq<B>| #[trigger] bounded(bounder, objs[i], own) && encloses(out, own),
    decreases objs.len(),
{
    if objs.len() == 1 {
        assert(bounded(bounder, objs[i], out) && encloses(out, out));
    } else {
        let (prev, next) = choose|prev: Seq<B>, next: Seq<B>| #[trigger]
            merged(merger, prev, next, out) && accumulated(bounder, merger, objs.drop_last(), prev)
                && bounded(bounder, objs.last(), next);
        if i == objs.len() - 1 {
            assert(bounded(bounder, objs[i], next) && encloses(out, next));
        } else {
            lemma_objects_enclosed(bounder, merger, encloses, objs.drop_last(), prev, i);
            let own = choose|own: Seq<B>| #[trigger]
                bounded(bounder, objs.drop_last()[i], own) && encloses(prev, own);
            assert(encloses(out, prev) && encloses(prev, own));
            assert(bounded(bounder, objs[i], own) && encloses(out, own));
        }
    }
}

/// Whether motion slices keep the length `m`: every object's motion slice
/// has `m` samples, and what the merging function makes of two slices of `m`
/// samples has `m` samples.
pub open spec fn keeps_length<T, B, F: Fn(&T) -> Vec<B>, M: Fn(&[B], &[B]) -> Vec<B>>(
    bounder: F,
    merger: M,
    m: nat,
) -> bool {
    &&& forall|o: T, v: Seq<B>| #[trigger] bounded(bounder, o, v) ==> v.len() == m
    &&& forall|a: Seq<B>, b: Seq<B>, out: Seq<B>| #[trigger]
        merged(merger, a, b, out) && a.len() == m && b.len() == m ==> out.len() == m
}

/// Bounds accumulated over objects have `m` samples where motion slices keep
/// the length `m`.
pub proof fn lemma_accumulated_length<T, B, F: Fn(&T) -> Vec<B>, M: Fn(&[B], &[B]) -> Vec<B>>(
    bounder: F,
    merger: M,
    m: nat,
    objs: Seq<T>,
    out: Seq<B>,
)
    requires
        keeps_length(bounder, merger, m),
        accumulated(bounder, merger, objs, out),
    ensures
        out.len() == m,
    decreases objs.len(),
{
    if objs.len() == 1 {
        assert(bounded(bounder, objs[0], out));
    } else {
        let (prev, next) = choose|prev: Seq<B>, next: Seq<B>| #[trigger]
            merged(merger, prev, next, out) && accumulated(bounder, merger, objs.drop_last(), prev)
                && bounded(bounder, objs.last(), next);
        lemma_accumulated_length(bounder, merger, m, objs.drop_last(), prev);
        assert(bounded(bounder, objs.last(), next));
    }
}

/// Every node of a built tree has bounds of `m` samples where motion slices
/// keep the length `m`.
pub proof fn lemma_built_length<T, B, F: Fn(&T) -> Vec<B>, M: Fn(&[B], &[B]) -> Vec<B>>(
    tree: Tree<B>,
    sub: Tree<B>,
    bounder: F,
    merger: M,
    objs: Seq<T>,
    offset: int,
    m: nat,
)
    requires
        keeps_length(bounder, merger, m),
        tree.bounds_follow(merged_by(merger)),
        tree.leaves_satisfy(leaf_bounds_by(bounder, merger, objs, offset)),
        tree.contains(sub),
    ensures
        sub.bounds().len() == m,
        tree.bounds().len() == m,
    decreases tree,
{
    match tree {
        Tree::Leaf { bounds, lo, hi } => {
            lemma_accumulated_length(
                bounder,
                merger,
                m,
                objs.subrange(lo - offset, hi - offset),
                bounds,
            );
        },
        Tree::Internal { bounds, left, right, .. } => {
            lemma_built_length(*left, *left, bounder, merger, objs, offset, m);
            lemma_built_length(*right, *right, bounder, merger, objs, offset, m);
            assert(merged(merger, left.bounds(), right.bounds(), bounds));
            if tree != sub {
                if left.contains(sub) {
                    lemma_built_length(*left, sub, bounder, merger, objs, offset, m);
                } else {
                    lemma_built_length(*right, sub, bounder, merger, objs, offset, m);
                }
            }
        },
    }
}

/// Whether a range of `len` objects at depth `depth` must be split in the
/// middle: a split anywhere else could leave a side that balanced splits can
/// no longer fit within `BVH_MAX_DEPTH`.
pub open spec fn must_balance(len: int, depth: int) -> bool {
    levels_needed(len - 1) + depth >= BVH_MAX_DEPTH
}

/// Where and along which axis a range of `len` objects is split, given what
/// the splitter answered: at the answered place, unless the split must be
/// balanced or the answer would leave a side empty, and then in the middle;
/// along the answered axis, unless it is none of the three, and then along
/// the first.
pub open spec fn split_taken(len: int, balanced: bool, answer: (usize, u8)) -> (int, u8) {
    (
        if balanced || answer.0 == 0 || answer.0 >= len {
            len / 2
        } else {
            answer.0 as int
        },
        if answer.1 > 2 {
            0
        } else {
            answer.1
        },
    )
}

/// Whether `splitter`, asked about the objects `objs` in this order, can
/// give `answer`.
pub open spec fn asked<T, S: Fn(&mut [T], bool) -> (usize, u8)>(
    splitter: S,
    objs: Seq<T>,
    balanced: bool,
    answer: (usize, u8),
) -> bool {
    exists|s: &mut [T]| s@ == objs && #[trigger] call_ensures(splitter, (s, balanced), answer)
}

/// Says of an internal node at depth `depth` that owns the objects
/// `lo..hi`, has its right child begin at `mid` and is split along `axis`,
/// that the splitter was asked about its objects, in some order, and that
/// `mid` and `axis` are what `split_taken` makes of the answer.  The object
/// array is `objs` and starts at object `offset`.
pub open spec fn split_by<T, S: Fn(&mut [T], bool) -> (usize, u8)>(
    splitter: S,
    objs: Seq<T>,
    offset: int,
) -> spec_fn(int, int, int, int, u8) -> bool {
    |depth: int, lo: int, mid: int, hi: int, axis: u8|
        exists|given: Seq<T>, answer: (usize, u8)|
            {
                &&& #[trigger] asked(splitter, given, must_balance(hi - lo, depth), answer)
                &&& given.to_multiset() == objs.subrange(lo - offset, hi - offset).to_multiset()
                &&& split_taken(hi - lo, must_balance(hi - lo, depth), answer) == (mid - lo, axis)
            }
}

/// What holds of a tree's splits over one object array holds over any other
/// array that has the same objects at the places the tree owns.
pub proof fn lemma_splits_rebased<T, B, S: Fn(&mut [T], bool) -> (usize, u8)>(
    tree: Tree<B>,
    depth: int,
    splitter: S,
    objs: Seq<T>,
    offset: int,
    objs2: Seq<T>,
    offset2: int,
)
    requires
        tree.well_formed(),
        tree.splits_satisfy(depth, split_by(splitter, objs, offset)),
        offset2 <= offset <= tree.lo(),
        tree.hi() - offset <= objs.len(),
        tree.hi() - offset2 <= objs2.len(),
        objs2.subrange(tree.lo() - offset2, tree.hi() - offset2) == objs.subrange(
            tree.lo() - offset,
            tree.hi() - offset,
        ),
    ensures
        tree.splits_satisfy(depth, split_by(splitter, objs2, offset2)),
{
    let p = split_by(splitter, objs, offset);
    let q = split_by(splitter, objs2, offset2);
    assert forall|d: int, lo: int, mid: int, hi: int, axis: u8|
        tree.lo() <= lo < hi <= tree.hi() && #[trigger] p(d, lo, mid, hi, axis) implies q(
        d,
        lo,
        mid,
        hi,
        axis,
    ) by {
        let own = objs.subrange(tree.lo() - offset, tree.hi() - offset);
        let own2 = objs2.subrange(tree.lo() - offset2, tree.hi() - offset2);
        assert(objs.subrange(lo - offset, hi - offset) =~= own.subrange(
            lo - tree.lo(),
            hi - tree.lo(),
        ));
        assert(objs2.subrange(lo - offset2, hi - offset2) =~= own2.subrange(
            lo - tree.lo(),
            hi - tree.lo(),
        ));
    }
    tree.lemma_splits_satisfy_weaker(depth, p, q);
}

/// Two trees whose splits are the splitter's, joined under a node whose
/// split is the splitter's, make a tree whose splits are the splitter's.
pub proof fn lemma_splits_join<T, B, S: Fn(&mut [T], bool) -> (usize, u8)>(
    t1: Tree<B>,
    t2: Tree<B>,
    bounds: Seq<B>,
    split_axis: u8,
    depth: int,
    offset: int,
    split: int,
    len: int,
    splitter: S,
    given: Seq<T>,
    answer: (usize, u8),
    left: Seq<T>,
    right: Seq<T>,
)
    requires
        t1.well_formed(),
        t2.well_formed(),
        t1.lo() == offset,
        t1.hi() == offset + split,
        t2.lo() == offset + split,
        t2.hi() == offset + len,
        left.len() == split,
        right.len() == len - split,
        0 <= offset,
        t1.splits_satisfy(depth + 1, split_by(splitter, left, offset)),
        t2.splits_satisfy(depth + 1, split_by(splitter, right, offset + split)),
        asked(splitter, given, must_balance(len, depth), answer),
        given.to_multiset() == (left + right).to_multiset(),
        split_taken(len, must_balance(len, depth), answer) == (split, split_axis),
    ensures
        (Tree::Internal { bounds, split_axis, left: Box::new(t1), right: Box::new(t2) }).splits_satisfy(
            depth,
            split_by(splitter, left + right, offset),
        ),
{
    let objs = left + right;
    t1.lemma_range_not_empty();
    t2.lemma_range_not_empty();
    assert(objs.subrange(0, split) =~= left.subrange(0, split));
    assert(objs.subrange(split, len) =~= right.subrange(0, len - split));
    lemma_splits_rebased(t1, depth + 1, splitter, left, offset, objs, offset);
    lemma_splits_rebased(t2, depth + 1, splitter, right, offset + split, objs, offset);
    assert(objs.subrange(offset - offset, offset + len - offset) =~= objs);
    let p = split_by(splitter, objs, offset);
    assert(p(depth, offset, offset + split, offset + len, split_axis));
}

/// What holds of a tree's leaves over one object array holds over any other
/// array that has the same objects at the places the tree owns.
pub proof fn lemma_leaves_rebased<T, B, F: Fn(&T) -> Vec<B>, M: Fn(&[B], &[B]) -> Vec<B>>(
    tree: Tree<B>,
    bounder: F,
    merger: M,
    objs: Seq<T>,
    offset: int,
    objs2: Seq<T>,
    offset2: int,
)
    requires
        tree.well_formed(),
        tree.leaves_satisfy(leaf_bounds_by(bounder, merger, objs, offset)),
        offset2 <= offset <= tree.lo(),
        tree.hi() - offset <= objs.len(),
        tree.hi() - offset2 <= objs2.len(),
        objs2.subrange(tree.lo() - offset2, tree.hi() - offset2) == objs.subrange(
            tree.lo() - offset,
            tree.hi() - offset,
        ),
    ensures
        tree.leaves_satisfy(leaf_bounds_by(bounder, merger, objs2, offset2)),
{
    let p = leaf_bounds_by(bounder, merger, objs, offset);
    let q = leaf_bounds_by(bounder, merger, objs2, offset2);
    assert forall|b: Seq<B>, lo: int, hi: int|
        tree.lo() <= lo < hi <= tree.hi() && #[trigger] p(b, lo, hi) implies q(b, lo, hi) by {
        let own = objs.subrange(tree.lo() - offset, tree.hi() - offset);
        let own2 = objs2.subrange(tree.lo() - offset2, tree.hi() - offset2);
        assert(objs.subrange(lo - offset, hi - offset) =~= own.subrange(
            lo - tree.lo(),
            hi - tree.lo(),
        ));
        assert(objs2.subrange(lo - offset2, hi - offset2) =~= own2.subrange(
            lo - tree.lo(),
            hi - tree.lo(),
        ));
    }
    tree.lemma_leaves_satisfy_weaker(p, q);
}

/// What the builder promises of the tree `t` it made over the `len` objects
/// `objs`, the first of which is object `offset`: the tree is well formed and
/// owns exactly those objects, ranges of at most `k` objects are leaves and
/// larger ones are split, an internal node's bounds are the merged bounds of
/// its children, and a leaf's bounds are accumulated over its objects.
pub open spec fn built<T, B, F: Fn(&T) -> Vec<B>, M: Fn(&[B], &[B]) -> Vec<B>>(
    t: Tree<B>,
    offset: int,
    len: int,
    k: int,
    bounder: F,
    merger: M,
    objs: Seq<T>,
) -> bool {
    &&& t.well_formed()
    &&& t.lo() == offset
    &&& t.hi() == offset + len
    &&& objs.len() == len
    &&& t.split_above(k)
    &&& t.bounds_follow(merged_by(merger))
    &&& t.leaves_satisfy(leaf_bounds_by(bounder, merger, objs, offset))
}

/// Two trees built over adjacent ranges, joined under a node with their
/// merged bounds, make a tree built over both ranges.
pub proof fn lemma_built_join<T, B, F: Fn(&T) -> Vec<B>, M: Fn(&[B], &[B]) -> Vec<B>>(
    t1: Tree<B>,
    t2: Tree<B>,
    bounds: Seq<B>,
    split_axis: u8,
    offset: int,
    split: int,
    len: int,
    k: int,
    bounder: F,
    merger: M,
    left: Seq<T>,
    right: Seq<T>,
)
    requires
        built(t1, offset, split, k, bounder, merger, left),
        built(t2, offset + split, len - split, k, bounder, merger, right),
        0 <= offset,
        len > k,
        bounds.len() > 0,
        split_axis < 3,
        merged(merger, t1.bounds(), t2.bounds(), bounds),
    ensures
        built(
            Tree::Internal { bounds, split_axis, left: Box::new(t1), right: Box::new(t2) },
            offset,
            len,
            k,
            bounder,
            merger,
            left + right,
        ),
{
    let objs = left + right;
    t1.lemma_range_not_empty();
    t2.lemma_range_not_empty();
    assert(objs.subrange(0, split) =~= left.subrange(0, split));
    assert(objs.subrange(split, len) =~= right.subrange(0, len - split));
    lemma_leaves_rebased(t1, bounder, merger, left, offset, objs, offset);
    lemma_leaves_rebased(t2, bounder, merger, right, offset + split, objs, offset);
}

/// Rearranging the two parts of a sequence, each within itself, rearranges
/// the sequence.
pub proof fn lemma_parts_permuted<T>(l0: Seq<T>, r0: Seq<T>, l1: Seq<T>, r1: Seq<T>)
    requires
        l0.to_multiset() == l1.to_multiset(),
        r0.to_multiset() == r1.to_multiset(),
    ensures
        (l1 + r1).to_multiset() == (l0 + r0).to_multiset(),
{
    vstd::seq_lib::lemma_multiset_commutative(l0, r0);
    vstd::seq_lib::lemma_multiset_commutative(l1, r1);
}

/// Two subtrees built one after the other, joined under a node that was
/// reserved before them, make the tree one expects.
pub proof fn lemma_joined<B: Copy>(
    s1: BVHBase<B>,
    s2: BVHBase<B>,
    s4: BVHBase<B>,
    me: int,
    c1: int,
    c2: int,
    bi: int,
    bj: int,
    split_axis: u8,
)
    requires
        0 <= me < c1,
        c2 == s1.nodes@.len(),
        s1.subtree_ok(c1, s1.nodes@.len() as int),
        s2.subtree_ok(c2, s2.nodes@.len() as int),
        forall|k: int| 0 <= k < s1.nodes@.len() ==> s2.nodes@[k] == s1.nodes@[k],
        s1.bounds@.len() <= s2.bounds@.len(),
        forall|k: int| 0 <= k < s1.bounds@.len() ==> s2.bounds@[k] == s1.bounds@[k],
        s4.nodes@.len() == s2.nodes@.len(),
        forall|k: int| 0 <= k < s2.nodes@.len() && k != me ==> s4.nodes@[k] == s2.nodes@[k],
        s4.nodes@[me] == (BVHBaseNode::Internal {
            bounds_range: (bi as usize, bj as usize),
            children_indices: (c1 as usize, c2 as usize),
            split_axis,
        }),
        c2 <= usize::MAX,
        0 <= bi <= bj <= usize::MAX,
        bi == s2.bounds@.len(),
        bj == s4.bounds@.len(),
        forall|k: int| 0 <= k < s2.bounds@.len() ==> s4.bounds@[k] == s2.bounds@[k],
    ensures
        s4.subtree_ok(me, s4.nodes@.len() as int),
        s4.tree_at(c1) == s1.tree_at(c1),
        s4.tree_at(c2) == s2.tree_at(c2),
        s4.tree_at(me) == (Tree::Internal {
            bounds: s4.bounds@.subrange(bi, bj),
            split_axis,
            left: Box::new(s1.tree_at(c1)),
            right: Box::new(s2.tree_at(c2)),
        }),
{
    flat::lemma_frame(s1.flat(), s1.bounds@, s4.flat(), s4.bounds@, c1, s1.nodes@.len() as int);
    flat::lemma_wider_end(
        s4.flat(),
        s4.bounds@.len() as int,
        c1,
        s1.nodes@.len() as int,
        s4.nodes@.len() as int,
    );
    flat::lemma_frame(s2.flat(), s2.bounds@, s4.flat(), s4.bounds@, c2, s2.nodes@.len() as int);
    assert(s4.flat()[me] == s4.nodes@[me].flat());
}

/// A hierarchy as the builder leaves it: nodes and bounds samples in flat
/// arrays, the root first.
pub struct BVHBase<B> {
    pub nodes: Vec<BVHBaseNode>,
    pub bounds: Vec<B>,
    pub depth: usize,
}

impl<B: Copy> BVHBase<B> {
    /// The node array as plain records.
    pub open spec fn flat(self) -> Seq<FlatNode> {
        Seq::new(self.nodes@.len(), |i: int| self.nodes@[i].flat())
    }

    /// The tree below node `i`.
    pub open spec fn tree_at(self, i: int) -> Tree<B> {
        flat::tree_at(self.flat(), self.bounds@, i)
    }

    /// Whether the nodes below `i` lie in `i..end` and refer only to bounds
    /// samples that exist.
    pub open spec fn subtree_ok(self, i: int, end: int) -> bool {
        flat::subtree_ok(self.flat(), self.bounds@.len() as int, i, end)
    }

    /// The invariant of a finished build: the tree below the first node is
    /// well formed, owns the objects from 0 on, and is exactly `depth` deep,
    /// which is at most `BVH_MAX_DEPTH`.
    pub open spec fn wf(self) -> bool {
        &&& self.subtree_ok(0, self.nodes@.len() as int)
        &&& self.tree_at(0).well_formed()
        &&& self.tree_at(0).lo() == 0
        &&& self.depth == self.tree_at(0).height()
        &&& self.depth <= BVH_MAX_DEPTH
    }

    /// A build with nothing in it yet.
    pub fn new() -> (base: BVHBase<B>)
        ensures
            base.nodes@.len() == 0,
            base.bounds@.len() == 0,
            base.depth == 0,
    {
        BVHBase { nodes: Vec::new(), bounds: Vec::new(), depth: 0 }
    }

    /// The index of the root node.
    pub fn root_node_index(&self) -> (i: usize)
        ensures
            i == 0,
    {
        0
    }

    /// Builds the hierarchy over `objects`, which are rearranged so that
    /// every node owns a contiguous range of them.
    ///
    /// A range of at most `objects_per_leaf` objects becomes a leaf.  A
    /// larger one is handed to `splitter`, which may reorder it and proposes
    /// where and along which axis to split; a proposal that would leave a
    /// side empty is replaced by the midpoint, and so is every proposal once
    /// only balanced splits can still keep the tree within
    /// `BVH_MAX_DEPTH`.  An axis other than 0, 1 or 2 is replaced by 0.
    /// Every split of the tree is one that the splitter was asked about in
    /// this way.
    pub fn from_objects<T, F, M, S>(
        objects: &mut [T],
        objects_per_leaf: usize,
        bounder: F,
        merger: M,
        splitter: S,
    ) -> (base: BVHBase<B>) where
        F: Fn(&T) -> Vec<B>,
        M: Fn(&[B], &[B]) -> Vec<B>,
        S: Fn(&mut [T], bool) -> (usize, u8),

        requires
            old(objects)@.len() > 0,
            objects_per_leaf >= 1,
            bounds_functions_ok(bounder, merger),
            forall|s: &mut [T], balanced: bool| call_requires(splitter, (s, balanced)),
            forall|s: &mut [T], balanced: bool, r: (usize, u8)| #[trigger]
                call_ensures(splitter, (s, balanced), r) ==> final(s)@.len() == s@.len() && final(s)@.to_multiset() == s@.to_multiset(),
        ensures
            base.wf(),
            final(objects)@.len() == old(objects)@.len(),
            final(objects)@.to_multiset() == old(objects)@.to_multiset(),
            built(
                base.tree_at(0),
                0,
                old(objects)@.len() as int,
                objects_per_leaf as int,
                bounder,
                merger,
                final(objects)@,
            ),
            base.tree_at(0).splits_satisfy(0, split_by(splitter, final(objects)@, 0)),
    {
        let mut base = BVHBase::new();
        let len = objects.len();
        proof {
            lemma2_to64_rest();
            lemma_levels_of_pow2(len as int, 64);
        }
        let _root = base.recursive_build(
            0,
            0,
            objects_per_leaf,
            objects,
            &bounder,
            &merger,
            &splitter,
        );
        base
    }

    /// Builds the subtree over `objects`, which are the objects from
    /// `offset` on, at depth `depth`.  Returns the index of the subtree's
    /// root and the range of its bounds samples.
    #[verifier::rlimit(40)]
    fn recursive_build<T, F, M, S>(
        &mut self,
        offset: usize,
        depth: usize,
        objects_per_leaf: usize,
        objects: &mut [T],
        bounder: &F,
        merger: &M,
        splitter: &S,
    ) -> (out: (usize, (usize, usize))) where
        F: Fn(&T) -> Vec<B>,
        M: Fn(&[B], &[B]) -> Vec<B>,
        S: Fn(&mut [T], bool) -> (usize, u8),

        requires
            old(objects)@.len() > 0,
            objects_per_leaf >= 1,
            offset + old(objects)@.len() <= usize::MAX,
            depth + levels_needed(old(objects)@.len() as int) <= BVH_MAX_DEPTH,
            old(self).depth <= BVH_MAX_DEPTH,
            bounds_functions_ok(*bounder, *merger),
            forall|s: &mut [T], balanced: bool| call_requires(*splitter, (s, balanced)),
            forall|s: &mut [T], balanced: bool, r: (usize, u8)| #[trigger]
                call_ensures(*splitter, (s, balanced), r) ==> final(s)@.len() == s@.len() && final(s)@.to_multiset() == s@.to_multiset(),
        ensures
            final(objects)@.len() == old(objects)@.len(),
            final(objects)@.to_multiset() == old(objects)@.to_multiset(),
            out.0 == old(self).nodes@.len(),
            final(self).nodes@.len() > old(self).nodes@.len(),
            forall|k: int|
                0 <= k < old(self).nodes@.len() ==> final(self).nodes@[k] == old(self).nodes@[k],
            final(self).bounds@.len() >= old(self).bounds@.len(),
            forall|k: int|
                0 <= k < old(self).bounds@.len() ==> final(self).bounds@[k] == old(self).bounds@[k],
            final(self).subtree_ok(out.0 as int, final(self).nodes@.len() as int),
            out.1.0 <= out.1.1 <= final(self).bounds@.len(),
            final(self).tree_at(out.0 as int).bounds() == final(self).bounds@.subrange(
                out.1.0 as int,
                out.1.1 as int,
            ),
            built(
                final(self).tree_at(out.0 as int),
                offset as int,
                old(objects)@.len() as int,
                objects_per_leaf as int,
                *bounder,
                *merger,
                final(objects)@,
            ),
            final(self).depth == deeper(
                old(self).depth as int,
                depth + final(self).tree_at(out.0 as int).height(),
            ),
            depth + final(self).tree_at(out.0 as int).height() <= BVH_MAX_DEPTH,
            final(self).tree_at(out.0 as int).splits_satisfy(
                depth as int,
                split_by(*splitter, final(objects)@, offset as int),
            ),
        decreases old(objects)@.len(),
    {
        let me = self.nodes.len();
        let len = objects.len();
        if len <= objects_per_leaf {
            let leaf = self.build_leaf(offset, depth, objects, bounder, merger);
            assert(objects@.subrange(offset - offset, offset + len - offset) =~= objects@);
            return leaf;
        }
        self.nodes.push(
            BVHBaseNode::Internal { bounds_range: (0, 0), children_indices: (0, 0), split_axis: 0 },
        );
        let balanced = count_levels(len - 1) + depth >= BVH_MAX_DEPTH;
        let ghost given = objects@;
        let (idx, axis) = splitter(objects, balanced);
        let ghost reordered = objects@;
        assert(asked(*splitter, given, must_balance(len as int, depth as int), (idx, axis)));
        let split_index = if balanced || idx == 0 || idx >= len {
            len / 2
        } else {
            idx
        };
        let split_axis = if axis > 2 {
            0
        } else {
            axis
        };
        proof {
            if balanced {
                lemma_levels_monotonic(split_index as int, (len + 1) / 2);
                lemma_levels_monotonic(len - split_index, (len + 1) / 2);
            } else {
                lemma_levels_monotonic(split_index as int, len - 1);
                lemma_levels_monotonic(len - split_index, len - 1);
            }
        }
        let (left, right) = objects.split_at_mut(split_index);
        let ghost left0 = left@;
        let ghost right0 = right@;
        let (c1, c1_bounds) = self.recursive_build(
            offset,
            depth + 1,
            objects_per_leaf,
            left,
            bounder,
            merger,
            splitter,
        );
        let ghost s1 = *self;
        let (c2, c2_bounds) = self.recursive_build(
            offset + split_index,
            depth + 1,
            objects_per_leaf,
            right,
            bounder,
            merger,
            splitter,
        );
        let out = self.join(
            me,
            c1,
            c1_bounds,
            c2,
            c2_bounds,
            split_axis,
            merger,
            Ghost(s1),
        );
        proof {
            let t1 = s1.tree_at(c1 as int);
            let t2 = self.tree_at(c2 as int);
            assert(objects@ =~= left@ + right@);
            assert(reordered =~= left0 + right0);
            lemma_parts_permuted(left0, right0, left@, right@);
            lemma_splits_join(
                t1,
                t2,
                self.bounds@.subrange(out.1.0 as int, out.1.1 as int),
                split_axis,
                depth as int,
                offset as int,
                split_index as int,
                len as int,
                *splitter,
                given,
                (idx, axis),
                left@,
                right@,
            );
            lemma_built_join(
                t1,
                t2,
                self.bounds@.subrange(out.1.0 as int, out.1.1 as int),
                split_axis,
                offset as int,
                split_index as int,
                len as int,
                objects_per_leaf as int,
                *bounder,
                *merger,
                left@,
                right@,
            );
        }
        out
    }

    /// Fills in the node reserved at `me` as the parent of the subtrees at
    /// `c1` and `c2`, with the merged bounds of the two.  `s1` is the build
    /// as it stood when the first subtree was done.
    fn join<M: Fn(&[B], &[B]) -> Vec<B>>(
        &mut self,
        me: usize,
        c1: usize,
        c1_bounds: (usize, usize),
        c2: usize,
        c2_bounds: (usize, usize),
        split_axis: u8,
        merger: &M,
        Ghost(s1): Ghost<BVHBase<B>>,
    ) -> (out: (usize, (usize, usize)))
        requires
            me < c1,
            c2 == s1.nodes@.len(),
            s1.subtree_ok(c1 as int, s1.nodes@.len() as int),
            old(self).subtree_ok(c2 as int, old(self).nodes@.len() as int),
            forall|k: int| 0 <= k < s1.nodes@.len() ==> old(self).nodes@[k] == s1.nodes@[k],
            s1.bounds@.len() <= old(self).bounds@.len(),
            forall|k: int| 0 <= k < s1.bounds@.len() ==> old(self).bounds@[k] == s1.bounds@[k],
            c1_bounds.0 <= c1_bounds.1 <= s1.bounds@.len(),
            c2_bounds.0 <= c2_bounds.1 <= old(self).bounds@.len(),
            s1.tree_at(c1 as int).bounds() == s1.bounds@.subrange(
                c1_bounds.0 as int,
                c1_bounds.1 as int,
            ),
            old(self).tree_at(c2 as int).bounds() == old(self).bounds@.subrange(
                c2_bounds.0 as int,
                c2_bounds.1 as int,
            ),
            s1.tree_at(c1 as int).bounds().len() > 0,
            old(self).tree_at(c2 as int).bounds().len() > 0,
            forall|x: &[B], y: &[B]| call_requires(*merger, (x, y)),
            forall|x: &[B], y: &[B], v: Vec<B>| #[trigger]
                call_ensures(*merger, (x, y), v) ==> v@.len() > 0,
        ensures
            out.0 == me,
            final(self).depth == old(self).depth,
            final(self).nodes@.len() == old(self).nodes@.len(),
            forall|k: int|
                0 <= k < old(self).nodes@.len() && k != me ==> final(self).nodes@[k] == old(self).nodes@[k],
            final(self).bounds@.len() >= old(self).bounds@.len(),
            forall|k: int|
                0 <= k < old(self).bounds@.len() ==> final(self).bounds@[k] == old(self).bounds@[k],
            out.1.0 <= out.1.1 <= final(self).bounds@.len(),
            final(self).subtree_ok(me as int, final(self).nodes@.len() as int),
            final(self).tree_at(c2 as int) == old(self).tree_at(c2 as int),
            final(self).tree_at(me as int) == (Tree::Internal {
                bounds: final(self).bounds@.subrange(out.1.0 as int, out.1.1 as int),
                split_axis,
                left: Box::new(s1.tree_at(c1 as int)),
                right: Box::new(old(self).tree_at(c2 as int)),
            }),
            final(self).bounds@.subrange(out.1.0 as int, out.1.1 as int).len() > 0,
            merged(
                *merger,
                s1.tree_at(c1 as int).bounds(),
                old(self).tree_at(c2 as int).bounds(),
                final(self).bounds@.subrange(out.1.0 as int, out.1.1 as int),
            ),
    {
        let ghost s2 = *self;
        let both = {
            let all = self.bounds.as_slice();
            merger(
                slice_subrange(all, c1_bounds.0, c1_bounds.1),
                slice_subrange(all, c2_bounds.0, c2_bounds.1),
            )
        };
        let bi = self.bounds.len();
        append_copies(&mut self.bounds, both.as_slice());
        let bj = self.bounds.len();
        self.nodes[me] = BVHBaseNode::Internal {
            bounds_range: (bi, bj),
            children_indices: (c1, c2),
            split_axis,
        };
        proof {
            lemma_joined(
                s1,
                s2,
                *self,
                me as int,
                c1 as int,
                c2 as int,
                bi as int,
                bj as int,
                split_axis,
            );
            assert(self.bounds@.subrange(bi as int, bj as int) =~= both@);
            assert(s2.bounds@.subrange(c1_bounds.0 as int, c1_bounds.1 as int) =~= s1.bounds@.subrange(
                c1_bounds.0 as int,
                c1_bounds.1 as int,
            ));
        }
        (me, (bi, bj))
    }

    /// Adds a leaf over `objects`, which are the objects from `offset` on.
    fn build_leaf<T, F, M>(
        &mut self,
        offset: usize,
        depth: usize,
        objects: &[T],
        bounder: &F,
        merger: &M,
    ) -> (out: (usize, (usize, usize))) where F: Fn(&T) -> Vec<B>, M: Fn(&[B], &[B]) -> Vec<B>
        requires
            objects@.len() > 0,
            offset + objects@.len() <= usize::MAX,
            depth <= BVH_MAX_DEPTH,
            old(self).depth <= BVH_MAX_DEPTH,
            bounds_functions_ok(*bounder, *merger),
        ensures
            out.0 == old(self).nodes@.len(),
            final(self).nodes@.len() == old(self).nodes@.len() + 1,
            forall|k: int|
                0 <= k < old(self).nodes@.len() ==> final(self).nodes@[k] == old(self).nodes@[k],
            final(self).bounds@.len() >= old(self).bounds@.len(),
            forall|k: int|
                0 <= k < old(self).bounds@.len() ==> final(self).bounds@[k] == old(self).bounds@[k],
            final(self).subtree_ok(out.0 as int, final(self).nodes@.len() as int),
            out.1.0 <= out.1.1 <= final(self).bounds@.len(),
            final(self).depth == deeper(old(self).depth as int, depth as int),
            final(self).bounds@.subrange(out.1.0 as int, out.1.1 as int).len() > 0,
            accumulated(
                *bounder,
                *merger,
                objects@,
                final(self).bounds@.subrange(out.1.0 as int, out.1.1 as int),
            ),
            final(self).tree_at(out.0 as int) == (Tree::Leaf {
                bounds: final(self).bounds@.subrange(out.1.0 as int, out.1.1 as int),
                lo: offset as int,
                hi: offset + objects@.len(),
            }),
    {
        let me = self.nodes.len();
        let acc = Self::acc_bounds(objects, bounder, merger);
        let bi = self.bounds.len();
        append_copies(&mut self.bounds, acc.as_slice());
        let bj = self.bounds.len();
        self.nodes.push(
            BVHBaseNode::Leaf {
                bounds_range: (bi, bj),
                object_range: (offset, offset + objects.len()),
            },
        );
        if self.depth < depth {
            self.depth = depth;
        }
        proof {
            assert(self.bounds@.subrange(bi as int, bj as int) =~= acc@);
            assert(self.flat()[me as int] == self.nodes@[me as int].flat());
        }
        (me, (bi, bj))
    }

    /// The motion slice of the objects' union: that of the first object,
    /// with those of the others merged in one after the other.
    fn acc_bounds<T, F: Fn(&T) -> Vec<B>, M: Fn(&[B], &[B]) -> Vec<B>>(
        objects: &[T],
        bounder: &F,
        merger: &M,
    ) -> (acc: Vec<B>)
        requires
            objects@.len() > 0,
            bounds_functions_ok(*bounder, *merger),
        ensures
            acc@.len() > 0,
            accumulated(*bounder, *merger, objects@, acc@),
    {
        let mut acc = bounder(&objects[0]);
        let mut i: usize = 1;
        assert(objects@.subrange(0, 1)[0] == objects@[0]);
        while i < objects.len()
            invariant
                1 <= i <= objects@.len(),
                acc@.len() > 0,
                accumulated(*bounder, *merger, objects@.subrange(0, i as int), acc@),
                bounds_functions_ok(*bounder, *merger),
            decreases objects@.len() - i,
        {
            let next = bounder(&objects[i]);
            let both = merger(acc.as_slice(), next.as_slice());
            proof {
                let upto = objects@.subrange(0, i + 1);
                assert(upto.len() == i + 1);
                assert(upto.drop_last() =~= objects@.subrange(0, i as int));
                assert(upto.last() == objects@[i as int]);
                assert(accumulated(*bounder, *merger, upto.drop_last(), acc@));
                assert(bounded(*bounder, upto.last(), next@));
                assert(merged(*merger, acc@, next@, both@));
                lemma_accumulated_step(*bounder, *merger, upto, acc@, next@, both@);
            }
            acc = both;
            i = i + 1;
        }
        assert(objects@.subrange(0, i as int) =~= objects@);
        acc
    }
}

} // verus!
