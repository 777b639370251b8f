use vstd::prelude::*;
use vstd::seq_lib::to_multiset_update;

verus! {

/// `<[T]>::swap`: exchanges the elements at `a` and `b`; it panics when
/// either index is out of bounds, so both must be in bounds here.
pub assume_specification<Elem>[ <[Elem]>::swap ](s: &mut [Elem], a: usize, b: usize)
    requires
        a < old(s)@.len(),
        b < old(s)@.len(),
    ensures
        final(s)@ == old(s)@.update(a as int, old(s)@[b as int]).update(
            b as int,
            old(s)@[a as int],
        ),
;

/// The sequence `s` with the elements at `i` and `j` exchanged.
pub open spec fn swapped<T>(s: Seq<T>, i: int, j: int) -> Seq<T> {
    s.update(i, s[j]).update(j, s[i])
}

/// Exchanging two elements of a sequence leaves its multiset unchanged.
pub proof fn lemma_swapped_is_permutation<T>(s: Seq<T>, i: int, j: int)
    requires
        0 <= i < s.len(),
        0 <= j < s.len(),
    ensures
        swapped(s, i, j).to_multiset() == s.to_multiset(),
{
    broadcast use vstd::multiset::group_multiset_axioms;

    let mid = s.update(i, s[j]);
    assert(mid.len() == s.len());
    to_multiset_update(s, i, s[j]);
    to_multiset_update(mid, j, s[i]);
    if i == j {
        assert(swapped(s, i, j) =~= s);
    } else {
        assert(mid[j] == s[j]);
        s.to_multiset_ensures();
        assert(s.contains(s[i]));
        assert(s.contains(s[j]));
        let m = s.to_multiset();
        assert forall|v: T| swapped(s, i, j).to_multiset().count(v) == m.count(v) by {
            assert(m.insert(s[j]).remove(s[i]).insert(s[i]).remove(s[j]).count(v) == m.count(v));
        }
        assert(swapped(s, i, j).to_multiset() =~= s.to_multiset());
    }
}

/// What is a rearrangement stays one when every element is replaced by what
/// `f` makes of it.
pub proof fn lemma_map_permutation<A, B>(a: Seq<A>, b: Seq<A>, f: spec_fn(A) -> B)
    requires
        a.to_multiset() == b.to_multiset(),
    ensures
        a.map_values(f).to_multiset() == b.map_values(f).to_multiset(),
    decreases a.len(),
{
    broadcast use vstd::multiset::group_multiset_axioms;

    a.to_multiset_ensures();
    b.to_multiset_ensures();
    if a.len() == 0 {
        assert(a.map_values(f) =~= b.map_values(f));
    } else {
        let x = a.last();
        assert(a.contains(x));
        assert(b.to_multiset().count(x) > 0);
        let j = choose|j: int| 0 <= j < b.len() && b[j] == x;
        let a1 = a.drop_last();
        let b1 = b.remove(j);
        a1.to_multiset_ensures();
        assert(a1.push(x) =~= a);
        assert(a1.to_multiset() =~= a.to_multiset().remove(x));
        assert(b1.to_multiset() =~= b.to_multiset().remove(x));
        lemma_map_permutation(a1, b1, f);
        let ma = a.map_values(f);
        let mb = b.map_values(f);
        let ma1 = a1.map_values(f);
        let mb1 = b1.map_values(f);
        ma1.to_multiset_ensures();
        mb.to_multiset_ensures();
        assert(ma1.push(f(x)) =~= ma);
        assert(mb.remove(j) =~= mb1);
        assert(mb.contains(mb[j]));
        assert(mb.to_multiset() =~= mb1.to_multiset().insert(f(x)));
        assert(ma.to_multiset() =~= ma1.to_multiset().insert(f(x)));
    }
}

/// Partitions a slice in place by a predicate.
///
/// Afterwards the elements for which the predicate answered `true` come
/// first, and the returned index is that of the first element for which it
/// answered `false`.  The slice keeps exactly the elements it had; their
/// order within either side is not specified.
pub fn partition<T, F: Fn(&T) -> bool>(slc: &mut [T], pred: F) -> (split: usize)
    requires
        forall|i: int| 0 <= i < old(slc)@.len() ==> call_requires(pred, (&#[trigger] old(slc)@[i],)),
    ensures
        split <= old(slc)@.len(),
        final(slc)@.len() == old(slc)@.len(),
        final(slc)@.to_multiset() == old(slc)@.to_multiset(),
        forall|i: int| 0 <= i < split ==> call_ensures(pred, (&#[trigger] final(slc)@[i],), true),
        forall|i: int|
            split <= i < final(slc)@.len() ==> call_ensures(
                pred,
                (&#[trigger] final(slc)@[i],),
                false,
            ),
{
    let n = slc.len();
    let mut i: usize = 0;
    let mut split: usize = 0;
    while i < n
        invariant
            split <= i <= n,
            n == slc@.len(),
            n == old(slc)@.len(),
            slc@.to_multiset() == old(slc)@.to_multiset(),
            forall|k: int| i <= k < n ==> slc@[k] == old(slc)@[k],
            forall|k: int| 0 <= k < n ==> call_requires(pred, (&#[trigger] old(slc)@[k],)),
            forall|k: int| 0 <= k < split ==> call_ensures(pred, (&#[trigger] slc@[k],), true),
            forall|k: int| split <= k < i ==> call_ensures(pred, (&#[trigger] slc@[k],), false),
        decreases n - i,
    {
        assert(slc@[i as int] == old(slc)@[i as int]);
        let keep = pred(&slc[i]);
        if keep {
            proof {
                lemma_swapped_is_permutation(slc@, split as int, i as int);
            }
            slc.swap(split, i);
            split = split + 1;
        }
        i = i + 1;
    }
    split
}

} // verus!
