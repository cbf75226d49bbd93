use vstd::prelude::*;
use crate::record::{
    StudentRanking, rank_le, same_keys, sorted, with_keys_of, stable_reorder,
    lemma_with_keys_of_add, lemma_with_keys_of_none,
};

verus! {

broadcast use vstd::seq_lib::group_to_multiset_ensures;

/// A copy of `v[lo..hi]`.
fn copy_range(v: &Vec<StudentRanking>, lo: usize, hi: usize) -> (r: Vec<StudentRanking>)
    requires
        lo <= hi <= v.len(),
    ensures
        r@ == v@.subrange(lo as int, hi as int),
{
    let mut r: Vec<StudentRanking> = Vec::new();
    let mut i: usize = lo;
    while i < hi
        invariant
            lo <= i <= hi <= v.len(),
            r@ == v@.subrange(lo as int, i as int),
        decreases hi - i,
    {
        r.push(v[i].duplicate());
        assert(v@.subrange(lo as int, i + 1) =~= v@.subrange(lo as int, i as int).push(v@[i as int]));
        i += 1;
    }
    r
}

/// Merges the two sorted halves `v[..mid]` and `v[mid..]` into one sorted
/// sequence. On equal keys the record of the left half comes first, so the
/// merge is stable.
pub fn merge(v: &mut Vec<StudentRanking>, mid: usize)
    requires
        mid <= old(v).len(),
        sorted(old(v)@.subrange(0, mid as int)),
        sorted(old(v)@.subrange(mid as int, old(v).len() as int)),
    ensures
        final(v).len() == old(v).len(),
        sorted(final(v)@),
        stable_reorder(final(v)@, old(v)@),
{
    let left = copy_range(v, 0, mid);
    let right = copy_range(v, mid, v.len());
    let ghost l = left@;
    let ghost rt = right@;
    proof {
        assert(old(v)@ =~= l + rt);
    }
    let mut out: Vec<StudentRanking> = Vec::new();
    let mut i: usize = 0;
    let mut j: usize = 0;
    while i < left.len() || j < right.len()
        invariant
            l == left@,
            rt == right@,
            sorted(l),
            sorted(rt),
            0 <= i <= l.len(),
            0 <= j <= rt.len(),
            out.len() == i + j,
            sorted(out@),
            out.len() > 0 && i < l.len() ==> rank_le(out@.last(), l[i as int]),
            out.len() > 0 && j < rt.len() ==> rank_le(out@.last(), rt[j as int]),
            j > 0 && i < l.len() ==> !rank_le(l[i as int], rt[j - 1]),
            out@.to_multiset() == l.take(i as int).to_multiset().add(rt.take(j as int).to_multiset()),
            forall|r: StudentRanking| #[trigger] with_keys_of(out@, r)
                == with_keys_of(l.take(i as int), r) + with_keys_of(rt.take(j as int), r),
        decreases l.len() + rt.len() - i - j,
    {
        let ghost o = out@;
        let take_left = j >= right.len() || (i < left.len() && left[i].le(&right[j]));
        if take_left {
            let x = left[i].duplicate();
            proof {
                assert(l.take(i + 1) =~= l.take(i as int).push(x));
                vstd::seq_lib::lemma_multiset_commutative(l.take(i as int), seq![x]);
                assert forall|r: StudentRanking| #[trigger] with_keys_of(o.push(x), r)
                    == with_keys_of(l.take(i + 1), r) + with_keys_of(rt.take(j as int), r) by {
                    assert(o.push(x).drop_last() =~= o);
                    assert(l.take(i + 1).drop_last() =~= l.take(i as int));
                    assert(with_keys_of(o, r) == with_keys_of(l.take(i as int), r) + with_keys_of(rt.take(j as int), r));
                    assert(o.push(x).last() == x && l.take(i + 1).last() == x);
                    if same_keys(x, r) {
                        assert forall|t: int| 0 <= t < rt.take(j as int).len() implies !same_keys(
                            #[trigger] rt.take(j as int)[t], r) by {
                            assert(rank_le(rt[t], rt[j - 1]) || t == j - 1);
                        }
                        lemma_with_keys_of_none(rt.take(j as int), r);
                        assert(with_keys_of(rt.take(j as int), r) + Seq::empty() =~= with_keys_of(rt.take(j as int), r));
                        assert(with_keys_of(l.take(i as int), r).push(x) + Seq::<StudentRanking>::empty()
                            =~= with_keys_of(l.take(i as int), r).push(x));
                        assert(with_keys_of(l.take(i as int), r) + Seq::<StudentRanking>::empty()
                            =~= with_keys_of(l.take(i as int), r));
                    }
                }
            }
            out.push(x);
            i += 1;
        } else {
            let x = right[j].duplicate();
            proof {
                assert(rt.take(j + 1) =~= rt.take(j as int).push(x));
                assert forall|r: StudentRanking| #[trigger] with_keys_of(o.push(x), r)
                    == with_keys_of(l.take(i as int), r) + with_keys_of(rt.take(j + 1), r) by {
                    assert(o.push(x).drop_last() =~= o);
                    assert(rt.take(j + 1).drop_last() =~= rt.take(j as int));
                    assert(with_keys_of(o, r) == with_keys_of(l.take(i as int), r) + with_keys_of(rt.take(j as int), r));
                    assert(o.push(x).last() == x && rt.take(j + 1).last() == x);
                    if same_keys(x, r) {
                        assert(with_keys_of(l.take(i as int), r) + with_keys_of(rt.take(j as int), r).push(x)
                            =~= (with_keys_of(l.take(i as int), r) + with_keys_of(rt.take(j as int), r)).push(x));
                    }
                }
            }
            out.push(x);
            j += 1;
        }
    }
    proof {
        assert(l.take(l.len() as int) =~= l);
        assert(rt.take(rt.len() as int) =~= rt);
        vstd::seq_lib::lemma_multiset_commutative(l, rt);
        assert forall|r: StudentRanking| #[trigger] with_keys_of(out@, r) == with_keys_of(old(v)@, r) by {
            lemma_with_keys_of_add(l, rt, r);
        }
    }
    *v = out;
}

/// Sorts `v` in ascending key order by a stable top-down merge sort: records
/// with equal keys keep their relative order.
pub fn merge_sort(v: &mut Vec<StudentRanking>)
    ensures
        final(v).len() == old(v).len(),
        sorted(final(v)@),
        stable_reorder(final(v)@, old(v)@),
    decreases old(v).len(),
{
    let len = v.len();
    if len > 1 {
        let mid = len / 2;
        let mut left = copy_range(v, 0, mid);
        let mut right = copy_range(v, mid, len);
        let ghost l0 = left@;
        let ghost r0 = right@;
        merge_sort(&mut left);
        merge_sort(&mut right);
        let mut joined = left;
        let mut k: usize = 0;
        let ghost lsorted = joined@;
        while k < right.len()
            invariant
                0 <= k <= right.len(),
                joined@ == lsorted + right@.take(k as int),
            decreases right.len() - k,
        {
            joined.push(right[k].duplicate());
            assert(right@.take(k + 1) =~= right@.take(k as int).push(right@[k as int]));
            k += 1;
        }
        proof {
            assert(right@.take(right.len() as int) =~= right@);
            assert(joined@.subrange(0, mid as int) =~= lsorted);
            assert(joined@.subrange(mid as int, len as int) =~= right@);
            assert(old(v)@ =~= l0 + r0);
            vstd::seq_lib::lemma_multiset_commutative(l0, r0);
            vstd::seq_lib::lemma_multiset_commutative(lsorted, right@);
            assert forall|r: StudentRanking| #[trigger] with_keys_of(joined@, r) == with_keys_of(old(v)@, r) by {
                lemma_with_keys_of_add(l0, r0, r);
                lemma_with_keys_of_add(lsorted, right@, r);
            }
        }
        merge(&mut joined, mid);
        *v = joined;
    }
}

} // verus!
