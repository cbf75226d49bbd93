use vstd::prelude::*;
use crate::record::{StudentRanking, rank_le, same_keys};

verus! {

broadcast use {vstd::seq_lib::group_to_multiset_ensures, vstd::multiset::group_multiset_axioms};

/// The current head of one chunk during a merge: its record and the chunk's index.
pub struct HeadEntry {
    pub record: StudentRanking,
    pub chunk: usize,
}

/// `a` comes no later than `b`: by the record's keys, then by chunk index.
pub open spec fn entry_le(a: HeadEntry, b: HeadEntry) -> bool {
    rank_le(a.record, b.record) && (same_keys(a.record, b.record) ==> a.chunk <= b.chunk)
}

pub open spec fn parent(i: int) -> int {
    (i - 1) / 2
}

/// Each entry but the first comes no earlier than its parent.
pub open spec fn heap_ordered(s: Seq<HeadEntry>) -> bool {
    forall|j: int| 0 < j < s.len() ==> entry_le(s[parent(j)], #[trigger] s[j])
}

pub proof fn lemma_root_least(s: Seq<HeadEntry>, i: int)
    requires
        heap_ordered(s),
        0 <= i < s.len(),
    ensures
        entry_le(s[0], s[i]),
    decreases i,
{
    if i > 0 {
        lemma_root_least(s, parent(i));
    }
}

proof fn lemma_swap_multiset(s: Seq<HeadEntry>, i: int, j: int)
    requires
        0 <= i < s.len(),
        0 <= j < s.len(),
        i != j,
    ensures
        s.update(i, s[j]).update(j, s[i]).to_multiset() == s.to_multiset(),
{
    let t = s.update(i, s[j]);
    assert(t[j] == s[j]);
    assert(t.to_multiset() == s.to_multiset().insert(s[j]).remove(s[i]));
    assert(t.update(j, s[i]).to_multiset() == t.to_multiset().insert(s[i]).remove(s[j]));
    assert(s.to_multiset().insert(s[j]).remove(s[i]).insert(s[i]).remove(s[j]) =~= s.to_multiset());
}

fn entry_less_eq(a: &HeadEntry, b: &HeadEntry) -> (r: bool)
    ensures
        r == entry_le(*a, *b),
{
    if a.record.le(&b.record) {
        if b.record.le(&a.record) {
            a.chunk <= b.chunk
        } else {
            true
        }
    } else {
        false
    }
}

fn swap_entries(v: &mut Vec<HeadEntry>, i: usize, j: usize)
    requires
        i < old(v).len(),
        j < old(v).len(),
        i != j,
    ensures
        final(v)@ == old(v)@.update(i as int, old(v)@[j as int]).update(j as int, old(v)@[i as int]),
        final(v)@.to_multiset() == old(v)@.to_multiset(),
{
    proof {
        lemma_swap_multiset(old(v)@, i as int, j as int);
    }
    let a = HeadEntry { record: v[i].record.duplicate(), chunk: v[i].chunk };
    let b = HeadEntry { record: v[j].record.duplicate(), chunk: v[j].chunk };
    v.set(i, b);
    v.set(j, a);
}

/// Adds `e` to the heap.
pub fn heap_push(v: &mut Vec<HeadEntry>, e: HeadEntry)
    requires
        heap_ordered(old(v)@),
    ensures
        heap_ordered(final(v)@),
        final(v)@.to_multiset() == old(v)@.to_multiset().insert(e),
{
    v.push(e);
    let ghost m = v@.to_multiset();
    let mut i: usize = v.len() - 1;
    let mut done = false;
    while i > 0 && !done
        invariant
            i < v.len(),
            done ==> i > 0 && entry_le(v@[parent(i as int)], v@[i as int]),
            v@.to_multiset() == m,
            forall|j: int| 0 < j < v.len() && j != i ==> entry_le(v@[parent(j)], #[trigger] v@[j]),
            i > 0 ==> forall|j: int| 0 < j < v.len() && parent(j) == i ==> entry_le(
                v@[parent(i as int)], #[trigger] v@[j]),
        decreases 2 * i + if done { 0int } else { 1int },
    {
        let p = (i - 1) / 2;
        if entry_less_eq(&v[p], &v[i]) {
            done = true;
            continue;
        }
        let ghost w = v@;
        swap_entries(v, p, i);
        proof {
            assert forall|j: int| 0 < j < v.len() && j != p implies entry_le(v@[parent(j)], #[trigger] v@[j]) by {
                if j == i {
                } else if parent(j) == i {
                } else if parent(j) == p {
                    assert(entry_le(w[p as int], w[j]));
                } else if j == i {
                }
            }
            if p > 0 {
                assert forall|j: int| 0 < j < v.len() && parent(j) == p implies entry_le(
                    v@[parent(p as int)], #[trigger] v@[j]) by {
                    assert(entry_le(w[parent(p as int)], w[p as int]));
                    if j != i {
                        assert(entry_le(w[p as int], w[j]));
                    }
                }
            }
        }
        i = p;
    }
    assert forall|j: int| 0 < j < v.len() implies entry_le(v@[parent(j)], #[trigger] v@[j]) by {
        if j == i {
        }
    }
}

/// Takes the least entry out of a non-empty heap.
pub fn heap_pop(v: &mut Vec<HeadEntry>) -> (r: HeadEntry)
    requires
        heap_ordered(old(v)@),
        old(v).len() > 0,
    ensures
        r == old(v)@[0],
        heap_ordered(final(v)@),
        final(v)@.to_multiset() == old(v)@.to_multiset().remove(r),
        forall|j: int| 0 <= j < old(v).len() ==> entry_le(r, #[trigger] old(v)@[j]),
{
    proof {
        assert forall|j: int| 0 <= j < old(v).len() implies entry_le(old(v)@[0], #[trigger] old(v)@[j]) by {
            lemma_root_least(old(v)@, j);
        }
    }
    let n = v.len();
    if n == 1 {
        let r = v.pop().unwrap();
        assert(old(v)@ =~= seq![r]);
        assert(old(v)@.to_multiset() =~= Seq::<HeadEntry>::empty().push(r).to_multiset());
        return r;
    }
    swap_entries(v, 0, n - 1);
    let r = v.pop().unwrap();
    proof {
        assert(v@ == old(v)@.update(0, old(v)@[n - 1]).update(n - 1, old(v)@[0]).drop_last());
        assert(old(v)@.update(0, old(v)@[n - 1]).update(n - 1, old(v)@[0]) =~= v@.push(r));
    }
    let ghost m = v@.to_multiset();
    let mut i: usize = 0;
    let mut done = false;
    while !done
        invariant
            i < v.len(),
            v@.to_multiset() == m,
            forall|j: int| 0 < j < v.len() && parent(j) != i ==> entry_le(v@[parent(j)], #[trigger] v@[j]),
            done ==> heap_ordered(v@),
            i > 0 ==> forall|j: int| 0 < j < v.len() && parent(j) == i ==> entry_le(
                v@[parent(i as int)], #[trigger] v@[j]),
        decreases 2 * (v.len() - i) + if done { 0int } else { 1int },
    {
        if i >= v.len() / 2 {
            done = true;
            proof {
                assert forall|j: int| 0 < j < v.len() implies entry_le(v@[parent(j)], #[trigger] v@[j]) by {
                    if parent(j) == i {
                        assert(j >= 2 * i + 1);
                    }
                }
            }
            continue;
        }
        let l = 2 * i + 1;
        let rt = 2 * i + 2;
        let mut s = i;
        if l < v.len() && !entry_less_eq(&v[s], &v[l]) {
            s = l;
        }
        if rt < v.len() && !entry_less_eq(&v[s], &v[rt]) {
            s = rt;
        }
        if s == i {
            proof {
                assert forall|j: int| 0 < j < v.len() implies entry_le(v@[parent(j)], #[trigger] v@[j]) by {
                    if parent(j) == i {
                        assert(j == l || j == rt);
                    }
                }
            }
            done = true;
            continue;
        }
        let ghost w = v@;
        proof {
            assert(parent(s as int) == i);
            assert(entry_le(w[s as int], w[i as int]));
            assert(l < w.len() ==> entry_le(w[s as int], w[l as int]));
            assert(rt < w.len() ==> entry_le(w[s as int], w[rt as int]));
        }
        swap_entries(v, i, s);
        proof {
            assert forall|j: int| 0 < j < v.len() && parent(j) != s implies entry_le(v@[parent(j)], #[trigger] v@[j]) by {
                if parent(j) == i {
                    assert(j == l || j == rt);
                } else if j == i {
                    assert(entry_le(w[parent(i as int)], w[s as int]));
                }
            }
            assert forall|j: int| 0 < j < v.len() && parent(j) == s implies entry_le(
                v@[parent(s as int)], #[trigger] v@[j]) by {
                assert(entry_le(w[s as int], w[j]));
            }
        }
        i = s;
    }
    r
}

} // verus!
