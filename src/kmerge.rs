use vstd::prelude::*;
use vstd::multiset::Multiset;
use crate::record::{StudentRanking, rank_le, sorted};
use crate::heap::{HeadEntry, entry_le, heap_ordered, heap_push, heap_pop};

verus! {

broadcast use {vstd::seq_lib::group_to_multiset_ensures, vstd::multiset::group_multiset_axioms};

/// The plain contents of each chunk.
pub open spec fn chunk_views(ch: Seq<Vec<StudentRanking>>) -> Seq<Seq<StudentRanking>> {
    ch.map_values(|v: Vec<StudentRanking>| v@)
}

/// All chunks laid end to end.
pub open spec fn flatten(ch: Seq<Seq<StudentRanking>>) -> Seq<StudentRanking>
    decreases ch.len(),
{
    if ch.len() == 0 {
        Seq::empty()
    } else {
        flatten(ch.drop_last()) + ch.last()
    }
}

/// Every chunk is in ascending key order.
pub open spec fn all_sorted(ch: Seq<Seq<StudentRanking>>) -> bool {
    forall|c: int| 0 <= c < ch.len() ==> sorted(#[trigger] ch[c])
}

/// The first `pos[c]` records of each chunk `c`.
pub open spec fn consumed(ch: Seq<Seq<StudentRanking>>, pos: Seq<usize>) -> Seq<Seq<StudentRanking>> {
    Seq::new(ch.len(), |c: int| ch[c].take(pos[c] as int))
}

proof fn lemma_flatten_update(s: Seq<Seq<StudentRanking>>, c: int, x: StudentRanking)
    requires
        0 <= c < s.len(),
    ensures
        flatten(s.update(c, s[c].push(x))).to_multiset() == flatten(s).to_multiset().insert(x),
        flatten(s.update(c, s[c].push(x))).len() == flatten(s).len() + 1,
    decreases s.len(),
{
    let t = s.update(c, s[c].push(x));
    assert(t.drop_last() =~= if c == s.len() - 1 { s.drop_last() } else { s.drop_last().update(c, s[c].push(x)) });
    if c == s.len() - 1 {
        assert(flatten(t) =~= (flatten(s.drop_last()) + s.last()).push(x));
    } else {
        lemma_flatten_update(s.drop_last(), c, x);
        vstd::seq_lib::lemma_multiset_commutative(flatten(t.drop_last()), s.last());
        vstd::seq_lib::lemma_multiset_commutative(flatten(s.drop_last()), s.last());
    }
}

proof fn lemma_consumed_len(ch: Seq<Seq<StudentRanking>>, pos: Seq<usize>)
    requires
        pos.len() == ch.len(),
        forall|c: int| 0 <= c < ch.len() ==> pos[c] <= (#[trigger] ch[c]).len(),
    ensures
        flatten(consumed(ch, pos)).len() <= flatten(ch).len(),
    decreases ch.len(),
{
    if ch.len() > 0 {
        assert(consumed(ch, pos).drop_last() =~= consumed(ch.drop_last(), pos.drop_last()));
        lemma_consumed_len(ch.drop_last(), pos.drop_last());
    }
}

proof fn lemma_flatten_empties(n: nat)
    ensures
        flatten(Seq::new(n, |d: int| Seq::<StudentRanking>::empty())) =~= Seq::<StudentRanking>::empty(),
    decreases n,
{
    if n > 0 {
        assert(Seq::new(n, |d: int| Seq::<StudentRanking>::empty()).drop_last()
            =~= Seq::new((n - 1) as nat, |d: int| Seq::<StudentRanking>::empty()));
        lemma_flatten_empties((n - 1) as nat);
    }
}

/// The entry for the current head of chunk `c`.
pub open spec fn head_of(ch: Seq<Seq<StudentRanking>>, pos: Seq<usize>, c: int) -> HeadEntry {
    HeadEntry { record: ch[c][pos[c] as int], chunk: c as usize }
}

/// The entries for the current heads of the first `n` chunks that are not used up.
pub open spec fn heads(ch: Seq<Seq<StudentRanking>>, pos: Seq<usize>, n: nat) -> Multiset<HeadEntry>
    decreases n,
{
    if n == 0 {
        Multiset::empty()
    } else {
        let c = n - 1;
        if pos[c] < ch[c].len() {
            heads(ch, pos, (n - 1) as nat).insert(head_of(ch, pos, c))
        } else {
            heads(ch, pos, (n - 1) as nat)
        }
    }
}

proof fn lemma_heads_member(ch: Seq<Seq<StudentRanking>>, pos: Seq<usize>, n: nat, e: HeadEntry)
    requires
        n <= ch.len(),
        n <= pos.len(),
        n <= usize::MAX,
        heads(ch, pos, n).count(e) > 0,
    ensures
        e.chunk < n,
        pos[e.chunk as int] < ch[e.chunk as int].len(),
        e == head_of(ch, pos, e.chunk as int),
    decreases n,
{
    if n > 0 {
        let c = n - 1;
        if pos[c] < ch[c].len() && e == head_of(ch, pos, c) {
        } else {
            lemma_heads_member(ch, pos, (n - 1) as nat, e);
        }
    }
}

proof fn lemma_heads_contains(ch: Seq<Seq<StudentRanking>>, pos: Seq<usize>, n: nat, c: int)
    requires
        n <= ch.len(),
        n <= pos.len(),
        n <= usize::MAX,
        0 <= c < n,
        pos[c] < ch[c].len(),
    ensures
        heads(ch, pos, n).count(head_of(ch, pos, c)) > 0,
    decreases n,
{
    if c < n - 1 {
        lemma_heads_contains(ch, pos, (n - 1) as nat, c);
    }
}

proof fn lemma_heads_frame(ch: Seq<Seq<StudentRanking>>, p1: Seq<usize>, p2: Seq<usize>, n: nat)
    requires
        forall|d: int| 0 <= d < n ==> p1[d] == p2[d],
    ensures
        heads(ch, p1, n) == heads(ch, p2, n),
    decreases n,
{
    if n > 0 {
        lemma_heads_frame(ch, p1, p2, (n - 1) as nat);
    }
}

proof fn lemma_heads_advance(ch: Seq<Seq<StudentRanking>>, pos: Seq<usize>, n: nat, c: int)
    requires
        0 <= c < n <= pos.len(),
        n <= ch.len(),
        n <= usize::MAX,
        pos[c] < ch[c].len() <= usize::MAX,
    ensures
        ({
            let p2 = pos.update(c, (pos[c] + 1) as usize);
            let base = heads(ch, pos, n).remove(head_of(ch, pos, c));
            heads(ch, p2, n) == if pos[c] + 1 < ch[c].len() {
                base.insert(head_of(ch, p2, c))
            } else {
                base
            }
        }),
    decreases n,
{
    let p2 = pos.update(c, (pos[c] + 1) as usize);
    let h = head_of(ch, pos, c);
    let rest = heads(ch, pos, (n - 1) as nat);
    let rest2 = heads(ch, p2, (n - 1) as nat);
    if c == n - 1 {
        lemma_heads_frame(ch, pos, p2, (n - 1) as nat);
        assert(heads(ch, pos, n) == rest.insert(h));
        assert(rest.insert(h).remove(h) =~= rest);
        if pos[c] + 1 < ch[c].len() {
            assert(heads(ch, p2, n) == rest2.insert(head_of(ch, p2, c)));
        } else {
            assert(heads(ch, p2, n) == rest2);
        }
    } else {
        lemma_heads_advance(ch, pos, (n - 1) as nat, c);
        lemma_heads_contains(ch, pos, (n - 1) as nat, c);
        assert(p2[n - 1] == pos[n - 1]);
        if pos[n - 1] < ch[n - 1].len() {
            let t = head_of(ch, pos, n - 1);
            assert(head_of(ch, p2, n - 1) == t);
            assert(heads(ch, pos, n) == rest.insert(t));
            assert(heads(ch, p2, n) == rest2.insert(t));
            assert(rest.insert(t).remove(h) =~= rest.remove(h).insert(t));
            if pos[c] + 1 < ch[c].len() {
                assert(rest.remove(h).insert(head_of(ch, p2, c)).insert(t)
                    =~= rest.remove(h).insert(t).insert(head_of(ch, p2, c)));
            }
        } else {
            assert(heads(ch, pos, n) == rest);
            assert(heads(ch, p2, n) == rest2);
        }
    }
}

/// Merges chunks that are each in ascending key order into one sequence in
/// ascending key order that holds every record of every chunk. A min-heap holds
/// the current head of each chunk that is not used up; each step takes the least
/// head out and puts in the next record of its chunk; among equal heads the
/// chunk that comes first is taken, but callers should not rely on any order
/// among records of different chunks with equal keys.
pub fn k_way_merge(chunks: Vec<Vec<StudentRanking>>) -> (out: Vec<StudentRanking>)
    requires
        all_sorted(chunk_views(chunks@)),
    ensures
        sorted(out@),
        out@.to_multiset() == flatten(chunk_views(chunks@)).to_multiset(),
        out.len() == flatten(chunk_views(chunks@)).len(),
        chunks.len() == 1 ==> out@ == chunks[0]@,
{
    let ghost ch = chunk_views(chunks@);
    let k = chunks.len();
    let mut pos: Vec<usize> = Vec::new();
    let mut c: usize = 0;
    while c < k
        invariant
            c <= k == chunks.len(),
            pos.len() == c,
            forall|d: int| 0 <= d < c ==> pos[d] == 0,
        decreases k - c,
    {
        pos.push(0);
        c += 1;
    }
    let mut heap: Vec<HeadEntry> = Vec::new();
    let mut c: usize = 0;
    while c < k
        invariant
            ch == chunk_views(chunks@),
            c <= k == chunks.len() == pos.len(),
            forall|d: int| 0 <= d < k ==> pos[d] == 0,
            heap_ordered(heap@),
            heap@.to_multiset() == heads(ch, pos@, c as nat),
        decreases k - c,
    {
        if chunks[c].len() > 0 {
            let e = HeadEntry { record: chunks[c][0].duplicate(), chunk: c };
            assert(e == head_of(ch, pos@, c as int));
            heap_push(&mut heap, e);
        }
        c += 1;
    }
    proof {
        assert forall|d: int| 0 <= d < k implies #[trigger] consumed(ch, pos@)[d] =~= Seq::<StudentRanking>::empty() by {}
        assert(consumed(ch, pos@) =~= Seq::new(k as nat, |d: int| Seq::<StudentRanking>::empty()));
        lemma_flatten_empties(k as nat);
        lemma_consumed_len(ch, pos@);
    }
    let mut out: Vec<StudentRanking> = Vec::new();
    while heap.len() > 0
        invariant
            ch == chunk_views(chunks@),
            all_sorted(ch),
            k == chunks.len(),
            pos.len() == k,
            forall|d: int| 0 <= d < k ==> pos[d] <= (#[trigger] chunks[d]).len(),
            heap_ordered(heap@),
            heap@.to_multiset() == heads(ch, pos@, k as nat),
            sorted(out@),
            forall|d: int| 0 <= d < k && pos[d] < chunks[d].len() && out.len() > 0
                ==> rank_le(out@.last(), #[trigger] chunks[d]@[pos[d] as int]),
            out@.to_multiset() == flatten(consumed(ch, pos@)).to_multiset(),
            out.len() == flatten(consumed(ch, pos@)).len(),
            out.len() <= flatten(ch).len(),
            k == 1 ==> out@ == chunks[0]@.take(pos[0] as int),
        decreases flatten(ch).len() - out.len(),
    {
        let ghost h0 = heap@;
        let ghost pos0 = pos@;
        let e = heap_pop(&mut heap);
        proof {
            assert(h0.contains(e)) by {
                assert(h0[0] == e);
            }
            lemma_heads_member(ch, pos0, k as nat, e);
            assert forall|d: int| 0 <= d < k && pos0[d] < chunks[d].len()
                implies rank_le(e.record, #[trigger] chunks[d]@[pos0[d] as int]) by {
                assert(ch[d] == chunks[d]@);
                lemma_heads_contains(ch, pos0, k as nat, d);
                let hd = head_of(ch, pos0, d);
                assert(h0.contains(hd));
                let j = choose|j: int| 0 <= j < h0.len() && h0[j] == hd;
                assert(entry_le(e, h0[j]));
            }
        }
        let best = e.chunk;
        let p = pos[best];
        let x = e.record;
        proof {
            let s = consumed(ch, pos@);
            assert(ch[best as int] == chunks[best as int]@);
            let s2 = consumed(ch, pos@.update(best as int, (p + 1) as usize));
            assert forall|f: int| 0 <= f < k implies #[trigger] s2[f] =~= s.update(best as int, s[best as int].push(x))[f] by {
                assert(ch[f] == chunks[f]@);
            }
            assert(s2 =~= s.update(best as int, s[best as int].push(x)));
            lemma_flatten_update(s, best as int, x);
            lemma_heads_advance(ch, pos0, k as nat, best as int);
        }
        out.push(x);
        pos.set(best, p + 1);
        if p + 1 < chunks[best].len() {
            let next = HeadEntry { record: chunks[best][p + 1].duplicate(), chunk: best };
            assert(next == head_of(ch, pos@, best as int)) by {
                assert(ch[best as int] == chunks[best as int]@);
            }
            heap_push(&mut heap, next);
        }
        proof {
            assert forall|f: int| 0 <= f < k && pos[f] < chunks[f].len() && out.len() > 0
                implies rank_le(out@.last(), #[trigger] chunks[f]@[pos[f] as int]) by {
                if f == best as int {
                    assert(sorted(ch[f]));
                    assert(ch[f] == chunks[f]@);
                }
            }
            lemma_consumed_len(ch, pos@);
            if k == 1 {
                assert(chunks[0]@.take(pos[0] as int) =~= chunks[0]@.take(p as int).push(x));
            }
        }
    }
    proof {
        assert forall|f: int| 0 <= f < k implies pos[f] >= chunks[f].len() by {
            if pos[f] < chunks[f].len() {
                lemma_heads_contains(ch, pos@, k as nat, f);
            }
        }
        assert forall|f: int| 0 <= f < k implies #[trigger] consumed(ch, pos@)[f] =~= ch[f] by {
            assert(ch[f] == chunks[f]@);
        }
        assert(consumed(ch, pos@) =~= ch);
        if k == 1 {
            assert(chunks[0]@.take(pos[0] as int) =~= chunks[0]@);
        }
    }
    out
}

} // verus!
