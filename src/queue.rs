use vstd::prelude::*;
use crate::record::{StudentRanking, sorted};
use crate::kmerge::{all_sorted, chunk_views, flatten, k_way_merge};

verus! {

broadcast use vstd::seq_lib::group_to_multiset_ensures;

/// The tasks that `m` successive pops hand out from a queue holding `p`,
/// in the order they are handed out (the last task of `p` first).
pub open spec fn served(p: Seq<String>, m: nat) -> Seq<String>
    decreases m,
{
    if m == 0 || p.len() == 0 {
        Seq::empty()
    } else {
        seq![p.last()] + served(p.drop_last(), (m - 1) as nat)
    }
}

/// What is left of `p` after `m` successive pops.
pub open spec fn left_after(p: Seq<String>, m: nat) -> Seq<String> {
    if m >= p.len() {
        Seq::empty()
    } else {
        p.take(p.len() - m)
    }
}

/// `m` callers popping one after another from a queue of `p.len()` tasks get
/// exactly `min(m, p.len())` tasks between them, and every task is either handed
/// out once or still queued: none is handed out twice and none is lost.
pub proof fn lemma_pops_exclusive(p: Seq<String>, m: nat)
    ensures
        served(p, m).len() == if m < p.len() { m } else { p.len() },
        served(p, m).to_multiset().add(left_after(p, m).to_multiset()) == p.to_multiset(),
    decreases m,
{
    if m == 0 || p.len() == 0 {
        assert(p.take(p.len() as int) =~= p);
    } else {
        lemma_pops_exclusive(p.drop_last(), (m - 1) as nat);
        let rest = served(p.drop_last(), (m - 1) as nat);
        assert(left_after(p.drop_last(), (m - 1) as nat) =~= left_after(p, m));
        vstd::seq_lib::lemma_multiset_commutative(seq![p.last()], rest);
        vstd::seq_lib::lemma_multiset_commutative(p.drop_last(), seq![p.last()]);
        assert(p.drop_last() + seq![p.last()] =~= p);
        assert(seq![p.last()].to_multiset() =~= vstd::multiset::Multiset::empty().insert(p.last())) by {
            assert(Seq::<String>::empty().push(p.last()) =~= seq![p.last()]);
        }
    }
}

/// One pop after another: the first pop, then `m` more from what it left.
pub proof fn lemma_served_step(p: Seq<String>, m: nat)
    ensures
        served(p, m + 1) == served(p, 1) + served(left_after(p, 1), m),
        left_after(p, m + 1) == left_after(left_after(p, 1), m),
{
    if p.len() == 0 {
        assert(served(p, 1) + served(left_after(p, 1), m) =~= Seq::<String>::empty());
        assert(left_after(p, m + 1) =~= left_after(left_after(p, 1), m));
    } else {
        assert(left_after(p, 1) =~= p.drop_last());
        assert(served(p.drop_last(), 0) =~= Seq::<String>::empty());
        assert(served(p, 1) =~= seq![p.last()]);
        assert(left_after(p, m + 1) =~= left_after(p.drop_last(), m));
    }
}

/// The coordinator's shared state: the tasks not yet handed out and the sorted
/// chunks that workers have returned. Callers that share it across connections
/// hold it behind one lock, so each method runs as one atomic step.
pub struct TaskQueue {
    pending: Vec<String>,
    results: Vec<Vec<StudentRanking>>,
    task_count: usize,
}

impl TaskQueue {
    /// The tasks still queued; the next pop takes the last one.
    pub closed spec fn pending_view(&self) -> Seq<String> {
        self.pending@
    }

    /// The chunks returned so far, in order of arrival.
    pub closed spec fn results_view(&self) -> Seq<Seq<StudentRanking>> {
        chunk_views(self.results@)
    }

    /// How many tasks were enqueued in all.
    pub closed spec fn task_count_view(&self) -> nat {
        self.task_count as nat
    }

    /// Every returned chunk is in ascending key order.
    pub open spec fn wf(&self) -> bool {
        all_sorted(self.results_view())
    }

    /// An empty queue with no results.
    pub fn new() -> (q: TaskQueue)
        ensures
            q.wf(),
            q.pending_view() == Seq::<String>::empty(),
            q.results_view() == Seq::<Seq<StudentRanking>>::empty(),
            q.task_count_view() == 0,
    {
        let q = TaskQueue { pending: Vec::new(), results: Vec::new(), task_count: 0 };
        assert(q.results_view() =~= Seq::<Seq<StudentRanking>>::empty());
        q
    }

    /// Adds the tasks to the queue and counts them as tasks to be completed.
    pub fn enqueue(&mut self, tasks: Vec<String>)
        requires
            old(self).task_count_view() + tasks.len() <= usize::MAX,
        ensures
            final(self).pending_view() == old(self).pending_view() + tasks@,
            final(self).results_view() == old(self).results_view(),
            final(self).task_count_view() == old(self).task_count_view() + tasks.len(),
            old(self).wf() ==> final(self).wf(),
    {
        let n = tasks.len();
        let mut tasks = tasks;
        self.pending.append(&mut tasks);
        self.task_count = self.task_count + n;
    }

    /// Pops one task if any is left; `None` means that the queue is exhausted.
    pub fn next_task(&mut self) -> (r: Option<String>)
        ensures
            r is None <==> old(self).pending_view().len() == 0,
            r matches Some(t) ==> seq![t] == served(old(self).pending_view(), 1),
            final(self).pending_view() == left_after(old(self).pending_view(), 1),
            final(self).results_view() == old(self).results_view(),
            final(self).task_count_view() == old(self).task_count_view(),
            old(self).wf() ==> final(self).wf(),
    {
        let r = self.pending.pop();
        proof {
            let p = old(self).pending_view();
            if p.len() > 0 {
                assert(served(p.drop_last(), 0) =~= Seq::<String>::empty());
                assert(served(p, 1) =~= seq![p.last()]);
                assert(left_after(p, 1) =~= p.drop_last());
            } else {
                assert(left_after(p, 1) =~= p);
            }
        }
        r
    }

    /// Stores one sorted chunk returned by a worker.
    pub fn record_result(&mut self, chunk: Vec<StudentRanking>)
        requires
            sorted(chunk@),
        ensures
            final(self).results_view() == old(self).results_view().push(chunk@),
            final(self).pending_view() == old(self).pending_view(),
            final(self).task_count_view() == old(self).task_count_view(),
            old(self).wf() ==> final(self).wf(),
    {
        self.results.push(chunk);
        assert(self.results_view() =~= old(self).results_view().push(chunk@));
    }

    /// Whether as many chunks have come back as tasks were enqueued.
    pub fn is_complete(&self) -> (r: bool)
        ensures
            r == (self.results_view().len() == self.task_count_view()),
    {
        self.results.len() == self.task_count
    }

    /// How many chunks have come back.
    pub fn result_count(&self) -> (r: usize)
        ensures
            r == self.results_view().len(),
    {
        self.results.len()
    }

    /// How many tasks were enqueued in all.
    pub fn task_count(&self) -> (r: usize)
        ensures
            r == self.task_count_view(),
    {
        self.task_count
    }

    /// How many tasks are still queued.
    pub fn pending_count(&self) -> (r: usize)
        ensures
            r == self.pending_view().len(),
    {
        self.pending.len()
    }

    /// Merges all returned chunks into one sequence in ascending key order.
    pub fn merge_results(self) -> (out: Vec<StudentRanking>)
        requires
            self.wf(),
        ensures
            sorted(out@),
            out@.to_multiset() == flatten(self.results_view()).to_multiset(),
            out.len() == flatten(self.results_view()).len(),
    {
        k_way_merge(self.results)
    }
}

} // verus!
