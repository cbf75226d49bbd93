use vstd::prelude::*;

verus! {

/// One student's ranking: an opaque identifier and three ranking keys.
#[derive(Clone, Debug, PartialEq, Eq)]
pub struct StudentRanking {
    pub student_id: String,
    pub batch_year: i32,
    pub university_ranking: i32,
    pub batch_ranking: i32,
}

/// Every message that the coordinator and a worker exchange.
#[derive(Debug)]
pub enum Message {
    RequestTask,
    AssignTask(String),
    TaskResult(Vec<StudentRanking>),
    NoMoreTasks,
}

/// `a` comes no later than `b` in the ascending order over
/// (batch_year, university_ranking, batch_ranking).
pub open spec fn rank_le(a: StudentRanking, b: StudentRanking) -> bool {
    a.batch_year < b.batch_year || (a.batch_year == b.batch_year && (a.university_ranking
        < b.university_ranking || (a.university_ranking == b.university_ranking
        && a.batch_ranking <= b.batch_ranking)))
}

/// `a` and `b` have the same three keys.
pub open spec fn same_keys(a: StudentRanking, b: StudentRanking) -> bool {
    a.batch_year == b.batch_year && a.university_ranking == b.university_ranking
        && a.batch_ranking == b.batch_ranking
}

/// The sequence is in ascending key order.
pub open spec fn sorted(s: Seq<StudentRanking>) -> bool {
    forall|i: int, j: int| 0 <= i < j < s.len() ==> rank_le(#[trigger] s[i], #[trigger] s[j])
}

/// The records of `s` whose keys equal those of `r`, in the order they stand in `s`.
pub open spec fn with_keys_of(s: Seq<StudentRanking>, r: StudentRanking) -> Seq<StudentRanking>
    decreases s.len(),
{
    if s.len() == 0 {
        Seq::empty()
    } else if same_keys(s.last(), r) {
        with_keys_of(s.drop_last(), r).push(s.last())
    } else {
        with_keys_of(s.drop_last(), r)
    }
}

/// `out` holds the records of `inp`, and records with equal keys stand in
/// the same relative order in both.
pub open spec fn stable_reorder(out: Seq<StudentRanking>, inp: Seq<StudentRanking>) -> bool {
    &&& out.to_multiset() == inp.to_multiset()
    &&& forall|r: StudentRanking| #[trigger] with_keys_of(out, r) == with_keys_of(inp, r)
}

pub proof fn lemma_with_keys_of_add(a: Seq<StudentRanking>, b: Seq<StudentRanking>, r: StudentRanking)
    ensures
        with_keys_of(a + b, r) == with_keys_of(a, r) + with_keys_of(b, r),
    decreases b.len(),
{
    if b.len() == 0 {
        assert(a + b =~= a);
        assert(with_keys_of(b, r) =~= Seq::<StudentRanking>::empty());
        assert(with_keys_of(a, r) + with_keys_of(b, r) =~= with_keys_of(a, r));
    } else {
        lemma_with_keys_of_add(a, b.drop_last(), r);
        assert((a + b).drop_last() =~= a + b.drop_last());
        assert((a + b).last() == b.last());
        if same_keys(b.last(), r) {
            assert(with_keys_of(a, r) + with_keys_of(b.drop_last(), r).push(b.last())
                =~= (with_keys_of(a, r) + with_keys_of(b.drop_last(), r)).push(b.last()));
        }
    }
}

pub proof fn lemma_with_keys_of_none(s: Seq<StudentRanking>, r: StudentRanking)
    requires
        forall|i: int| 0 <= i < s.len() ==> !same_keys(#[trigger] s[i], r),
    ensures
        with_keys_of(s, r) == Seq::<StudentRanking>::empty(),
    decreases s.len(),
{
    if s.len() > 0 {
        lemma_with_keys_of_none(s.drop_last(), r);
    }
}

impl StudentRanking {
    /// Whether `self` comes no later than `other` in the key order.
    pub fn le(&self, other: &StudentRanking) -> (r: bool)
        ensures
            r == rank_le(*self, *other),
    {
        if self.batch_year != other.batch_year {
            self.batch_year < other.batch_year
        } else if self.university_ranking != other.university_ranking {
            self.university_ranking < other.university_ranking
        } else {
            self.batch_ranking <= other.batch_ranking
        }
    }

    /// A copy of this record.
    pub fn duplicate(&self) -> (r: StudentRanking)
        ensures
            r == *self,
    {
        StudentRanking {
            student_id: self.student_id.clone(),
            batch_year: self.batch_year,
            university_ranking: self.university_ranking,
            batch_ranking: self.batch_ranking,
        }
    }
}

} // verus!
