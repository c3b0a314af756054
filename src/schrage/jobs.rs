//! A sequence of jobs with its makespan and its sorted copies.

use vstd::prelude::*;

pub use crate::jobs::Job;
use crate::jobs::makespan;
use crate::sorting::{is_sorted_by, lemma_sort_by_key, sort_by_key, stable_sort, with_key, Field};
use crate::timeline::span;

verus! {

/// An ordered sequence of jobs; its order is the dispatch order.
#[derive(Debug, Clone)]
pub struct JobSequence {
    pub job_sequence: Vec<Job>,
}

impl View for JobSequence {
    type V = Seq<Job>;

    open spec fn view(&self) -> Seq<Job> {
        self.job_sequence@
    }
}

impl PartialEq for JobSequence {
    fn eq(&self, other: &Self) -> (r: bool) {
        if self.job_sequence.len() != other.job_sequence.len() {
            return false;
        }
        let mut i: usize = 0;
        while i < self.job_sequence.len()
            invariant
                self.job_sequence.len() == other.job_sequence.len(),
                0 <= i <= self.job_sequence.len(),
                forall|k: int| 0 <= k < i ==> self.job_sequence@[k] == other.job_sequence@[k],
            decreases self.job_sequence.len() - i,
        {
            if self.job_sequence[i] != other.job_sequence[i] {
                return false;
            }
            i += 1;
        }
        assert(self.job_sequence@ =~= other.job_sequence@);
        true
    }
}

impl vstd::std_specs::cmp::PartialEqSpecImpl for JobSequence {
    open spec fn obeys_eq_spec() -> bool {
        true
    }

    open spec fn eq_spec(&self, other: &JobSequence) -> bool {
        self@ == other@
    }
}

impl JobSequence {
    /// The makespan of the sequence.
    pub fn c_max(&self) -> (r: u32)
        requires
            self@.len() > 0,
            span(self@) <= u32::MAX,
        ensures
            r == span(self@),
    {
        makespan(&self.job_sequence)
    }

    /// The jobs stably sorted by release time.
    pub fn get_by_delivery_time(&self) -> (r: Vec<Job>)
        ensures
            r@ == sort_by_key(self@, Field::Release),
            is_sorted_by(r@, Field::Release),
            r@.to_multiset() == self@.to_multiset(),
            forall|k: u32| #[trigger] with_key(r@, Field::Release, k) == with_key(self@, Field::Release, k),
    {
        proof {
            lemma_sort_by_key(self@, Field::Release);
        }
        stable_sort(&self.job_sequence, Field::Release)
    }

    /// The jobs stably sorted by processing time.
    pub fn get_by_processing_time(&self) -> (r: Vec<Job>)
        ensures
            r@ == sort_by_key(self@, Field::Processing),
            is_sorted_by(r@, Field::Processing),
            r@.to_multiset() == self@.to_multiset(),
            forall|k: u32| #[trigger] with_key(r@, Field::Processing, k) == with_key(self@, Field::Processing, k),
    {
        proof {
            lemma_sort_by_key(self@, Field::Processing);
        }
        stable_sort(&self.job_sequence, Field::Processing)
    }

    /// The jobs stably sorted by tail.
    pub fn get_by_cooldown_time(&self) -> (r: Vec<Job>)
        ensures
            r@ == sort_by_key(self@, Field::Tail),
            is_sorted_by(r@, Field::Tail),
            r@.to_multiset() == self@.to_multiset(),
            forall|k: u32| #[trigger] with_key(r@, Field::Tail, k) == with_key(self@, Field::Tail, k),
    {
        proof {
            lemma_sort_by_key(self@, Field::Tail);
        }
        stable_sort(&self.job_sequence, Field::Tail)
    }
}

} // verus!
