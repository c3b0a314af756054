//! Jobs, collections of jobs, and the makespan of a fixed order.

use std::collections::HashMap;
use vstd::prelude::*;

use crate::sorting::{is_sorted_by, lemma_sort_by_key, sort_by_key, stable_sort, with_key, Field};
use crate::timeline::{finish, lemma_span_prefix, span};

verus! {

/// A job: release time `r`, processing time `p` and tail `q`.
#[derive(Clone, Copy, Debug, PartialEq, Eq, Structural)]
pub struct Job {
    /// Release time `r`: the earliest instant the job may start.
    pub delivery_time: u32,
    /// Processing time `p`: how long the job occupies the machine.
    pub processing_time: u32,
    /// Tail `q`: time after processing before the job is complete.
    pub cooldown_time: u32,
}

impl Job {
    pub fn new(delivery_time: u32, processing_time: u32, cooldown_time: u32) -> (r: Job)
        ensures
            r.delivery_time == delivery_time,
            r.processing_time == processing_time,
            r.cooldown_time == cooldown_time,
    {
        Job { delivery_time, processing_time, cooldown_time }
    }

    /// `r + p + q`: the completion time of the job when it runs alone.
    pub fn total_time(&self) -> (r: u32)
        requires
            self.delivery_time + self.processing_time + self.cooldown_time <= u32::MAX,
        ensures
            r == self.delivery_time + self.processing_time + self.cooldown_time,
    {
        self.delivery_time + self.processing_time + self.cooldown_time
    }
}

/// An ordered collection of jobs; as a schedule, its order is the
/// dispatch order.
#[derive(Debug, Clone)]
pub struct JobList {
    pub jobs: Vec<Job>,
}

impl View for JobList {
    type V = Seq<Job>;

    open spec fn view(&self) -> Seq<Job> {
        self.jobs@
    }
}

impl PartialEq for JobList {
    fn eq(&self, other: &Self) -> (r: bool) {
        if self.jobs.len() != other.jobs.len() {
            return false;
        }
        let mut i: usize = 0;
        while i < self.jobs.len()
            invariant
                self.jobs.len() == other.jobs.len(),
                0 <= i <= self.jobs.len(),
                forall|k: int| 0 <= k < i ==> self.jobs@[k] == other.jobs@[k],
            decreases self.jobs.len() - i,
        {
            if self.jobs[i] != other.jobs[i] {
                return false;
            }
            i += 1;
        }
        assert(self.jobs@ =~= other.jobs@);
        true
    }
}

impl vstd::std_specs::cmp::PartialEqSpecImpl for JobList {
    open spec fn obeys_eq_spec() -> bool {
        true
    }

    open spec fn eq_spec(&self, other: &JobList) -> bool {
        self@ == other@
    }
}

impl JobList {
    /// Creates a new [`JobList`].
    pub fn new(jobs: Vec<Job>) -> (r: JobList)
        ensures
            r@ == jobs@,
    {
        JobList { jobs }
    }

    /// The jobs stably sorted by release time.
    pub fn sorted_by_delivery_time(&self) -> (r: Vec<Job>)
        ensures
            r@ == sort_by_key(self@, Field::Release),
            is_sorted_by(r@, Field::Release),
            r@.to_multiset() == self@.to_multiset(),
            forall|k: u32| #[trigger] with_key(r@, Field::Release, k) == with_key(self@, Field::Release, k),
    {
        proof {
            lemma_sort_by_key(self@, Field::Release);
        }
        stable_sort(&self.jobs, Field::Release)
    }

    /// The jobs stably sorted by processing time.
    pub fn sorted_by_processing_time(&self) -> (r: Vec<Job>)
        ensures
            r@ == sort_by_key(self@, Field::Processing),
            is_sorted_by(r@, Field::Processing),
            r@.to_multiset() == self@.to_multiset(),
            forall|k: u32| #[trigger] with_key(r@, Field::Processing, k) == with_key(self@, Field::Processing, k),
    {
        proof {
            lemma_sort_by_key(self@, Field::Processing);
        }
        stable_sort(&self.jobs, Field::Processing)
    }

    /// The jobs stably sorted by tail.
    pub fn sorted_by_cooldown_time(&self) -> (r: Vec<Job>)
        ensures
            r@ == sort_by_key(self@, Field::Tail),
            is_sorted_by(r@, Field::Tail),
            r@.to_multiset() == self@.to_multiset(),
            forall|k: u32| #[trigger] with_key(r@, Field::Tail, k) == with_key(self@, Field::Tail, k),
    {
        proof {
            lemma_sort_by_key(self@, Field::Tail);
        }
        stable_sort(&self.jobs, Field::Tail)
    }
}

/// The makespan of the jobs of `jobs` run in that order.
pub fn makespan(jobs: &Vec<Job>) -> (r: u32)
    requires
        jobs.len() > 0,
        span(jobs@) <= u32::MAX,
    ensures
        r == span(jobs@),
{
    let mut t: u32 = 0;
    let mut m: u32 = 0;
    let mut i: usize = 0;
    while i < jobs.len()
        invariant
            0 <= i <= jobs.len(),
            span(jobs@) <= u32::MAX,
            t == finish(jobs@.take(i as int)),
            m == span(jobs@.take(i as int)),
        decreases jobs.len() - i,
    {
        let job = jobs[i];
        proof {
            lemma_span_prefix(jobs@, i + 1, jobs@.len() as int);
            assert(jobs@.take(i + 1).drop_last() =~= jobs@.take(i as int));
            assert(jobs@.take(jobs@.len() as int) =~= jobs@);
        }
        if job.delivery_time > t {
            t = job.delivery_time + job.processing_time;
        } else {
            t = t + job.processing_time;
        }
        let c = t + job.cooldown_time;
        if c > m {
            m = c;
        }
        i += 1;
    }
    assert(jobs@.take(i as int) =~= jobs@);
    m
}

/// A schedule with its makespan.
pub struct SchrageJobTable {
    pub job_list: JobList,
}

impl SchrageJobTable {
    pub fn new(job_list: JobList) -> (r: SchrageJobTable)
        ensures
            r.job_list@ == job_list@,
    {
        SchrageJobTable { job_list }
    }

    /// The makespan of the schedule.
    pub fn c_max(&self) -> (r: u32)
        requires
            self.job_list@.len() > 0,
            span(self.job_list@) <= u32::MAX,
        ensures
            r == span(self.job_list@),
    {
        makespan(&self.job_list.jobs)
    }
}

/// A schedule of job pieces together with a table of piece times.
pub struct PartTimeSchrageJobTable {
    pub job_list: JobList,
    pub time_table: HashMap<u32, u32>,
}

impl PartTimeSchrageJobTable {
    /// The makespan of the pieces run in the order of the table.
    pub fn c_max_wip(&self) -> (r: u32)
        requires
            self.job_list@.len() > 0,
            span(self.job_list@) <= u32::MAX,
        ensures
            r == span(self.job_list@),
    {
        makespan(&self.job_list.jobs)
    }
}

} // verus!
