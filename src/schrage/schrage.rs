//! The two Schrage rules over a [`JobSequence`].

use vstd::prelude::*;

use super::jobs::JobSequence;
use super::preemption::{preemptive_pieces, simulate};
use super::{dispatch_order, is_dispatch_order};
use crate::jobs::JobList;
use crate::timeline::{fits, max_release, total_processing};

verus! {

/// The order in which Schrage's rule dispatches the jobs.
pub fn schrage(jobs: &JobSequence) -> (r: JobSequence)
    requires
        jobs@.len() > 0,
        max_release(jobs@) + total_processing(jobs@) <= u32::MAX,
    ensures
        is_dispatch_order(jobs@, r@),
        r@ == dispatch_order(jobs@),
{
    let list = JobList::new(jobs.job_sequence.clone());
    let table = super::schrage(&list);
    JobSequence { job_sequence: table.job_list.jobs }
}

/// The pieces, in order, that the preemptive Schrage rule runs: a job
/// interrupted by one with a longer tail appears once for each piece.
pub fn schrage_with_division(jobs: &JobSequence) -> (r: JobSequence)
    requires
        jobs@.len() > 0,
        fits(jobs@),
    ensures
        r@ == preemptive_pieces(jobs@),
{
    let list = JobList::new(jobs.job_sequence.clone());
    let (_, pieces) = simulate(&list);
    JobSequence { job_sequence: pieces }
}

} // verus!
