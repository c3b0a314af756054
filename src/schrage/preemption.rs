//! The preemptive relaxation of Schrage's rule, as a state machine.

use vstd::prelude::*;

use crate::jobs::{Job, JobList};
use crate::sorting::{lemma_sort_by_key, sort_by_key, stable_sort, Field};
use crate::timeline::{
    fits, lemma_horizon_perm, lemma_max_release, lemma_max_tail, lemma_sum_concat,
    lemma_sum_first, lemma_sum_nonneg, lemma_sum_perm, lemma_sum_remove, max_release, max_tail,
    processing, sum_of, total_processing,
};

verus! {

broadcast use vstd::seq_lib::group_seq_properties;

/// A state of the preemptive simulation: jobs not yet released (by
/// release), released jobs and pieces waiting, the job last started, the
/// clock, the bound so far, and the pieces run so far.
pub struct Sim {
    pub pending: Seq<Job>,
    pub ready: Seq<Job>,
    pub current: Option<Job>,
    pub t: int,
    pub bound: int,
    pub pieces: Seq<Job>,
}

/// The first position of a largest tail in `s`.
pub open spec fn first_max_tail(s: Seq<Job>) -> int
    decreases s.len(),
{
    if s.len() <= 1 {
        0
    } else {
        let i = first_max_tail(s.drop_last());
        if s.last().cooldown_time > s[i].cooldown_time {
            s.len() - 1
        } else {
            i
        }
    }
}

/// `first_max_tail` is the first position of a largest tail.
pub proof fn lemma_first_max_tail(s: Seq<Job>)
    requires
        s.len() > 0,
    ensures
        0 <= first_max_tail(s) < s.len(),
        forall|j: int|
            0 <= j < s.len() ==> #[trigger] s[j].cooldown_time <= s[first_max_tail(s)].cooldown_time,
        forall|j: int|
            0 <= j < first_max_tail(s) ==> #[trigger] s[j].cooldown_time < s[first_max_tail(
                s,
            )].cooldown_time,
    decreases s.len(),
{
    if s.len() > 1 {
        let d = s.drop_last();
        lemma_first_max_tail(d);
        assert forall|j: int| 0 <= j < d.len() implies #[trigger] s[j] == d[j] by {}
    }
}

/// The next pending job is released. If its tail is longer than that of
/// the job last started, that job is interrupted at the release: what is
/// left of it, if anything, waits again, and the clock goes back to the
/// release.
pub open spec fn arrive(s: Sim) -> Sim {
    let y = s.pending[0];
    let ready = s.ready.push(y);
    if s.current is Some && y.cooldown_time > s.current->0.cooldown_time {
        let c = s.current->0;
        let rem = s.t - y.delivery_time;
        let c2 = Job { processing_time: rem as u32, ..c };
        Sim {
            pending: s.pending.drop_first(),
            ready: if rem > 0 {
                sort_by_key(ready.push(c2), Field::Release)
            } else {
                ready
            },
            current: Some(c2),
            t: y.delivery_time as int,
            bound: s.bound,
            pieces: s.pieces,
        }
    } else {
        Sim {
            pending: s.pending.drop_first(),
            ready,
            current: s.current,
            t: s.t,
            bound: s.bound,
            pieces: s.pieces,
        }
    }
}

/// The waiting job with the largest tail (the first such) runs in full.
pub open spec fn dispatch(s: Sim) -> Sim {
    let i = first_max_tail(s.ready);
    let x = s.ready[i];
    let t = s.t + x.processing_time;
    let c = t + x.cooldown_time;
    Sim {
        pending: s.pending,
        ready: s.ready.remove(i),
        current: Some(x),
        t,
        bound: if c > s.bound {
            c
        } else {
            s.bound
        },
        pieces: s.pieces.push(x),
    }
}

/// Nothing is waiting: the clock moves to the next release.
pub open spec fn idle(s: Sim) -> Sim {
    Sim {
        pending: s.pending,
        ready: s.ready,
        current: s.current,
        t: s.pending[0].delivery_time as int,
        bound: s.bound,
        pieces: s.pieces,
    }
}

pub open spec fn is_done(s: Sim) -> bool {
    s.pending.len() == 0 && s.ready.len() == 0
}

pub open spec fn step(s: Sim) -> Sim {
    if s.pending.len() > 0 && s.pending[0].delivery_time <= s.t {
        arrive(s)
    } else if s.ready.len() > 0 {
        dispatch(s)
    } else {
        idle(s)
    }
}

/// Whether the clock must still move to the next release.
pub open spec fn waiting(s: Sim) -> int {
    if s.pending.len() > 0 && s.pending[0].delivery_time > s.t {
        1
    } else {
        0
    }
}

/// The simulation run from `s` to its end.
pub open spec fn run(s: Sim) -> Sim
    decreases s.pending.len(), s.ready.len(), waiting(s)
    via run_decreases
{
    if is_done(s) {
        s
    } else {
        run(step(s))
    }
}

#[via_fn]
proof fn run_decreases(s: Sim) {
    if !is_done(s) && !(s.pending.len() > 0 && s.pending[0].delivery_time <= s.t) && s.ready.len()
        > 0 {
        lemma_first_max_tail(s.ready);
    }
}

/// The start of the simulation of `jobs`.
pub open spec fn start(jobs: Seq<Job>) -> Sim {
    Sim {
        pending: sort_by_key(jobs, Field::Release),
        ready: Seq::empty(),
        current: None,
        t: 0,
        bound: 0,
        pieces: Seq::empty(),
    }
}

/// The preemptive Schrage bound of `jobs`: the largest completion time plus
/// tail over the pieces that the preemptive rule runs.
pub open spec fn preemptive_bound(jobs: Seq<Job>) -> int {
    run(start(jobs)).bound
}

/// The pieces that the preemptive rule runs, in order.
pub open spec fn preemptive_pieces(jobs: Seq<Job>) -> Seq<Job> {
    run(start(jobs)).pieces
}


proof fn lemma_run_step(s: Sim)
    requires
        !is_done(s),
    ensures
        run(s) == run(step(s)),
{
}

/// The first position of a largest tail in `ready`.
fn first_max_tail_index(ready: &Vec<Job>) -> (r: usize)
    requires
        ready.len() > 0,
    ensures
        r == first_max_tail(ready@),
{
    let mut best: usize = 0;
    let mut i: usize = 1;
    proof {
        assert(ready@.take(1).len() == 1);
    }
    while i < ready.len()
        invariant
            1 <= i <= ready.len(),
            best < i,
            best == first_max_tail(ready@.take(i as int)),
        decreases ready.len() - i,
    {
        proof {
            assert(ready@.take(i + 1).drop_last() =~= ready@.take(i as int));
        }
        if ready[i].cooldown_time > ready[best].cooldown_time {
            best = i;
        }
        i += 1;
    }
    assert(ready@.take(i as int) =~= ready@);
    best
}

/// Re-sorting the waiting jobs by release keeps their total processing
/// time and the bound on their tails.
proof fn lemma_sorted_ready(ready: Seq<Job>, mq: int)
    requires
        forall|i: int| 0 <= i < ready.len() ==> #[trigger] ready[i].cooldown_time <= mq,
    ensures
        sum_of(sort_by_key(ready, Field::Release), |j: Job| processing(j)) == sum_of(
            ready,
            |j: Job| processing(j),
        ),
        forall|i: int|
            0 <= i < sort_by_key(ready, Field::Release).len() ==> #[trigger] sort_by_key(
                ready,
                Field::Release,
            )[i].cooldown_time <= mq,
{
    let sr = sort_by_key(ready, Field::Release);
    lemma_sort_by_key(ready, Field::Release);
    lemma_sum_perm(sr, ready, |j: Job| processing(j));
    lemma_horizon_perm(sr, ready);
    lemma_max_tail(ready);
    lemma_max_tail(sr);
    if ready.len() > 0 {
        let k = choose|k: int| 0 <= k < ready.len() && #[trigger] ready[k].cooldown_time == max_tail(ready);
        assert(ready[k].cooldown_time <= mq);
    }
}

/// The simulation state held by the loop of `simulate`.
pub open spec fn state_of(
    sorted: Seq<Job>,
    next: int,
    ready: Seq<Job>,
    current: Option<Job>,
    t: int,
    bound: int,
    pieces: Seq<Job>,
) -> Sim {
    Sim { pending: sorted.skip(next), ready, current, t, bound, pieces }
}

/// Runs the preemptive simulation of `jobs` and returns its bound and the
/// pieces it ran.
#[verifier::rlimit(40)]
pub fn simulate(jobs: &JobList) -> (res: (u32, Vec<Job>))
    requires
        fits(jobs@),
    ensures
        res.0 == preemptive_bound(jobs@),
        res.1@ == preemptive_pieces(jobs@),
{
    let sorted = jobs.sorted_by_delivery_time();
    let n = sorted.len();
    let ghost tp = |j: Job| processing(j);
    let ghost mr = max_release(jobs@);
    let ghost mq = max_tail(jobs@);
    let ghost total = total_processing(jobs@);
    proof {
        lemma_horizon_perm(sorted@, jobs@);
        lemma_max_release(sorted@);
        lemma_max_tail(sorted@);
        assert(sorted@.skip(0) =~= sorted@);
        lemma_sum_nonneg(sorted@, tp);
    }
    let mut next: usize = 0;
    let mut ready: Vec<Job> = Vec::new();
    let mut current: Option<Job> = None;
    let mut t: u32 = 0;
    let mut bound: u32 = 0;
    let mut pieces: Vec<Job> = Vec::new();
    while next < n || ready.len() > 0
        invariant
            n == sorted.len(),
            0 <= next <= n,
            sorted@ == sort_by_key(jobs@, Field::Release),
            run(state_of(sorted@, next as int, ready@, current, t as int, bound as int, pieces@))
                == run(start(jobs@)),
            tp == (|j: Job| processing(j)),
            mr == max_release(jobs@),
            mq == max_tail(jobs@),
            total == total_processing(jobs@),
            mr + total + mq <= u32::MAX,
            sum_of(sorted@, tp) == total,
            forall|i: int| 0 <= i < n ==> #[trigger] sorted@[i].delivery_time <= mr,
            forall|i: int| 0 <= i < n ==> #[trigger] sorted@[i].cooldown_time <= mq,
            forall|i: int| 0 <= i < ready.len() ==> #[trigger] ready@[i].cooldown_time <= mq,
            current is Some ==> current->0.cooldown_time <= mq,
            t + sum_of(ready@, tp) + sum_of(sorted@.skip(next as int), tp) <= mr + total,
            bound <= mr + total + mq,
        decreases n - next, ready.len(), if next < n && sorted@[next as int].delivery_time > t {
            1int
        } else {
            0int
        },
    {
        let ghost s = state_of(sorted@, next as int, ready@, current, t as int, bound as int, pieces@);
        proof {
            lemma_run_step(s);
            if next < n {
                assert(sorted@.skip(next as int) =~= seq![sorted@[next as int]] + sorted@.skip(
                    next + 1,
                ));
                lemma_sum_first(sorted@.skip(next as int), tp);
                assert(sorted@.skip(next as int).drop_first() =~= sorted@.skip(next + 1));
            }
            lemma_sum_nonneg(ready@, tp);
            lemma_sum_nonneg(sorted@.skip(next as int), tp);
        }
        if next < n && sorted[next].delivery_time <= t {
            let y = sorted[next];
            let ghost old_ready = ready@;
            proof {
                assert(ready@.push(y).drop_last() =~= ready@);
            }
            next += 1;
            ready.push(y);
            assert(sum_of(ready@, tp) == sum_of(old_ready, tp) + y.processing_time);
            match current {
                Some(c) => {
                    if y.cooldown_time > c.cooldown_time {
                        let rem = t - y.delivery_time;
                        let c2 = Job { processing_time: rem, ..c };
                        current = Some(c2);
                        t = y.delivery_time;
                        if rem > 0 {
                            let ghost before = ready@;
                            ready.push(c2);
                            proof {
                                assert(ready@.drop_last() =~= before);
                                lemma_sorted_ready(ready@, mq);
                                assert(sum_of(ready@, tp) == sum_of(before, tp) + rem);
                                assert(sum_of(before, tp) == sum_of(old_ready, tp) + y.processing_time);
                            }
                            ready = stable_sort(&ready, Field::Release);
                        }
                    }
                },
                None => {},
            }
            proof {
                assert(state_of(sorted@, next as int, ready@, current, t as int, bound as int, pieces@)
                    == step(s));
            }
        } else if ready.len() > 0 {
            let i = first_max_tail_index(&ready);
            proof {
                lemma_first_max_tail(ready@);
                lemma_sum_remove(ready@, tp, i as int);
                lemma_sum_nonneg(ready@.remove(i as int), tp);
                assert(pieces@.push(ready@[i as int]).len() == pieces@.len() + 1);
            }
            let x = ready.remove(i);
            current = Some(x);
            t = t + x.processing_time;
            let c = t + x.cooldown_time;
            if c > bound {
                bound = c;
            }
            pieces.push(x);
            proof {
                assert(state_of(sorted@, next as int, ready@, current, t as int, bound as int, pieces@)
                    == step(s));
            }
        } else {
            proof {
                lemma_sum_concat(sorted@.take(next as int), sorted@.skip(next as int), tp);
                assert(sorted@.take(next as int) + sorted@.skip(next as int) =~= sorted@);
                lemma_sum_nonneg(sorted@.take(next as int), tp);
            }
            t = sorted[next].delivery_time;
            proof {
                assert(state_of(sorted@, next as int, ready@, current, t as int, bound as int, pieces@)
                    == step(s));
            }
        }
    }
    proof {
        let s = state_of(sorted@, next as int, ready@, current, t as int, bound as int, pieces@);
        assert(is_done(s));
    }
    (bound, pieces)
}

} // verus!
