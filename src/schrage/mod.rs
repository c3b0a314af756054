//! The Schrage dispatch heuristic and its preemptive relaxation.

pub mod jobs;
pub mod preemption;
pub mod schrage;

use vstd::prelude::*;

use self::preemption::{preemptive_bound, simulate};
use crate::jobs::{Job, JobList, SchrageJobTable};
use crate::sorting::{is_sorted_by, key, Field};
use crate::timeline::{
    finish, fits, lemma_horizon_perm, lemma_max_release, lemma_sum_concat, lemma_sum_first,
    lemma_sum_nonneg, lemma_sum_remove, max_release, processing, sum_of,
    total_processing,
};

verus! {

broadcast use vstd::seq_lib::group_seq_properties;

/// The dispatch rule prefers `a` to `b`: a longer tail, then a shorter
/// processing time, then an earlier release.
pub open spec fn preferred(a: Job, b: Job) -> bool {
    a.cooldown_time > b.cooldown_time || (a.cooldown_time == b.cooldown_time && (
    a.processing_time < b.processing_time || (a.processing_time == b.processing_time
        && a.delivery_time < b.delivery_time)))
}

/// Job `x` was dispatched when the machine became free at `c`, and job `y`
/// was still waiting: `x` starts at the later of `c` and its release; `y`,
/// if released by then, is not preferred to `x`; and if the machine was idle
/// before `x`, no waiting job is released earlier than `x`.
pub open spec fn pick_ok(c: int, x: Job, y: Job) -> bool {
    let start = if c > x.delivery_time { c } else { x.delivery_time as int };
    (y.delivery_time <= start ==> !preferred(y, x)) && (x.delivery_time > c
        ==> y.delivery_time >= x.delivery_time)
}

/// `s` is the order in which Schrage's rule dispatches `jobs`: a
/// permutation of them in which each job was chosen by the rule among those
/// that come after it.
pub open spec fn is_dispatch_order(jobs: Seq<Job>, s: Seq<Job>) -> bool {
    &&& s.to_multiset() == jobs.to_multiset()
    &&& forall|k: int, j: int|
        0 <= k <= j < s.len() ==> #[trigger] pick_ok(finish(s.take(k)), s[k], s[j])
}

/// The Schrage dispatch order of `jobs`.
pub open spec fn dispatch_order(jobs: Seq<Job>) -> Seq<Job> {
    choose|s: Seq<Job>| is_dispatch_order(jobs, s)
}

proof fn lemma_pick_unique(c: int, x: Job, y: Job)
    requires
        pick_ok(c, x, y),
        pick_ok(c, y, x),
    ensures
        x == y,
{
}

/// Two dispatch orders of the same jobs that agree on their first `k`
/// positions agree everywhere.
proof fn lemma_dispatch_order_agree(jobs: Seq<Job>, a: Seq<Job>, b: Seq<Job>, k: int)
    requires
        is_dispatch_order(jobs, a),
        is_dispatch_order(jobs, b),
        a.len() == b.len(),
        0 <= k <= a.len(),
        a.take(k) == b.take(k),
    ensures
        a == b,
    decreases a.len() - k,
{
    broadcast use vstd::seq_lib::lemma_multiset_commutative;

    if k == a.len() {
        assert(a =~= a.take(k));
        assert(b =~= b.take(k));
    } else {
        let c = finish(a.take(k));
        assert(a =~= a.take(k) + a.skip(k));
        assert(b =~= b.take(k) + b.skip(k));
        let ra = a.skip(k);
        let rb = b.skip(k);
        assert(ra.to_multiset() =~= rb.to_multiset()) by {
            vstd::seq_lib::lemma_multiset_commutative(a.take(k), ra);
            vstd::seq_lib::lemma_multiset_commutative(b.take(k), rb);
            assert(a.to_multiset() == a.take(k).to_multiset().add(ra.to_multiset()));
            assert(b.to_multiset() == b.take(k).to_multiset().add(rb.to_multiset()));
            assert forall|x: Job| ra.to_multiset().count(x) == rb.to_multiset().count(x) by {
                assert(a.to_multiset().count(x) == a.take(k).to_multiset().count(x) + ra.to_multiset().count(x));
                assert(b.to_multiset().count(x) == b.take(k).to_multiset().count(x) + rb.to_multiset().count(x));
            }
        }
        ra.to_multiset_ensures();
        rb.to_multiset_ensures();
        assert(rb.contains(b[k])) by {
            assert(rb[0] == b[k]);
        }
        assert(rb.to_multiset().count(b[k]) > 0);
        assert(ra.contains(b[k]));
        let ja = choose|j: int| 0 <= j < ra.len() && ra[j] == b[k];
        assert(a[k + ja] == b[k]);
        assert(pick_ok(finish(a.take(k)), a[k], a[k + ja]));
        assert(ra.contains(a[k])) by {
            assert(ra[0] == a[k]);
        }
        assert(ra.to_multiset().count(a[k]) > 0);
        assert(rb.contains(a[k]));
        let jb = choose|j: int| 0 <= j < rb.len() && rb[j] == a[k];
        assert(b[k + jb] == a[k]);
        assert(pick_ok(finish(b.take(k)), b[k], b[k + jb]));
        lemma_pick_unique(c, a[k], b[k]);
        assert(a.take(k + 1) =~= a.take(k).push(a[k]));
        assert(b.take(k + 1) =~= b.take(k).push(b[k]));
        lemma_dispatch_order_agree(jobs, a, b, k + 1);
    }
}

/// The dispatch order of a set of jobs is unique: Schrage's rule is a
/// function of the jobs, so dispatching the same jobs twice gives the same
/// schedule.
pub proof fn lemma_dispatch_order_unique(jobs: Seq<Job>, a: Seq<Job>, b: Seq<Job>)
    requires
        is_dispatch_order(jobs, a),
        is_dispatch_order(jobs, b),
    ensures
        a == b,
{
    a.to_multiset_ensures();
    b.to_multiset_ensures();
    assert(a.take(0) =~= b.take(0));
    lemma_dispatch_order_agree(jobs, a, b, 0);
}

/// A single job is dispatched alone, and its makespan is its release plus
/// its processing time plus its tail.
pub proof fn lemma_single_job(x: Job, s: Seq<Job>)
    requires
        is_dispatch_order(seq![x], s),
    ensures
        s == seq![x],
        crate::timeline::span(s) == x.delivery_time + x.processing_time + x.cooldown_time,
{
    s.to_multiset_ensures();
    seq![x].to_multiset_ensures();
    assert(s.len() == 1);
    assert(s.contains(s[0]));
    assert(seq![x].to_multiset().count(s[0]) > 0);
    assert(seq![x].contains(s[0]));
    assert(s =~= seq![x]);
    assert(s.drop_last() =~= Seq::<Job>::empty());
    assert(s.last() == x);
    assert(finish(Seq::<Job>::empty()) == 0);
    assert(finish(s) == x.delivery_time + x.processing_time);
    assert(crate::timeline::span(Seq::<Job>::empty()) == 0);
}

/// The index of the job of `ready` that the dispatch rule picks.
fn select(ready: &Vec<Job>) -> (r: usize)
    requires
        ready.len() > 0,
    ensures
        r < ready.len(),
        forall|i: int| 0 <= i < ready.len() ==> !preferred(#[trigger] ready@[i], ready@[r as int]),
{
    let mut best: usize = 0;
    let mut i: usize = 1;
    while i < ready.len()
        invariant
            1 <= i <= ready.len(),
            best < i,
            forall|j: int| 0 <= j < i ==> !preferred(#[trigger] ready@[j], ready@[best as int]),
        decreases ready.len() - i,
    {
        let a = ready[i];
        let b = ready[best];
        if a.cooldown_time > b.cooldown_time || (a.cooldown_time == b.cooldown_time && (
        a.processing_time < b.processing_time || (a.processing_time == b.processing_time
            && a.delivery_time < b.delivery_time))) {
            best = i;
        }
        i += 1;
    }
    best
}

/// Each job of `out` at position `k` was chosen by the rule with the
/// machine free at the finish of `out`'s first `k` jobs, against every job
/// at a position from `k` on in `w`, which extends `out`.
#[verifier::opaque]
pub open spec fn picks_hold(out: Seq<Job>, w: Seq<Job>) -> bool {
    forall|k: int, j: int|
        0 <= k < out.len() && k <= j < w.len() ==> #[trigger] pick_ok(
            finish(out.take(k)),
            out[k],
            w[j],
        )
}

/// Dispatching the preferred released job keeps the rule on the dispatched
/// prefix.
proof fn lemma_dispatch_step(out: Seq<Job>, ready: Seq<Job>, rest: Seq<Job>, b: int, t: int)
    requires
        picks_hold(out, out + ready + rest),
        0 <= b < ready.len(),
        forall|i: int| 0 <= i < ready.len() ==> !preferred(#[trigger] ready[i], ready[b]),
        forall|i: int| 0 <= i < ready.len() ==> #[trigger] ready[i].delivery_time <= t,
        forall|i: int| 0 <= i < rest.len() ==> #[trigger] rest[i].delivery_time > t,
        t >= finish(out),
        t > finish(out) ==> forall|i: int|
            0 <= i < ready.len() ==> #[trigger] ready[i].delivery_time == t,
    ensures
        picks_hold(out.push(ready[b]), out.push(ready[b]) + ready.remove(b) + rest),
        (out.push(ready[b]) + ready.remove(b) + rest).to_multiset() =~= (out + ready
            + rest).to_multiset(),
        finish(out.push(ready[b])) == t + ready[b].processing_time,
{
    reveal(picks_hold);
    let x = ready[b];
    let o2 = out.push(x);
    let r2 = ready.remove(b);
    let w = out + ready + rest;
    let w2 = o2 + r2 + rest;
    let n = out.len() as int;
    assert(o2.drop_last() =~= out);
    assert forall|k: int| 0 <= k <= n implies #[trigger] o2.take(k) == out.take(k) by {
        assert(o2.take(k) =~= out.take(k));
    }
    assert(o2.take(n) =~= out);
    // where each job of w2 stands in w
    assert forall|j: int| n < j < w2.len() implies #[trigger] w2[j] == w[if j - n - 1 < b {
        j - 1
    } else {
        j
    }] by {}
    assert(w2[n] == w[n + b]);
    assert forall|k: int, j: int|
        0 <= k < o2.len() && k <= j < w2.len() implies #[trigger] pick_ok(
        finish(o2.take(k)),
        o2[k],
        w2[j],
    ) by {
        if k < n {
            if j < n {
                assert(w2[j] == w[j]);
            } else if j == n {
                assert(pick_ok(finish(out.take(k)), out[k], w[n + b]));
            } else {
                let jj = if j - n - 1 < b {
                    j - 1
                } else {
                    j
                };
                assert(pick_ok(finish(out.take(k)), out[k], w[jj]));
            }
        } else {
            if j == n {
            } else if j - n - 1 < ready.len() - 1 {
                let i = if j - n - 1 < b {
                    j - n - 1
                } else {
                    j - n
                };
                assert(w2[j] == ready[i]);
            } else {
                assert(w2[j] == rest[j - n - ready.len()]);
            }
        }
    }
    broadcast use vstd::seq_lib::lemma_multiset_commutative;

    vstd::seq_lib::lemma_multiset_commutative(out + ready, rest);
    vstd::seq_lib::lemma_multiset_commutative(out, ready);
    vstd::seq_lib::lemma_multiset_commutative(o2 + r2, rest);
    vstd::seq_lib::lemma_multiset_commutative(o2, r2);
    ready.to_multiset_ensures();
    out.to_multiset_ensures();
}

/// Schrage's dispatch heuristic: whenever the machine is free, run the
/// released job with the longest tail (ties: the shorter processing time,
/// then the earlier release); when none is released, wait for the next
/// release. The makespan of the result is an upper bound on the optimum.
pub fn schrage(jobs: &JobList) -> (r: SchrageJobTable)
    requires
        jobs@.len() > 0,
        max_release(jobs@) + total_processing(jobs@) <= u32::MAX,
    ensures
        is_dispatch_order(jobs@, r.job_list@),
        r.job_list@ == dispatch_order(jobs@),
        r.job_list@.to_multiset() == jobs@.to_multiset(),
        r.job_list@.len() == jobs@.len(),
{
    let sorted = jobs.sorted_by_delivery_time();
    let n = sorted.len();
    let ghost tp = |j: Job| processing(j);
    let ghost mr = max_release(jobs@);
    let ghost total = total_processing(jobs@);
    proof {
        lemma_horizon_perm(sorted@, jobs@);
        lemma_max_release(sorted@);
        sorted@.to_multiset_ensures();
        jobs@.to_multiset_ensures();
        assert(sorted@.skip(0) =~= sorted@);
        assert(Seq::<Job>::empty() + Seq::<Job>::empty() + sorted@.skip(0) =~= sorted@);
        reveal(picks_hold);
        lemma_sum_concat(Seq::<Job>::empty(), Seq::<Job>::empty(), tp);
    }
    let mut next: usize = 0;
    let mut ready: Vec<Job> = Vec::new();
    let mut out: Vec<Job> = Vec::new();
    let mut t: u32 = 0;
    while next < n || ready.len() > 0
        invariant
            n == sorted.len(),
            n == jobs@.len(),
            is_sorted_by(sorted@, Field::Release),
            0 <= next <= n,
            mr == max_release(jobs@),
            total == total_processing(jobs@),
            mr + total <= u32::MAX,
            forall|i: int| 0 <= i < n ==> #[trigger] sorted@[i].delivery_time <= mr,
            (out@ + ready@ + sorted@.skip(next as int)).to_multiset() == jobs@.to_multiset(),
            sum_of(out@, tp) + sum_of(ready@, tp) + sum_of(sorted@.skip(next as int), tp) == total,
            tp == (|j: Job| processing(j)),
            t <= mr + sum_of(out@, tp),
            t >= finish(out@),
            forall|i: int| 0 <= i < ready.len() ==> #[trigger] ready@[i].delivery_time <= t,
            t > finish(out@) ==> (forall|i: int|
                0 <= i < ready.len() ==> #[trigger] ready@[i].delivery_time == t) && (next < n
                ==> sorted@[next as int].delivery_time >= t),
            picks_hold(out@, out@ + ready@ + sorted@.skip(next as int)),
        decreases n - next, ready.len(), if next < n && sorted@[next as int].delivery_time > t {
            1int
        } else {
            0int
        },
    {
        if next < n && sorted[next].delivery_time <= t {
            let y = sorted[next];
            proof {
                assert(sorted@.skip(next as int) =~= seq![y] + sorted@.skip(next + 1));
                assert(out@ + ready@.push(y) + sorted@.skip(next + 1) =~= out@ + ready@
                    + sorted@.skip(next as int));
                lemma_sum_first(sorted@.skip(next as int), tp);
                assert(sorted@.skip(next as int).drop_first() =~= sorted@.skip(next + 1));
                assert(ready@.push(y).drop_last() =~= ready@);
                if t > finish(out@) && next + 1 < n {
                    assert(key(sorted@[next as int], Field::Release) <= key(
                        sorted@[next + 1],
                        Field::Release,
                    ));
                }
            }
            ready.push(y);
            next += 1;
        } else if ready.len() > 0 {
            let b = select(&ready);
            let x = ready[b];
            let ghost old_out = out@;
            let ghost old_ready = ready@;
            proof {
                assert forall|i: int| 0 <= i < sorted@.skip(next as int).len() implies #[trigger] sorted@.skip(
                    next as int,
                )[i].delivery_time > t by {
                    if i > 0 {
                        assert(key(sorted@[next as int], Field::Release) <= key(
                            sorted@[next + i],
                            Field::Release,
                        ));
                    }
                }
                lemma_dispatch_step(old_out, old_ready, sorted@.skip(next as int), b as int, t as int);
                lemma_sum_remove(ready@, tp, b as int);
                lemma_sum_nonneg(ready@.remove(b as int), tp);
                lemma_sum_nonneg(sorted@.skip(next as int), tp);
                assert(old_out.push(x).drop_last() =~= old_out);
            }
            ready.remove(b);
            out.push(x);
            t = t + x.processing_time;
        } else {
            proof {
                assert forall|i: int| next <= i < n implies #[trigger] sorted@[i].delivery_time
                    >= sorted@[next as int].delivery_time by {
                    if i > next {
                        assert(key(sorted@[next as int], Field::Release) <= key(
                            sorted@[i],
                            Field::Release,
                        ));
                    }
                }
                lemma_sum_nonneg(out@, tp);
            }
            t = sorted[next].delivery_time;
        }
    }
    proof {
        assert(sorted@.skip(next as int) =~= Seq::<Job>::empty());
        assert(out@ + ready@ + sorted@.skip(next as int) =~= out@);
        out@.to_multiset_ensures();
        reveal(picks_hold);
        assert(is_dispatch_order(jobs@, out@));
        lemma_dispatch_order_unique(jobs@, out@, dispatch_order(jobs@));
    }
    SchrageJobTable { job_list: JobList { jobs: out } }
}


/// Preemptive Schrage: as [`schrage`], but a released job with a longer
/// tail than the running one interrupts it, and the rest of the interrupted
/// job waits again. Returns the largest completion time plus tail over the
/// pieces run: a lower bound on the makespan of any order of the jobs.
pub fn part_time_schrage(jobs: &JobList) -> (r: u32)
    requires
        jobs@.len() > 0,
        fits(jobs@),
    ensures
        r == preemptive_bound(jobs@),
{
    simulate(jobs).0
}

} // verus!
