//! Carlier's branch and bound search for the optimal makespan.

use vstd::prelude::*;

use crate::jobs::{makespan, Job, JobList};
use crate::schrage::preemption::preemptive_bound;
use crate::schrage::{dispatch_order, is_dispatch_order, part_time_schrage, schrage};
use crate::timeline::{
    block_processing, completion, dominated, finish, fits, lemma_block_start_exists,
    lemma_block_step, lemma_dominated_span, lemma_finish_after_block, lemma_finish_nonneg,
    lemma_horizon_perm, lemma_span_attained, lemma_span_bound, lemma_span_prefix,
    lemma_sum_concat, lemma_sum_first, lemma_sum_nonneg, lemma_sum_perm, lemma_sum_remove,
    max_release, max_tail, processing, span, sum_of, total_processing,
};

verus! {

broadcast use vstd::seq_lib::group_seq_properties;

/// `b` is the last position of `s` whose completion time plus tail is the
/// makespan: the end of the critical path.
pub open spec fn is_critical_end(s: Seq<Job>, b: int) -> bool {
    &&& 0 <= b < s.len()
    &&& completion(s, b) == span(s)
    &&& forall|i: int| b < i < s.len() ==> #[trigger] completion(s, i) != span(s)
}

/// Release of the job at `a`, the processing from `a` to `b`, and the tail
/// of the job at `b`: the makespan if the machine is busy from `a` to `b`.
pub open spec fn block_value(s: Seq<Job>, a: int, b: int) -> int {
    s[a].delivery_time + block_processing(s, a, b) + s[b].cooldown_time
}

/// `a` is the first position from which the block up to `b` realises the
/// makespan: the start of the critical path.
pub open spec fn is_critical_start(s: Seq<Job>, b: int, a: int) -> bool {
    &&& 0 <= a <= b
    &&& block_value(s, a, b) == span(s)
    &&& forall|i: int| 0 <= i < a ==> #[trigger] block_value(s, i, b) != span(s)
}

/// `c` is the last position in the block `a..=b` whose tail is shorter than
/// that of the job at `b`, or there is none.
pub open spec fn is_critical_job(s: Seq<Job>, a: int, b: int, c: Option<usize>) -> bool {
    match c {
        Some(c) => {
            &&& a <= c < b
            &&& s[c as int].cooldown_time < s[b].cooldown_time
            &&& forall|i: int|
                c < i <= b ==> #[trigger] s[i].cooldown_time >= s[b].cooldown_time
        },
        None => forall|i: int| a <= i <= b ==> #[trigger] s[i].cooldown_time >= s[b].cooldown_time,
    }
}

/// The last position of `pi` whose completion time plus tail is `c_max`,
/// the makespan of `pi`.
#[verifier::rlimit(40)]
pub fn find_critical_path_end(pi: &JobList, c_max: u32) -> (r: usize)
    requires
        pi@.len() > 0,
        c_max == span(pi@),
    ensures
        is_critical_end(pi@, r as int),
{
    let s = Ghost(pi@);
    let n = pi.jobs.len();
    let mut t: u32 = 0;
    let mut b: usize = 0;
    let mut found = false;
    let mut i: usize = 0;
    proof {
        lemma_span_attained(s@);
    }
    while i < n
        invariant
            s@ == pi@,
            n == s@.len(),
            0 <= i <= n,
            c_max == span(s@),
            forall|k: int| 0 <= k < s@.len() ==> #[trigger] completion(s@, k) <= span(s@),
            t == finish(s@.take(i as int)),
            found ==> b < i && completion(s@, b as int) == span(s@),
            forall|k: int|
                0 <= k < i && #[trigger] completion(s@, k) == span(s@) ==> found && k <= b,
        decreases n - i,
    {
        let job = pi.jobs[i];
        proof {
            assert(s@.take(i + 1).drop_last() =~= s@.take(i as int));
            assert(s@.take(i + 1).last() == job);
            assert(completion(s@, i as int) <= span(s@));
            lemma_finish_nonneg(s@.take(i as int));
        }
        if job.delivery_time > t {
            t = job.delivery_time + job.processing_time;
        } else {
            t = t + job.processing_time;
        }
        if t + job.cooldown_time == c_max {
            b = i;
            found = true;
        }
        proof {
            assert(t + job.cooldown_time == completion(s@, i as int));
        }
        i += 1;
    }
    proof {
        if !found {
            let k = choose|k: int| 0 <= k < s@.len() && #[trigger] completion(s@, k) == span(s@);
            assert(false);
        }
    }
    b
}

/// The first position from which the block up to `b`, the end of the
/// critical path of `pi`, realises `c_max`, the makespan of `pi`.
pub fn find_critical_path_start(pi: &JobList, c_max: u32, b: usize) -> (r: usize)
    requires
        is_critical_end(pi@, b as int),
        c_max == span(pi@),
    ensures
        is_critical_start(pi@, b as int, r as int),
{
    let s = Ghost(pi@);
    let n = pi.jobs.len();
    proof {
        lemma_finish_after_block(s@, 0, b as int);
        lemma_finish_nonneg(s@.take(b + 1));
    }
    // processing time of the jobs from position 0 to b
    let mut blk: u32 = 0;
    let mut j: usize = 0;
    while j <= b
        invariant
            s@ == pi@,
            is_critical_end(s@, b as int),
            c_max == span(s@),
            0 <= j <= b + 1,
            n == s@.len(),
            blk == if j == 0 { 0 } else { block_processing(s@, 0, j - 1) },
        decreases b + 1 - j,
    {
        proof {
            lemma_block_step(s@, 0, j as int);
            lemma_finish_after_block(s@, 0, j as int);
            lemma_span_prefix(s@, j + 1, s@.len() as int);
            assert(s@.take(s@.len() as int) =~= s@);
        }
        blk = blk + pi.jobs[j].processing_time;
        j += 1;
    }
    let qb = pi.jobs[b].cooldown_time;
    let mut i: usize = 0;
    while i <= b
        invariant
            s@ == pi@,
            is_critical_end(s@, b as int),
            c_max == span(s@),
            qb == s@[b as int].cooldown_time,
            0 <= i <= b + 1,
            n == s@.len(),
            i <= b ==> blk == block_processing(s@, i as int, b as int),
            forall|k: int| 0 <= k < i ==> #[trigger] block_value(s@, k, b as int) != span(s@),
        decreases b + 1 - i,
    {
        proof {
            lemma_finish_after_block(s@, i as int, b as int);
        }
        if pi.jobs[i].delivery_time + blk + qb == c_max {
            return i;
        }
        proof {
            if i < b {
                let sub = s@.subrange(i as int, b + 1);
                lemma_sum_first(sub, |x: Job| processing(x));
                assert(sub.drop_first() =~= s@.subrange(i + 1, b + 1));
                lemma_sum_nonneg(s@.subrange(i + 1, b + 1), |x: Job| processing(x));
            }
        }
        if i < b {
            blk = blk - pi.jobs[i].processing_time;
        }
        i += 1;
    }
    proof {
        lemma_block_start_exists(s@, b as int);
        let a = choose|a: int|
            0 <= a <= b && s@[a].delivery_time + block_processing(s@, a, b as int) == finish(
                #[trigger] s@.take(b + 1),
            ) + 0 * a;
        assert(block_value(s@, a, b as int) == span(s@));
        assert(false);
    }
    0
}

/// The last position in the block `a..=b` of `pi` whose tail is shorter
/// than that of the job at `b`.
pub fn find_critical_job(pi: &JobList, b: usize, a: usize) -> (r: Option<usize>)
    requires
        a <= b < pi@.len(),
    ensures
        is_critical_job(pi@, a as int, b as int, r),
{
    let qb = pi.jobs[b].cooldown_time;
    let n = pi.jobs.len();
    let mut c: Option<usize> = None;
    let mut i: usize = a;
    while i <= b
        invariant
            a <= i <= b + 1,
            b < pi@.len(),
            n == pi@.len(),
            qb == pi@[b as int].cooldown_time,
            match c {
                Some(c) => a <= c < i && pi@[c as int].cooldown_time < qb && forall|k: int|
                    c < k < i ==> #[trigger] pi@[k].cooldown_time >= qb,
                None => forall|k: int| a <= k < i ==> #[trigger] pi@[k].cooldown_time >= qb,
            },
        decreases b + 1 - i,
    {
        if pi.jobs[i].cooldown_time < qb {
            c = Some(i);
        }
        i += 1;
    }
    c
}


/// Some order of `jobs` has a makespan of at most `v`.
pub open spec fn achievable(jobs: Seq<Job>, v: int) -> bool {
    exists|s: Seq<Job>| s.to_multiset() == jobs.to_multiset() && #[trigger] span(s) <= v
}

/// How far the releases and tails of `s` can still be raised within `u32`.
pub open spec fn slack(s: Seq<Job>) -> int {
    sum_of(s, |j: Job| room(j))
}

pub open spec fn room(j: Job) -> int {
    (u32::MAX - j.delivery_time) + (u32::MAX - j.cooldown_time)
}

/// Whether the dispatch order `s` leaves nothing to branch on: every job of
/// its critical block has a tail no shorter than the job that ends it.
pub open spec fn no_critical_job(s: Seq<Job>) -> bool {
    forall|a: int, b: int|
        #![trigger is_critical_end(s, b), is_critical_start(s, b, a)]
        is_critical_end(s, b) && is_critical_start(s, b, a) ==> is_critical_job(s, a, b, None)
}

/// The end of the critical path of `s`.
pub open spec fn critical_end(s: Seq<Job>) -> int {
    choose|b: int| is_critical_end(s, b)
}

/// The start of the critical path of `s` that ends at `b`.
pub open spec fn critical_start(s: Seq<Job>, b: int) -> int {
    choose|a: int| is_critical_start(s, b, a)
}

/// The job of the block `a..=b` of `s` to branch on, if any.
pub open spec fn critical_job(s: Seq<Job>, a: int, b: int) -> Option<usize> {
    choose|c: Option<usize>| is_critical_job(s, a, b, c)
}

/// `m` is the least release of the jobs of `s` after position `c` up to `b`.
pub open spec fn is_least_release(s: Seq<Job>, c: int, b: int, m: int) -> bool {
    &&& forall|k: int| c < k <= b ==> m <= #[trigger] s[k].delivery_time
    &&& exists|k: int| c < k <= b && m == #[trigger] s[k].delivery_time
}

/// `m` is the least tail of the jobs of `s` after position `c` up to `b`.
pub open spec fn is_least_tail(s: Seq<Job>, c: int, b: int, m: int) -> bool {
    &&& forall|k: int| c < k <= b ==> m <= #[trigger] s[k].cooldown_time
    &&& exists|k: int| c < k <= b && m == #[trigger] s[k].cooldown_time
}

pub open spec fn least_release(s: Seq<Job>, c: int, b: int) -> int {
    choose|m: int| is_least_release(s, c, b, m)
}

pub open spec fn least_tail(s: Seq<Job>, c: int, b: int) -> int {
    choose|m: int| is_least_tail(s, c, b, m)
}

/// The dispatch order of `jobs` and its critical path exist.
pub open spec fn search_defined(jobs: Seq<Job>) -> bool {
    let pi = dispatch_order(jobs);
    let b = critical_end(pi);
    let a = critical_start(pi, b);
    &&& is_dispatch_order(jobs, pi)
    &&& is_critical_end(pi, b)
    &&& is_critical_start(pi, b, a)
    &&& is_critical_job(pi, a, b, critical_job(pi, a, b))
}

/// `result` is the bound after one branch from `ub` on the tightened jobs
/// `next`: the search goes on from `next` when they fit in `u32` and their
/// preemptive bound is below `ub`; otherwise the bound stays `ub`.
pub open spec fn explored(next: Seq<Job>, ub: int, result: int) -> bool {
    if fits(next) && preemptive_bound(next) < ub {
        result == search(next, ub)
    } else {
        result == ub
    }
}

/// The bound that the search started with `ub` ends with on `jobs`:
/// the smaller of `ub` and the makespan of the dispatch order, lowered
/// further by the branches on the job of its critical block that has a
/// shorter tail than the job ending it, if there is one.
pub open spec fn search(jobs: Seq<Job>, ub: int) -> int
    decreases slack(jobs), 1int
    via search_decreases
{
    if !search_defined(jobs) {
        ub
    } else {
        let pi = dispatch_order(jobs);
        let u = span(pi);
        let ub1 = if u < ub {
            u
        } else {
            ub
        };
        let b = critical_end(pi);
        let a = critical_start(pi, b);
        match critical_job(pi, a, b) {
            None => ub1,
            Some(c) => branches(pi, c as int, b, ub1),
        }
    }
}

/// The two branches on job `c` of the dispatch order `pi`, whose critical
/// path ends at `b`: `c` released after the jobs that follow it up to `b`,
/// then `c`'s tail covering them; each explored as `explored` says.
pub open spec fn branches(pi: Seq<Job>, c: int, b: int, ub: int) -> int
    decreases slack(pi), 0int
    via branches_decreases
{
    if 0 <= c < b < pi.len() {
        let orig = pi[c];
        let rj = least_release(pi, c, b);
        let qj = least_tail(pi, c, b);
        let pj = block_processing(pi, c + 1, b);
        let nr = if orig.delivery_time > rj + pj {
            orig.delivery_time as int
        } else {
            rj + pj
        };
        let p1 = pi.update(c, Job { delivery_time: nr as u32, ..orig });
        let ub2 = if orig.delivery_time < nr <= u32::MAX && fits(p1) && preemptive_bound(p1) < ub {
            search(p1, ub)
        } else {
            ub
        };
        let nq = if orig.cooldown_time > pj + qj {
            orig.cooldown_time as int
        } else {
            pj + qj
        };
        let p2 = pi.update(c, Job { cooldown_time: nq as u32, ..orig });
        if orig.cooldown_time < nq <= u32::MAX && fits(p2) && preemptive_bound(p2) < ub2 {
            search(p2, ub2)
        } else {
            ub2
        }
    } else {
        ub
    }
}

/// The critical path, the job to branch on and the least release and tail
/// after it are each determined by the order: whatever satisfies their
/// definitions is what the search names.
proof fn lemma_critical_unique(s: Seq<Job>, b: int, a: int, c: Option<usize>)
    requires
        is_critical_end(s, b),
        is_critical_start(s, b, a),
        is_critical_job(s, a, b, c),
    ensures
        critical_end(s) == b,
        critical_start(s, b) == a,
        critical_job(s, a, b) == c,
{
    let b2 = critical_end(s);
    assert(is_critical_end(s, b2));
    if b2 < b {
        assert(completion(s, b) != span(s));
    } else if b < b2 {
        assert(completion(s, b2) != span(s));
    }
    let a2 = critical_start(s, b);
    assert(is_critical_start(s, b, a2));
    if a2 < a {
        assert(block_value(s, a2, b) != span(s));
    } else if a < a2 {
        assert(block_value(s, a, b) != span(s));
    }
    let c2 = critical_job(s, a, b);
    assert(is_critical_job(s, a, b, c2));
    match c {
        Some(x) => match c2 {
            Some(y) => {
                if x < y {
                    assert(s[y as int].cooldown_time >= s[b].cooldown_time);
                } else if y < x {
                    assert(s[x as int].cooldown_time >= s[b].cooldown_time);
                }
            },
            None => {
                assert(s[x as int].cooldown_time >= s[b].cooldown_time);
            },
        },
        None => match c2 {
            Some(y) => {
                assert(s[y as int].cooldown_time >= s[b].cooldown_time);
            },
            None => {},
        },
    }
}

proof fn lemma_least_unique(s: Seq<Job>, c: int, b: int, r: int, q: int)
    requires
        is_least_release(s, c, b, r),
        is_least_tail(s, c, b, q),
    ensures
        least_release(s, c, b) == r,
        least_tail(s, c, b) == q,
{
    let r2 = least_release(s, c, b);
    assert(is_least_release(s, c, b, r2));
    let k1 = choose|k: int| c < k <= b && r == #[trigger] s[k].delivery_time;
    let k2 = choose|k: int| c < k <= b && r2 == #[trigger] s[k].delivery_time;
    assert(r <= s[k2].delivery_time);
    assert(r2 <= s[k1].delivery_time);
    let q2 = least_tail(s, c, b);
    assert(is_least_tail(s, c, b, q2));
    let l1 = choose|k: int| c < k <= b && q == #[trigger] s[k].cooldown_time;
    let l2 = choose|k: int| c < k <= b && q2 == #[trigger] s[k].cooldown_time;
    assert(q <= s[l2].cooldown_time);
    assert(q2 <= s[l1].cooldown_time);
}

#[via_fn]
proof fn search_decreases(jobs: Seq<Job>, ub: int) {
    if search_defined(jobs) {
        let pi = dispatch_order(jobs);
        pi.to_multiset_ensures();
        jobs.to_multiset_ensures();
        lemma_slack_perm(pi, jobs);
    }
}

#[via_fn]
proof fn branches_decreases(pi: Seq<Job>, c: int, b: int, ub: int) {
    if 0 <= c < b < pi.len() {
        let orig = pi[c];
        let rj = least_release(pi, c, b);
        let qj = least_tail(pi, c, b);
        let pj = block_processing(pi, c + 1, b);
        let nr = if orig.delivery_time > rj + pj {
            orig.delivery_time as int
        } else {
            rj + pj
        };
        let nq = if orig.cooldown_time > pj + qj {
            orig.cooldown_time as int
        } else {
            pj + qj
        };
        let j1 = Job { delivery_time: nr as u32, ..orig };
        let j2 = Job { cooldown_time: nq as u32, ..orig };
        lemma_slack_update(pi, c, j1);
        lemma_slack_update(pi, c, j2);
        lemma_slack_perm(pi, pi);
        lemma_slack_perm(pi.update(c, j1), pi.update(c, j1));
        lemma_slack_perm(pi.update(c, j2), pi.update(c, j2));
    }
}

/// Whether `fits(jobs@)` holds.
fn fits_in_u32(jobs: &Vec<Job>) -> (r: bool)
    ensures
        r == fits(jobs@),
{
    let ghost tp = |j: Job| processing(j);
    let mut mr: u32 = 0;
    let mut mq: u32 = 0;
    let mut total: u64 = 0;
    let mut i: usize = 0;
    while i < jobs.len()
        invariant
            0 <= i <= jobs.len(),
            tp == (|j: Job| processing(j)),
            mr == max_release(jobs@.take(i as int)),
            mq == max_tail(jobs@.take(i as int)),
            total == total_processing(jobs@.take(i as int)),
            total <= u32::MAX,
        decreases jobs.len() - i,
    {
        let job = jobs[i];
        proof {
            assert(jobs@.take(i + 1).drop_last() =~= jobs@.take(i as int));
            assert(jobs@.take(i + 1).last() == job);
        }
        if job.delivery_time > mr {
            mr = job.delivery_time;
        }
        if job.cooldown_time > mq {
            mq = job.cooldown_time;
        }
        total = total + job.processing_time as u64;
        i += 1;
        if total > u32::MAX as u64 {
            proof {
                lemma_sum_concat(jobs@.take(i as int), jobs@.skip(i as int), tp);
                assert(jobs@.take(i as int) + jobs@.skip(i as int) =~= jobs@);
                lemma_sum_nonneg(jobs@.skip(i as int), tp);
                crate::timeline::lemma_max_release(jobs@);
                crate::timeline::lemma_max_tail(jobs@);
            }
            return false;
        }
    }
    proof {
        assert(jobs@.take(i as int) =~= jobs@);
    }
    mr as u64 + total + mq as u64 <= u32::MAX as u64
}

/// Raising the release or tail of one job leaves achievable every makespan
/// that was achievable with the raised values.
proof fn lemma_achievable_relax(pi: Seq<Job>, c: int, x: Job, v: int)
    requires
        0 <= c < pi.len(),
        x.processing_time == pi[c].processing_time,
        x.delivery_time >= pi[c].delivery_time,
        x.cooldown_time >= pi[c].cooldown_time,
        achievable(pi.update(c, x), v),
    ensures
        achievable(pi, v),
{
    let p2 = pi.update(c, x);
    let s2 = choose|s2: Seq<Job>| s2.to_multiset() == p2.to_multiset() && #[trigger] span(s2) <= v;
    vstd::seq_lib::to_multiset_update(pi, c, x);
    p2.to_multiset_ensures();
    s2.to_multiset_ensures();
    assert(p2[c] == x);
    assert(p2.contains(x));
    assert(p2.to_multiset().count(x) > 0);
    assert(s2.to_multiset().count(x) > 0);
    assert(s2.contains(x));
    let k = choose|k: int| 0 <= k < s2.len() && s2[k] == x;
    let s = s2.update(k, pi[c]);
    vstd::seq_lib::to_multiset_update(s2, k, pi[c]);
    assert(s.to_multiset() =~= pi.to_multiset());
    assert(dominated(s, s2));
    lemma_dominated_span(s, s2);
}

/// The slack depends on the jobs, not on their order, and is not negative.
proof fn lemma_slack_perm(a: Seq<Job>, b: Seq<Job>)
    requires
        a.to_multiset() == b.to_multiset(),
    ensures
        slack(a) == slack(b),
        slack(a) >= 0,
{
    lemma_sum_perm(a, b, |j: Job| room(j));
    lemma_sum_nonneg(a, |j: Job| room(j));
}

/// Raising the release or tail of one job lowers the slack.
proof fn lemma_slack_update(pi: Seq<Job>, c: int, x: Job)
    requires
        0 <= c < pi.len(),
    ensures
        slack(pi.update(c, x)) == slack(pi) - room(pi[c]) + room(x),
{
    let f = |j: Job| room(j);
    lemma_sum_remove(pi, f, c);
    lemma_sum_remove(pi.update(c, x), f, c);
    assert(pi.update(c, x).remove(c) =~= pi.remove(c));
}

/// Over the jobs after position `c` up to position `b` of `pi`: the least
/// release, the least tail, and the total processing time.
#[verifier::rlimit(40)]
pub fn block_after(pi: &JobList, c: usize, b: usize) -> (r: (u32, u32, u32))
    requires
        c < b < pi@.len(),
        finish(pi@.take(b + 1)) <= span(pi@),
        span(pi@) <= u32::MAX,
    ensures
        is_least_release(pi@, c as int, b as int, r.0 as int),
        is_least_tail(pi@, c as int, b as int, r.1 as int),
        r.2 == block_processing(pi@, c + 1, b as int),
        r.0 + r.2 <= finish(pi@.take(b + 1)),
{
    let n = pi.jobs.len();
    let mut rj: u32 = u32::MAX;
    let mut qj: u32 = u32::MAX;
    let mut pj: u32 = 0;
    let mut i: usize = c + 1;
    let ghost mut kr: int = 0;
    let ghost mut kq: int = 0;
    while i <= b
        invariant
            n == pi@.len(),
            c < b < n,
            c + 1 <= i <= b + 1,
            finish(pi@.take(b + 1)) <= span(pi@),
            span(pi@) <= u32::MAX,
            pj == if i == c + 1 {
                0
            } else {
                block_processing(pi@, c + 1, i - 1)
            },
            forall|k: int| c < k < i ==> rj <= #[trigger] pi@[k].delivery_time,
            forall|k: int| c < k < i ==> qj <= #[trigger] pi@[k].cooldown_time,
            i > c + 1 ==> c < kr < i && rj == pi@[kr].delivery_time,
            i > c + 1 ==> c < kq < i && qj == pi@[kq].cooldown_time,
        decreases b + 1 - i,
    {
        let job = pi.jobs[i];
        proof {
            lemma_block_step(pi@, c + 1, i as int);
            lemma_finish_after_block(pi@, c + 1, i as int);
            lemma_span_prefix(pi@, i + 1, pi@.len() as int);
            assert(pi@.take(pi@.len() as int) =~= pi@);
        }
        if i == c + 1 || job.delivery_time < rj {
            rj = job.delivery_time;
            proof {
                kr = i as int;
            }
        }
        if i == c + 1 || job.cooldown_time < qj {
            qj = job.cooldown_time;
            proof {
                kq = i as int;
            }
        }
        pj = pj + job.processing_time;
        i += 1;
    }
    proof {
        lemma_finish_after_block(pi@, c + 1, b as int);
        assert(pi@[kr].delivery_time == rj);
        assert(pi@[kq].cooldown_time == qj);
    }
    (rj, qj, pj)
}

/// Carlier's branch and bound: lowers `upper_bound` to the best makespan
/// found for `jobs`. It runs Schrage's rule, takes the critical block of the
/// schedule, and where a job `c` of the block has a shorter tail than the
/// job ending it, explores two tightened instances: `c` released after the
/// rest of the block, and `c`'s tail covering it. A branch is explored only
/// when it changes the job, its preemptive bound is below the best makespan
/// found, and its times stay within `u32`. The jobs are left as they were.
#[verifier::rlimit(100)]
pub fn carlier(jobs: &mut JobList, upper_bound: &mut u32)
    requires
        old(jobs)@.len() > 0,
        fits(old(jobs)@),
    ensures
        final(jobs)@ == old(jobs)@,
        *final(upper_bound) == search(old(jobs)@, *old(upper_bound) as int),
        *final(upper_bound) <= *old(upper_bound),
        *final(upper_bound) <= span(dispatch_order(old(jobs)@)),
        *final(upper_bound) < *old(upper_bound) ==> achievable(
            old(jobs)@,
            *final(upper_bound) as int,
        ),
        no_critical_job(dispatch_order(old(jobs)@)) ==> *final(upper_bound) == if span(
            dispatch_order(old(jobs)@),
        ) < *old(upper_bound) {
            span(dispatch_order(old(jobs)@))
        } else {
            *old(upper_bound) as int
        },
    decreases slack(old(jobs)@), 0int,
{
    let ghost js = jobs@;
    let ghost ub0 = *upper_bound;
    let result = schrage(jobs);
    let mut pi = result.job_list;
    let ghost p0 = pi@;
    proof {
        lemma_horizon_perm(pi@, js);
        lemma_span_bound(pi@);
    }
    let u = makespan(&pi.jobs);
    if u < *upper_bound {
        *upper_bound = u;
    }
    proof {
        if *upper_bound < ub0 {
            assert(span(p0) <= *upper_bound);
            assert(achievable(js, *upper_bound as int));
        }
    }
    let ghost ub1 = *upper_bound;
    let b = find_critical_path_end(&pi, u);
    let a = find_critical_path_start(&pi, u, b);
    let c = find_critical_job(&pi, b, a);
    proof {
        lemma_critical_unique(p0, b as int, a as int, c);
        assert(search_defined(js));
    }
    let c = match c {
        None => {
            return;
        },
        Some(c) => c,
    };
    proof {
        assert(!no_critical_job(p0));
        lemma_span_prefix(p0, b + 1, p0.len() as int);
        assert(p0.take(p0.len() as int) =~= p0);
    }
    let (rj, qj, pj) = block_after(&pi, c, b);
    proof {
        lemma_least_unique(p0, c as int, b as int, rj as int, qj as int);
        lemma_slack_perm(p0, js);
    }
    let orig = pi.jobs[c];
    // first branch: c runs after the jobs that follow it in the block
    let new_release = if orig.delivery_time > rj + pj {
        orig.delivery_time
    } else {
        rj + pj
    };
    if new_release > orig.delivery_time {
        let moved = Job { delivery_time: new_release, ..orig };
        proof {
            lemma_slack_update(p0, c as int, moved);
            lemma_slack_perm(p0.update(c as int, moved), p0.update(c as int, moved));
            assert(slack(p0.update(c as int, moved)) < slack(js));
        }
        explore(&mut pi, c, moved, upper_bound);
        proof {
            assert(explored(p0.update(c as int, moved), ub1 as int, *upper_bound as int));
            if *upper_bound < ub0 {
                lemma_achievable_perm(p0, js, *upper_bound as int);
            }
        }
    }
    let ghost ub2 = *upper_bound;
    // second branch: the tail of c covers the jobs that follow it
    let new_tail = if orig.cooldown_time > pj + qj {
        orig.cooldown_time
    } else {
        pj + qj
    };
    if new_tail > orig.cooldown_time {
        let held = Job { cooldown_time: new_tail, ..orig };
        proof {
            lemma_slack_update(p0, c as int, held);
            lemma_slack_perm(p0.update(c as int, held), p0.update(c as int, held));
            assert(slack(p0.update(c as int, held)) < slack(js));
        }
        explore(&mut pi, c, held, upper_bound);
        proof {
            assert(explored(p0.update(c as int, held), ub2 as int, *upper_bound as int));
            if *upper_bound < ub0 {
                lemma_achievable_perm(p0, js, *upper_bound as int);
            }
        }
    }
}

/// One branch of the search: job `c` of `pi` temporarily becomes `changed`,
/// a copy with a later release or a longer tail, and the search goes on
/// from there if the tightened jobs fit in `u32` and their preemptive bound
/// is below `upper_bound`. Job `c` is restored before returning.
fn explore(pi: &mut JobList, c: usize, changed: Job, upper_bound: &mut u32)
    requires
        c < old(pi)@.len(),
        changed.processing_time == old(pi)@[c as int].processing_time,
        changed.delivery_time >= old(pi)@[c as int].delivery_time,
        changed.cooldown_time >= old(pi)@[c as int].cooldown_time,
        room(changed) < room(old(pi)@[c as int]),
    ensures
        final(pi)@ == old(pi)@,
        explored(old(pi)@.update(c as int, changed), *old(upper_bound) as int, *final(upper_bound) as int),
        *final(upper_bound) <= *old(upper_bound),
        *final(upper_bound) < *old(upper_bound) ==> achievable(
            old(pi)@,
            *final(upper_bound) as int,
        ),
    decreases slack(old(pi)@.update(c as int, changed)), 1int,
{
    let ghost p0 = pi@;
    let ghost ub0 = *upper_bound;
    let orig = pi.jobs[c];
    pi.jobs.set(c, changed);
    let ghost p2 = pi@;
    proof {
        assert(p2 == p0.update(c as int, changed));
    }
    proof {
        lemma_sum_nonneg(pi@, |j: Job| room(j));
    }
    if fits_in_u32(&pi.jobs) {
        let lb = part_time_schrage(&pi);
        if lb < *upper_bound {
            let ghost ub1 = *upper_bound;
            carlier(pi, upper_bound);
            proof {
                if *upper_bound < ub1 {
                    lemma_achievable_relax(p0, c as int, changed, *upper_bound as int);
                }
            }
        }
    }
    pi.jobs.set(c, orig);
    proof {
        assert(pi@ =~= p0);
    }
}

/// Achievability depends on the jobs, not on their order.
proof fn lemma_achievable_perm(a: Seq<Job>, b: Seq<Job>, v: int)
    requires
        a.to_multiset() == b.to_multiset(),
        achievable(a, v),
    ensures
        achievable(b, v),
{
    let s = choose|s: Seq<Job>| s.to_multiset() == a.to_multiset() && #[trigger] span(s) <= v;
    assert(s.to_multiset() == b.to_multiset() && span(s) <= v);
}

} // verus!
