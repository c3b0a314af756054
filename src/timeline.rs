//! The timeline of a fixed dispatch order and its makespan.

use vstd::prelude::*;

use crate::jobs::Job;

verus! {

/// Time at which the last job of `s` finishes processing when the jobs run
/// in the order of `s` from time zero: each job starts at the later of its
/// release and the end of its predecessor.
pub open spec fn finish(s: Seq<Job>) -> int
    decreases s.len(),
{
    if s.len() == 0 {
        0
    } else {
        let t = finish(s.drop_last());
        let r = s.last().delivery_time as int;
        (if t > r { t } else { r }) + s.last().processing_time as int
    }
}

/// The makespan of the order `s`: the largest completion time plus tail.
pub open spec fn span(s: Seq<Job>) -> int
    decreases s.len(),
{
    if s.len() == 0 {
        0
    } else {
        let m = span(s.drop_last());
        let c = finish(s) + s.last().cooldown_time as int;
        if m > c {
            m
        } else {
            c
        }
    }
}

pub proof fn lemma_finish_nonneg(s: Seq<Job>)
    ensures
        finish(s) >= 0,
    decreases s.len(),
{
    if s.len() > 0 {
        lemma_finish_nonneg(s.drop_last());
    }
}

/// The makespan of a prefix never exceeds that of a longer prefix, and
/// bounds the finish time of that prefix.
pub proof fn lemma_span_prefix(s: Seq<Job>, i: int, j: int)
    requires
        0 <= i <= j <= s.len(),
    ensures
        span(s.take(i)) <= span(s.take(j)),
        i > 0 ==> finish(s.take(i)) + s[i - 1].cooldown_time <= span(s.take(j)),
    decreases j - i,
{
    if i < j {
        lemma_span_prefix(s, i, j - 1);
        assert(s.take(j).drop_last() =~= s.take(j - 1));
        if i == j - 1 && i > 0 {
            assert(s.take(i).drop_last() =~= s.take(i - 1));
        }
    } else if i > 0 {
        assert(s.take(i).drop_last() =~= s.take(i - 1));
    }
}


/// The sum of `f` over the jobs of `s`.
pub open spec fn sum_of(s: Seq<Job>, f: spec_fn(Job) -> int) -> int
    decreases s.len(),
{
    if s.len() == 0 {
        0
    } else {
        sum_of(s.drop_last(), f) + f(s.last())
    }
}

/// The processing time of job `j`.
pub open spec fn processing(j: Job) -> int {
    j.processing_time as int
}

/// Total processing time of the jobs of `s`.
pub open spec fn total_processing(s: Seq<Job>) -> int {
    sum_of(s, |j: Job| processing(j))
}

/// The largest release time in `s` (zero for no jobs).
pub open spec fn max_release(s: Seq<Job>) -> int
    decreases s.len(),
{
    if s.len() == 0 {
        0
    } else {
        let m = max_release(s.drop_last());
        let r = s.last().delivery_time as int;
        if m > r {
            m
        } else {
            r
        }
    }
}

/// The largest tail in `s` (zero for no jobs).
pub open spec fn max_tail(s: Seq<Job>) -> int
    decreases s.len(),
{
    if s.len() == 0 {
        0
    } else {
        let m = max_tail(s.drop_last());
        let q = s.last().cooldown_time as int;
        if m > q {
            m
        } else {
            q
        }
    }
}

/// Latest release, plus all processing, plus largest tail: no order of the
/// jobs, preemptive or not, keeps the machine or a tail busy beyond it.
pub open spec fn horizon(s: Seq<Job>) -> int {
    max_release(s) + total_processing(s) + max_tail(s)
}

/// Every time that the scheduling of `s` computes fits in a `u32`.
pub open spec fn fits(s: Seq<Job>) -> bool {
    horizon(s) <= u32::MAX
}

pub proof fn lemma_sum_nonneg(s: Seq<Job>, f: spec_fn(Job) -> int)
    requires
        forall|j: Job| #[trigger] f(j) >= 0,
    ensures
        sum_of(s, f) >= 0,
    decreases s.len(),
{
    if s.len() > 0 {
        lemma_sum_nonneg(s.drop_last(), f);
    }
}

/// The sum over two sequences one after the other.
pub proof fn lemma_sum_concat(a: Seq<Job>, b: Seq<Job>, f: spec_fn(Job) -> int)
    ensures
        sum_of(a + b, f) == sum_of(a, f) + sum_of(b, f),
    decreases b.len(),
{
    if b.len() == 0 {
        assert(a + b =~= a);
    } else {
        lemma_sum_concat(a, b.drop_last(), f);
        assert((a + b).drop_last() =~= a + b.drop_last());
    }
}

/// Removing one element takes its value off the sum.
pub proof fn lemma_sum_remove(s: Seq<Job>, f: spec_fn(Job) -> int, i: int)
    requires
        0 <= i < s.len(),
    ensures
        sum_of(s, f) == sum_of(s.remove(i), f) + f(s[i]),
    decreases s.len(),
{
    if i < s.len() - 1 {
        let d = s.drop_last();
        lemma_sum_remove(d, f, i);
        assert(s.remove(i).drop_last() =~= d.remove(i));
    } else {
        assert(s.remove(i) =~= s.drop_last());
    }
}

/// The sum of the elements of `s` from the first.
pub proof fn lemma_sum_first(s: Seq<Job>, f: spec_fn(Job) -> int)
    requires
        s.len() > 0,
    ensures
        sum_of(s, f) == f(s[0]) + sum_of(s.drop_first(), f),
{
    lemma_sum_remove(s, f, 0);
    assert(s.remove(0) =~= s.drop_first());
}

/// The sum does not depend on the order of the elements.
pub proof fn lemma_sum_perm(a: Seq<Job>, b: Seq<Job>, f: spec_fn(Job) -> int)
    requires
        a.to_multiset() == b.to_multiset(),
    ensures
        sum_of(a, f) == sum_of(b, f),
    decreases a.len(),
{
    a.to_multiset_ensures();
    b.to_multiset_ensures();
    if a.len() == 0 {
        assert(b.len() == 0);
    } else {
        let x = a.last();
        let d = a.drop_last();
        assert(a =~= d.push(x));
        assert(a.contains(x)) by {
            assert(a[a.len() - 1] == x);
        }
        assert(a.to_multiset().count(x) > 0);
        assert(b.contains(x));
        
        let i = choose|i: int| 0 <= i < b.len() && b[i] == x;
        d.to_multiset_ensures();
        assert(b.remove(i).to_multiset() =~= d.to_multiset());
        lemma_sum_perm(d, b.remove(i), f);
        lemma_sum_remove(b, f, i);
    }
}

/// `max_release` bounds every release in `s` and, for jobs, is one of them.
pub proof fn lemma_max_release(s: Seq<Job>)
    ensures
        forall|i: int| 0 <= i < s.len() ==> #[trigger] s[i].delivery_time <= max_release(s),
        s.len() > 0 ==> exists|i: int|
            0 <= i < s.len() && #[trigger] s[i].delivery_time == max_release(s),
        max_release(s) >= 0,
    decreases s.len(),
{
    if s.len() > 0 {
        let d = s.drop_last();
        lemma_max_release(d);
        if s.len() > 1 && max_release(d) > s.last().delivery_time {
            let i = choose|i: int| 0 <= i < d.len() && #[trigger] d[i].delivery_time == max_release(d);
            assert(s[i] == d[i]);
        } else {
            assert(s[s.len() - 1].delivery_time == max_release(s));
        }
        assert forall|i: int| 0 <= i < s.len() implies #[trigger] s[i].delivery_time <= max_release(s) by {
            if i < s.len() - 1 {
                assert(s[i] == d[i]);
            }
        }
    }
}

/// `max_tail` bounds every tail in `s` and, for jobs, is one of them.
pub proof fn lemma_max_tail(s: Seq<Job>)
    ensures
        forall|i: int| 0 <= i < s.len() ==> #[trigger] s[i].cooldown_time <= max_tail(s),
        s.len() > 0 ==> exists|i: int|
            0 <= i < s.len() && #[trigger] s[i].cooldown_time == max_tail(s),
        max_tail(s) >= 0,
    decreases s.len(),
{
    if s.len() > 0 {
        let d = s.drop_last();
        lemma_max_tail(d);
        if s.len() > 1 && max_tail(d) > s.last().cooldown_time {
            let i = choose|i: int| 0 <= i < d.len() && #[trigger] d[i].cooldown_time == max_tail(d);
            assert(s[i] == d[i]);
        } else {
            assert(s[s.len() - 1].cooldown_time == max_tail(s));
        }
        assert forall|i: int| 0 <= i < s.len() implies #[trigger] s[i].cooldown_time <= max_tail(s) by {
            if i < s.len() - 1 {
                assert(s[i] == d[i]);
            }
        }
    }
}

/// The horizon does not depend on the order of the jobs.
pub proof fn lemma_horizon_perm(a: Seq<Job>, b: Seq<Job>)
    requires
        a.to_multiset() == b.to_multiset(),
    ensures
        horizon(a) == horizon(b),
        max_release(a) == max_release(b),
        max_tail(a) == max_tail(b),
        total_processing(a) == total_processing(b),
{
    a.to_multiset_ensures();
    b.to_multiset_ensures();
    lemma_sum_perm(a, b, |j: Job| processing(j));
    lemma_max_release(a);
    lemma_max_release(b);
    lemma_max_tail(a);
    lemma_max_tail(b);
    if a.len() > 0 {
        assert(b.len() > 0);
        let i = choose|i: int| 0 <= i < a.len() && #[trigger] a[i].delivery_time == max_release(a);
        assert(a.contains(a[i]));
        assert(a.to_multiset().count(a[i]) > 0);
        assert(b.contains(a[i]));
        let j = choose|j: int| 0 <= j < b.len() && #[trigger] b[j].delivery_time == max_release(b);
        assert(b.contains(b[j]));
        assert(b.to_multiset().count(b[j]) > 0);
        assert(a.contains(b[j]));
        let k = choose|k: int| 0 <= k < a.len() && #[trigger] a[k].cooldown_time == max_tail(a);
        assert(a.contains(a[k]));
        assert(a.to_multiset().count(a[k]) > 0);
        assert(b.contains(a[k]));
        let l = choose|l: int| 0 <= l < b.len() && #[trigger] b[l].cooldown_time == max_tail(b);
        assert(b.contains(b[l]));
        assert(b.to_multiset().count(b[l]) > 0);
        assert(a.contains(b[l]));
    } else {
        assert(b.len() == 0);
    }
}

/// Run in any order, the jobs of `s` finish processing by the latest
/// release plus the total processing time.
pub proof fn lemma_finish_bound(s: Seq<Job>)
    ensures
        finish(s) <= max_release(s) + total_processing(s),
    decreases s.len(),
{
    if s.len() > 0 {
        let d = s.drop_last();
        lemma_finish_bound(d);
        lemma_sum_nonneg(d, |j: Job| processing(j));
        lemma_max_release(d);
    }
}

/// The makespan of any order of the jobs of `s` is within the horizon.
pub proof fn lemma_span_bound(s: Seq<Job>)
    ensures
        span(s) <= horizon(s),
        finish(s) <= horizon(s),
    decreases s.len(),
{
    lemma_finish_bound(s);
    lemma_max_tail(s);
    if s.len() > 0 {
        let d = s.drop_last();
        lemma_span_bound(d);
        lemma_max_release(d);
        lemma_max_release(s);
        lemma_max_tail(d);
    }
}


/// Completion time plus tail of the job at position `i` of the order `s`.
pub open spec fn completion(s: Seq<Job>, i: int) -> int {
    finish(s.take(i + 1)) + s[i].cooldown_time
}

/// Processing time of the jobs at positions `a` to `b` of `s`, both included.
pub open spec fn block_processing(s: Seq<Job>, a: int, b: int) -> int {
    total_processing(s.subrange(a, b + 1))
}

/// The makespan is the completion time plus tail of one of the jobs, and
/// of none is it smaller.
pub proof fn lemma_span_attained(s: Seq<Job>)
    requires
        s.len() > 0,
    ensures
        exists|i: int| 0 <= i < s.len() && #[trigger] completion(s, i) == span(s),
        forall|i: int| 0 <= i < s.len() ==> #[trigger] completion(s, i) <= span(s),
    decreases s.len(),
{
    let n = s.len() as int;
    assert(s.take(n) =~= s);
    let d = s.drop_last();
    assert forall|i: int| 0 <= i < n - 1 implies #[trigger] completion(s, i) == completion(d, i) by {
        assert(s.take(i + 1) =~= d.take(i + 1));
    }
    if n > 1 {
        lemma_span_attained(d);
        if span(d) >= completion(s, n - 1) {
            let i = choose|i: int| 0 <= i < d.len() && #[trigger] completion(d, i) == span(d);
            assert(completion(s, i) == span(s));
        } else {
            assert(completion(s, n - 1) == span(s));
        }
        assert forall|i: int| 0 <= i < n implies #[trigger] completion(s, i) <= span(s) by {
            if i < n - 1 {
                assert(completion(d, i) <= span(d));
            }
        }
    } else {
        assert(completion(s, 0) == span(s));
    }
}

/// A block grows by the processing time of its last job.
pub proof fn lemma_block_step(s: Seq<Job>, a: int, b: int)
    requires
        0 <= a <= b < s.len(),
    ensures
        block_processing(s, a, b) == (if a == b {
            0
        } else {
            block_processing(s, a, b - 1)
        }) + s[b].processing_time,
{
    let sub = s.subrange(a, b + 1);
    assert(sub.last() == s[b]);
    assert(total_processing(sub) == total_processing(sub.drop_last()) + processing(sub.last()));
    if a == b {
        assert(sub.drop_last() =~= Seq::<Job>::empty());
        assert(total_processing(Seq::<Job>::empty()) == 0);
    } else {
        assert(sub.drop_last() =~= s.subrange(a, b));
    }
}

/// A prefix of the order finishes no earlier than the release of any of its
/// jobs plus the processing from that job to the end of the prefix.
pub proof fn lemma_finish_after_block(s: Seq<Job>, k: int, j: int)
    requires
        0 <= k <= j < s.len(),
    ensures
        finish(s.take(j + 1)) >= s[k].delivery_time + block_processing(s, k, j),
    decreases j - k,
{
    assert(s.take(j + 1).drop_last() =~= s.take(j));
    assert(s.take(j + 1).last() == s[j]);
    lemma_block_step(s, k, j);
    if k == j {
        lemma_finish_nonneg(s.take(j));
    } else {
        lemma_finish_after_block(s, k, j - 1);
    }
}

/// Some job starts at its release and runs with the machine busy through
/// position `j`: the start of the block that ends at `j`.
pub proof fn lemma_block_start_exists(s: Seq<Job>, j: int)
    requires
        0 <= j < s.len(),
    ensures
        exists|a: int|
            0 <= a <= j && s[a].delivery_time + block_processing(s, a, j) == finish(
                #[trigger] s.take(j + 1),
            ) + 0 * a,
    decreases j,
{
    assert(s.take(j + 1).drop_last() =~= s.take(j));
    assert(s.take(j + 1).last() == s[j]);
    lemma_block_step(s, j, j);
    if finish(s.take(j)) <= s[j].delivery_time {
        assert(s[j].delivery_time + block_processing(s, j, j) == finish(s.take(j + 1)) + 0 * j);
    } else {
        if j == 0 {
            assert(s.take(0) =~= Seq::<Job>::empty());
        } else {
            lemma_block_start_exists(s, j - 1);
            let a = choose|a: int|
                0 <= a <= j - 1 && s[a].delivery_time + block_processing(s, a, j - 1) == finish(
                    #[trigger] s.take(j),
                ) + 0 * a;
            lemma_block_step(s, a, j);
            assert(s[a].delivery_time + block_processing(s, a, j) == finish(s.take(j + 1)) + 0 * a);
        }
    }
}

/// `b` dominates `a`: same processing times, releases and tails no smaller.
pub open spec fn dominated(a: Seq<Job>, b: Seq<Job>) -> bool {
    &&& a.len() == b.len()
    &&& forall|i: int|
        0 <= i < a.len() ==> (#[trigger] a[i]).processing_time == b[i].processing_time
            && a[i].delivery_time <= b[i].delivery_time && a[i].cooldown_time <= b[i].cooldown_time
}

/// Later releases and longer tails never make an order finish earlier.
pub proof fn lemma_dominated_span(a: Seq<Job>, b: Seq<Job>)
    requires
        dominated(a, b),
    ensures
        finish(a) <= finish(b),
        span(a) <= span(b),
    decreases a.len(),
{
    if a.len() > 0 {
        let n = a.len() - 1;
        assert(a[n].processing_time == b[n].processing_time);
        lemma_dominated_span(a.drop_last(), b.drop_last());
    }
}

} // verus!
