//! Stable sorting of jobs by one of their three times.

use vstd::prelude::*;

use crate::jobs::Job;

verus! {

broadcast use vstd::seq_lib::group_seq_properties;

/// One of the three times of a job.
#[derive(Clone, Copy, Debug, PartialEq, Eq, Structural)]
pub enum Field {
    Release,
    Processing,
    Tail,
}

pub open spec fn key(j: Job, f: Field) -> u32 {
    match f {
        Field::Release => j.delivery_time,
        Field::Processing => j.processing_time,
        Field::Tail => j.cooldown_time,
    }
}

/// `x` inserted into `s` just before the first element whose key exceeds
/// that of `x`: after every element with a key at most that of `x`.
pub open spec fn insert_sorted(s: Seq<Job>, x: Job, f: Field) -> Seq<Job>
    decreases s.len(),
{
    if s.len() == 0 {
        seq![x]
    } else if key(s[0], f) > key(x, f) {
        seq![x] + s
    } else {
        seq![s[0]] + insert_sorted(s.drop_first(), x, f)
    }
}

/// The stable sort of `s` by key `f`: each element in turn is placed after
/// all earlier elements whose key is not larger.
pub open spec fn sort_by_key(s: Seq<Job>, f: Field) -> Seq<Job>
    decreases s.len(),
{
    if s.len() == 0 {
        s
    } else {
        insert_sorted(sort_by_key(s.drop_last(), f), s.last(), f)
    }
}

pub open spec fn is_sorted_by(s: Seq<Job>, f: Field) -> bool {
    forall|i: int, j: int| 0 <= i < j < s.len() ==> key(s[i], f) <= key(s[j], f)
}

/// The elements of `s` with key `k`, in their order in `s`.
pub open spec fn with_key(s: Seq<Job>, f: Field, k: u32) -> Seq<Job> {
    s.filter(|x: Job| key(x, f) == k)
}

proof fn lemma_insert_sorted_at(s: Seq<Job>, x: Job, f: Field, pos: int)
    requires
        0 <= pos <= s.len(),
        forall|i: int| 0 <= i < pos ==> key(#[trigger] s[i], f) <= key(x, f),
        pos < s.len() ==> key(s[pos], f) > key(x, f),
    ensures
        insert_sorted(s, x, f) == s.insert(pos, x),
    decreases pos,
{
    if s.len() == 0 {
        assert(s.insert(pos, x) =~= seq![x]);
    } else if pos == 0 {
        assert(s.insert(pos, x) =~= seq![x] + s);
    } else {
        let t = s.drop_first();
        assert forall|i: int| 0 <= i < pos - 1 implies key(#[trigger] t[i], f) <= key(x, f) by {
            assert(t[i] == s[i + 1]);
        }
        lemma_insert_sorted_at(t, x, f, pos - 1);
        assert(s.insert(pos, x) =~= seq![s[0]] + t.insert(pos - 1, x));
    }
}

proof fn lemma_insert_sorted_props(s: Seq<Job>, x: Job, f: Field)
    requires
        is_sorted_by(s, f),
    ensures
        is_sorted_by(insert_sorted(s, x, f), f),
        insert_sorted(s, x, f).to_multiset() =~= s.to_multiset().insert(x),
        forall|k: u32|
            #[trigger] with_key(insert_sorted(s, x, f), f, k) == if k == key(x, f) {
                with_key(s, f, k).push(x)
            } else {
                with_key(s, f, k)
            },
    decreases s.len(),
{
    broadcast use vstd::seq_lib::lemma_multiset_commutative;

    if s.len() == 0 {
        assert(insert_sorted(s, x, f) =~= seq![x]);
        assert forall|k: u32| #[trigger]
            with_key(insert_sorted(s, x, f), f, k) == if k == key(x, f) {
                with_key(s, f, k).push(x)
            } else {
                with_key(s, f, k)
            } by {
            reveal_with_fuel(Seq::filter, 2);
            assert(s =~= Seq::<Job>::empty());
            assert(seq![x].drop_last() =~= Seq::<Job>::empty());
        }
        assert(seq![x] =~= Seq::<Job>::empty().push(x));
    } else if key(s[0], f) > key(x, f) {
        let r = seq![x] + s;
        assert(insert_sorted(s, x, f) == r);
        assert forall|k: u32| #[trigger]
            with_key(r, f, k) == if k == key(x, f) {
                with_key(s, f, k).push(x)
            } else {
                with_key(s, f, k)
            } by {
            Seq::filter_distributes_over_add(seq![x], s, |y: Job| key(y, f) == k);
            reveal_with_fuel(Seq::filter, 2);
            assert(seq![x].drop_last() =~= Seq::<Job>::empty());
            if k == key(x, f) {
                // no element of s has key k: every key in s exceeds key(x)
                assert forall|i: int| 0 <= i < s.len() implies key(#[trigger] s[i], f) != k by {
                    if i > 0 {
                        assert(key(s[0], f) <= key(s[i], f));
                    }
                }
                s.lemma_all_neg_filter_empty(|y: Job| key(y, f) == k);
                assert(with_key(s, f, k) =~= Seq::<Job>::empty());
                assert(with_key(r, f, k) =~= seq![x]);
            } else {
                assert(with_key(r, f, k) =~= with_key(s, f, k));
            }
        }
        assert(seq![x] =~= Seq::<Job>::empty().push(x));
    } else {
        let t = s.drop_first();
        assert(is_sorted_by(t, f));
        lemma_insert_sorted_props(t, x, f);
        let it = insert_sorted(t, x, f);
        let r = seq![s[0]] + it;
        assert(insert_sorted(s, x, f) == r);
        assert(s =~= seq![s[0]] + t);
        assert(seq![s[0]] =~= Seq::<Job>::empty().push(s[0]));
        // every element of it is an element of t or x, with key at least key(s[0])
        assert forall|i: int| 0 <= i < it.len() implies key(s[0], f) <= key(#[trigger] it[i], f) by {
            assert(it.to_multiset().count(it[i]) > 0);
            if it[i] != x {
                assert(t.to_multiset().count(it[i]) > 0);
                assert(t.contains(it[i]));
                let j = choose|j: int| 0 <= j < t.len() && t[j] == it[i];
                assert(t[j] == s[j + 1]);
            }
        }
        assert(is_sorted_by(r, f)) by {
            assert forall|i: int, j: int| 0 <= i < j < r.len() implies key(r[i], f) <= key(
                r[j],
                f,
            ) by {
                if i > 0 {
                    assert(r[i] == it[i - 1]);
                    assert(r[j] == it[j - 1]);
                } else {
                    assert(r[j] == it[j - 1]);
                }
            }
        }
        assert forall|k: u32| #[trigger]
            with_key(r, f, k) == if k == key(x, f) {
                with_key(s, f, k).push(x)
            } else {
                with_key(s, f, k)
            } by {
            Seq::filter_distributes_over_add(seq![s[0]], it, |y: Job| key(y, f) == k);
            Seq::filter_distributes_over_add(seq![s[0]], t, |y: Job| key(y, f) == k);
            let a = with_key(seq![s[0]], f, k);
            let b = with_key(t, f, k);
            assert(with_key(it, f, k) == if k == key(x, f) {
                b.push(x)
            } else {
                b
            });
            assert(with_key(s, f, k) == a + b);
            assert((a + b.push(x)) =~= (a + b).push(x));
        }
    }
}

/// The stable sort is sorted, a permutation, and keeps the relative order
/// of the elements with equal keys.
pub proof fn lemma_sort_by_key(s: Seq<Job>, f: Field)
    ensures
        is_sorted_by(sort_by_key(s, f), f),
        sort_by_key(s, f).to_multiset() =~= s.to_multiset(),
        sort_by_key(s, f).len() == s.len(),
        forall|k: u32| #[trigger] with_key(sort_by_key(s, f), f, k) == with_key(s, f, k),
    decreases s.len(),
{
    if s.len() > 0 {
        let d = s.drop_last();
        lemma_sort_by_key(d, f);
        lemma_insert_sorted_props(sort_by_key(d, f), s.last(), f);
        assert(s =~= d.push(s.last()));
        sort_by_key(s, f).to_multiset_ensures();
        s.to_multiset_ensures();
        assert forall|k: u32| #[trigger] with_key(sort_by_key(s, f), f, k) == with_key(s, f, k) by {
            d.lemma_filter_push(s.last(), |y: Job| key(y, f) == k);
        }
    }
}

/// A copy of `v` stably sorted by key `f`.
pub fn stable_sort(v: &Vec<Job>, f: Field) -> (r: Vec<Job>)
    ensures
        r@ == sort_by_key(v@, f),
{
    let mut r: Vec<Job> = Vec::new();
    let mut i: usize = 0;
    while i < v.len()
        invariant
            0 <= i <= v.len(),
            r@ == sort_by_key(v@.take(i as int), f),
        decreases v.len() - i,
    {
        let x = v[i];
        let kx = field_of(&x, f);
        let mut pos: usize = 0;
        while pos < r.len() && field_of(&r[pos], f) <= kx
            invariant
                0 <= pos <= r.len(),
                kx == key(x, f),
                forall|j: int| 0 <= j < pos ==> key(#[trigger] r@[j], f) <= key(x, f),
            decreases r.len() - pos,
        {
            pos += 1;
        }
        proof {
            lemma_insert_sorted_at(r@, x, f, pos as int);
            assert(v@.take(i + 1).drop_last() =~= v@.take(i as int));
        }
        r.insert(pos, x);
        i += 1;
    }
    assert(v@.take(i as int) =~= v@);
    r
}

/// The key `f` of job `j`.
pub fn field_of(j: &Job, f: Field) -> (r: u32)
    ensures
        r == key(*j, f),
{
    match f {
        Field::Release => j.delivery_time,
        Field::Processing => j.processing_time,
        Field::Tail => j.cooldown_time,
    }
}

} // verus!
