//! Stable orderings of jobs: by arrival time, and by priority then arrival
//! time.

use vstd::prelude::*;
use crate::models::Job;

verus! {

/// Inserts `x` into `sorted` after every job that arrived no later than it.
pub open spec fn insert_by_arrival(sorted: Seq<Job>, x: Job) -> Seq<Job>
    decreases sorted.len(),
{
    if sorted.len() == 0 {
        seq![x]
    } else if sorted.last().arrival_time <= x.arrival_time {
        sorted.push(x)
    } else {
        insert_by_arrival(sorted.drop_last(), x).push(sorted.last())
    }
}

/// The jobs ordered by arrival time; jobs that arrive at the same time keep
/// their relative order (a stable insertion sort).
pub open spec fn sort_by_arrival(s: Seq<Job>) -> Seq<Job>
    decreases s.len(),
{
    if s.len() == 0 {
        s
    } else {
        insert_by_arrival(sort_by_arrival(s.drop_last()), s.last())
    }
}

/// Ordered by non-decreasing arrival time.
pub open spec fn arrival_sorted(s: Seq<Job>) -> bool {
    forall|i: int, j: int| 0 <= i <= j < s.len() ==> (#[trigger] s[i]).arrival_time <= (#[trigger] s[j]).arrival_time
}

/// Inserting at the boundary between jobs arriving no later and jobs
/// arriving later than `x` is what `insert_by_arrival` does.
pub proof fn lemma_insert_at(r: Seq<Job>, x: Job, p: int)
    requires
        0 <= p <= r.len(),
        p > 0 ==> r[p - 1].arrival_time <= x.arrival_time,
        forall|k: int| p <= k < r.len() ==> (#[trigger] r[k]).arrival_time > x.arrival_time,
    ensures
        insert_by_arrival(r, x) == r.take(p).push(x) + r.skip(p),
    decreases r.len(),
{
    if r.len() == 0 {
        assert(r.take(p).push(x) + r.skip(p) =~= seq![x]);
    } else if r.len() == p {
        assert(r.take(p) =~= r);
        assert(r.take(p).push(x) + r.skip(p) =~= r.push(x));
    } else {
        let d = r.drop_last();
        lemma_insert_at(d, x, p);
        assert(d.take(p) =~= r.take(p));
        assert((d.take(p).push(x) + d.skip(p)).push(r.last()) =~= r.take(p).push(x) + r.skip(p));
    }
}

/// Insertion keeps the multiset of jobs.
pub proof fn lemma_insert_multiset(r: Seq<Job>, x: Job)
    ensures
        insert_by_arrival(r, x).to_multiset() == r.to_multiset().insert(x),
    decreases r.len(),
{
    broadcast use vstd::seq_lib::to_multiset_build;
    if r.len() == 0 {
        assert(r =~= Seq::<Job>::empty());
        assert(insert_by_arrival(r, x) =~= r.push(x));
    } else if r.last().arrival_time <= x.arrival_time {
    } else {
        lemma_insert_multiset(r.drop_last(), x);
        assert(r.drop_last().push(r.last()) =~= r);
        assert(r.to_multiset() == r.drop_last().to_multiset().insert(r.last()));
        assert(insert_by_arrival(r.drop_last(), x).push(r.last()).to_multiset()
            =~= r.drop_last().to_multiset().insert(x).insert(r.last()));
        assert(r.drop_last().to_multiset().insert(x).insert(r.last()) =~= r.to_multiset().insert(x));
    }
}

/// Insertion into a sorted sequence keeps it sorted.
pub proof fn lemma_insert_sorted(r: Seq<Job>, x: Job)
    requires
        arrival_sorted(r),
    ensures
        arrival_sorted(insert_by_arrival(r, x)),
        insert_by_arrival(r, x).len() == r.len() + 1,
        forall|k: int| 0 <= k < insert_by_arrival(r, x).len() ==>
            (#[trigger] insert_by_arrival(r, x)[k]) == x || r.contains(insert_by_arrival(r, x)[k]),
    decreases r.len(),
{
    if r.len() == 0 {
    } else if r.last().arrival_time <= x.arrival_time {
        let res = r.push(x);
        assert forall|k: int| 0 <= k < res.len() implies (#[trigger] res[k]) == x || r.contains(res[k]) by {
            if k < r.len() {
                assert(res[k] == r[k]);
            }
        }
    } else {
        let d = r.drop_last();
        lemma_insert_sorted(d, x);
        let a = insert_by_arrival(d, x);
        let res = a.push(r.last());
        assert forall|i: int, j: int| 0 <= i <= j < res.len() implies (#[trigger] res[i]).arrival_time
            <= (#[trigger] res[j]).arrival_time by {
            if j == res.len() - 1 && i < j {
                assert(res[i] == a[i]);
                if a[i] != x {
                    assert(d.contains(a[i]));
                    let k = choose|k: int| 0 <= k < d.len() && d[k] == a[i];
                    assert(r[k] == d[k]);
                }
            }
        }
        assert forall|k: int| 0 <= k < res.len() implies (#[trigger] res[k]) == x || r.contains(res[k]) by {
            if k < a.len() {
                assert(res[k] == a[k]);
                if a[k] != x {
                    let m = choose|m: int| 0 <= m < d.len() && d[m] == a[k];
                    assert(r[m] == d[m]);
                }
            } else {
                assert(r[r.len() - 1] == res[k]);
            }
        }
    }
}

/// The order by arrival time is sorted and holds exactly the same jobs.
pub proof fn lemma_sort_by_arrival(s: Seq<Job>)
    ensures
        arrival_sorted(sort_by_arrival(s)),
        sort_by_arrival(s).to_multiset() == s.to_multiset(),
        sort_by_arrival(s).len() == s.len(),
    decreases s.len(),
{
    broadcast use vstd::seq_lib::to_multiset_build;
    if s.len() == 0 {
    } else {
        lemma_sort_by_arrival(s.drop_last());
        lemma_insert_sorted(sort_by_arrival(s.drop_last()), s.last());
        lemma_insert_multiset(sort_by_arrival(s.drop_last()), s.last());
        assert(s.drop_last().push(s.last()) =~= s);
    }
}

/// The jobs of `s` that arrive at time `t`, in order.
pub open spec fn arriving_at(s: Seq<Job>, t: u64) -> Seq<Job>
    decreases s.len(),
{
    if s.len() == 0 {
        s
    } else if s.last().arrival_time == t {
        arriving_at(s.drop_last(), t).push(s.last())
    } else {
        arriving_at(s.drop_last(), t)
    }
}

proof fn lemma_arriving_at_insert(r: Seq<Job>, x: Job, t: u64)
    ensures
        arriving_at(insert_by_arrival(r, x), t) == if x.arrival_time == t {
            arriving_at(r, t).push(x)
        } else {
            arriving_at(r, t)
        },
    decreases r.len(),
{
    if r.len() == 0 {
        assert(seq![x].drop_last() =~= r);
    } else if r.last().arrival_time <= x.arrival_time {
        assert(r.push(x).drop_last() =~= r);
    } else {
        let ins = insert_by_arrival(r.drop_last(), x);
        lemma_arriving_at_insert(r.drop_last(), x, t);
        assert(ins.push(r.last()).drop_last() =~= ins);
    }
}

/// Sorting by arrival is stable: for every arrival time, the jobs arriving
/// then come out in the order they went in.
pub proof fn law_sort_is_stable(s: Seq<Job>, t: u64)
    ensures
        arriving_at(sort_by_arrival(s), t) == arriving_at(s, t),
    decreases s.len(),
{
    if s.len() > 0 {
        law_sort_is_stable(s.drop_last(), t);
        lemma_arriving_at_insert(sort_by_arrival(s.drop_last()), s.last(), t);
    }
}

/// Orders the jobs by arrival time, keeping the relative order of jobs that
/// arrive at the same time.
pub fn sort_jobs_by_arrival(jobs: Vec<Job>) -> (r: Vec<Job>)
    ensures
        r@ == sort_by_arrival(jobs@),
{
    let ghost orig = jobs@;
    let mut input = jobs;
    let mut result: Vec<Job> = Vec::new();
    let mut k: usize = 0;
    let len0 = input.len();
    let ghost n = orig.len();
    assert(n == len0);
    while input.len() > 0
        invariant
            n == orig.len(),
            n <= usize::MAX,
            k <= n,
            result@ == sort_by_arrival(orig.take(k as int)),
            input@ == orig.skip(k as int),
            result@.len() == k,
        decreases input@.len(),
    {
        proof {
            lemma_sort_by_arrival(orig.take(k as int));
        }
        assert(k < n);
        let x = input.remove(0);
        assert(x == orig[k as int]);
        assert(input@ =~= orig.skip(k as int + 1));
        let mut p: usize = result.len();
        while p > 0 && result[p - 1].arrival_time > x.arrival_time
            invariant
                p <= result@.len(),
                forall|q: int| p <= q < result@.len() ==> (#[trigger] result@[q]).arrival_time > x.arrival_time,
            decreases p,
        {
            p = p - 1;
        }
        proof {
            lemma_insert_at(result@, x, p as int);
            assert(orig.take(k as int + 1).drop_last() =~= orig.take(k as int));
        }
        let ghost before = result@;
        result.insert(p, x);
        assert(result@ =~= before.take(p as int).push(x) + before.skip(p as int));
        k = k + 1;
    }
    assert(orig.take(k as int) =~= orig);
    result
}

/// Job `a` goes no later than job `b` in priority order: higher priority
/// first, then earlier arrival.
pub open spec fn priority_before(a: Job, b: Job) -> bool {
    a.priority > b.priority || (a.priority == b.priority && a.arrival_time <= b.arrival_time)
}

/// Inserts `x` into `sorted` after every job that goes no later than it.
pub open spec fn insert_by_priority(sorted: Seq<Job>, x: Job) -> Seq<Job>
    decreases sorted.len(),
{
    if sorted.len() == 0 {
        seq![x]
    } else if priority_before(sorted.last(), x) {
        sorted.push(x)
    } else {
        insert_by_priority(sorted.drop_last(), x).push(sorted.last())
    }
}

/// The jobs by descending priority, ties by arrival time; jobs equal in
/// both keep their relative order (a stable insertion sort).
pub open spec fn sort_by_priority(s: Seq<Job>) -> Seq<Job>
    decreases s.len(),
{
    if s.len() == 0 {
        s
    } else {
        insert_by_priority(sort_by_priority(s.drop_last()), s.last())
    }
}

/// Ordered by descending priority, then by arrival time.
pub open spec fn priority_sorted(s: Seq<Job>) -> bool {
    forall|i: int, j: int| 0 <= i <= j < s.len() ==> priority_before(#[trigger] s[i], #[trigger] s[j])
}

proof fn lemma_priority_insert_at(r: Seq<Job>, x: Job, p: int)
    requires
        0 <= p <= r.len(),
        p > 0 ==> priority_before(r[p - 1], x),
        forall|k: int| p <= k < r.len() ==> !priority_before(#[trigger] r[k], x),
    ensures
        insert_by_priority(r, x) == r.take(p).push(x) + r.skip(p),
    decreases r.len(),
{
    if r.len() == 0 {
        assert(r.take(p).push(x) + r.skip(p) =~= seq![x]);
    } else if r.len() == p {
        assert(r.take(p) =~= r);
        assert(r.take(p).push(x) + r.skip(p) =~= r.push(x));
    } else {
        let d = r.drop_last();
        lemma_priority_insert_at(d, x, p);
        assert(d.take(p) =~= r.take(p));
        assert((d.take(p).push(x) + d.skip(p)).push(r.last()) =~= r.take(p).push(x) + r.skip(p));
    }
}

proof fn lemma_priority_insert_multiset(r: Seq<Job>, x: Job)
    ensures
        insert_by_priority(r, x).to_multiset() == r.to_multiset().insert(x),
    decreases r.len(),
{
    broadcast use vstd::seq_lib::to_multiset_build;
    if r.len() == 0 {
        assert(r =~= Seq::<Job>::empty());
        assert(insert_by_priority(r, x) =~= r.push(x));
    } else if priority_before(r.last(), x) {
    } else {
        lemma_priority_insert_multiset(r.drop_last(), x);
        assert(r.drop_last().push(r.last()) =~= r);
        assert(r.to_multiset() == r.drop_last().to_multiset().insert(r.last()));
        assert(insert_by_priority(r.drop_last(), x).push(r.last()).to_multiset()
            =~= r.drop_last().to_multiset().insert(x).insert(r.last()));
        assert(r.drop_last().to_multiset().insert(x).insert(r.last()) =~= r.to_multiset().insert(x));
    }
}

proof fn lemma_priority_insert_sorted(r: Seq<Job>, x: Job)
    requires
        priority_sorted(r),
    ensures
        priority_sorted(insert_by_priority(r, x)),
        insert_by_priority(r, x).len() == r.len() + 1,
        forall|k: int| 0 <= k < insert_by_priority(r, x).len() ==>
            (#[trigger] insert_by_priority(r, x)[k]) == x || r.contains(insert_by_priority(r, x)[k]),
    decreases r.len(),
{
    if r.len() == 0 {
    } else if priority_before(r.last(), x) {
        let res = r.push(x);
        assert forall|i: int, j: int| 0 <= i <= j < res.len() implies priority_before(#[trigger] res[i], #[trigger] res[j]) by {
            if j == res.len() - 1 && i < j {
                assert(priority_before(r[i], r[r.len() - 1]));
            }
        }
        assert forall|k: int| 0 <= k < res.len() implies (#[trigger] res[k]) == x || r.contains(res[k]) by {
            if k < r.len() {
                assert(res[k] == r[k]);
            }
        }
    } else {
        let d = r.drop_last();
        lemma_priority_insert_sorted(d, x);
        let a = insert_by_priority(d, x);
        let res = a.push(r.last());
        assert forall|i: int, j: int| 0 <= i <= j < res.len() implies priority_before(#[trigger] res[i], #[trigger] res[j]) by {
            if j == res.len() - 1 && i < j {
                assert(res[i] == a[i]);
                if a[i] != x {
                    assert(d.contains(a[i]));
                    let k = choose|k: int| 0 <= k < d.len() && d[k] == a[i];
                    assert(r[k] == d[k]);
                    assert(priority_before(r[k], r[r.len() - 1]));
                }
            } else if i < j {
                assert(res[i] == a[i] && res[j] == a[j]);
            }
        }
        assert forall|k: int| 0 <= k < res.len() implies (#[trigger] res[k]) == x || r.contains(res[k]) by {
            if k < a.len() {
                assert(res[k] == a[k]);
                if a[k] != x {
                    let m = choose|m: int| 0 <= m < d.len() && d[m] == a[k];
                    assert(r[m] == d[m]);
                }
            } else {
                assert(r[r.len() - 1] == res[k]);
            }
        }
    }
}

/// The priority order is sorted and holds exactly the same jobs.
pub proof fn lemma_sort_by_priority(s: Seq<Job>)
    ensures
        priority_sorted(sort_by_priority(s)),
        sort_by_priority(s).to_multiset() == s.to_multiset(),
        sort_by_priority(s).len() == s.len(),
    decreases s.len(),
{
    broadcast use vstd::seq_lib::to_multiset_build;
    if s.len() > 0 {
        lemma_sort_by_priority(s.drop_last());
        lemma_priority_insert_sorted(sort_by_priority(s.drop_last()), s.last());
        lemma_priority_insert_multiset(sort_by_priority(s.drop_last()), s.last());
        assert(s.drop_last().push(s.last()) =~= s);
    }
}

/// Orders the jobs by descending priority, then by arrival time, keeping the
/// relative order of jobs equal in both.
pub fn sort_jobs_by_priority(jobs: Vec<Job>) -> (r: Vec<Job>)
    ensures
        r@ == sort_by_priority(jobs@),
{
    let ghost orig = jobs@;
    let mut input = jobs;
    let mut result: Vec<Job> = Vec::new();
    let mut k: usize = 0;
    let len0 = input.len();
    let ghost n = orig.len();
    assert(n == len0);
    while input.len() > 0
        invariant
            n == orig.len(),
            n <= usize::MAX,
            k <= n,
            result@ == sort_by_priority(orig.take(k as int)),
            input@ == orig.skip(k as int),
            result@.len() == k,
        decreases input@.len(),
    {
        proof {
            lemma_sort_by_priority(orig.take(k as int));
        }
        assert(k < n);
        let x = input.remove(0);
        assert(x == orig[k as int]);
        assert(input@ =~= orig.skip(k as int + 1));
        let mut p: usize = result.len();
        while p > 0 && !(result[p - 1].priority > x.priority || (result[p - 1].priority == x.priority
            && result[p - 1].arrival_time <= x.arrival_time))
            invariant
                p <= result@.len(),
                forall|q: int| p <= q < result@.len() ==> !priority_before(#[trigger] result@[q], x),
            decreases p,
        {
            p = p - 1;
        }
        proof {
            lemma_priority_insert_at(result@, x, p as int);
            assert(orig.take(k as int + 1).drop_last() =~= orig.take(k as int));
        }
        let ghost before = result@;
        result.insert(p, x);
        assert(result@ =~= before.take(p as int).push(x) + before.skip(p as int));
        k = k + 1;
    }
    assert(orig.take(k as int) =~= orig);
    result
}

} // verus!
