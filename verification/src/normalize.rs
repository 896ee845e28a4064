//! Sorting a collection of jobs and removing the duplicates from it.

use crate::openqa_job::OpenQAJob;
use vstd::multiset::Multiset;
use vstd::prelude::*;
use vstd::relations::{sorted_by, total_ordering};
use vstd::seq_lib::{
    lemma_multiset_commutative, lemma_sorted_unique, to_multiset_build, to_multiset_contains,
    to_multiset_len,
};

verus! {

/// The order of jobs that allows equal ones: `a` is not behind `b`.
pub open spec fn at_most() -> spec_fn(OpenQAJob, OpenQAJob) -> bool {
    |a: OpenQAJob, b: OpenQAJob| !b.precedes(a)
}

/// No job of `s` stands behind one that it precedes.
pub open spec fn ascending(s: Seq<OpenQAJob>) -> bool {
    forall|i: int, j: int| 0 <= i < j < s.len() ==> !(#[trigger] s[j]).precedes(#[trigger] s[i])
}

/// Each job of `s` precedes all that stand behind it.
pub open spec fn strictly_ascending(s: Seq<OpenQAJob>) -> bool {
    forall|i: int, j: int| 0 <= i < j < s.len() ==> (#[trigger] s[i]).precedes(#[trigger] s[j])
}

/// The jobs of `s` in ascending order.
pub open spec fn sorted(s: Seq<OpenQAJob>) -> Seq<OpenQAJob> {
    s.sort_by(at_most())
}

/// `s` without the jobs that repeat the job before them.
pub open spec fn deduped(s: Seq<OpenQAJob>) -> Seq<OpenQAJob>
    decreases s.len(),
{
    if s.len() == 0 {
        s
    } else {
        let front = deduped(s.drop_last());
        if front.len() > 0 && front.last() == s.last() {
            front
        } else {
            front.push(s.last())
        }
    }
}

/// The jobs of `s` in ascending order, each of them once.
pub open spec fn normalized(s: Seq<OpenQAJob>) -> Seq<OpenQAJob> {
    deduped(sorted(s))
}

/// Jobs are totally ordered: of two different jobs one precedes the other, and
/// `precedes` is transitive and never holds both ways.
pub proof fn lemma_jobs_totally_ordered()
    ensures
        total_ordering(at_most()),
        forall|a: OpenQAJob, b: OpenQAJob| a.precedes(b) || b.precedes(a) || a == b,
        forall|a: OpenQAJob, b: OpenQAJob| !(a.precedes(b) && b.precedes(a)),
        forall|a: OpenQAJob, b: OpenQAJob, c: OpenQAJob|
            a.precedes(b) && b.precedes(c) ==> a.precedes(c),
{
    assert forall|a: OpenQAJob, b: OpenQAJob| a.precedes(b) || b.precedes(a) || a == b by {
        if a.domain.rank() == b.domain.rank() {
            assert(a.domain.0 == b.domain.0);
        }
    }
    let leq = at_most();
    assert forall|a: OpenQAJob, b: OpenQAJob| #[trigger] leq(a, b) && #[trigger] leq(b, a) implies a
        == b by {
        assert(a.precedes(b) || b.precedes(a) || a == b);
    }
}

/// A sequence is ascending exactly if it is sorted by `at_most`.
pub proof fn lemma_ascending_is_sorted_by(s: Seq<OpenQAJob>)
    ensures
        ascending(s) <==> sorted_by(s, at_most()),
{
    let leq = at_most();
    if ascending(s) {
        assert forall|i: int, j: int| 0 <= i < j < s.len() implies #[trigger] leq(s[i], s[j]) by {
            assert(!s[j].precedes(s[i]));
        }
    }
    if sorted_by(s, leq) {
        assert forall|i: int, j: int| 0 <= i < j < s.len() implies !(#[trigger] s[j]).precedes(
            #[trigger] s[i],
        ) by {
            assert(leq(s[i], s[j]));
        }
    }
}

/// An ascending arrangement of given jobs is the sorted one.
pub proof fn lemma_ascending_is_sorted(out: Seq<OpenQAJob>, s: Seq<OpenQAJob>)
    requires
        ascending(out),
        out.to_multiset() == s.to_multiset(),
    ensures
        out == sorted(s),
{
    lemma_jobs_totally_ordered();
    s.lemma_sort_by_ensures(at_most());
    lemma_ascending_is_sorted_by(out);
    lemma_sorted_unique(out, sorted(s), at_most());
}

/// What `deduped` leaves of an ascending sequence: the same jobs, in strictly
/// ascending order, ending with the same job.
pub proof fn lemma_deduped_of_ascending(s: Seq<OpenQAJob>)
    requires
        ascending(s),
    ensures
        strictly_ascending(deduped(s)),
        deduped(s).to_set() == s.to_set(),
        s.len() > 0 ==> deduped(s).len() > 0 && deduped(s).last() == s.last(),
    decreases s.len(),
{
    lemma_jobs_totally_ordered();
    if s.len() > 0 {
        let rest = s.drop_last();
        let front = deduped(rest);
        let out = deduped(s);
        assert(ascending(rest)) by {
            assert forall|i: int, j: int| 0 <= i < j < rest.len() implies !(#[trigger] rest[j]).precedes(
                #[trigger] rest[i],
            ) by {
                assert(rest[i] == s[i] && rest[j] == s[j]);
            }
        }
        lemma_deduped_of_ascending(rest);
        assert(s =~= rest.push(s.last()));
        rest.lemma_push_to_set_commute(s.last());
        if front.len() > 0 && front.last() == s.last() {
            assert(front.contains(front.last())) by {
                assert(front[front.len() - 1] == front.last());
            }
            assert(out.to_set() =~= s.to_set());
        } else {
            front.lemma_push_to_set_commute(s.last());
            assert(out.to_set() =~= s.to_set());
            assert forall|i: int, j: int| 0 <= i < j < out.len() implies (#[trigger] out[i]).precedes(
                #[trigger] out[j],
            ) by {
                if j < front.len() {
                    assert(out[i] == front[i] && out[j] == front[j]);
                } else {
                    let end = front.len() - 1;
                    assert(front.last() == rest.last());
                    assert(rest.last() == s[s.len() - 2]);
                    assert(!s[s.len() - 1].precedes(s[s.len() - 2]));
                    assert(front[end].precedes(s.last()));
                    assert(out[i] == front[i]);
                    if i < end {
                        assert(front[i].precedes(front[end]));
                    }
                }
            }
        }
    } else {
        assert(deduped(s) =~= s);
    }
}

/// Sorting changes the order of the jobs only.
pub proof fn lemma_sorted_is_permutation(s: Seq<OpenQAJob>)
    ensures
        ascending(sorted(s)),
        sorted(s).to_multiset() == s.to_multiset(),
        sorted(s).to_set() == s.to_set(),
        sorted(s).len() == s.len(),
{
    lemma_jobs_totally_ordered();
    s.lemma_sort_by_ensures(at_most());
    lemma_ascending_is_sorted_by(sorted(s));
    assert forall|job: OpenQAJob| sorted(s).contains(job) <==> s.contains(job) by {
        to_multiset_contains(sorted(s), job);
        to_multiset_contains(s, job);
    }
    assert(sorted(s).to_set() =~= s.to_set());
    to_multiset_len(sorted(s));
    to_multiset_len(s);
}

/// The normalized sequence is strictly ascending.
pub proof fn lemma_normalized_is_strictly_ascending(s: Seq<OpenQAJob>)
    ensures
        strictly_ascending(normalized(s)),
{
    lemma_sorted_is_permutation(s);
    lemma_deduped_of_ascending(sorted(s));
}

/// Normalizing neither loses a job nor adds one.
pub proof fn lemma_normalized_keeps_jobs(s: Seq<OpenQAJob>)
    ensures
        normalized(s).to_set() == s.to_set(),
{
    lemma_sorted_is_permutation(s);
    lemma_deduped_of_ascending(sorted(s));
}

/// A strictly ascending sequence is in normal form already.
pub proof fn lemma_strictly_ascending_is_normalized(s: Seq<OpenQAJob>)
    requires
        strictly_ascending(s),
    ensures
        normalized(s) == s,
    decreases s.len(),
{
    lemma_jobs_totally_ordered();
    assert(ascending(s)) by {
        assert forall|i: int, j: int| 0 <= i < j < s.len() implies !(#[trigger] s[j]).precedes(
            #[trigger] s[i],
        ) by {
            assert(s[i].precedes(s[j]));
        }
    }
    lemma_ascending_is_sorted(s, s);
    lemma_deduped_keeps_strictly_ascending(s);
}

/// Nothing repeats in a strictly ascending sequence.
proof fn lemma_deduped_keeps_strictly_ascending(s: Seq<OpenQAJob>)
    requires
        strictly_ascending(s),
    ensures
        deduped(s) == s,
    decreases s.len(),
{
    if s.len() > 0 {
        let rest = s.drop_last();
        assert(strictly_ascending(rest)) by {
            assert forall|i: int, j: int| 0 <= i < j < rest.len() implies (#[trigger] rest[i]).precedes(
                #[trigger] rest[j],
            ) by {
                assert(rest[i] == s[i] && rest[j] == s[j]);
            }
        }
        lemma_deduped_keeps_strictly_ascending(rest);
        if rest.len() > 0 {
            assert(rest.last() == s[s.len() - 2]);
            assert(s[s.len() - 2].precedes(s[s.len() - 1]));
        }
        assert(rest.push(s.last()) =~= s);
    }
}

/// Nothing occurs twice in a strictly ascending sequence.
pub proof fn lemma_strictly_ascending_has_no_duplicates(s: Seq<OpenQAJob>)
    requires
        strictly_ascending(s),
    ensures
        s.no_duplicates(),
{
    assert forall|i: int, j: int| 0 <= i < s.len() && 0 <= j < s.len() && i != j implies s[i]
        != s[j] by {
        if i < j {
            assert(s[i].precedes(s[j]));
        } else {
            assert(s[j].precedes(s[i]));
        }
    }
}

/// There is one way only to put given jobs into strictly ascending order.
pub proof fn lemma_normal_form_is_unique(a: Seq<OpenQAJob>, b: Seq<OpenQAJob>)
    requires
        strictly_ascending(a),
        strictly_ascending(b),
        a.to_set() == b.to_set(),
    ensures
        a == b,
{
    lemma_strictly_ascending_has_no_duplicates(a);
    lemma_strictly_ascending_has_no_duplicates(b);
    a.lemma_multiset_has_no_duplicates();
    b.lemma_multiset_has_no_duplicates();
    assert forall|job: OpenQAJob| a.to_multiset().count(job) == b.to_multiset().count(job) by {
        to_multiset_contains(a, job);
        to_multiset_contains(b, job);
        assert(a.contains(job) == a.to_set().contains(job));
        assert(b.contains(job) == b.to_set().contains(job));
        if a.contains(job) {
            assert(a.to_multiset().contains(job) && b.to_multiset().contains(job));
        }
    }
    assert(a.to_multiset() =~= b.to_multiset());
    lemma_strictly_ascending_is_normalized(a);
    lemma_strictly_ascending_is_normalized(b);
    lemma_sorted_is_permutation(a);
    lemma_sorted_is_permutation(b);
    lemma_ascending_is_sorted(sorted(a), b);
}

/// The normalized sequence is the strictly ascending arrangement of the jobs
/// that occur: it depends on which jobs occur, not on how often or where.
pub proof fn lemma_normalized_by_jobs(s: Seq<OpenQAJob>, t: Seq<OpenQAJob>)
    requires
        s.to_set() == t.to_set(),
    ensures
        normalized(s) == normalized(t),
{
    lemma_normalized_is_strictly_ascending(s);
    lemma_normalized_is_strictly_ascending(t);
    lemma_normalized_keeps_jobs(s);
    lemma_normalized_keeps_jobs(t);
    lemma_normal_form_is_unique(normalized(s), normalized(t));
}

/// Normalizing a second time changes nothing.
pub proof fn lemma_normalized_idempotent(s: Seq<OpenQAJob>)
    ensures
        normalized(normalized(s)) == normalized(s),
{
    lemma_normalized_is_strictly_ascending(s);
    lemma_strictly_ascending_is_normalized(normalized(s));
}

/// However often a job occurs in `s`, the normalized sequence holds it once.
pub proof fn lemma_normalized_holds_each_job_once(s: Seq<OpenQAJob>, job: OpenQAJob)
    requires
        s.contains(job),
    ensures
        normalized(s).to_multiset().count(job) == 1,
        normalized(s).no_duplicates(),
{
    let out = normalized(s);
    lemma_jobs_totally_ordered();
    lemma_normalized_is_strictly_ascending(s);
    lemma_normalized_keeps_jobs(s);
    lemma_strictly_ascending_has_no_duplicates(out);
    assert(out.contains(job)) by {
        assert(s.to_set().contains(job));
        assert(out.to_set().contains(job));
    }
    out.lemma_multiset_has_no_duplicates();
    to_multiset_contains(out, job);
}

/// Where every job of `s` is a single job, the normalized sequence holds no
/// instance and id twice.
pub proof fn lemma_normalized_has_one_job_per_id(s: Seq<OpenQAJob>, i: int, j: int)
    requires
        forall|k: int| 0 <= k < s.len() ==> (#[trigger] s[k]).consecutive_count == 0,
        0 <= i < normalized(s).len(),
        0 <= j < normalized(s).len(),
        normalized(s)[i].domain == normalized(s)[j].domain,
        normalized(s)[i].id == normalized(s)[j].id,
    ensures
        i == j,
{
    let out = normalized(s);
    lemma_normalized_is_strictly_ascending(s);
    lemma_normalized_keeps_jobs(s);
    assert(out.to_set().contains(out[i]) && out.to_set().contains(out[j]));
    assert(s.to_set().contains(out[i]) && s.to_set().contains(out[j]));
    assert(out[i] == out[j]);
    if i < j {
        assert(out[i].precedes(out[j]));
    }
    if j < i {
        assert(out[j].precedes(out[i]));
    }
}

/// Merges two ascending vectors into one.
fn merge(left: &Vec<OpenQAJob>, right: &Vec<OpenQAJob>) -> (out: Vec<OpenQAJob>)
    requires
        ascending(left@),
        ascending(right@),
    ensures
        ascending(out@),
        out@.to_multiset() == left@.to_multiset().add(right@.to_multiset()),
{
    let mut out: Vec<OpenQAJob> = Vec::new();
    let mut i: usize = 0;
    let mut j: usize = 0;
    proof {
        lemma_jobs_totally_ordered();
        assert(left@.take(0).to_multiset() =~= Multiset::empty()) by {
            left@.take(0).to_multiset_ensures();
        }
        assert(right@.take(0).to_multiset() =~= Multiset::empty()) by {
            right@.take(0).to_multiset_ensures();
        }
        out@.to_multiset_ensures();
        assert(out@.to_multiset() =~= left@.take(0).to_multiset().add(right@.take(0).to_multiset()));
    }
    while i < left.len() || j < right.len()
        invariant
            i <= left.len(),
            j <= right.len(),
            ascending(left@),
            ascending(right@),
            ascending(out@),
            forall|k: int, x: int|
                0 <= k < out.len() && i <= x < left.len() ==> !(#[trigger] left[x]).precedes(
                    #[trigger] out[k],
                ),
            forall|k: int, y: int|
                0 <= k < out.len() && j <= y < right.len() ==> !(#[trigger] right[y]).precedes(
                    #[trigger] out[k],
                ),
            out@.to_multiset() == left@.take(i as int).to_multiset().add(
                right@.take(j as int).to_multiset(),
            ),
            forall|a: OpenQAJob, b: OpenQAJob, c: OpenQAJob|
                a.precedes(b) && b.precedes(c) ==> a.precedes(c),
            forall|a: OpenQAJob, b: OpenQAJob| a.precedes(b) || b.precedes(a) || a == b,
        decreases left.len() - i + right.len() - j,
    {
        let ghost before = out@;
        let from_left = j >= right.len() || (i < left.len() && !right[j].is_before(&left[i]));
        if from_left {
            let job = left[i];
            out.push(job);
            proof {
                to_multiset_build(before, job);
                to_multiset_build(left@.take(i as int), job);
                assert(left@.take(i + 1) =~= left@.take(i as int).push(job));
                assert(out@.to_multiset() =~= left@.take(i + 1).to_multiset().add(
                    right@.take(j as int).to_multiset(),
                ));
                assert forall|k: int, y: int|
                    0 <= k < out.len() && j <= y < right.len() implies !(#[trigger] right[y]).precedes(
                    #[trigger] out[k],
                ) by {
                    if k == before.len() {
                        assert(!right[j as int].precedes(job));
                        assert(!right[y].precedes(right[j as int]));
                    } else {
                        assert(out[k] == before[k]);
                    }
                }
                assert forall|k: int, x: int|
                    0 <= k < out.len() && i + 1 <= x < left.len() implies !(#[trigger] left[x]).precedes(
                    #[trigger] out[k],
                ) by {
                    if k < before.len() {
                        assert(out[k] == before[k]);
                    }
                }
                assert forall|a: int, b: int| 0 <= a < b < out.len() implies !(#[trigger] out[b]).precedes(
                    #[trigger] out[a],
                ) by {
                    assert(out[a] == before[a]);
                    if b < before.len() {
                        assert(out[b] == before[b]);
                    } else {
                        assert(out[b] == left[i as int]);
                    }
                }
            }
            i += 1;
        } else {
            let job = right[j];
            out.push(job);
            proof {
                to_multiset_build(before, job);
                to_multiset_build(right@.take(j as int), job);
                assert(right@.take(j + 1) =~= right@.take(j as int).push(job));
                assert(out@.to_multiset() =~= left@.take(i as int).to_multiset().add(
                    right@.take(j + 1).to_multiset(),
                ));
                assert forall|k: int, x: int|
                    0 <= k < out.len() && i <= x < left.len() implies !(#[trigger] left[x]).precedes(
                    #[trigger] out[k],
                ) by {
                    if k == before.len() {
                        assert(job.precedes(left[i as int]));
                        assert(!left[x].precedes(left[i as int]));
                    } else {
                        assert(out[k] == before[k]);
                    }
                }
                assert forall|k: int, y: int|
                    0 <= k < out.len() && j + 1 <= y < right.len() implies !(
                #[trigger] right[y]).precedes(#[trigger] out[k]) by {
                    if k < before.len() {
                        assert(out[k] == before[k]);
                    }
                }
                assert forall|a: int, b: int| 0 <= a < b < out.len() implies !(#[trigger] out[b]).precedes(
                    #[trigger] out[a],
                ) by {
                    assert(out[a] == before[a]);
                    if b < before.len() {
                        assert(out[b] == before[b]);
                    } else {
                        assert(out[b] == right[j as int]);
                    }
                }
            }
            j += 1;
        }
    }
    proof {
        assert(left@.take(i as int) =~= left@);
        assert(right@.take(j as int) =~= right@);
    }
    out
}

/// The jobs `jobs[lo..hi]` in ascending order.
fn sorted_range(jobs: &Vec<OpenQAJob>, lo: usize, hi: usize) -> (out: Vec<OpenQAJob>)
    requires
        lo <= hi <= jobs.len(),
    ensures
        ascending(out@),
        out@.to_multiset() == jobs@.subrange(lo as int, hi as int).to_multiset(),
    decreases hi - lo,
{
    let ghost range = jobs@.subrange(lo as int, hi as int);
    if hi - lo <= 1 {
        let mut out: Vec<OpenQAJob> = Vec::new();
        if lo < hi {
            out.push(jobs[lo]);
        }
        assert(out@ =~= range);
        return out;
    }
    let mid = lo + (hi - lo) / 2;
    let left = sorted_range(jobs, lo, mid);
    let right = sorted_range(jobs, mid, hi);
    proof {
        let front = jobs@.subrange(lo as int, mid as int);
        let back = jobs@.subrange(mid as int, hi as int);
        assert(range =~= front + back);
        lemma_multiset_commutative(front, back);
    }
    merge(&left, &right)
}

/// Sorts the jobs into ascending order: by instance in registry order, then by
/// id, then by the length of the run.
pub fn sort_jobs(jobs: &mut Vec<OpenQAJob>)
    ensures
        ascending(final(jobs)@),
        final(jobs)@.to_multiset() == old(jobs)@.to_multiset(),
        final(jobs)@ == sorted(old(jobs)@),
{
    let out = sorted_range(jobs, 0, jobs.len());
    proof {
        assert(jobs@.subrange(0, jobs.len() as int) =~= jobs@);
        lemma_ascending_is_sorted(out@, jobs@);
    }
    *jobs = out;
}

/// Removes each job that repeats the job before it.
pub fn dedup_jobs(jobs: &mut Vec<OpenQAJob>)
    ensures
        final(jobs)@ == deduped(old(jobs)@),
{
    let mut out: Vec<OpenQAJob> = Vec::new();
    let n = jobs.len();
    let mut i: usize = 0;
    while i < n
        invariant
            n == jobs.len(),
            i <= n,
            out@ == deduped(jobs@.take(i as int)),
        decreases n - i,
    {
        let job = jobs[i];
        proof {
            assert(jobs@.take(i + 1).drop_last() =~= jobs@.take(i as int));
        }
        let repeats = out.len() > 0 && out[out.len() - 1] == job;
        if !repeats {
            out.push(job);
        }
        i += 1;
    }
    proof {
        assert(jobs@.take(n as int) =~= jobs@);
    }
    *jobs = out;
}

/// Sorts the jobs and removes the duplicates.
pub fn normalize(jobs: &mut Vec<OpenQAJob>)
    ensures
        final(jobs)@ == normalized(old(jobs)@),
        strictly_ascending(final(jobs)@),
        final(jobs)@.to_set() == old(jobs)@.to_set(),
{
    proof {
        lemma_normalized_is_strictly_ascending(jobs@);
        lemma_normalized_keeps_jobs(jobs@);
    }
    sort_jobs(jobs);
    dedup_jobs(jobs);
}

} // verus!
