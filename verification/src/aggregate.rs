//! Folding jobs with consecutive ids into runs.

use crate::normalize::strictly_ascending;
use crate::openqa_job::{Domain, OpenQAJob};
use vstd::prelude::*;

verus! {

/// `job` with the job after its run taken into the run.
pub open spec fn extended(job: OpenQAJob) -> OpenQAJob {
    OpenQAJob {
        domain: job.domain,
        id: job.id,
        consecutive_count: (job.consecutive_count + 1) as u32,
    }
}

/// The jobs of `s` with each job folded into the entry before it where it
/// directly follows that entry's run.
pub open spec fn aggregated(s: Seq<OpenQAJob>) -> Seq<OpenQAJob>
    decreases s.len(),
{
    if s.len() == 0 {
        s
    } else {
        let front = aggregated(s.drop_last());
        if front.len() > 0 && front.last().precedes_directly(s.last()) {
            front.drop_last().push(extended(front.last()))
        } else {
            front.push(s.last())
        }
    }
}

/// No job of `s` directly follows the run of the job before it.
pub open spec fn no_mergeable_neighbours(s: Seq<OpenQAJob>) -> bool {
    forall|i: int| 0 <= i < s.len() - 1 ==> !(#[trigger] s[i]).precedes_directly(s[i + 1])
}

/// Aggregation leaves no two neighbours that could be folded together, whatever
/// the jobs it started from.
pub proof fn lemma_aggregated_leaves_no_mergeable_neighbours(s: Seq<OpenQAJob>)
    ensures
        no_mergeable_neighbours(aggregated(s)),
        aggregated(s).len() <= s.len(),
        s.len() > 0 ==> aggregated(s).len() > 0,
    decreases s.len(),
{
    if s.len() > 0 {
        let front = aggregated(s.drop_last());
        let out = aggregated(s);
        lemma_aggregated_leaves_no_mergeable_neighbours(s.drop_last());
        assert forall|i: int| 0 <= i < out.len() - 1 implies !(#[trigger] out[i]).precedes_directly(
            out[i + 1],
        ) by {
            if i + 1 < front.len() - 1 {
                assert(out[i] == front[i] && out[i + 1] == front[i + 1]);
            } else if front.last().precedes_directly(s.last()) {
                assert(out[i] == front[i]);
                assert(out[i + 1] == extended(front[i + 1]));
                assert(!front[i].precedes_directly(front[i + 1]));
            } else if i + 1 < front.len() {
                assert(out[i] == front[i] && out[i + 1] == front[i + 1]);
            }
        }
    }
}

/// The entry `job` stands for the job `id` of `domain`, alone or within its run.
pub open spec fn covers(job: OpenQAJob, domain: Domain, id: int) -> bool {
    job.domain == domain && job.id <= id <= job.id + job.consecutive_count
}

/// Some entry of `s` stands for the job `id` of `domain`.
pub open spec fn mentions(s: Seq<OpenQAJob>, domain: Domain, id: int) -> bool {
    exists|k: int| 0 <= k < s.len() && covers(#[trigger] s[k], domain, id)
}

/// Every entry of `s` is a single job.
pub open spec fn all_single(s: Seq<OpenQAJob>) -> bool {
    forall|k: int| 0 <= k < s.len() ==> (#[trigger] s[k]).consecutive_count == 0
}

/// The entry `a` comes before `b` and cannot be folded together with it: it
/// belongs to an earlier instance, or at least one id lies between its run and
/// `b`.
pub open spec fn apart(a: OpenQAJob, b: OpenQAJob) -> bool {
    ||| a.domain.rank() < b.domain.rank()
    ||| a.domain == b.domain && a.id + a.consecutive_count + 1 < b.id
}

/// Each entry of `s` is apart from all that stand behind it.
pub open spec fn runs_apart(s: Seq<OpenQAJob>) -> bool {
    forall|i: int, j: int| 0 <= i < j < s.len() ==> apart(#[trigger] s[i], #[trigger] s[j])
}

/// Aggregating single jobs loses no job and adds none: the entries stand for
/// the same jobs afterwards.
pub proof fn lemma_aggregated_keeps_ids(s: Seq<OpenQAJob>, domain: Domain, id: int)
    requires
        all_single(s),
    ensures
        mentions(aggregated(s), domain, id) <==> mentions(s, domain, id),
    decreases s.len(),
{
    if s.len() > 0 {
        let rest = s.drop_last();
        let front = aggregated(rest);
        let job = s.last();
        let out = aggregated(s);
        assert(all_single(rest)) by {
            assert forall|k: int| 0 <= k < rest.len() implies (#[trigger] rest[k]).consecutive_count
                == 0 by {
                assert(rest[k] == s[k]);
            }
        }
        lemma_aggregated_keeps_ids(rest, domain, id);
        assert(job == s[s.len() - 1]);
        assert(mentions(s, domain, id) <==> mentions(rest, domain, id) || covers(job, domain, id))
            by {
            if mentions(s, domain, id) {
                let k = choose|k: int| 0 <= k < s.len() && covers(#[trigger] s[k], domain, id);
                if k < rest.len() {
                    assert(covers(rest[k], domain, id));
                }
            }
            if mentions(rest, domain, id) {
                let k = choose|k: int| 0 <= k < rest.len() && covers(#[trigger] rest[k], domain, id);
                assert(covers(s[k], domain, id));
            }
        }
        assert(mentions(out, domain, id) <==> mentions(front, domain, id) || covers(job, domain, id))
            by {
            let folds = front.len() > 0 && front.last().precedes_directly(job);
            let end = out.len() - 1;
            if mentions(out, domain, id) {
                let k = choose|k: int| 0 <= k < out.len() && covers(#[trigger] out[k], domain, id);
                if k < end {
                    assert(covers(front[k], domain, id));
                } else if folds {
                    if !covers(job, domain, id) {
                        assert(covers(front[end], domain, id));
                    }
                }
            }
            if mentions(front, domain, id) {
                let k = choose|k: int|
                    0 <= k < front.len() && covers(#[trigger] front[k], domain, id);
                if folds && k == end {
                    assert(covers(out[end], domain, id));
                } else {
                    assert(covers(out[k], domain, id));
                }
            }
            if covers(job, domain, id) {
                assert(covers(out[end], domain, id));
            }
        }
    }
}

/// Aggregating sorted single jobs gives maximal runs: the entries stay in
/// ascending order, and between the runs of one instance there is an id that
/// was not among the jobs. The last entry ends with the last job.
pub proof fn lemma_aggregated_runs_are_apart(s: Seq<OpenQAJob>)
    requires
        all_single(s),
        strictly_ascending(s),
    ensures
        runs_apart(aggregated(s)),
        strictly_ascending(aggregated(s)),
        s.len() > 0 ==> aggregated(s).len() > 0 && aggregated(s).last().domain == s.last().domain
            && aggregated(s).last().id + aggregated(s).last().consecutive_count == s.last().id,
    decreases s.len(),
{
    let out = aggregated(s);
    if s.len() > 0 {
        let rest = s.drop_last();
        let front = aggregated(rest);
        let job = s.last();
        assert(all_single(rest) && strictly_ascending(rest)) by {
            assert forall|k: int| 0 <= k < rest.len() implies (#[trigger] rest[k]).consecutive_count
                == 0 by {
                assert(rest[k] == s[k]);
            }
            assert forall|i: int, j: int| 0 <= i < j < rest.len() implies (#[trigger] rest[i]).precedes(
                #[trigger] rest[j],
            ) by {
                assert(rest[i] == s[i] && rest[j] == s[j]);
            }
        }
        lemma_aggregated_runs_are_apart(rest);
        assert(job == s[s.len() - 1]);
        if rest.len() > 0 {
            let end = front.len() - 1;
            assert(rest.last() == s[s.len() - 2]);
            assert(s[s.len() - 2].precedes(s[s.len() - 1]));
            assert(front.last() == front[end]);
            assert forall|i: int, j: int| 0 <= i < j < out.len() implies apart(
                #[trigger] out[i],
                #[trigger] out[j],
            ) by {
                if j < end {
                    assert(out[i] == front[i] && out[j] == front[j]);
                } else if front[end].precedes_directly(job) {
                    assert(out[i] == front[i]);
                    assert(apart(front[i], front[end]));
                } else if j == end {
                    assert(out[i] == front[i] && out[j] == front[j]);
                } else if i == end {
                    assert(out[i] == front[end]);
                } else {
                    assert(out[i] == front[i]);
                    assert(apart(front[i], front[end]));
                }
            }
        }
    }
    assert forall|i: int, j: int| 0 <= i < j < out.len() implies (#[trigger] out[i]).precedes(
        #[trigger] out[j],
    ) by {
        assert(apart(out[i], out[j]));
    }
}

/// Folds each job that directly follows the run of the entry before it into
/// that entry. Among sorted single jobs this turns every stretch of consecutive
/// ids into one entry with the number of jobs that follow the first.
pub fn aggregate_consecutive_jobs(jobs: &mut Vec<OpenQAJob>)
    ensures
        final(jobs)@ == aggregated(old(jobs)@),
        no_mergeable_neighbours(final(jobs)@),
{
    let n = jobs.len();
    proof {
        lemma_aggregated_leaves_no_mergeable_neighbours(jobs@);
    }
    if n == 0 {
        return ;
    }
    proof {
        let first = jobs@.take(1);
        assert(aggregated(first.drop_last()) =~= Seq::<OpenQAJob>::empty());
        assert(aggregated(first) =~= first);
    }
    // jobs[..=last] is the aggregate of the jobs read so far, jobs[next..] is still to read
    let mut last: usize = 0;
    let mut next: usize = 1;
    while next < n
        invariant
            n == jobs.len() == old(jobs).len(),
            last < next <= n,
            jobs@.take(last + 1) == aggregated(old(jobs)@.take(next as int)),
            jobs@.skip(next as int) == old(jobs)@.skip(next as int),
        decreases n - next,
    {
        let ghost before = jobs@;
        let ghost front = aggregated(old(jobs)@.take(next as int));
        let job = jobs[next];
        let tail = jobs[last];
        proof {
            assert(old(jobs)@.take(next + 1).drop_last() =~= old(jobs)@.take(next as int));
            assert(job == before.skip(next as int)[0]);
            assert(old(jobs)@.take(next + 1).last() == job);
            assert(tail == before.take(last + 1).last());
        }
        if tail.is_consecutive_with(&job) {
            jobs[last] = OpenQAJob {
                domain: tail.domain,
                id: tail.id,
                consecutive_count: tail.consecutive_count + 1,
            };
            proof {
                assert(jobs@.take(last + 1) =~= front.drop_last().push(extended(tail)));
            }
        } else {
            last += 1;
            jobs[last] = job;
            proof {
                assert(jobs@.take(last + 1) =~= front.push(job));
            }
        }
        next += 1;
        proof {
            assert(jobs@.skip(next as int) =~= old(jobs)@.skip(next as int)) by {
                assert forall|k: int| 0 <= k < n - next implies jobs@.skip(next as int)[k] == old(
                    jobs,
                )@.skip(next as int)[k] by {
                    assert(before.skip(next - 1)[k + 1] == old(jobs)@.skip(next - 1)[k + 1]);
                }
            }
        }
    }
    jobs.truncate(last + 1);
    proof {
        assert(old(jobs)@.take(n as int) =~= old(jobs)@);
    }
}

} // verus!
