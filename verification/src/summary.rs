//! From lines of log text to the summary line.

use crate::aggregate::{
    aggregate_consecutive_jobs, aggregated, all_single, apart, covers,
    lemma_aggregated_keeps_ids, lemma_aggregated_leaves_no_mergeable_neighbours,
    lemma_aggregated_runs_are_apart, mentions, no_mergeable_neighbours, runs_apart,
};
use crate::extract::{extract_jobs, job_of_line, jobs_of_lines, lemma_jobs_of_lines, texts};
use crate::formatter::{summary_text, JobFormatter};
use crate::normalize::{
    lemma_normalized_holds_each_job_once, lemma_normalized_is_strictly_ascending,
    lemma_normalized_keeps_jobs, normalize, normalized,
};
use crate::openqa_job::{Domain, OpenQAJob};
use vstd::prelude::*;

verus! {

/// The jobs that the lines refer to, as the summary lists them: sorted, each
/// one once, with consecutive ids folded into runs.
pub open spec fn summarized_jobs(lines: Seq<Seq<char>>) -> Seq<OpenQAJob> {
    aggregated(normalized(jobs_of_lines(lines)))
}

/// The summary of the jobs that the lines refer to.
pub open spec fn summary_of_lines(lines: Seq<Seq<char>>) -> Seq<char> {
    summary_text(summarized_jobs(lines))
}

/// The line refers to the job `id` of `domain`.
pub open spec fn names(line: Seq<char>, domain: Domain, id: int) -> bool {
    job_of_line(line) matches Some(job) && job.domain == domain && job.id == id
}

/// Some line refers to the job `id` of `domain`.
pub open spec fn refers_to(lines: Seq<Seq<char>>, domain: Domain, id: int) -> bool {
    exists|i: int| 0 <= i < lines.len() && names(#[trigger] lines[i], domain, id)
}

/// However often the lines refer to a job, the sorted collection holds it
/// exactly once, as a single job.
pub proof fn lemma_each_reference_once(lines: Seq<Seq<char>>, i: int)
    requires
        0 <= i < lines.len(),
        job_of_line(lines[i]) is Some,
    ensures
        normalized(jobs_of_lines(lines)).to_multiset().count(job_of_line(lines[i]).unwrap()) == 1,
        all_single(normalized(jobs_of_lines(lines))),
{
    let jobs = jobs_of_lines(lines);
    let job = job_of_line(lines[i]).unwrap();
    lemma_jobs_of_lines(lines);
    assert(jobs.contains(job));
    lemma_normalized_holds_each_job_once(jobs, job);
    lemma_normalized_are_single(lines);
}

/// The sorted collection consists of single jobs.
proof fn lemma_normalized_are_single(lines: Seq<Seq<char>>)
    ensures
        all_single(normalized(jobs_of_lines(lines))),
{
    let jobs = jobs_of_lines(lines);
    let sorted = normalized(jobs);
    lemma_jobs_of_lines(lines);
    lemma_normalized_keeps_jobs(jobs);
    assert forall|k: int| 0 <= k < sorted.len() implies (#[trigger] sorted[k]).consecutive_count
        == 0 by {
        assert(sorted.to_set().contains(sorted[k]));
        assert(jobs.to_set().contains(sorted[k]));
        let at = choose|at: int| 0 <= at < jobs.len() && jobs[at] == sorted[k];
        assert(jobs[at].consecutive_count == 0);
    }
}

/// What the summary lists: exactly the jobs that some line refers to, each
/// under one entry, in ascending order and in maximal runs.
pub proof fn lemma_summarized_jobs(lines: Seq<Seq<char>>, domain: Domain, id: int)
    ensures
        mentions(summarized_jobs(lines), domain, id) <==> refers_to(lines, domain, id),
        forall|a: int, b: int|
            #![trigger summarized_jobs(lines)[a], summarized_jobs(lines)[b]]
            0 <= a < summarized_jobs(lines).len() && 0 <= b < summarized_jobs(lines).len()
                && covers(summarized_jobs(lines)[a], domain, id) && covers(
                summarized_jobs(lines)[b],
                domain,
                id,
            ) ==> a == b,
        runs_apart(summarized_jobs(lines)),
        no_mergeable_neighbours(summarized_jobs(lines)),
{
    let jobs = jobs_of_lines(lines);
    let sorted = normalized(jobs);
    let out = summarized_jobs(lines);
    lemma_jobs_of_lines(lines);
    lemma_normalized_are_single(lines);
    lemma_normalized_is_strictly_ascending(jobs);
    lemma_normalized_keeps_jobs(jobs);
    lemma_aggregated_keeps_ids(sorted, domain, id);
    lemma_aggregated_runs_are_apart(sorted);
    lemma_aggregated_leaves_no_mergeable_neighbours(sorted);
    assert forall|a: int, b: int|
        0 <= a < out.len() && 0 <= b < out.len() && covers(out[a], domain, id) && covers(
            out[b],
            domain,
            id,
        ) implies a == b by {
        if a < b {
            assert(apart(out[a], out[b]));
        }
        if b < a {
            assert(apart(out[b], out[a]));
        }
    }
    if mentions(sorted, domain, id) {
        let k = choose|k: int| 0 <= k < sorted.len() && covers(#[trigger] sorted[k], domain, id);
        assert(sorted.to_set().contains(sorted[k]));
        assert(jobs.contains(sorted[k]));
        let i = choose|i: int|
            0 <= i < lines.len() && job_of_line(#[trigger] lines[i]) == Some(sorted[k]);
        assert(names(lines[i], domain, id));
    }
    if refers_to(lines, domain, id) {
        let i = choose|i: int| 0 <= i < lines.len() && names(#[trigger] lines[i], domain, id);
        let job = job_of_line(lines[i]).unwrap();
        assert(jobs.contains(job));
        assert(jobs.to_set().contains(job));
        assert(sorted.to_set().contains(job));
        let k = choose|k: int| 0 <= k < sorted.len() && sorted[k] == job;
        assert(job.consecutive_count == 0);
        assert(covers(sorted[k], domain, id));
    }
}

/// The summary line for the jobs that `lines` refer to, without the end of
/// line.
pub fn summarize(lines: &[String]) -> (out: String)
    ensures
        out@ == summary_of_lines(texts(lines@)),
{
    let mut jobs = extract_jobs(lines);
    normalize(&mut jobs);
    aggregate_consecutive_jobs(&mut jobs);
    JobFormatter::format_summary(jobs.as_slice())
}

} // verus!
