//! Finding job references in lines of log text.
//!
//! A line refers to a job where it holds the delimiter `->` with the job's URL
//! behind it: `name -> https://openqa.suse.de/tests/123`. Everything else is
//! noise and gives no job.

use crate::openqa_job::OpenQAJob;
use crate::text::chars_of;
use vstd::prelude::*;
use vstd::slice::slice_subrange;

verus! {

/// The delimiter `->` stands at position `i` of `s`.
pub open spec fn arrow_at(s: Seq<char>, i: int) -> bool {
    0 <= i && i + 1 < s.len() && s[i] == '-' && s[i + 1] == '>'
}

/// The position of the first delimiter of `s` at or behind `from`; the length
/// of `s` where there is none.
pub open spec fn next_arrow(s: Seq<char>, from: int) -> int
    decreases s.len() - from,
{
    if from + 1 >= s.len() {
        s.len() as int
    } else if arrow_at(s, from) {
        from
    } else {
        next_arrow(s, from + 1)
    }
}

/// The second of the fields that the delimiters divide `line` into: what stands
/// between the first delimiter and the next one, or the end of the line.
pub open spec fn url_field(line: Seq<char>) -> Option<Seq<char>> {
    let first = next_arrow(line, 0);
    if first < line.len() {
        Some(line.subrange(first + 2, next_arrow(line, first + 2)))
    } else {
        None
    }
}

/// The job that `line` refers to.
pub open spec fn job_of_line(line: Seq<char>) -> Option<OpenQAJob> {
    match url_field(line) {
        Some(field) => OpenQAJob::of_url(field),
        None => None,
    }
}

/// The jobs that the lines refer to, in the order of the lines.
pub open spec fn jobs_of_lines(lines: Seq<Seq<char>>) -> Seq<OpenQAJob>
    decreases lines.len(),
{
    if lines.len() == 0 {
        Seq::empty()
    } else {
        let front = jobs_of_lines(lines.drop_last());
        match job_of_line(lines.last()) {
            Some(job) => front.push(job),
            None => front,
        }
    }
}

/// Every job that the lines refer to is a single job, and none is missed or
/// made up: the jobs are those that some line refers to.
pub proof fn lemma_jobs_of_lines(lines: Seq<Seq<char>>)
    ensures
        forall|k: int|
            0 <= k < jobs_of_lines(lines).len() ==> (#[trigger] jobs_of_lines(
                lines,
            )[k]).consecutive_count == 0,
        forall|job: OpenQAJob|
            jobs_of_lines(lines).contains(job) <==> exists|i: int|
                0 <= i < lines.len() && job_of_line(#[trigger] lines[i]) == Some(job),
        jobs_of_lines(lines).len() <= lines.len(),
    decreases lines.len(),
{
    let out = jobs_of_lines(lines);
    if lines.len() > 0 {
        let rest = lines.drop_last();
        let front = jobs_of_lines(rest);
        lemma_jobs_of_lines(rest);
        assert forall|k: int| 0 <= k < out.len() implies (#[trigger] out[k]).consecutive_count
            == 0 by {
            if k < front.len() {
                assert(out[k] == front[k]);
            }
        }
        assert forall|job: OpenQAJob| out.contains(job) <==> exists|i: int|
            0 <= i < lines.len() && job_of_line(#[trigger] lines[i]) == Some(job) by {
            if out.contains(job) {
                let k = choose|k: int| 0 <= k < out.len() && out[k] == job;
                if k < front.len() {
                    assert(front[k] == job);
                    assert(front.contains(job));
                    let i = choose|i: int|
                        0 <= i < rest.len() && job_of_line(#[trigger] rest[i]) == Some(job);
                    assert(lines[i] == rest[i]);
                } else {
                    assert(job_of_line(lines[lines.len() - 1]) == Some(job));
                }
            }
            if exists|i: int| 0 <= i < lines.len() && job_of_line(#[trigger] lines[i]) == Some(job) {
                let i = choose|i: int|
                    0 <= i < lines.len() && job_of_line(#[trigger] lines[i]) == Some(job);
                if i < rest.len() {
                    assert(rest[i] == lines[i]);
                    assert(front.contains(job));
                    let k = choose|k: int| 0 <= k < front.len() && front[k] == job;
                    assert(out[k] == job);
                } else {
                    assert(out[out.len() - 1] == job);
                }
            }
        }
    }
}

/// What `next_arrow` finds is the first delimiter from `from` on.
pub proof fn lemma_next_arrow(s: Seq<char>, from: int)
    requires
        0 <= from <= s.len(),
    ensures
        from <= next_arrow(s, from) <= s.len(),
        next_arrow(s, from) < s.len() ==> arrow_at(s, next_arrow(s, from)),
        forall|i: int| from <= i < next_arrow(s, from) ==> !arrow_at(s, i),
    decreases s.len() - from,
{
    if from + 1 < s.len() && !arrow_at(s, from) {
        lemma_next_arrow(s, from + 1);
    }
}

/// Finds the first delimiter of `s` at or behind `from`.
fn find_arrow(s: &[char], from: usize) -> (at: usize)
    requires
        from <= s@.len(),
    ensures
        at == next_arrow(s@, from as int),
        from <= at <= s@.len(),
        at < s@.len() ==> at + 2 <= s@.len(),
{
    let n = s.len();
    let mut i: usize = from;
    proof {
        lemma_next_arrow(s@, from as int);
    }
    while n - i >= 2
        invariant
            n == s@.len(),
            from <= i <= n,
            next_arrow(s@, from as int) == next_arrow(s@, i as int),
        decreases n - i,
    {
        if s[i] == '-' && s[i + 1] == '>' {
            return i;
        }
        i += 1;
    }
    n
}

/// The field of `line` that holds the URL, if the line has a delimiter.
pub fn find_url_field<'a>(line: &'a [char]) -> (out: Option<&'a [char]>)
    ensures
        match out {
            Some(field) => url_field(line@) == Some(field@),
            None => url_field(line@) is None,
        },
{
    let n = line.len();
    let first = find_arrow(line, 0);
    if first >= n {
        return None;
    }
    let end = find_arrow(line, first + 2);
    Some(slice_subrange(line, first + 2, end))
}

/// The job that `line` refers to: the one whose URL stands behind the first
/// `->` of the line. A line without the delimiter, or with anything but a job's
/// URL behind it, gives `None`.
pub fn extract_job(line: &str) -> (out: Option<OpenQAJob>)
    ensures
        out == job_of_line(line@),
{
    let chars = chars_of(line);
    match find_url_field(chars.as_slice()) {
        Some(field) => OpenQAJob::from_chars(field),
        None => None,
    }
}

/// The text of each line.
pub open spec fn texts(lines: Seq<String>) -> Seq<Seq<char>> {
    lines.map_values(|line: String| line@)
}

/// The jobs that the lines refer to, in the order of the lines. Each of them is
/// a single job.
pub fn extract_jobs(lines: &[String]) -> (out: Vec<OpenQAJob>)
    ensures
        out@ == jobs_of_lines(texts(lines@)),
        forall|k: int| 0 <= k < out@.len() ==> (#[trigger] out@[k]).consecutive_count == 0,
{
    proof {
        lemma_jobs_of_lines(texts(lines@));
    }
    let mut out: Vec<OpenQAJob> = Vec::new();
    let n = lines.len();
    let mut i: usize = 0;
    while i < n
        invariant
            n == lines@.len(),
            i <= n,
            out@ == jobs_of_lines(texts(lines@).take(i as int)),
        decreases n - i,
    {
        proof {
            let seen = texts(lines@).take(i + 1);
            assert(seen.drop_last() =~= texts(lines@).take(i as int));
            assert(seen.last() == lines@[i as int]@);
        }
        if let Some(job) = extract_job(lines[i].as_str()) {
            out.push(job);
        }
        i += 1;
    }
    assert(texts(lines@).take(n as int) =~= texts(lines@));
    out
}

} // verus!
