//! Rendering a collection of jobs as one line of text.

use crate::openqa_job::OpenQAJob;
use vstd::prelude::*;
use vstd::string::StringExecFns;

verus! {

/// Handles the output formats for openQA jobs.
pub struct JobFormatter;

/// The collection is not empty and all its jobs belong to one instance.
pub open spec fn same_domain(s: Seq<OpenQAJob>) -> bool {
    s.len() > 0 && forall|i: int| 0 <= i < s.len() ==> (#[trigger] s[i]).domain == s[0].domain
}

/// Some job of the collection stands for a run.
pub open spec fn has_run(s: Seq<OpenQAJob>) -> bool {
    exists|i: int| 0 <= i < s.len() && (#[trigger] s[i]).consecutive_count > 0
}

/// Jobs of more than one instance are in the collection.
pub open spec fn mixed(s: Seq<OpenQAJob>) -> bool {
    exists|i: int, j: int|
        0 <= i < s.len() && 0 <= j < s.len() && (#[trigger] s[i]).domain != (#[trigger] s[j]).domain
}

/// How one job of a list is written: in full, with its URL, or as a token.
pub open spec fn part(job: OpenQAJob, full: bool) -> Seq<char> {
    if full {
        job.text()
    } else {
        job.token()
    }
}

/// The jobs of `s` as written one by one, with `sep` between them.
pub open spec fn joined(s: Seq<OpenQAJob>, sep: Seq<char>, full: bool) -> Seq<char>
    decreases s.len(),
{
    if s.len() == 0 {
        Seq::empty()
    } else if s.len() == 1 {
        part(s[0], full)
    } else {
        joined(s.drop_last(), sep, full) + sep + part(s.last(), full)
    }
}

/// The verbose encoding: every job in full, separated by single spaces.
pub open spec fn verbose_text(s: Seq<OpenQAJob>) -> Seq<char> {
    joined(s, seq![' '], true)
}

/// The compact encoding, which names the instance of the first job once.
///
/// Where some job stands for a run, the base URL is followed directly by the
/// tokens, separated by spaces. Where none does, the base URL loses its path,
/// and a space and the ids separated by commas follow. Nothing is written for
/// an empty collection.
pub open spec fn compact_text(s: Seq<OpenQAJob>) -> Seq<char> {
    if s.len() == 0 {
        Seq::empty()
    } else if has_run(s) {
        s[0].domain.url_text() + joined(s, seq![' '], false)
    } else {
        s[0].domain.short_text() + seq![' '] + joined(s, seq![','], false)
    }
}

/// The body of the summary: compact where all jobs belong to one instance,
/// verbose where they do not or where there is no job.
pub open spec fn body_text(s: Seq<OpenQAJob>) -> Seq<char> {
    if same_domain(s) {
        compact_text(s)
    } else {
        verbose_text(s)
    }
}

/// The summary line, without the end of line.
pub open spec fn summary_text(s: Seq<OpenQAJob>) -> Seq<char> {
    "openqa-mon "@ + body_text(s)
}

/// Which encoding the summary uses: the compact one exactly where there are
/// jobs and all belong to one instance; the verbose one where the jobs are of
/// both instances, and where there is none, which leaves the body empty.
pub proof fn lemma_summary_encoding(s: Seq<OpenQAJob>)
    ensures
        same_domain(s) ==> summary_text(s) == "openqa-mon "@ + compact_text(s),
        !same_domain(s) ==> summary_text(s) == "openqa-mon "@ + verbose_text(s),
        same_domain(s) <==> s.len() > 0 && !mixed(s),
        s.len() == 0 ==> summary_text(s) == "openqa-mon "@,
{
    if s.len() > 0 && !mixed(s) {
        assert forall|i: int| 0 <= i < s.len() implies (#[trigger] s[i]).domain == s[0].domain by {
            if s[i].domain != s[0].domain {
                assert(0 <= 0 < s.len() && 0 <= i < s.len() && s[0].domain != s[i].domain);
            }
        }
    }
    if s.len() == 0 {
        assert("openqa-mon "@ + verbose_text(s) =~= "openqa-mon "@);
    }
}

/// Writing one more job behind a list.
proof fn lemma_joined_next(s: Seq<OpenQAJob>, sep: Seq<char>, full: bool, i: int)
    requires
        0 <= i < s.len(),
    ensures
        joined(s.take(i + 1), sep, full) == if i == 0 {
            part(s[i], full)
        } else {
            joined(s.take(i), sep, full) + sep + part(s[i], full)
        },
{
    assert(s.take(i + 1).drop_last() =~= s.take(i));
    assert(s.take(i + 1).last() == s[i]);
}

/// Appends the jobs to `out`, with `sep` between them.
fn append_joined(out: &mut String, jobs: &[OpenQAJob], sep: &str, full: bool)
    ensures
        final(out)@ == old(out)@ + joined(jobs@, sep@, full),
{
    let n = jobs.len();
    let mut i: usize = 0;
    assert(old(out)@ + joined(jobs@.take(0), sep@, full) =~= old(out)@);
    while i < n
        invariant
            n == jobs@.len(),
            i <= n,
            out@ == old(out)@ + joined(jobs@.take(i as int), sep@, full),
        decreases n - i,
    {
        let ghost head = out@;
        if i > 0 {
            out.append(sep);
        }
        if full {
            out.append(jobs[i].domain.base_url());
        }
        jobs[i].append_token(out);
        proof {
            lemma_joined_next(jobs@, sep@, full, i as int);
            if i > 0 {
                assert(out@ =~= head + sep@ + part(jobs@[i as int], full));
                assert(out@ =~= old(out)@ + joined(jobs@.take(i + 1), sep@, full));
            } else {
                assert(out@ =~= head + part(jobs@[i as int], full));
            }
        }
        i += 1;
    }
    assert(jobs@.take(n as int) =~= jobs@);
}

impl JobFormatter {
    /// Returns true if there are jobs and all of them belong to one instance.
    pub fn all_same_domain(tests: &[OpenQAJob]) -> (r: bool)
        ensures
            r == same_domain(tests@),
    {
        let n = tests.len();
        if n == 0 {
            return false;
        }
        let first_domain = tests[0].domain;
        let mut i: usize = 1;
        while i < n
            invariant
                n == tests@.len(),
                1 <= i <= n,
                first_domain == tests@[0].domain,
                forall|k: int| 0 <= k < i ==> (#[trigger] tests@[k]).domain == first_domain,
            decreases n - i,
        {
            if tests[i].domain != first_domain {
                return false;
            }
            i += 1;
        }
        true
    }

    /// Returns true if some job stands for a run.
    pub fn has_consecutive(jobs: &[OpenQAJob]) -> (r: bool)
        ensures
            r == has_run(jobs@),
    {
        let n = jobs.len();
        let mut i: usize = 0;
        while i < n
            invariant
                n == jobs@.len(),
                i <= n,
                forall|k: int| 0 <= k < i ==> (#[trigger] jobs@[k]).consecutive_count == 0,
            decreases n - i,
        {
            if jobs[i].consecutive_count > 0 {
                return true;
            }
            i += 1;
        }
        false
    }

    /// The compact encoding of the jobs, under the instance of the first job.
    pub fn format_compact(jobs: &[OpenQAJob]) -> (out: String)
        ensures
            out@ == compact_text(jobs@),
    {
        if jobs.len() == 0 {
            return String::new();
        }
        let domain = jobs[0].domain;
        if Self::has_consecutive(jobs) {
            let mut out = String::from_str(domain.base_url());
            append_joined(&mut out, jobs, " ", false);
            proof {
                reveal_strlit(" ");
                assert(" "@ =~= seq![' ']);
            }
            out
        } else {
            let mut out = String::from_str(domain.short_url());
            out.append(" ");
            append_joined(&mut out, jobs, ",", false);
            proof {
                reveal_strlit(" ");
                reveal_strlit(",");
                assert(" "@ =~= seq![' ']);
                assert(","@ =~= seq![',']);
            }
            out
        }
    }

    /// The verbose encoding of the jobs: each one in full.
    pub fn format_verbose(jobs: &[OpenQAJob]) -> (out: String)
        ensures
            out@ == verbose_text(jobs@),
    {
        let mut out = String::new();
        append_joined(&mut out, jobs, " ", true);
        proof {
            reveal_strlit(" ");
            assert(" "@ =~= seq![' ']);
            assert(out@ =~= verbose_text(jobs@));
        }
        out
    }

    /// The summary line for the jobs, without the end of line: `openqa-mon`, a
    /// space, and the jobs in the compact encoding where they all belong to one
    /// instance, in the verbose one otherwise.
    pub fn format_summary(jobs: &[OpenQAJob]) -> (out: String)
        ensures
            out@ == summary_text(jobs@),
    {
        let body = if Self::all_same_domain(jobs) {
            Self::format_compact(jobs)
        } else {
            Self::format_verbose(jobs)
        };
        let mut out = String::from_str("openqa-mon ");
        out.append(body.as_str());
        out
    }
}

} // verus!
