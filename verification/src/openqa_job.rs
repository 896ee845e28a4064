//! The registry of known openQA instances and the job record.

use crate::text::{
    append_decimal, chars_of, decimal, is_digit, lemma_decimal_reads_back, lemma_trimmed_idempotent,
    lemma_trimmed_of_clean, parse_unsigned, parsed_unsigned, strip_prefix, trim, trimmed,
};
use vstd::prelude::*;
use vstd::string::StringExecFns;

verus! {

/// The openQA instances this library knows, in registry order.
#[derive(Debug, Clone, Copy, PartialEq, Eq, Structural, PartialOrd, Ord)]
pub enum Instance {
    SuseDe,
    OpenSuseOrg,
}

/// A known openQA instance. It stands for the base URL under which the instance
/// serves its jobs; a job's URL is the base URL followed by the job's id.
#[derive(Debug, Clone, Copy, PartialEq, Eq, Structural, PartialOrd, Ord)]
pub struct Domain(pub Instance);

impl Domain {
    /// Position in the registry. Lookup tries the instances in this order, and
    /// jobs are sorted by it first.
    pub open spec fn rank(self) -> nat {
        match self.0 {
            Instance::SuseDe => 0,
            Instance::OpenSuseOrg => 1,
        }
    }

    /// The base URL, as characters.
    pub open spec fn url_text(self) -> Seq<char> {
        match self.0 {
            Instance::SuseDe => "https://openqa.suse.de/tests/"@,
            Instance::OpenSuseOrg => "https://openqa.opensuse.org/tests/"@,
        }
    }

    /// The base URL without the path under which the jobs are found.
    pub open spec fn short_text(self) -> Seq<char> {
        match self.0 {
            Instance::SuseDe => "https://openqa.suse.de"@,
            Instance::OpenSuseOrg => "https://openqa.opensuse.org"@,
        }
    }

    /// The first instance of the registry whose base URL `url` starts with.
    pub open spec fn of_url(url: Seq<char>) -> Option<Domain> {
        if Domain(Instance::SuseDe).url_text().is_prefix_of(url) {
            Some(Domain(Instance::SuseDe))
        } else if Domain(Instance::OpenSuseOrg).url_text().is_prefix_of(url) {
            Some(Domain(Instance::OpenSuseOrg))
        } else {
            None
        }
    }

    /// The instance at `openqa.suse.de`, the first of the registry.
    pub fn suse_de() -> (d: Self)
        ensures
            d == Domain(Instance::SuseDe),
    {
        Domain(Instance::SuseDe)
    }

    /// The instance at `openqa.opensuse.org`, the second of the registry.
    pub fn opensuse_org() -> (d: Self)
        ensures
            d == Domain(Instance::OpenSuseOrg),
    {
        Domain(Instance::OpenSuseOrg)
    }

    /// The position of the instance in the registry.
    pub fn rank_index(&self) -> (r: u8)
        ensures
            r == self.rank(),
    {
        match self.0 {
            Instance::SuseDe => 0,
            Instance::OpenSuseOrg => 1,
        }
    }

    /// The base URL: what the URL of each job of the instance starts with.
    pub fn base_url(&self) -> (url: &'static str)
        ensures
            url@ == self.url_text(),
    {
        match self.0 {
            Instance::SuseDe => "https://openqa.suse.de/tests/",
            Instance::OpenSuseOrg => "https://openqa.opensuse.org/tests/",
        }
    }

    /// The base URL without the path under which the jobs are found.
    pub fn short_url(&self) -> (url: &'static str)
        ensures
            url@ == self.short_text(),
    {
        match self.0 {
            Instance::SuseDe => "https://openqa.suse.de",
            Instance::OpenSuseOrg => "https://openqa.opensuse.org",
        }
    }

    /// Looks `url` up in the registry and splits the matching base URL off.
    pub fn split_url<'a>(url: &'a [char]) -> (out: Option<(Domain, &'a [char])>)
        ensures
            match out {
                Some((domain, rest)) => Domain::of_url(url@) == Some(domain) && rest@ == url@.skip(
                    domain.url_text().len() as int,
                ),
                None => Domain::of_url(url@) is None,
            },
    {
        let first = Domain(Instance::SuseDe);
        if let Some(rest) = strip_prefix(url, first.base_url()) {
            return Some((first, rest));
        }
        let second = Domain(Instance::OpenSuseOrg);
        if let Some(rest) = strip_prefix(url, second.base_url()) {
            return Some((second, rest));
        }
        None
    }

    /// The known instance whose base URL `url` starts with.
    pub fn lookup(url: &str) -> (out: Option<Domain>)
        ensures
            out == Domain::of_url(url@),
    {
        let chars = chars_of(url);
        match Domain::split_url(chars.as_slice()) {
            Some((domain, _)) => Some(domain),
            None => None,
        }
    }
}

/// The path under which an instance serves its jobs.
pub open spec fn jobs_path() -> Seq<char> {
    "/tests/"@
}

/// A base URL is the short form followed by the path of the jobs, and the short
/// form does not end with that path itself.
pub proof fn lemma_base_url_shape(domain: Domain)
    ensures
        domain.url_text() == domain.short_text() + jobs_path(),
        !jobs_path().is_suffix_of(domain.short_text()),
{
    reveal_strlit("https://openqa.suse.de/tests/");
    reveal_strlit("https://openqa.opensuse.org/tests/");
    reveal_strlit("https://openqa.suse.de");
    reveal_strlit("https://openqa.opensuse.org");
    reveal_strlit("/tests/");
    let short = domain.short_text();
    assert(domain.url_text() =~= short + jobs_path());
    if jobs_path().is_suffix_of(short) {
        assert(short.subrange(short.len() - 7, short.len() as int)[0] == jobs_path()[0]);
    }
}

/// No URL starts with the base URLs of two instances: the instance whose base
/// URL a URL starts with is the one that lookup finds.
pub proof fn lemma_base_urls_do_not_overlap(url: Seq<char>, domain: Domain)
    ensures
        domain.url_text().is_prefix_of(url) <==> Domain::of_url(url) == Some(domain),
{
    reveal_strlit("https://openqa.suse.de/tests/");
    reveal_strlit("https://openqa.opensuse.org/tests/");
    let first = Domain(Instance::SuseDe).url_text();
    let second = Domain(Instance::OpenSuseOrg).url_text();
    if first.is_prefix_of(url) && second.is_prefix_of(url) {
        assert(url.subrange(0, first.len() as int)[15] == first[15]);
        assert(url.subrange(0, second.len() as int)[15] == second[15]);
    }
}

/// A single job reads back from the text it is written as.
pub proof fn lemma_written_job_reads_back(job: OpenQAJob)
    requires
        job.consecutive_count == 0,
    ensures
        OpenQAJob::of_url(job.text()) == Some(job),
{
    reveal_strlit("https://openqa.suse.de/tests/");
    reveal_strlit("https://openqa.opensuse.org/tests/");
    let base = job.domain.url_text();
    let id = decimal(job.id as nat);
    let text = job.text();
    lemma_decimal_reads_back(job.id as nat);
    assert(text.first() == base[0]);
    assert(text.last() == id.last());
    assert(is_digit(id[id.len() - 1]) && is_digit(id[0]));
    lemma_trimmed_of_clean(text);
    lemma_trimmed_of_clean(id);
    assert(text.subrange(0, base.len() as int) =~= base);
    lemma_base_urls_do_not_overlap(text, job.domain);
    assert(text.skip(base.len() as int) =~= id);
}

/// Whitespace around a URL makes no difference to the job it names.
pub proof fn lemma_job_of_trimmed_url(url: Seq<char>)
    ensures
        OpenQAJob::of_url(trimmed(url)) == OpenQAJob::of_url(url),
{
    lemma_trimmed_idempotent(url);
}

/// A reference to one openQA job, or to a run of jobs with consecutive ids:
/// the jobs `id`, `id + 1`, up to `id + consecutive_count` of `domain`.
#[derive(Debug, Clone, Copy, PartialEq, Eq, Structural, PartialOrd, Ord)]
pub struct OpenQAJob {
    pub domain: Domain,
    pub id: u32,
    pub consecutive_count: u32,
}

impl OpenQAJob {
    /// The single job of `domain` whose id `id` writes, if it writes one.
    pub open spec fn with_id_text(domain: Domain, id: Seq<char>) -> Option<OpenQAJob> {
        match parsed_unsigned(trimmed(id)) {
            Some(n) => Some(OpenQAJob { domain, id: n, consecutive_count: 0 }),
            None => None,
        }
    }

    /// The job that the URL `url` names: surrounding whitespace aside, the base
    /// URL of a known instance followed by the job's id.
    pub open spec fn of_url(url: Seq<char>) -> Option<OpenQAJob> {
        let url = trimmed(url);
        match Domain::of_url(url) {
            Some(domain) => Self::with_id_text(domain, url.skip(domain.url_text().len() as int)),
            None => None,
        }
    }

    /// True when `other` is the job right after the run that `self` stands for.
    pub open spec fn precedes_directly(self, other: Self) -> bool {
        self.domain == other.domain && self.id + self.consecutive_count + 1 == other.id
    }

    /// The strict total order of jobs: by registry position of the instance, then
    /// by id, then by the length of the run.
    pub open spec fn precedes(self, other: Self) -> bool {
        ||| self.domain.rank() < other.domain.rank()
        ||| self.domain == other.domain && self.id < other.id
        ||| self.domain == other.domain && self.id == other.id && self.consecutive_count
            < other.consecutive_count
    }

    /// How the job is written: its URL, followed by `+` and the number of further
    /// jobs where it stands for a run.
    pub open spec fn text(self) -> Seq<char> {
        self.domain.url_text() + self.token()
    }

    /// The job without its instance: the id, followed by `+` and the number of
    /// further jobs where it stands for a run.
    pub open spec fn token(self) -> Seq<char> {
        if self.consecutive_count > 0 {
            decimal(self.id as nat) + seq!['+'] + decimal(self.consecutive_count as nat)
        } else {
            decimal(self.id as nat)
        }
    }

    /// Reads a job from the characters of its URL.
    pub fn from_chars(url: &[char]) -> (out: Option<Self>)
        ensures
            out == Self::of_url(url@),
    {
        match Domain::split_url(trim(url)) {
            Some((domain, id)) => Self::from_id_chars(domain, id),
            None => None,
        }
    }

    /// The job of `domain` whose id the characters `id` write.
    pub fn from_id_chars(domain: Domain, id: &[char]) -> (out: Option<Self>)
        ensures
            out == Self::with_id_text(domain, id@),
    {
        match parse_unsigned(trim(id)) {
            Some(n) => Some(OpenQAJob { domain, id: n, consecutive_count: 0 }),
            None => None,
        }
    }

    /// Reads a job from its URL. Whitespace around the URL and around the id is
    /// ignored; a URL of no known instance, or one without a proper id, gives
    /// `None`.
    pub fn from_url(url: &str) -> (out: Option<Self>)
        ensures
            out == Self::of_url(url@),
    {
        let chars = chars_of(url);
        Self::from_chars(chars.as_slice())
    }

    /// The job of `domain` whose id `id` writes in decimal notation.
    pub fn new(domain: Domain, id: &str) -> (out: Option<Self>)
        ensures
            out == Self::with_id_text(domain, id@),
    {
        let chars = chars_of(id);
        Self::from_id_chars(domain, chars.as_slice())
    }

    /// Returns true if `other` is the job right after this one, or after the run
    /// that this one stands for.
    pub fn is_consecutive_with(&self, other: &Self) -> (r: bool)
        ensures
            r == self.precedes_directly(*other),
    {
        self.domain == other.domain && self.id as u64 + self.consecutive_count as u64 + 1
            == other.id as u64
    }

    /// Returns true if this job comes before `other` in sorted order.
    pub fn is_before(&self, other: &Self) -> (r: bool)
        ensures
            r == self.precedes(*other),
    {
        let mine = self.domain.rank_index();
        let theirs = other.domain.rank_index();
        if mine != theirs {
            mine < theirs
        } else if self.id != other.id {
            self.id < other.id
        } else {
            self.consecutive_count < other.consecutive_count
        }
    }

    /// Appends the job's id, and the length of its run if it has one, to `out`.
    pub fn append_token(&self, out: &mut String)
        ensures
            final(out)@ == old(out)@ + self.token(),
    {
        append_decimal(out, self.id);
        if self.consecutive_count > 0 {
            out.append("+");
            append_decimal(out, self.consecutive_count);
            proof {
                reveal_strlit("+");
                assert("+"@ =~= seq!['+']);
                assert(final(out)@ =~= old(out)@ + self.token());
            }
        }
    }

    /// The job as text: its URL, with `+` and a count behind it for a run.
    pub fn to_string(&self) -> (out: String)
        ensures
            out@ == self.text(),
    {
        let mut out = String::from_str(self.domain.base_url());
        self.append_token(&mut out);
        out
    }
}

} // verus!
