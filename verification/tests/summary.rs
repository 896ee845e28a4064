use oqa_jobfilter::extract::{extract_job, extract_jobs, find_url_field};
use oqa_jobfilter::openqa_job::{Domain, OpenQAJob};
use oqa_jobfilter::summarize;

fn suse(id: u32) -> OpenQAJob {
    OpenQAJob {
        domain: Domain::suse_de(),
        id,
        consecutive_count: 0,
    }
}

fn opensuse(id: u32) -> OpenQAJob {
    OpenQAJob {
        domain: Domain::opensuse_org(),
        id,
        consecutive_count: 0,
    }
}

fn lines_of(input: &str) -> Vec<String> {
    input.lines().map(String::from).collect()
}

/// What is printed for `input`: the summary and the end of line.
fn output_for(input: &str) -> String {
    format!("{}\n", summarize(&lines_of(input)))
}

fn field(line: &str) -> Option<String> {
    let chars: Vec<char> = line.chars().collect();
    find_url_field(&chars).map(|found| found.iter().collect())
}

#[test]
fn test_dedup() {
    let input = "foo -> https://openqa.suse.de/tests/123\nbar -> https://openqa.opensuse.org/tests/456\nbaz -> https://openqa.suse.de/tests/123\n";
    assert_eq!(
        output_for(input),
        "openqa-mon https://openqa.suse.de/tests/123 https://openqa.opensuse.org/tests/456\n"
    );
}

#[test]
fn test_noisy_input() {
    let input = "Cloning parents of sle-12-SP5-Server-DVD-Updates-x86_64-Build20250108-1-selinux@64bit\n
        1 job has been created:\n
         - sle-12-SP5-Server-DVD-Updates-x86_64-Build20250108-1-selinux@64bit -> https://openqa.suse.de/tests/16418915\n
        Cloning parents of sle-15-SP2-Server-DVD-Updates-x86_64-Build20250108-1-selinux@64bit\n
        1 job has been created:\n
         - sle-15-SP2-Server-DVD-Updates-x86_64-Build20250108-1-selinux@64bit -> https://openqa.suse.de/tests/16418917\n
        Cloning parents of sle-15-SP3-Server-DVD-Updates-x86_64-Build20250108-1-selinux@64bit\n
        Cloning parents of sle-15-SP7-Online-x86_64-Build51.1-selinux@64bit\n
        1 job has been created:\n
         - sle-15-SP7-Online-x86_64-Build51.1-selinux@64bit -> https://openqa.opensuse.org/tests/16418919";
    let expected = "openqa-mon https://openqa.suse.de/tests/16418915 https://openqa.suse.de/tests/16418917 https://openqa.opensuse.org/tests/16418919\n";
    assert_eq!(output_for(input), expected);
}

#[test]
fn test_consecutive_ids() {
    let input = "foo -> https://openqa.suse.de/tests/123\n\
         bar -> https://openqa.suse.de/tests/124\n\
         baz -> https://openqa.suse.de/tests/125\n";
    assert_eq!(
        output_for(input),
        "openqa-mon https://openqa.suse.de/tests/123+2\n"
    );
}

#[test]
fn test_compact_output() {
    let input = "test1 -> https://openqa.suse.de/tests/123\n\
         test2 -> https://openqa.suse.de/tests/125\n\
         test3 -> https://openqa.suse.de/tests/127\n";
    assert_eq!(
        output_for(input),
        "openqa-mon https://openqa.suse.de 123,125,127\n"
    );
}

#[test]
fn empty_input_gives_an_empty_body() {
    assert_eq!(output_for(""), "openqa-mon \n");
    assert_eq!(summarize(&[]), "openqa-mon ");
}

#[test]
fn input_without_jobs_gives_an_empty_body() {
    let input = "Cloning parents of something\n1 job has been created:\nno arrow here https://openqa.suse.de/tests/1\n - x -> https://example.org/tests/2\n - y -> https://openqa.suse.de/tests/three\n";
    assert_eq!(output_for(input), "openqa-mon \n");
}

#[test]
fn noise_between_jobs_changes_nothing() {
    let clean = "a -> https://openqa.suse.de/tests/5\nb -> https://openqa.suse.de/tests/9\n";
    let noisy = "starting\n\na -> https://openqa.suse.de/tests/5\n-> \nsomething else\nb -> https://openqa.suse.de/tests/9\ndone -> nothing\n";
    assert_eq!(output_for(noisy), output_for(clean));
    assert_eq!(output_for(noisy), "openqa-mon https://openqa.suse.de 5,9\n");
}

#[test]
fn jobs_are_sorted_whatever_the_order_of_the_lines() {
    let input = "a -> https://openqa.opensuse.org/tests/2\nb -> https://openqa.suse.de/tests/30\nc -> https://openqa.opensuse.org/tests/1\nd -> https://openqa.suse.de/tests/4\n";
    assert_eq!(
        output_for(input),
        "openqa-mon https://openqa.suse.de/tests/4 https://openqa.suse.de/tests/30 https://openqa.opensuse.org/tests/1+1\n"
    );
}

#[test]
fn runs_are_found_across_unsorted_and_repeated_lines() {
    let input = "a -> https://openqa.suse.de/tests/12\nb -> https://openqa.suse.de/tests/10\nc -> https://openqa.suse.de/tests/11\nd -> https://openqa.suse.de/tests/10\ne -> https://openqa.suse.de/tests/20\n";
    assert_eq!(
        output_for(input),
        "openqa-mon https://openqa.suse.de/tests/10+2 20\n"
    );
}

#[test]
fn a_single_job_is_written_compactly() {
    assert_eq!(
        output_for("x -> https://openqa.opensuse.org/tests/77\n"),
        "openqa-mon https://openqa.opensuse.org 77\n"
    );
}

#[test]
fn the_url_stands_behind_the_first_arrow() {
    assert_eq!(field("name -> url"), Some(" url".to_string()));
    assert_eq!(field("a->b->c->d"), Some("b".to_string()));
    assert_eq!(field("a->"), Some(String::new()));
    assert_eq!(field("->"), Some(String::new()));
    assert_eq!(field("->->"), Some(String::new()));
    assert_eq!(field("a -> b - > c"), Some(" b - > c".to_string()));
    assert_eq!(field("a --> b"), Some(" b".to_string()));
    assert_eq!(field("a ->> b"), Some("> b".to_string()));
    assert_eq!(field("no arrow"), None);
    assert_eq!(field("a - > b"), None);
    assert_eq!(field("a >- b"), None);
    assert_eq!(field("-"), None);
    assert_eq!(field(">"), None);
    assert_eq!(field(""), None);
}

#[test]
fn the_url_field_is_the_second_of_the_split() {
    for line in ["", "a", "->", "a->b", "a->b->c", "->->->", "-->>", "x -> y -> z", "->a", "a->-"] {
        assert_eq!(
            field(line),
            line.split("->").nth(1).map(String::from),
            "{line:?}"
        );
    }
}

#[test]
fn extract_job_reads_the_job_of_a_line() {
    assert_eq!(
        extract_job(" - sle-15-SP7-Online-x86_64 -> https://openqa.opensuse.org/tests/16418919"),
        Some(opensuse(16418919))
    );
    assert_eq!(
        extract_job("foo->https://openqa.suse.de/tests/1"),
        Some(suse(1))
    );
    assert_eq!(
        extract_job("foo ->\thttps://openqa.suse.de/tests/1 \t"),
        Some(suse(1))
    );
}

#[test]
fn extract_job_ignores_what_follows_a_second_arrow() {
    assert_eq!(
        extract_job("foo -> https://openqa.suse.de/tests/1 -> https://openqa.suse.de/tests/2"),
        Some(suse(1))
    );
    assert_eq!(
        extract_job("foo -> bar -> https://openqa.suse.de/tests/2"),
        None
    );
}

#[test]
fn extract_job_gives_nothing_for_noise() {
    assert_eq!(extract_job(""), None);
    assert_eq!(extract_job("1 job has been created:"), None);
    assert_eq!(extract_job("https://openqa.suse.de/tests/1"), None);
    assert_eq!(extract_job("foo -> https://openqa.suse.de/tests/"), None);
    assert_eq!(extract_job("foo -> https://openqa.suse.de/tests/1x"), None);
    assert_eq!(extract_job("foo -> see https://openqa.suse.de/tests/1"), None);
    assert_eq!(extract_job("foo => https://openqa.suse.de/tests/1"), None);
}

#[test]
fn extract_jobs_keeps_the_order_of_the_lines() {
    let lines = lines_of("a -> https://openqa.suse.de/tests/9\nnoise\nb -> https://openqa.opensuse.org/tests/3\nc -> https://openqa.suse.de/tests/9\nd -> https://openqa.suse.de/tests/x\n");
    assert_eq!(extract_jobs(&lines), vec![suse(9), opensuse(3), suse(9)]);
}

#[test]
fn extracted_jobs_are_single_jobs() {
    let lines = lines_of("a -> https://openqa.suse.de/tests/9\nb -> https://openqa.suse.de/tests/10+3\nc -> https://openqa.suse.de/tests/+11\n");
    let jobs = extract_jobs(&lines);
    assert_eq!(jobs, vec![suse(9), suse(11)]);
    assert!(jobs.iter().all(|job| job.consecutive_count == 0));
}
