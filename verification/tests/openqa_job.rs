use oqa_jobfilter::openqa_job::{Domain, Instance, OpenQAJob};
use oqa_jobfilter::JobFormatter;

fn suse(id: u32, consecutive_count: u32) -> OpenQAJob {
    OpenQAJob {
        domain: Domain::suse_de(),
        id,
        consecutive_count,
    }
}

fn opensuse(id: u32, consecutive_count: u32) -> OpenQAJob {
    OpenQAJob {
        domain: Domain::opensuse_org(),
        id,
        consecutive_count,
    }
}

#[test]
fn test_consecutive_jobs() {
    let job1 = OpenQAJob {
        domain: Domain::suse_de(),
        id: 123,
        consecutive_count: 0,
    };
    let job2 = OpenQAJob {
        domain: Domain::suse_de(),
        id: 124,
        consecutive_count: 0,
    };
    let job3 = OpenQAJob {
        domain: Domain::opensuse_org(),
        id: 124,
        consecutive_count: 0,
    };

    assert!(job1.is_consecutive_with(&job2)); // true: same domain, sequential IDs
    assert!(!job1.is_consecutive_with(&job3)); // false: different domains
}

#[test]
fn test_all_same_domain() {
    let jobs = vec![
        OpenQAJob {
            domain: Domain::suse_de(),
            id: 123,
            consecutive_count: 0,
        },
        OpenQAJob {
            domain: Domain::suse_de(),
            id: 124,
            consecutive_count: 0,
        },
    ];

    let mixed_jobs = vec![
        OpenQAJob {
            domain: Domain::suse_de(),
            id: 123,
            consecutive_count: 0,
        },
        OpenQAJob {
            domain: Domain::opensuse_org(),
            id: 124,
            consecutive_count: 0,
        },
    ];

    assert!(JobFormatter::all_same_domain(&jobs));
    assert!(!JobFormatter::all_same_domain(&mixed_jobs));
    assert!(!JobFormatter::all_same_domain(&[]));
}

#[test]
fn domains_are_the_two_instances() {
    assert_eq!(Domain::suse_de(), Domain(Instance::SuseDe));
    assert_eq!(Domain::opensuse_org(), Domain(Instance::OpenSuseOrg));
    assert_ne!(Domain::suse_de(), Domain::opensuse_org());
}

#[test]
fn base_urls_are_the_configured_ones() {
    assert_eq!(Domain::suse_de().base_url(), "https://openqa.suse.de/tests/");
    assert_eq!(
        Domain::opensuse_org().base_url(),
        "https://openqa.opensuse.org/tests/"
    );
}

#[test]
fn short_urls_are_base_urls_without_the_path() {
    for domain in [Domain::suse_de(), Domain::opensuse_org()] {
        assert_eq!(format!("{}/tests/", domain.short_url()), domain.base_url());
        assert!(!domain.short_url().ends_with("/tests/"));
        assert_eq!(
            domain.base_url().trim_end_matches("/tests/"),
            domain.short_url()
        );
    }
}

#[test]
fn registry_order_puts_suse_de_first() {
    assert_eq!(Domain::suse_de().rank_index(), 0);
    assert_eq!(Domain::opensuse_org().rank_index(), 1);
    assert!(Domain::suse_de() < Domain::opensuse_org());
}

#[test]
fn lookup_finds_the_instance_by_prefix() {
    assert_eq!(
        Domain::lookup("https://openqa.suse.de/tests/1"),
        Some(Domain::suse_de())
    );
    assert_eq!(
        Domain::lookup("https://openqa.opensuse.org/tests/"),
        Some(Domain::opensuse_org())
    );
    assert_eq!(Domain::lookup("https://openqa.suse.de/tests"), None);
    assert_eq!(Domain::lookup("http://openqa.suse.de/tests/1"), None);
    assert_eq!(Domain::lookup(" https://openqa.suse.de/tests/1"), None);
    assert_eq!(Domain::lookup(""), None);
}

#[test]
fn split_url_hands_back_what_follows_the_base_url() {
    let url: Vec<char> = "https://openqa.opensuse.org/tests/77x".chars().collect();
    let (domain, rest) = Domain::split_url(&url).unwrap();
    assert_eq!(domain, Domain::opensuse_org());
    assert_eq!(rest.iter().collect::<String>(), "77x");
    let other: Vec<char> = "https://example.org/tests/77".chars().collect();
    assert!(Domain::split_url(&other).is_none());
}

#[test]
fn from_url_reads_both_instances() {
    assert_eq!(
        OpenQAJob::from_url("https://openqa.suse.de/tests/123"),
        Some(suse(123, 0))
    );
    assert_eq!(
        OpenQAJob::from_url("https://openqa.opensuse.org/tests/456"),
        Some(opensuse(456, 0))
    );
}

#[test]
fn from_url_ignores_surrounding_whitespace() {
    assert_eq!(
        OpenQAJob::from_url("  \thttps://openqa.suse.de/tests/16418915 \r\n"),
        Some(suse(16418915, 0))
    );
    assert_eq!(
        OpenQAJob::from_url("\u{3000}https://openqa.suse.de/tests/5\u{a0}"),
        Some(suse(5, 0))
    );
}

#[test]
fn from_url_ignores_whitespace_before_the_id() {
    assert_eq!(
        OpenQAJob::from_url("https://openqa.suse.de/tests/ 12"),
        Some(suse(12, 0))
    );
}

#[test]
fn from_url_rejects_unknown_instances() {
    assert_eq!(OpenQAJob::from_url("https://example.org/tests/123"), None);
    assert_eq!(OpenQAJob::from_url("openqa.suse.de/tests/123"), None);
    assert_eq!(OpenQAJob::from_url("https://openqa.suse.de/test/123"), None);
    assert_eq!(OpenQAJob::from_url(""), None);
    assert_eq!(OpenQAJob::from_url("   "), None);
}

#[test]
fn from_url_rejects_malformed_ids() {
    assert_eq!(OpenQAJob::from_url("https://openqa.suse.de/tests/"), None);
    assert_eq!(OpenQAJob::from_url("https://openqa.suse.de/tests/abc"), None);
    assert_eq!(OpenQAJob::from_url("https://openqa.suse.de/tests/12a"), None);
    assert_eq!(OpenQAJob::from_url("https://openqa.suse.de/tests/-1"), None);
    assert_eq!(OpenQAJob::from_url("https://openqa.suse.de/tests/1 2"), None);
    assert_eq!(OpenQAJob::from_url("https://openqa.suse.de/tests/12#step"), None);
    assert_eq!(OpenQAJob::from_url("https://openqa.suse.de/tests/+"), None);
}

#[test]
fn from_url_takes_ids_up_to_the_largest() {
    assert_eq!(
        OpenQAJob::from_url("https://openqa.suse.de/tests/4294967295"),
        Some(suse(u32::MAX, 0))
    );
    assert_eq!(
        OpenQAJob::from_url("https://openqa.suse.de/tests/4294967296"),
        None
    );
    assert_eq!(
        OpenQAJob::from_url("https://openqa.suse.de/tests/99999999999999999999"),
        None
    );
    assert_eq!(
        OpenQAJob::from_url("https://openqa.suse.de/tests/0"),
        Some(suse(0, 0))
    );
}

#[test]
fn from_url_reads_ids_as_the_standard_parser_does() {
    for id in ["7", "007", "+7", "++7", "+", "", "7_0", "0x10", "٣", " 7", "4294967295", "4294967296"] {
        let url = format!("https://openqa.suse.de/tests/{id}");
        let expected = id.trim().parse::<u32>().ok().map(|n| suse(n, 0));
        assert_eq!(OpenQAJob::from_url(&url), expected, "id {id:?}");
    }
}

#[test]
fn new_parses_the_id() {
    assert_eq!(OpenQAJob::new(Domain::opensuse_org(), "42"), Some(opensuse(42, 0)));
    assert_eq!(OpenQAJob::new(Domain::opensuse_org(), " 42 "), Some(opensuse(42, 0)));
    assert_eq!(OpenQAJob::new(Domain::opensuse_org(), "forty-two"), None);
    assert_eq!(OpenQAJob::new(Domain::suse_de(), ""), None);
}

#[test]
fn from_chars_agrees_with_from_url() {
    let text = " https://openqa.opensuse.org/tests/9 ";
    let chars: Vec<char> = text.chars().collect();
    assert_eq!(OpenQAJob::from_chars(&chars), OpenQAJob::from_url(text));
    assert_eq!(OpenQAJob::from_chars(&chars), Some(opensuse(9, 0)));
}

#[test]
fn a_run_is_followed_by_the_id_behind_it() {
    assert!(suse(10, 2).is_consecutive_with(&suse(13, 0)));
    assert!(!suse(10, 2).is_consecutive_with(&suse(12, 0)));
    assert!(!suse(10, 2).is_consecutive_with(&suse(11, 0)));
    assert!(!suse(10, 0).is_consecutive_with(&suse(10, 0)));
    assert!(!suse(11, 0).is_consecutive_with(&suse(10, 0)));
}

#[test]
fn consecutive_check_does_not_overflow() {
    assert!(!suse(u32::MAX, 0).is_consecutive_with(&suse(0, 0)));
    assert!(!suse(u32::MAX, u32::MAX).is_consecutive_with(&suse(u32::MAX, 0)));
    assert!(suse(u32::MAX - 1, 0).is_consecutive_with(&suse(u32::MAX, 0)));
}

#[test]
fn jobs_sort_by_instance_then_id_then_run() {
    let ordered = [
        suse(1, 0),
        suse(1, 3),
        suse(2, 0),
        suse(u32::MAX, 0),
        opensuse(0, 0),
        opensuse(1, 0),
        opensuse(1, 1),
    ];
    for (i, a) in ordered.iter().enumerate() {
        for (j, b) in ordered.iter().enumerate() {
            assert_eq!(a.is_before(b), i < j, "{a:?} before {b:?}");
            assert_eq!(a.is_before(b), a < b, "{a:?} < {b:?}");
        }
    }
}

#[test]
fn a_job_is_written_as_its_url() {
    assert_eq!(suse(123, 0).to_string(), "https://openqa.suse.de/tests/123");
    assert_eq!(
        opensuse(456, 0).to_string(),
        "https://openqa.opensuse.org/tests/456"
    );
    assert_eq!(suse(0, 0).to_string(), "https://openqa.suse.de/tests/0");
}

#[test]
fn a_run_is_written_with_its_count() {
    assert_eq!(suse(123, 2).to_string(), "https://openqa.suse.de/tests/123+2");
    assert_eq!(
        opensuse(4294967295, 10).to_string(),
        "https://openqa.opensuse.org/tests/4294967295+10"
    );
}

#[test]
fn append_token_keeps_what_is_there() {
    let mut out = String::from("ids: ");
    suse(7, 0).append_token(&mut out);
    out.push(' ');
    suse(8, 1).append_token(&mut out);
    assert_eq!(out, "ids: 7 8+1");
}

#[test]
fn a_written_job_reads_back() {
    for job in [suse(0, 0), suse(123, 0), opensuse(u32::MAX, 0)] {
        assert_eq!(OpenQAJob::from_url(&job.to_string()), Some(job));
    }
}
