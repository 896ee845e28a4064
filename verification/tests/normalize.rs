use oqa_jobfilter::normalize::{dedup_jobs, normalize, sort_jobs};
use oqa_jobfilter::openqa_job::{Domain, OpenQAJob};

fn suse(id: u32, consecutive_count: u32) -> OpenQAJob {
    OpenQAJob {
        domain: Domain::suse_de(),
        id,
        consecutive_count,
    }
}

fn opensuse(id: u32, consecutive_count: u32) -> OpenQAJob {
    OpenQAJob {
        domain: Domain::opensuse_org(),
        id,
        consecutive_count,
    }
}

fn sample() -> Vec<OpenQAJob> {
    vec![
        opensuse(456, 0),
        suse(125, 0),
        suse(123, 0),
        opensuse(3, 0),
        suse(123, 0),
        suse(124, 1),
        suse(124, 0),
        opensuse(456, 0),
        suse(123, 0),
    ]
}

#[test]
fn sort_orders_by_instance_then_id_then_run() {
    let mut jobs = sample();
    sort_jobs(&mut jobs);
    assert_eq!(
        jobs,
        vec![
            suse(123, 0),
            suse(123, 0),
            suse(123, 0),
            suse(124, 0),
            suse(124, 1),
            suse(125, 0),
            opensuse(3, 0),
            opensuse(456, 0),
            opensuse(456, 0),
        ]
    );
}

#[test]
fn sort_agrees_with_the_derived_order() {
    let mut jobs = sample();
    let mut expected = sample();
    sort_jobs(&mut jobs);
    expected.sort();
    assert_eq!(jobs, expected);
}

#[test]
fn sort_handles_short_inputs() {
    let mut none: Vec<OpenQAJob> = vec![];
    sort_jobs(&mut none);
    assert!(none.is_empty());
    let mut one = vec![suse(1, 0)];
    sort_jobs(&mut one);
    assert_eq!(one, vec![suse(1, 0)]);
    let mut two = vec![opensuse(1, 0), suse(1, 0)];
    sort_jobs(&mut two);
    assert_eq!(two, vec![suse(1, 0), opensuse(1, 0)]);
}

#[test]
fn sort_handles_longer_inputs() {
    let mut jobs: Vec<OpenQAJob> = (0..1000u32)
        .map(|i| {
            let id = i.wrapping_mul(2654435761) % 257;
            if i % 3 == 0 {
                opensuse(id, i % 2)
            } else {
                suse(id, i % 2)
            }
        })
        .collect();
    let mut expected = jobs.clone();
    expected.sort();
    sort_jobs(&mut jobs);
    assert_eq!(jobs, expected);
}

#[test]
fn dedup_removes_adjacent_repeats_only() {
    let mut jobs = vec![
        suse(1, 0),
        suse(1, 0),
        suse(2, 0),
        suse(1, 0),
        suse(1, 1),
        suse(1, 1),
        suse(1, 1),
        opensuse(1, 1),
    ];
    let mut expected = jobs.clone();
    expected.dedup();
    dedup_jobs(&mut jobs);
    assert_eq!(
        jobs,
        vec![suse(1, 0), suse(2, 0), suse(1, 0), suse(1, 1), opensuse(1, 1)]
    );
    assert_eq!(jobs, expected);
}

#[test]
fn dedup_of_nothing_is_nothing() {
    let mut jobs: Vec<OpenQAJob> = vec![];
    dedup_jobs(&mut jobs);
    assert!(jobs.is_empty());
}

#[test]
fn normalize_sorts_and_keeps_each_job_once() {
    let mut jobs = sample();
    normalize(&mut jobs);
    assert_eq!(
        jobs,
        vec![
            suse(123, 0),
            suse(124, 0),
            suse(124, 1),
            suse(125, 0),
            opensuse(3, 0),
            opensuse(456, 0),
        ]
    );
}

#[test]
fn normalize_keeps_exactly_one_of_a_repeated_job() {
    let mut jobs = vec![suse(123, 0), opensuse(456, 0), suse(123, 0)];
    normalize(&mut jobs);
    assert_eq!(jobs.iter().filter(|job| **job == suse(123, 0)).count(), 1);
    assert_eq!(jobs, vec![suse(123, 0), opensuse(456, 0)]);
}

#[test]
fn normalize_twice_is_normalize_once() {
    let mut once = sample();
    normalize(&mut once);
    let mut twice = once.clone();
    normalize(&mut twice);
    assert_eq!(twice, once);
}

#[test]
fn normalize_of_nothing_is_nothing() {
    let mut jobs: Vec<OpenQAJob> = vec![];
    normalize(&mut jobs);
    assert!(jobs.is_empty());
}
