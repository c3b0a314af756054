use proc_opt::carlier::{carlier, find_critical_job, find_critical_path_end, find_critical_path_start};
use proc_opt::jobs::{Job, JobList, SchrageJobTable};
use proc_opt::schrage::jobs::JobSequence;
use proc_opt::schrage::schrage::schrage_with_division;
use proc_opt::schrage::{part_time_schrage, schrage};

fn small() -> JobList {
    JobList::new(vec![
        Job::new(0, 27, 78),
        Job::new(140, 7, 67),
        Job::new(14, 36, 54),
        Job::new(133, 76, 5),
    ])
}

fn twenty() -> JobList {
    JobList::new(vec![
        Job::new(592, 82, 321),
        Job::new(547, 18, 687),
        Job::new(284, 11, 219),
        Job::new(568, 46, 507),
        Job::new(189, 76, 604),
        Job::new(465, 52, 577),
        Job::new(234, 53, 732),
        Job::new(391, 49, 718),
        Job::new(205, 10, 64),
        Job::new(157, 29, 176),
        Job::new(505, 40, 637),
        Job::new(211, 21, 326),
        Job::new(518, 57, 645),
        Job::new(625, 15, 53),
        Job::new(500, 51, 66),
        Job::new(114, 1, 506),
        Job::new(454, 91, 167),
        Job::new(174, 75, 319),
        Job::new(340, 56, 480),
        Job::new(184, 61, 69),
    ])
}

fn key(j: &Job) -> (u32, u32, u32) {
    (j.delivery_time, j.processing_time, j.cooldown_time)
}

#[test]
fn makespan_of_two_jobs_in_fixed_order() {
    let table = SchrageJobTable::new(JobList::new(vec![Job::new(10, 5, 7), Job::new(13, 6, 26)]));
    assert_eq!(table.c_max(), 47);
}

#[test]
fn makespan_waits_for_release() {
    let table = SchrageJobTable::new(JobList::new(vec![Job::new(0, 2, 1), Job::new(10, 3, 0)]));
    assert_eq!(table.c_max(), 13);
}

#[test]
fn single_job_is_dispatched_alone() {
    let jobs = JobList::new(vec![Job::new(4, 6, 9)]);
    let table = schrage(&jobs);
    assert_eq!(table.job_list, JobList::new(vec![Job::new(4, 6, 9)]));
    assert_eq!(table.c_max(), 4 + 6 + 9);
    assert_eq!(Job::new(4, 6, 9).total_time(), 19);
}

#[test]
fn dispatch_is_a_permutation() {
    let jobs = twenty();
    let table = schrage(&jobs);
    let mut a: Vec<_> = jobs.jobs.iter().map(key).collect();
    let mut b: Vec<_> = table.job_list.jobs.iter().map(key).collect();
    assert_eq!(a.len(), b.len());
    a.sort();
    b.sort();
    assert_eq!(a, b);
}

#[test]
fn dispatch_is_deterministic() {
    let jobs = twenty();
    assert_eq!(schrage(&jobs).job_list, schrage(&jobs).job_list);
    let mut first: u32 = u32::MAX;
    let mut second: u32 = u32::MAX;
    carlier(&mut jobs.clone(), &mut first);
    carlier(&mut jobs.clone(), &mut second);
    assert_eq!(first, second);
}

#[test]
fn dispatch_breaks_tail_ties_by_shorter_processing() {
    let jobs = JobList::new(vec![Job::new(0, 5, 10), Job::new(0, 3, 10), Job::new(1, 1, 2)]);
    let table = schrage(&jobs);
    assert_eq!(
        table.job_list,
        JobList::new(vec![Job::new(0, 3, 10), Job::new(0, 5, 10), Job::new(1, 1, 2)])
    );
}

#[test]
fn bounds_are_ordered() {
    for jobs in [small(), twenty()] {
        let lower = part_time_schrage(&jobs);
        let upper = schrage(&jobs).c_max();
        let mut best: u32 = u32::MAX;
        carlier(&mut jobs.clone(), &mut best);
        assert!(lower <= upper);
        assert!(best <= upper);
        assert!(best >= lower);
    }
    assert_eq!(part_time_schrage(&twenty()), 1257);
    assert_eq!(schrage(&twenty()).c_max(), 1299);
}

#[test]
fn search_keeps_a_smaller_initial_bound() {
    let mut best: u32 = 100;
    carlier(&mut small(), &mut best);
    assert_eq!(best, 100);
}

#[test]
fn search_leaves_jobs_unchanged() {
    let mut jobs = twenty();
    let mut best: u32 = u32::MAX;
    carlier(&mut jobs, &mut best);
    assert_eq!(jobs, twenty());
    assert_eq!(best, 1267);
}

#[test]
fn search_without_critical_job_stops_at_heuristic() {
    let jobs = JobList::new(vec![Job::new(0, 4, 10), Job::new(1, 3, 8), Job::new(2, 2, 6)]);
    let pi = schrage(&jobs).job_list;
    let b = find_critical_path_end(&pi, 15);
    let a = find_critical_path_start(&pi, 15, b);
    assert_eq!((a, b), (0, 2));
    assert_eq!(find_critical_job(&pi, b, a), None);
    let mut best: u32 = u32::MAX;
    carlier(&mut jobs.clone(), &mut best);
    assert_eq!(best, 15);
    assert_eq!(best, schrage(&jobs).c_max());
}

#[test]
fn critical_path_of_small_instance() {
    let pi = schrage(&small()).job_list;
    let u = SchrageJobTable::new(pi.clone()).c_max();
    assert_eq!(u, 283);
    let b = find_critical_path_end(&pi, u);
    assert_eq!(b, 3);
    let a = find_critical_path_start(&pi, u, b);
    assert_eq!(a, 2);
    assert_eq!(find_critical_job(&pi, b, a), Some(2));
}

#[test]
fn preemptive_pieces_of_small_instance() {
    let seq = JobSequence { job_sequence: small().jobs };
    let pieces = schrage_with_division(&seq);
    assert_eq!(
        pieces,
        JobSequence {
            job_sequence: vec![
                Job::new(0, 27, 78),
                Job::new(14, 36, 54),
                Job::new(133, 76, 5),
                Job::new(140, 7, 67),
                Job::new(133, 69, 5),
            ],
        }
    );
    assert_eq!(part_time_schrage(&small()), 221);
}

#[test]
fn sorting_is_stable() {
    let jobs = JobList::new(vec![
        Job::new(5, 1, 1),
        Job::new(3, 2, 2),
        Job::new(5, 0, 3),
        Job::new(3, 9, 9),
    ]);
    assert_eq!(
        jobs.sorted_by_delivery_time(),
        vec![Job::new(3, 2, 2), Job::new(3, 9, 9), Job::new(5, 1, 1), Job::new(5, 0, 3)]
    );
    assert_eq!(
        jobs.sorted_by_processing_time(),
        vec![Job::new(5, 0, 3), Job::new(5, 1, 1), Job::new(3, 2, 2), Job::new(3, 9, 9)]
    );
    let seq = JobSequence { job_sequence: vec![Job::new(1, 1, 4), Job::new(2, 2, 3), Job::new(3, 3, 4)] };
    assert_eq!(
        seq.get_by_cooldown_time(),
        vec![Job::new(2, 2, 3), Job::new(1, 1, 4), Job::new(3, 3, 4)]
    );
}

#[test]
fn sorting_no_jobs_gives_no_jobs() {
    let jobs = JobList::new(Vec::new());
    assert!(jobs.sorted_by_cooldown_time().is_empty());
    let seq = JobSequence { job_sequence: Vec::new() };
    assert!(seq.get_by_delivery_time().is_empty());
    assert!(seq.get_by_processing_time().is_empty());
}

#[test]
fn job_lists_compare_by_position() {
    let a = JobList::new(vec![Job::new(1, 2, 3), Job::new(4, 5, 6)]);
    let b = JobList::new(vec![Job::new(4, 5, 6), Job::new(1, 2, 3)]);
    assert_ne!(a, b);
    assert_eq!(a, a.clone());
}
