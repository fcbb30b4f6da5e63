use holos_tda::budget::{workers, Region};

/// The pinned decision table: `(region, work, threads, workers)`. Each row
/// sits at a measured crossover or at a budget limit.
const DECISIONS: &[(Region, usize, usize, usize)] = &[
    (Region::Sort, 0, 8, 1),
    (Region::Sort, 19_999, 8, 1),
    (Region::Sort, 20_000, 8, 2),
    (Region::Sort, 20_000, 2, 2),
    (Region::Sort, 100_000, 2, 2),
    (Region::Sort, 100_000, 4, 4),
    (Region::Sort, 100_000, 8, 8),
    (Region::Sort, 235_503, 8, 8),
    (Region::Prefilter, 98, 8, 1),
    (Region::Prefilter, 127, 8, 1),
    (Region::Prefilter, 128, 8, 2),
    (Region::Prefilter, 256, 8, 4),
    (Region::Prefilter, 512, 8, 8),
    (Region::Prefilter, 1_024, 2, 2),
    (Region::Prefilter, 1_793, 8, 8),
    (Region::Prefilter, 146_240, 8, 8),
    (Region::Assemble, 255, 8, 1),
    (Region::Assemble, 256, 8, 2),
    (Region::Assemble, 1_942, 8, 8),
    (Region::Assemble, 1_942, 4, 4),
    (Region::Reduce, 4, 8, 1),
    (Region::Reduce, 31, 8, 1),
    (Region::Reduce, 32, 8, 2),
    (Region::Reduce, 48, 2, 2),
    (Region::Reduce, 48, 8, 3),
    (Region::Reduce, 110, 8, 6),
    (Region::Reduce, 614, 8, 8),
    // A budget of one keeps every region serial, whatever the work.
    (Region::Sort, 1_000_000, 1, 1),
    (Region::Reduce, 1_000_000, 1, 1),
];

#[test]
fn decision_table_is_pinned() {
    for &(region, work, threads, want) in DECISIONS {
        let got = workers(region, work, threads);
        assert_eq!(
            got, want,
            "{region:?}: work={work} threads={threads} gives {got} workers, pinned at {want}"
        );
    }
}

#[test]
fn workers_never_exceed_the_budget() {
    for region in [
        Region::Sort,
        Region::Prefilter,
        Region::Assemble,
        Region::Reduce,
    ] {
        for threads in 1..=16 {
            for work in [0, 1, 63, 1_000, 1_000_000, usize::MAX] {
                let got = workers(region, work, threads);
                assert!(got >= 1 && got <= threads, "{region:?} {work} {threads}");
            }
        }
    }
}

#[test]
fn zero_threads_still_give_one_worker() {
    assert_eq!(workers(Region::Reduce, 1_000, 0), 1);
}

#[test]
fn work_units_are_pinned() {
    assert_eq!(Region::Sort.work_per_worker(), 10_000);
    assert_eq!(Region::Prefilter.work_per_worker(), 64);
    assert_eq!(Region::Assemble.work_per_worker(), 128);
    assert_eq!(Region::Reduce.work_per_worker(), 16);
}
