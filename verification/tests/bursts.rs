use recom::recom::{RecomParams, RecomVariant};
use recom::short_bursts::{
    choose_sampler, majority_count, BurstDriver, BurstWorker, ConfigError, DriverAction,
    DriverEvent, DriverPhase, OptJobPacket, OptResultPacket, SamplerKind, ShortBurstsOptimizer,
    WorkerAction, WorkerEvent, WorkerPhase,
};

type Plan = Vec<u32>;

fn params(num_steps: u64, rng_seed: u64) -> RecomParams {
    RecomParams {
        min_pop: 1,
        max_pop: 9,
        balance_ub: 0,
        num_steps,
        rng_seed,
        variant: RecomVariant::DistrictPairsRMST,
    }
}

fn result(plan: Option<Plan>, score: Option<i64>) -> DriverEvent<Plan> {
    DriverEvent::Result(OptResultPacket { best_partition: plan, best_score: score })
}

fn running(budget: usize, seed_score: i64) -> BurstWorker<Plan> {
    let mut worker = BurstWorker::new(vec![0, 0]);
    assert!(matches!(
        worker.step(WorkerEvent::Job(OptJobPacket::burst(None, budget))),
        WorkerAction::Seed
    ));
    assert!(matches!(worker.step(WorkerEvent::Seeded(seed_score)), WorkerAction::Propose));
    worker
}

fn collecting(n_threads: usize, burst: usize, steps: u64, verbose: bool) -> BurstDriver<Plan> {
    let opt = ShortBurstsOptimizer::new(params(steps, 0), n_threads, burst, verbose);
    assert!(opt.can_count_steps());
    let (mut driver, first) = opt.start(vec![1, 1], 3);
    assert_eq!(
        first,
        DriverAction::Broadcast { n_steps: burst, with_plan: false, report: false }
    );
    assert_eq!(driver.step(DriverEvent::Sent), DriverAction::Await);
    driver
}

#[test]
fn job_packets() {
    let job: OptJobPacket<Plan> = OptJobPacket::burst(Some(vec![1, 2]), 25);
    assert_eq!(job.n_steps, 25);
    assert_eq!(job.diff, Some(vec![1, 2]));
    assert!(!job.terminate);
    let plain: OptJobPacket<Plan> = OptJobPacket::burst(None, 3);
    assert_eq!(plain.n_steps, 3);
    assert!(plain.diff.is_none());
    assert!(!plain.terminate);
    let stop: OptJobPacket<Plan> = OptJobPacket::stop();
    assert_eq!(stop.n_steps, 0);
    assert!(stop.diff.is_none());
    assert!(stop.terminate);
}

#[test]
fn sampler_by_variant() {
    assert_eq!(
        choose_sampler(RecomVariant::DistrictPairsRMST, false),
        Ok(SamplerKind::RMST)
    );
    assert_eq!(
        choose_sampler(RecomVariant::DistrictPairsRMST, true),
        Ok(SamplerKind::RMST)
    );
    assert_eq!(
        choose_sampler(RecomVariant::DistrictPairsRegionAware, true),
        Ok(SamplerKind::RegionAware)
    );
    assert_eq!(
        choose_sampler(RecomVariant::DistrictPairsRegionAware, false),
        Err(ConfigError::MissingRegionWeights)
    );
    for variant in [
        RecomVariant::Reversible,
        RecomVariant::CutEdgesUST,
        RecomVariant::DistrictPairsUST,
        RecomVariant::CutEdgesRMST,
    ] {
        assert_eq!(choose_sampler(variant, true), Err(ConfigError::UnsupportedVariant));
        assert_eq!(choose_sampler(variant, false), Err(ConfigError::UnsupportedVariant));
    }
}

#[test]
fn optimizer_new_keeps_its_arguments() {
    let opt = ShortBurstsOptimizer::new(params(1000, 42), 4, 25, true);
    assert_eq!(opt.n_threads, 4);
    assert_eq!(opt.burst_length, 25);
    assert!(opt.verbose);
    assert_eq!(opt.params.num_steps, 1000);
    assert_eq!(opt.params.rng_seed, 42);
    assert_eq!(opt.params.min_pop, 1);
    assert_eq!(opt.params.max_pop, 9);
}

#[test]
fn worker_seeds() {
    let opt = ShortBurstsOptimizer::new(params(10, 100), 3, 5, false);
    assert_eq!(opt.worker_seed(0), Some(101));
    assert_eq!(opt.worker_seed(1), Some(102));
    assert_eq!(opt.worker_seed(2), Some(103));
    let edge = ShortBurstsOptimizer::new(params(10, u64::MAX - 2), 3, 5, false);
    assert_eq!(edge.worker_seed(0), Some(u64::MAX - 1));
    assert_eq!(edge.worker_seed(1), Some(u64::MAX));
    assert_eq!(edge.worker_seed(2), None);
}

#[test]
fn step_count_must_fit() {
    assert!(ShortBurstsOptimizer::new(params(1000, 0), 4, 25, false).can_count_steps());
    assert!(ShortBurstsOptimizer::new(params(u64::MAX - 100, 0), 4, 25, false).can_count_steps());
    assert!(!ShortBurstsOptimizer::new(params(u64::MAX - 99, 0), 4, 25, false).can_count_steps());
    assert!(!ShortBurstsOptimizer::new(params(0, 0), usize::MAX, 2, false).can_count_steps());
    assert!(ShortBurstsOptimizer::new(params(u64::MAX, 0), 0, 7, false).can_count_steps());
}

#[test]
fn majority_count_compares_twice_the_part() {
    assert_eq!(majority_count(&vec![5, 4, 0, 1], &vec![10, 9, 0, 3]), 2);
    assert_eq!(majority_count(&vec![], &vec![]), 0);
    assert_eq!(majority_count(&vec![1, 1, 1], &vec![2]), 1);
    assert_eq!(majority_count(&vec![u32::MAX], &vec![u32::MAX]), 1);
    assert_eq!(majority_count(&vec![u32::MAX / 2], &vec![u32::MAX]), 0);
}

#[test]
fn a_new_worker_waits() {
    let mut worker: BurstWorker<Plan> = BurstWorker::new(vec![3, 4]);
    assert_eq!(worker.phase, WorkerPhase::Idle);
    assert_eq!(worker.base, vec![3, 4]);
    assert!(worker.best.is_none());
    assert!(matches!(worker.step(WorkerEvent::Rejected), WorkerAction::Await));
    assert!(matches!(worker.step(WorkerEvent::Seeded(5)), WorkerAction::Await));
    assert_eq!(worker.phase, WorkerPhase::Idle);
    assert_eq!(worker.best_score, 0);
}

#[test]
fn a_job_with_a_plan_replaces_the_base() {
    let mut worker: BurstWorker<Plan> = BurstWorker::new(vec![3, 4]);
    let action = worker.step(WorkerEvent::Job(OptJobPacket::burst(Some(vec![9, 9]), 2)));
    assert!(matches!(action, WorkerAction::Seed));
    assert_eq!(worker.base, vec![9, 9]);
    assert_eq!(worker.phase, WorkerPhase::Seeding);
    assert_eq!(worker.budget, 2);
    assert_eq!(worker.step, 0);
}

#[test]
fn a_job_without_a_plan_keeps_the_base() {
    let mut worker: BurstWorker<Plan> = BurstWorker::new(vec![3, 4]);
    let action = worker.step(WorkerEvent::Job(OptJobPacket::burst(None, 2)));
    assert!(matches!(action, WorkerAction::Seed));
    assert_eq!(worker.base, vec![3, 4]);
}

#[test]
fn rejected_attempts_use_no_budget() {
    let mut worker = running(2, 10);
    for _ in 0..50 {
        assert!(matches!(worker.step(WorkerEvent::Rejected), WorkerAction::Propose));
    }
    assert_eq!(worker.step, 0);
    assert_eq!(worker.phase, WorkerPhase::Running);
    assert!(worker.best.is_none());
    assert_eq!(worker.best_score, 10);
}

#[test]
fn a_burst_ends_with_its_last_accepted_step() {
    let mut worker = running(3, 10);
    assert!(matches!(
        worker.step(WorkerEvent::Accepted { score: 1, plan: vec![1] }),
        WorkerAction::Propose
    ));
    assert!(matches!(worker.step(WorkerEvent::Rejected), WorkerAction::Propose));
    assert!(matches!(
        worker.step(WorkerEvent::Accepted { score: 2, plan: vec![2] }),
        WorkerAction::Propose
    ));
    assert_eq!(worker.step, 2);
    match worker.step(WorkerEvent::Accepted { score: 3, plan: vec![3] }) {
        WorkerAction::Report(result) => {
            assert!(result.best_partition.is_none());
            assert!(result.best_score.is_none());
        }
        _ => panic!("the burst should have ended"),
    }
    assert_eq!(worker.phase, WorkerPhase::Idle);
    assert_eq!(worker.step, 3);
}

#[test]
fn the_score_before_goes_with_the_plan_after() {
    let mut worker = running(4, 10);
    worker.step(WorkerEvent::Accepted { score: 10, plan: vec![1] });
    assert_eq!(worker.best, Some(vec![1]));
    assert_eq!(worker.best_score, 10);
    worker.step(WorkerEvent::Accepted { score: 9, plan: vec![2] });
    assert_eq!(worker.best, Some(vec![1]));
    assert_eq!(worker.best_score, 10);
    worker.step(WorkerEvent::Accepted { score: 12, plan: vec![3] });
    assert_eq!(worker.best, Some(vec![3]));
    assert_eq!(worker.best_score, 12);
    match worker.step(WorkerEvent::Accepted { score: 12, plan: vec![4] }) {
        WorkerAction::Report(result) => {
            assert_eq!(result.best_partition, Some(vec![4]));
            assert_eq!(result.best_score, Some(12));
        }
        _ => panic!("the burst should have ended"),
    }
    assert!(worker.best.is_none());
    assert_eq!(worker.phase, WorkerPhase::Idle);
}

#[test]
fn a_burst_of_no_steps_reports_at_once() {
    let mut worker: BurstWorker<Plan> = BurstWorker::new(vec![0]);
    assert!(matches!(
        worker.step(WorkerEvent::Job(OptJobPacket::burst(None, 0))),
        WorkerAction::Seed
    ));
    match worker.step(WorkerEvent::Seeded(4)) {
        WorkerAction::Report(result) => {
            assert!(result.best_partition.is_none());
            assert!(result.best_score.is_none());
        }
        _ => panic!("nothing to run"),
    }
    assert_eq!(worker.phase, WorkerPhase::Idle);
}

#[test]
fn the_next_burst_starts_afresh() {
    let mut worker = running(1, 10);
    assert!(matches!(
        worker.step(WorkerEvent::Accepted { score: 11, plan: vec![5] }),
        WorkerAction::Report(_)
    ));
    assert!(matches!(
        worker.step(WorkerEvent::Job(OptJobPacket::burst(None, 1))),
        WorkerAction::Seed
    ));
    assert_eq!(worker.base, vec![0, 0]);
    assert!(matches!(worker.step(WorkerEvent::Seeded(20)), WorkerAction::Propose));
    match worker.step(WorkerEvent::Accepted { score: 15, plan: vec![6] }) {
        WorkerAction::Report(result) => {
            assert!(result.best_partition.is_none());
            assert!(result.best_score.is_none());
        }
        _ => panic!("the burst should have ended"),
    }
}

#[test]
fn a_stopped_worker_reports_nothing_more() {
    let mut worker: BurstWorker<Plan> = BurstWorker::new(vec![3, 4]);
    assert!(matches!(
        worker.step(WorkerEvent::Job(OptJobPacket::stop())),
        WorkerAction::Exit
    ));
    assert_eq!(worker.phase, WorkerPhase::Terminated);
    assert!(matches!(
        worker.step(WorkerEvent::Job(OptJobPacket::burst(Some(vec![1]), 4))),
        WorkerAction::Exit
    ));
    assert!(matches!(worker.step(WorkerEvent::Seeded(1)), WorkerAction::Exit));
    assert!(matches!(worker.step(WorkerEvent::Rejected), WorkerAction::Exit));
    assert!(matches!(
        worker.step(WorkerEvent::Accepted { score: 100, plan: vec![7] }),
        WorkerAction::Exit
    ));
    assert_eq!(worker.phase, WorkerPhase::Terminated);
    assert_eq!(worker.base, vec![3, 4]);
    assert!(worker.best.is_none());
}

#[test]
fn a_worker_stops_after_a_burst_too() {
    let mut worker = running(1, 10);
    assert!(matches!(
        worker.step(WorkerEvent::Accepted { score: 11, plan: vec![5] }),
        WorkerAction::Report(_)
    ));
    assert!(matches!(
        worker.step(WorkerEvent::Job(OptJobPacket::stop())),
        WorkerAction::Exit
    ));
    assert_eq!(worker.phase, WorkerPhase::Terminated);
}

#[test]
fn the_driver_starts_with_a_plain_burst() {
    let opt = ShortBurstsOptimizer::new(params(100, 0), 2, 5, true);
    let (driver, action): (BurstDriver<Plan>, DriverAction) = opt.start(vec![1, 1], 3);
    assert_eq!(action, DriverAction::Broadcast { n_steps: 5, with_plan: false, report: false });
    assert_eq!(driver.phase, DriverPhase::Dispatching);
    assert_eq!(driver.plan, vec![1, 1]);
    assert_eq!(driver.score, 3);
    assert_eq!(driver.step, 0);
}

#[test]
fn the_result_taken_last_stays_whatever_the_scores() {
    let mut driver = collecting(2, 5, 100, false);
    assert_eq!(driver.step(result(Some(vec![7, 7]), Some(50))), DriverAction::Await);
    assert_eq!(driver.plan, vec![7, 7]);
    assert_eq!(driver.score, 50);
    let action = driver.step(result(Some(vec![8, 8]), Some(20)));
    assert_eq!(action, DriverAction::Broadcast { n_steps: 5, with_plan: true, report: false });
    assert_eq!(driver.plan, vec![8, 8]);
    assert_eq!(driver.score, 20);
    assert_eq!(driver.step, 10);

    let mut other = collecting(2, 5, 100, false);
    other.step(result(Some(vec![8, 8]), Some(20)));
    other.step(result(Some(vec![7, 7]), Some(50)));
    assert_eq!(other.plan, vec![7, 7]);
    assert_eq!(other.score, 50);
}

#[test]
fn an_empty_result_changes_nothing() {
    let mut driver = collecting(3, 4, 100, true);
    assert_eq!(driver.step(result(Some(vec![7, 7]), Some(50))), DriverAction::Await);
    assert_eq!(driver.step(result(None, None)), DriverAction::Await);
    let action = driver.step(result(None, None));
    assert_eq!(action, DriverAction::Broadcast { n_steps: 4, with_plan: true, report: true });
    assert_eq!(driver.plan, vec![7, 7]);
    assert_eq!(driver.score, 50);
    assert_eq!(driver.step, 12);
}

#[test]
fn a_result_needs_both_plan_and_score() {
    let mut driver = collecting(2, 4, 100, true);
    driver.step(result(Some(vec![7, 7]), None));
    let action = driver.step(result(None, Some(99)));
    assert_eq!(action, DriverAction::Broadcast { n_steps: 4, with_plan: false, report: false });
    assert_eq!(driver.plan, vec![1, 1]);
    assert_eq!(driver.score, 3);
}

#[test]
fn a_round_without_a_plan_sends_none() {
    let mut driver = collecting(2, 4, 100, true);
    driver.step(result(None, None));
    let action = driver.step(result(None, None));
    assert_eq!(action, DriverAction::Broadcast { n_steps: 4, with_plan: false, report: false });
    assert_eq!(driver.step, 8);
    assert_eq!(driver.phase, DriverPhase::Dispatching);
}

#[test]
fn rounds_are_reported_only_when_verbose() {
    let mut quiet = collecting(1, 4, 100, false);
    assert_eq!(
        quiet.step(result(Some(vec![2]), Some(9))),
        DriverAction::Broadcast { n_steps: 4, with_plan: true, report: false }
    );
    let mut loud = collecting(1, 4, 100, true);
    assert_eq!(
        loud.step(result(Some(vec![2]), Some(9))),
        DriverAction::Broadcast { n_steps: 4, with_plan: true, report: true }
    );
}

#[test]
fn the_run_ends_when_the_steps_are_reached() {
    let mut driver = collecting(2, 5, 20, false);
    driver.step(result(None, None));
    assert!(matches!(driver.step(result(None, None)), DriverAction::Broadcast { .. }));
    assert_eq!(driver.step, 10);
    assert_eq!(driver.step(DriverEvent::Sent), DriverAction::Await);
    driver.step(result(Some(vec![4]), Some(1)));
    assert!(matches!(driver.step(result(None, None)), DriverAction::Broadcast { .. }));
    assert_eq!(driver.step, 20);
    assert_eq!(driver.step(DriverEvent::Sent), DriverAction::Finish);
    assert_eq!(driver.phase, DriverPhase::Finished);
    assert_eq!(driver.plan, vec![4]);
    assert_eq!(driver.step(DriverEvent::Sent), DriverAction::Finish);
    assert_eq!(driver.step(result(Some(vec![5]), Some(100))), DriverAction::Finish);
    assert_eq!(driver.plan, vec![4]);
}

#[test]
fn a_run_of_no_steps_ends_after_the_first_burst() {
    let opt = ShortBurstsOptimizer::new(params(0, 0), 2, 5, false);
    let (mut driver, action): (BurstDriver<Plan>, DriverAction) = opt.start(vec![1, 1], 3);
    assert!(matches!(action, DriverAction::Broadcast { .. }));
    assert_eq!(driver.step(DriverEvent::Sent), DriverAction::Finish);
    assert_eq!(driver.plan, vec![1, 1]);
}

#[test]
fn each_round_starts_without_a_plan_of_its_own() {
    let mut driver = collecting(1, 5, 100, false);
    assert_eq!(
        driver.step(result(Some(vec![2]), Some(9))),
        DriverAction::Broadcast { n_steps: 5, with_plan: true, report: false }
    );
    assert_eq!(driver.step(DriverEvent::Sent), DriverAction::Await);
    assert!(!driver.updated);
    assert_eq!(driver.received, 0);
    assert_eq!(
        driver.step(result(None, None)),
        DriverAction::Broadcast { n_steps: 5, with_plan: false, report: false }
    );
    assert_eq!(driver.plan, vec![2]);
}

#[test]
fn events_out_of_turn_change_nothing() {
    let mut worker: BurstWorker<Plan> = BurstWorker::new(vec![3, 4]);
    worker.step(WorkerEvent::Job(OptJobPacket::burst(None, 2)));
    assert!(matches!(worker.step(WorkerEvent::Rejected), WorkerAction::Seed));
    assert!(matches!(
        worker.step(WorkerEvent::Accepted { score: 9, plan: vec![1] }),
        WorkerAction::Seed
    ));
    assert!(matches!(
        worker.step(WorkerEvent::Job(OptJobPacket::stop())),
        WorkerAction::Seed
    ));
    assert_eq!(worker.phase, WorkerPhase::Seeding);
    assert!(worker.best.is_none());
    assert!(matches!(worker.step(WorkerEvent::Seeded(5)), WorkerAction::Propose));
    assert!(matches!(worker.step(WorkerEvent::Seeded(50)), WorkerAction::Propose));
    assert!(matches!(
        worker.step(WorkerEvent::Job(OptJobPacket::stop())),
        WorkerAction::Propose
    ));
    assert_eq!(worker.phase, WorkerPhase::Running);
    assert_eq!(worker.best_score, 5);
    assert_eq!(worker.step, 0);

    let mut driver = collecting(2, 5, 100, false);
    assert_eq!(driver.step(DriverEvent::Sent), DriverAction::Await);
    assert_eq!(driver.received, 0);
    driver.step(result(None, None));
    let order = driver.step(result(None, None));
    assert_eq!(driver.step(result(Some(vec![5]), Some(1))), order);
    assert_eq!(driver.plan, vec![1, 1]);
    assert_eq!(driver.phase, DriverPhase::Dispatching);
}

#[test]
fn a_pool_without_workers_never_gets_anywhere() {
    let opt = ShortBurstsOptimizer::new(params(10, 0), 0, 5, true);
    let (mut driver, first): (BurstDriver<Plan>, DriverAction) = opt.start(vec![1], 0);
    let again = DriverAction::Broadcast { n_steps: 5, with_plan: false, report: false };
    assert_eq!(first, again);
    for _ in 0..10 {
        assert_eq!(driver.step(DriverEvent::Sent), again);
        assert_eq!(driver.step, 0);
        assert_eq!(driver.phase, DriverPhase::Dispatching);
    }
}
