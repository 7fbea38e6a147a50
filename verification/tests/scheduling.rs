use adas_scheduler::ranking::{ranks_after_exec, sort_keys, RankKey, RankRule};
use adas_scheduler::scheduler::{
    assign_cores, BuiltScheduler, CoreView, EnvProposedAlgorithm, GlobalEdf, Mllf, PartitionedEdf, PreemptTest,
    ProposedAlgorithm, Scheduler, SchedulerKind,
};
use adas_scheduler::simulator::SimConfig;
use adas_scheduler::task::{Task, Weather, FIXED_ONE};

fn task(id: usize, deadline: i64, remaining: i64, priority: u8) -> Task {
    Task {
        id,
        arrival_time: 0,
        execution_time: remaining,
        remaining_time: remaining,
        priority,
        obstacle_distance: 80 * FIXED_ONE,
        deadline,
        start_time: None,
        finish_time: None,
        dropped: false,
        dropped_at: None,
        context_switches_incurred: 0,
        completed: false,
    }
}

fn idle(n: usize) -> Vec<CoreView> {
    vec![CoreView { running_task: None, is_switching: false }; n]
}

fn key(idx: usize, score: i128, ttc: i128) -> RankKey {
    RankKey { idx, score, ttc }
}

#[test]
fn by_score_orders_by_score_then_index() {
    assert!(ranks_after_exec(RankRule::ByScore, &key(0, 5, 0), &key(1, 3, 0)));
    assert!(!ranks_after_exec(RankRule::ByScore, &key(1, 3, 0), &key(0, 5, 0)));
    assert!(ranks_after_exec(RankRule::ByScore, &key(2, 3, 0), &key(1, 3, 0)));
    let sorted = sort_keys(&vec![key(2, 3, 0), key(0, 9, 0), key(1, 3, 0), key(3, -1, 0)], RankRule::ByScore);
    let order: Vec<usize> = sorted.iter().map(|k| k.idx).collect();
    assert_eq!(order, vec![3, 1, 2, 0]);
}

#[test]
fn tie_band_prefers_shorter_time_to_collision() {
    let band = RankRule::TieBand { band: 10 };
    // within the band, a much shorter TTC ranks first
    assert!(ranks_after_exec(band, &key(0, 1, 5_000_000), &key(1, 8, 1_000_000)));
    assert!(!ranks_after_exec(band, &key(1, 8, 1_000_000), &key(0, 1, 5_000_000)));
    // outside the band the score decides
    assert!(!ranks_after_exec(band, &key(0, 1, 5_000_000), &key(1, 50, 1_000_000)));
    // close TTCs: score, then index
    assert!(ranks_after_exec(band, &key(0, 4, 1_000_000), &key(1, 2, 1_200_000)));
    assert!(ranks_after_exec(band, &key(3, 4, 1_000_000), &key(1, 4, 1_000_000)));
}

#[test]
fn global_edf_runs_earliest_deadlines() {
    let tasks = vec![task(0, 10 * FIXED_ONE, FIXED_ONE, 3), task(1, 5 * FIXED_ONE, FIXED_ONE, 3),
        task(2, 7 * FIXED_ONE, FIXED_ONE, 3)];
    let config = SimConfig::default();
    let desired = GlobalEdf.schedule(&[0, 1, 2], &idle(2), &tasks, 0, &config);
    assert_eq!(desired, vec![Some(1), Some(2)]);
    assert_eq!(GlobalEdf.rank_tasks(&[0, 1, 2], &tasks, 0, &config), vec![1, 2, 0]);
}

#[test]
fn global_edf_preempts_for_an_earlier_deadline() {
    let tasks = vec![task(0, 10 * FIXED_ONE, 4 * FIXED_ONE, 3), task(1, 3 * FIXED_ONE, FIXED_ONE, 3)];
    let cores = vec![CoreView { running_task: Some(0), is_switching: false }];
    let config = SimConfig { num_cores: 1, ..SimConfig::default() };
    let desired = GlobalEdf.schedule(&[0, 1], &cores, &tasks, 0, &config);
    assert_eq!(desired, vec![Some(1)]);
    // a switching core keeps its task
    let switching = vec![CoreView { running_task: Some(0), is_switching: true }];
    assert_eq!(GlobalEdf.schedule(&[0, 1], &switching, &tasks, 0, &config), vec![Some(0)]);
}

#[test]
fn mllf_runs_least_laxity() {
    // laxities at t = 0: 6, 1, 3
    let tasks = vec![task(0, 8 * FIXED_ONE, 2 * FIXED_ONE, 3), task(1, 4 * FIXED_ONE, 3 * FIXED_ONE, 3),
        task(2, 4 * FIXED_ONE, FIXED_ONE, 3)];
    let config = SimConfig::default();
    assert_eq!(Mllf.rank_tasks(&[0, 1, 2], &tasks, 0, &config), vec![1, 2, 0]);
    assert_eq!(Mllf.schedule(&[0, 1, 2], &idle(2), &tasks, 0, &config), vec![Some(1), Some(2)]);
}

#[test]
fn negative_laxity_tasks_are_not_ranked_by_relaxation() {
    // task 1 cannot make its deadline any more
    let tasks = vec![task(0, 8 * FIXED_ONE, 2 * FIXED_ONE, 3), task(1, FIXED_ONE, 3 * FIXED_ONE, 1)];
    let config = SimConfig::default();
    assert_eq!(ProposedAlgorithm.rank_tasks(&[0, 1], &tasks, 0, &config), vec![0]);
    assert_eq!(EnvProposedAlgorithm.rank_tasks(&[0, 1], &tasks, 0, &config), vec![0]);
    assert_eq!(ProposedAlgorithm.rank_tasks(&[1], &tasks, 0, &config), Vec::<usize>::new());
}

#[test]
fn relaxation_ranks_low_scores_first() {
    // equal TTC windows, laxities 0 and 10: R = 0 + 5 and 7.5 + 1
    let mut a = task(0, 12 * FIXED_ONE, 12 * FIXED_ONE, 5);
    let mut b = task(1, 12 * FIXED_ONE, 2 * FIXED_ONE, 1);
    a.arrival_time = 0;
    b.arrival_time = 0;
    let tasks = vec![a, b];
    let config = SimConfig::default();
    assert_eq!(ProposedAlgorithm.rank_tasks(&[0, 1], &tasks, 0, &config), vec![0, 1]);
}

#[test]
fn partitioned_edf_binds_round_robin() {
    let tasks = vec![task(0, 9 * FIXED_ONE, FIXED_ONE, 3), task(1, 5 * FIXED_ONE, FIXED_ONE, 3),
        task(2, 4 * FIXED_ONE, FIXED_ONE, 3)];
    let config = SimConfig::default();
    let mut s = PartitionedEdf::default();
    for i in 0..3 {
        s.on_task_arrival(i, &tasks, &config);
    }
    // tasks 0 and 2 are bound to core 0, task 1 to core 1
    assert_eq!(s.schedule(&[0, 1, 2], &idle(2), &tasks, 0, &config), vec![Some(2), Some(1)]);
    assert_eq!(s.schedule(&[0], &idle(2), &tasks, 0, &config), vec![Some(0), None]);
}

#[test]
fn assign_cores_fills_idle_cores_in_rank_order() {
    let tasks = vec![task(0, 9 * FIXED_ONE, FIXED_ONE, 3), task(1, 5 * FIXED_ONE, FIXED_ONE, 3),
        task(2, 4 * FIXED_ONE, FIXED_ONE, 3)];
    let d = assign_cores(vec![2, 0, 1], &idle(2), &tasks, 0, PreemptTest::EarlierDeadline);
    assert_eq!(d, vec![Some(2), Some(0)]);
    let d3 = assign_cores(vec![1], &idle(3), &tasks, 0, PreemptTest::EarlierDeadline);
    assert_eq!(d3, vec![Some(1), None, None]);
}

#[test]
fn built_schedulers_match_their_kind() {
    assert!(matches!(SchedulerKind::GlobalEdf.build(), BuiltScheduler::GlobalEdf(_)));
    assert!(matches!(SchedulerKind::PartitionedEdf.build(), BuiltScheduler::PartitionedEdf(_)));
    assert!(matches!(SchedulerKind::Mllf.build(), BuiltScheduler::Mllf(_)));
    assert!(matches!(SchedulerKind::Proposed.build(), BuiltScheduler::Proposed(_)));
    assert!(matches!(SchedulerKind::EnvProposed.build(), BuiltScheduler::EnvProposed(_)));
    let cfg = SimConfig { weather: Weather::Rainy, ..SimConfig::default() };
    let tasks = vec![task(0, 9 * FIXED_ONE, FIXED_ONE, 3)];
    let mut s = SchedulerKind::GlobalEdf.build();
    assert_eq!(s.schedule(&[0], &idle(1), &tasks, 0, &cfg), vec![Some(0)]);
}

#[test]
fn relaxation_preempts_only_for_an_urgent_candidate() {
    let config = SimConfig::default();
    let running = vec![CoreView { running_task: Some(0), is_switching: false }];
    // candidate laxity 9 is not below 2 + 2 * 1: the running task stays
    let relaxed = vec![task(0, 20 * FIXED_ONE, 2 * FIXED_ONE, 3), task(1, 10 * FIXED_ONE, FIXED_ONE, 3)];
    assert_eq!(ProposedAlgorithm.schedule(&[0, 1], &running, &relaxed, 0, &config), vec![Some(0)]);
    // candidate laxity 3 is below 4: it takes the core
    let urgent = vec![task(0, 20 * FIXED_ONE, 2 * FIXED_ONE, 3), task(1, 4 * FIXED_ONE, FIXED_ONE, 3)];
    assert_eq!(ProposedAlgorithm.schedule(&[0, 1], &running, &urgent, 0, &config), vec![Some(1)]);
    assert_eq!(EnvProposedAlgorithm.schedule(&[0, 1], &running, &urgent, 0, &config), vec![Some(1)]);
}

#[test]
fn hybrid_keeps_locked_cores_and_places_only_feasible_tasks() {
    let config = SimConfig::default();
    // core 0 is switching to task 0; core 1 is idle; task 1 cannot make its
    // deadline any more, task 2 can
    let cores = vec![
        CoreView { running_task: Some(0), is_switching: true },
        CoreView { running_task: None, is_switching: false },
    ];
    let tasks = vec![
        task(0, 20 * FIXED_ONE, 2 * FIXED_ONE, 3),
        task(1, FIXED_ONE, 3 * FIXED_ONE, 1),
        task(2, 30 * FIXED_ONE, FIXED_ONE, 5),
    ];
    for desired in [
        ProposedAlgorithm.schedule(&[0, 1, 2], &cores, &tasks, 0, &config),
        EnvProposedAlgorithm.schedule(&[0, 1, 2], &cores, &tasks, 0, &config),
    ] {
        assert_eq!(desired, vec![Some(0), Some(2)]);
    }
}

#[test]
fn a_running_task_is_not_handed_to_a_second_core() {
    let tasks = vec![Task { arrival_time: 0, ..task(0, 100 * FIXED_ONE, 2 * FIXED_ONE, 1) }];
    let cores = vec![
        CoreView { running_task: Some(0), is_switching: false },
        CoreView { running_task: None, is_switching: false },
    ];
    let cfg = SimConfig::default();
    assert_eq!(GlobalEdf.schedule(&[0], &cores, &tasks, FIXED_ONE, &cfg), vec![Some(0), None]);
    assert_eq!(Mllf.schedule(&[0], &cores, &tasks, FIXED_ONE, &cfg), vec![Some(0), None]);
    assert_eq!(ProposedAlgorithm.schedule(&[0], &cores, &tasks, FIXED_ONE, &cfg), vec![Some(0), None]);
}

#[test]
fn a_task_listed_twice_is_scheduled_once() {
    let tasks = vec![task(0, 5 * FIXED_ONE, FIXED_ONE, 3), task(1, 9 * FIXED_ONE, FIXED_ONE, 3)];
    let cfg = SimConfig::default();
    assert_eq!(GlobalEdf.schedule(&[0, 0, 1], &idle(2), &tasks, 0, &cfg), vec![Some(0), Some(1)]);
    assert_eq!(Mllf.schedule(&[1, 0, 1, 0], &idle(2), &tasks, 0, &cfg), vec![Some(0), Some(1)]);
    assert_eq!(ProposedAlgorithm.schedule(&[0, 0], &idle(2), &tasks, 0, &cfg), vec![Some(0), None]);
    let mut p = PartitionedEdf::default();
    p.on_task_arrival(0, &tasks, &cfg);
    p.on_task_arrival(1, &tasks, &cfg);
    assert_eq!(p.schedule(&[1, 0, 1], &idle(2), &tasks, 0, &cfg), vec![Some(0), Some(1)]);
}
