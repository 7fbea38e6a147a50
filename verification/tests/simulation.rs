use adas_scheduler::generator::{build_tasks, draw_tasks, TaskDraw, DEFAULT_TASKS_PER_ROUND};
use adas_scheduler::scheduler::{GlobalEdf, SchedulerKind};
use adas_scheduler::simulator::{run_simulation, task_status, DropReason, SimConfig, SimEvent, TaskStatus};
use adas_scheduler::task::{compute_deadline, Task, Weather, FIXED_ONE};
use rand::rngs::StdRng;
use rand::{Rng, SeedableRng};

fn fixed(x: f64) -> i64 {
    (x * FIXED_ONE as f64).round() as i64
}

/// A task set of `n` tasks whose utilizations (UUnifast) sum to `target`.
fn task_set(seed: u64, n: usize, weather: Weather, tightness: f64, target: f64) -> Vec<Task> {
    let mut rng = StdRng::seed_from_u64(seed);
    let draws: Vec<TaskDraw> = draw_tasks(&mut rng, n).iter().map(|d| d.draw()).collect();
    let mut sum_u = target;
    let mut utilizations = Vec::with_capacity(n);
    for i in 1..n {
        let next_sum_u = sum_u * rng.gen::<f64>().powf(1.0 / (n - i) as f64);
        utilizations.push(fixed(sum_u - next_sum_u));
        sum_u = next_sum_u;
    }
    utilizations.push(fixed(sum_u));
    build_tasks(&draws, &utilizations, weather, fixed(tightness))
}

/// A task set drawn as in the first generator: arrival, execution time,
/// priority and obstacle distance each uniform in its range.
fn uniform_task_set(seed: u64, n: usize, weather: Weather, tightness: f64) -> Vec<Task> {
    let mut rng = StdRng::seed_from_u64(seed);
    let mut tasks = Vec::with_capacity(n);
    for id in 0..n {
        let arrival_time = fixed(rng.gen_range(0.0..=30.0));
        let execution_time = fixed(rng.gen_range(1.0..=13.0));
        let priority = rng.gen_range(1..=5u8);
        let obstacle_distance = fixed(rng.gen_range(50.0..=150.0));
        let deadline = compute_deadline(arrival_time, obstacle_distance, weather, fixed(tightness));
        tasks.push(Task {
            id,
            arrival_time,
            execution_time,
            remaining_time: execution_time,
            priority,
            obstacle_distance,
            deadline,
            start_time: None,
            finish_time: None,
            dropped: false,
            dropped_at: None,
            context_switches_incurred: 0,
            completed: false,
        });
    }
    tasks
}

#[test]
fn simulation_terminates_and_accounts_for_every_task() {
    let mut tasks = uniform_task_set(123, 30, Weather::Sunny, 1.0);
    let config = SimConfig { num_cores: 2, weather: Weather::Sunny, tightness: FIXED_ONE, ..Default::default() };
    let (_events, result) = run_simulation(&mut tasks, &config, &mut SchedulerKind::Proposed.build());

    assert_eq!(result.total_tasks, 30);
    for tk in &tasks {
        assert!(tk.completed || tk.dropped, "task {} neither completed nor dropped", tk.id);
    }
    assert_eq!(result.completed_on_time + result.deadline_miss_count, 30);
}

#[test]
fn runs_under_contention_without_panicking() {
    let mut tasks = uniform_task_set(99, 30, Weather::Snowy, 2.0);
    let config = SimConfig { num_cores: 2, weather: Weather::Snowy, tightness: 2 * FIXED_ONE, ..Default::default() };
    let (_events, result) = run_simulation(&mut tasks, &config, &mut SchedulerKind::Proposed.build());
    assert_eq!(result.total_tasks, 30);
}

#[test]
fn four_core_config_runs() {
    let mut tasks = uniform_task_set(55, 30, Weather::Rainy, 1.5);
    let config = SimConfig { num_cores: 4, weather: Weather::Rainy, tightness: fixed(1.5), ..Default::default() };
    let (_events, result) = run_simulation(&mut tasks, &config, &mut SchedulerKind::Proposed.build());
    assert_eq!(result.total_tasks, 30);
}

#[test]
fn utilization_split_sets_run_under_global_edf() {
    let mut tasks = task_set(123, 30, Weather::Sunny, 1.0, 1.5);
    let config = SimConfig { num_cores: 2, weather: Weather::Sunny, tightness: FIXED_ONE, ..Default::default() };
    let (_events, result) = run_simulation(&mut tasks, &config, &mut GlobalEdf);
    assert_eq!(result.total_tasks, 30);
    for tk in &tasks {
        assert!(tk.completed || tk.dropped);
    }
}

#[test]
fn every_scheduler_accounts_for_every_task() {
    for kind in SchedulerKind::all_kinds() {
        let mut tasks = task_set(7, DEFAULT_TASKS_PER_ROUND, Weather::Rainy, 1.2, 2.0);
        let config = SimConfig { num_cores: 2, weather: Weather::Rainy, tightness: fixed(1.2), ..Default::default() };
        let mut scheduler = kind.build();
        let (_events, result) = run_simulation(&mut tasks, &config, &mut scheduler);
        assert_eq!(result.total_tasks, DEFAULT_TASKS_PER_ROUND);
        assert_eq!(result.completed_on_time + result.deadline_miss_count, DEFAULT_TASKS_PER_ROUND);
        for tk in &tasks {
            assert!(tk.completed || tk.dropped);
        }
    }
}

fn hand_task(id: usize, arrival: i64, exec: i64, deadline: i64, priority: u8) -> Task {
    Task {
        id,
        arrival_time: arrival * FIXED_ONE,
        execution_time: exec * FIXED_ONE,
        remaining_time: exec * FIXED_ONE,
        priority,
        obstacle_distance: 80 * FIXED_ONE,
        deadline: deadline * FIXED_ONE,
        start_time: None,
        finish_time: None,
        dropped: false,
        dropped_at: None,
        context_switches_incurred: 0,
        completed: false,
    }
}

#[test]
fn single_task_pays_one_switch_and_completes() {
    let mut tasks = vec![hand_task(0, 0, 2, 10, 2)];
    let config = SimConfig { num_cores: 1, ..Default::default() };
    let (events, result) = run_simulation(&mut tasks, &config, &mut GlobalEdf);
    assert_eq!(
        events,
        vec![
            SimEvent::Started { time: 0, task_id: 0, core: 0, preemptive: false },
            SimEvent::Completed { time: 3 * FIXED_ONE, task_id: 0 },
        ]
    );
    assert_eq!(result.completed_on_time, 1);
    assert_eq!(result.deadline_miss_count, 0);
    assert_eq!(result.total_context_switches, 1);
    assert_eq!(result.makespan, 3 * FIXED_ONE);
    assert_eq!(result.tasks_by_priority, [0, 1, 0, 0, 0]);
    assert_eq!(tasks[0].start_time, Some(0));
    assert_eq!(tasks[0].finish_time, Some(3 * FIXED_ONE));
    assert!(tasks[0].completed);
}

#[test]
fn hopeless_task_is_dropped_at_once() {
    let mut tasks = vec![hand_task(0, 0, 5, 3, 4)];
    let config = SimConfig { num_cores: 1, ..Default::default() };
    let (events, result) = run_simulation(&mut tasks, &config, &mut GlobalEdf);
    assert_eq!(events, vec![SimEvent::Dropped { time: 0, task_id: 0, reason: DropReason::NegativeLaxity }]);
    assert_eq!(result.dropped_count, 1);
    assert_eq!(result.deadline_miss_count, 1);
    assert_eq!(result.misses_by_priority, [0, 0, 0, 1, 0]);
    assert_eq!(result.makespan, 0);
    assert_eq!(result.total_context_switches, 0);
    assert!(tasks[0].dropped);
    assert_eq!(tasks[0].dropped_at, Some(0));
}

#[test]
fn relaxed_arrival_preempts_the_running_task() {
    // at t = 1 the arrival has laxity 48 > 5 + 2 * 2
    let mut tasks = vec![hand_task(0, 0, 2, 50, 1), hand_task(1, 1, 1, 50, 1)];
    let config = SimConfig { num_cores: 1, ..Default::default() };
    let (events, _result) = run_simulation(&mut tasks, &config, &mut GlobalEdf);
    assert_eq!(events[0], SimEvent::Started { time: 0, task_id: 0, core: 0, preemptive: false });
    assert_eq!(events[1], SimEvent::Preempted { time: FIXED_ONE, task_id: 0, core: 0 });
    assert_eq!(events[2], SimEvent::Started { time: FIXED_ONE, task_id: 1, core: 0, preemptive: true });
    assert_eq!(tasks[1].start_time, Some(FIXED_ONE));
}

#[test]
fn urgent_arrival_waits_and_is_dropped() {
    // at t = 1 the arrival has laxity 3, not above 5 + 2 * 3: no preemption
    let mut tasks = vec![hand_task(0, 0, 3, 20, 2), hand_task(1, 1, 1, 5, 1)];
    let config = SimConfig { num_cores: 1, ..Default::default() };
    let (events, result) = run_simulation(&mut tasks, &config, &mut GlobalEdf);
    assert_eq!(
        events,
        vec![
            SimEvent::Started { time: 0, task_id: 0, core: 0, preemptive: false },
            SimEvent::Completed { time: 4 * FIXED_ONE, task_id: 0 },
            SimEvent::Started { time: 4 * FIXED_ONE, task_id: 1, core: 0, preemptive: false },
            SimEvent::Dropped { time: 5 * FIXED_ONE, task_id: 1, reason: DropReason::NegativeLaxity },
        ]
    );
    assert_eq!(result.completed_on_time, 1);
    assert_eq!(result.dropped_count, 1);
    assert_eq!(result.total_context_switches, 2);
    assert_eq!(result.makespan, 4 * FIXED_ONE);
    assert_eq!(tasks[1].start_time, Some(4 * FIXED_ONE));
}

#[test]
fn summary_counts_add_up() {
    let mut tasks = task_set(5, 40, Weather::Snowy, 2.46, 3.0);
    let config = SimConfig { num_cores: 2, weather: Weather::Snowy, tightness: fixed(2.46), ..Default::default() };
    let (_events, r) = run_simulation(&mut tasks, &config, &mut SchedulerKind::EnvProposed.build());
    assert_eq!(r.completed_on_time + r.deadline_miss_count, r.total_tasks);
    assert!(r.dropped_count <= r.deadline_miss_count);
    assert_eq!(r.tasks_by_priority.iter().sum::<usize>(), 40);
    assert_eq!(r.misses_by_priority.iter().sum::<usize>(), r.deadline_miss_count);
}

#[test]
fn edf_runs_are_reproducible() {
    let config = SimConfig { num_cores: 2, weather: Weather::Rainy, tightness: fixed(1.3), ..Default::default() };
    let mut a = task_set(17, 30, Weather::Rainy, 1.3, 2.0);
    let mut b = a.clone();
    let (ea, ra) = run_simulation(&mut a, &config, &mut GlobalEdf);
    let (eb, rb) = run_simulation(&mut b, &config, &mut GlobalEdf);
    assert_eq!(ea, eb);
    assert_eq!(ra.completed_on_time, rb.completed_on_time);
    assert_eq!(ra.total_context_switches, rb.total_context_switches);
    assert_eq!(ra.makespan, rb.makespan);
    for (x, y) in a.iter().zip(b.iter()) {
        assert_eq!(x.finish_time, y.finish_time);
        assert_eq!(x.dropped, y.dropped);
    }
}

#[test]
fn started_events_count_the_context_switches() {
    let mut tasks = task_set(21, 30, Weather::Sunny, 1.0, 2.5);
    let config = SimConfig { num_cores: 2, ..Default::default() };
    let (events, result) = run_simulation(&mut tasks, &config, &mut SchedulerKind::Mllf.build());
    let started = events.iter().filter(|e| matches!(e, SimEvent::Started { .. })).count();
    assert_eq!(started as u32, result.total_context_switches);
    for tk in &tasks {
        if let Some(s) = tk.start_time {
            assert!(s >= tk.arrival_time);
        }
        if tk.dropped {
            let at = tk.dropped_at.unwrap();
            assert!(tk.deadline - at - tk.remaining_time < 0);
        }
        if tk.completed {
            assert!(tk.finish_time.is_some() && tk.remaining_time <= 0);
        }
    }
}

#[test]
fn without_cores_every_task_is_dropped() {
    let mut tasks = vec![hand_task(0, 0, 2, 10, 1), hand_task(1, 1, 1, 6, 3)];
    let config = SimConfig { num_cores: 0, ..Default::default() };
    let (events, result) = run_simulation(&mut tasks, &config, &mut GlobalEdf);
    assert_eq!(events.len(), 2);
    for e in &events {
        assert!(matches!(e, SimEvent::Dropped { reason: DropReason::NegativeLaxity, .. }));
    }
    assert_eq!(result.completed_on_time, 0);
    assert_eq!(result.dropped_count, 2);
    assert_eq!(result.deadline_miss_count, 2);
    assert_eq!(result.total_context_switches, 0);
    assert_eq!(result.makespan, 0);
    for tk in &tasks {
        assert!(tk.dropped);
        assert_eq!(tk.start_time, None);
    }
}

#[test]
fn every_task_ends_with_one_consistent_outcome() {
    for kind in SchedulerKind::all_kinds() {
        let mut tasks = task_set(31, 30, Weather::Snowy, 2.0, 2.5);
        let config = SimConfig { num_cores: 2, weather: Weather::Snowy, tightness: fixed(2.0), ..Default::default() };
        let (_events, _result) = run_simulation(&mut tasks, &config, &mut kind.build());
        for tk in &tasks {
            assert!(tk.completed != tk.dropped, "task {}", tk.id);
            if tk.completed {
                let s = tk.start_time.unwrap();
                let f = tk.finish_time.unwrap();
                assert!(tk.arrival_time <= s && s < f);
            } else {
                let x = tk.dropped_at.unwrap();
                assert_eq!(tk.finish_time, None);
                assert!((tk.deadline as i128) - (x as i128) - (tk.remaining_time as i128) < 0);
            }
        }
    }
}

#[test]
fn switch_counters_and_preemptions_add_up() {
    for kind in SchedulerKind::all_kinds() {
        let mut tasks = task_set(8, 30, Weather::Rainy, 1.0, 3.0);
        let config = SimConfig { num_cores: 2, weather: Weather::Rainy, tightness: FIXED_ONE, ..Default::default() };
        let (events, result) = run_simulation(&mut tasks, &config, &mut kind.build());
        let per_task: u32 = tasks.iter().map(|tk| tk.context_switches_incurred).sum();
        assert_eq!(per_task, result.total_context_switches);
        let preempted = events.iter().filter(|e| matches!(e, SimEvent::Preempted { .. })).count();
        let preemptive = events.iter().filter(|e| matches!(e, SimEvent::Started { preemptive: true, .. })).count();
        assert_eq!(preempted, preemptive);
    }
    // two relaxed tasks on one core keep displacing each other
    let mut tasks = vec![hand_task(0, 0, 2, 50, 1), hand_task(1, 1, 1, 50, 1)];
    let config = SimConfig { num_cores: 1, ..Default::default() };
    let (events, result) = run_simulation(&mut tasks, &config, &mut GlobalEdf);
    let preempted = events.iter().filter(|e| matches!(e, SimEvent::Preempted { .. })).count();
    let preemptive = events.iter().filter(|e| matches!(e, SimEvent::Started { preemptive: true, .. })).count();
    assert!(preempted > 1);
    assert_eq!(preempted, preemptive);
    assert_eq!(tasks[0].context_switches_incurred + tasks[1].context_switches_incurred, result.total_context_switches);
}

#[test]
fn makespan_and_completion_events_match_finish_times() {
    for kind in SchedulerKind::all_kinds() {
        let mut tasks = task_set(44, 30, Weather::Sunny, 1.3, 2.0);
        let config = SimConfig { num_cores: 2, weather: Weather::Sunny, tightness: fixed(1.3), ..Default::default() };
        let (events, result) = run_simulation(&mut tasks, &config, &mut kind.build());
        let latest = tasks.iter().filter_map(|tk| tk.finish_time).max().unwrap_or(0);
        assert_eq!(result.makespan, latest.max(0));
        for e in &events {
            if let SimEvent::Completed { time, task_id } = e {
                assert!(tasks.iter().any(|tk| tk.id == *task_id && tk.finish_time == Some(*time)));
            }
        }
    }
}

#[test]
fn task_status_follows_the_outcome() {
    let mut tasks = vec![hand_task(0, 0, 2, 10, 2), hand_task(1, 0, 5, 3, 4)];
    let config = SimConfig { num_cores: 1, ..Default::default() };
    let (_events, result) = run_simulation(&mut tasks, &config, &mut GlobalEdf);
    assert_eq!(task_status(&tasks[0]), TaskStatus::OnTime);
    assert_eq!(task_status(&tasks[1]), TaskStatus::Dropped);
    assert_eq!(TaskStatus::OnTime.as_str(), "ON-TIME");
    assert_eq!(TaskStatus::Dropped.as_str(), "DROPPED");
    let on_time = tasks.iter().filter(|tk| task_status(tk) == TaskStatus::OnTime).count();
    assert_eq!(on_time, result.completed_on_time);
    let late = Task { finish_time: Some(12 * FIXED_ONE), completed: true, ..hand_task(2, 0, 2, 10, 1) };
    assert_eq!(task_status(&late), TaskStatus::Late);
    assert_eq!(TaskStatus::Late.as_str(), "LATE");
    assert_eq!(task_status(&hand_task(3, 0, 2, 10, 1)), TaskStatus::Unfinished);
    assert_eq!(TaskStatus::Unfinished.as_str(), "UNFINISHED");
}
