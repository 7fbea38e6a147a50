use adas_scheduler::experiment::{sweep_plan, tightness_sweep_points, TIGHTNESS_STEPS};
use adas_scheduler::generator::{
    build_task, build_tasks, draw_task, draw_tasks, TaskDraw, ARRIVAL_MAX, ARRIVAL_MIN, DEFAULT_TASKS_PER_ROUND,
    EXEC_MAX, EXEC_MIN, OBSTACLE_DIST_MAX, OBSTACLE_DIST_MIN,
};
use adas_scheduler::task::{Task, Weather, FALLBACK_TTC, FIXED_ONE};
use rand::rngs::StdRng;
use rand::{Rng, SeedableRng};

fn fixed(x: f64) -> i64 {
    (x * FIXED_ONE as f64).round() as i64
}

/// Draws `n` tasks and spreads `target` utilization over them (UUnifast).
fn generate(rng: &mut StdRng, n: usize, weather: Weather, tightness: f64, target: f64) -> Vec<Task> {
    let draws: Vec<TaskDraw> = draw_tasks(rng, n).iter().map(|d| d.draw()).collect();
    let mut sum_u = target;
    let mut utilizations = Vec::with_capacity(n);
    for i in 1..n {
        let next_sum_u = sum_u * rng.gen::<f64>().powf(1.0 / (n - i) as f64);
        utilizations.push(fixed(sum_u - next_sum_u));
        sum_u = next_sum_u;
    }
    utilizations.push(fixed(sum_u));
    build_tasks(&draws, &utilizations, weather, fixed(tightness))
}

#[test]
fn generator_generates_correct_count() {
    let mut rng = StdRng::seed_from_u64(42);
    let tasks = generate(&mut rng, DEFAULT_TASKS_PER_ROUND, Weather::Sunny, 1.0, 1.5);
    assert_eq!(tasks.len(), DEFAULT_TASKS_PER_ROUND);
}

#[test]
fn generator_respects_parameter_bounds() {
    let mut rng = StdRng::seed_from_u64(7);
    let tasks = generate(&mut rng, 1000, Weather::Rainy, 1.2, 2.0);
    for t in &tasks {
        assert!(t.arrival_time >= ARRIVAL_MIN && t.arrival_time <= ARRIVAL_MAX);
        assert!(t.execution_time >= EXEC_MIN && t.execution_time <= EXEC_MAX);
        assert!(t.priority >= 1 && t.priority <= 5);
        assert!(t.obstacle_distance >= OBSTACLE_DIST_MIN && t.obstacle_distance <= OBSTACLE_DIST_MAX);
        assert!(t.deadline >= t.arrival_time);
    }
}

#[test]
fn draws_stay_in_range_and_vary() {
    let mut rng = StdRng::seed_from_u64(3);
    let mut arrivals = Vec::new();
    for _ in 0..200 {
        let drawn = draw_task(&mut rng);
        assert_eq!((drawn.arrival.lo(), drawn.arrival.hi()), (ARRIVAL_MIN, ARRIVAL_MAX));
        assert_eq!((drawn.priority.lo(), drawn.priority.hi()), (1, 5));
        assert_eq!((drawn.obstacle.lo(), drawn.obstacle.hi()), (OBSTACLE_DIST_MIN, OBSTACLE_DIST_MAX));
        let d = drawn.draw();
        assert_eq!(d.arrival_time, drawn.arrival.value());
        assert_eq!(d.priority as i64, drawn.priority.value());
        assert_eq!(d.obstacle_distance, drawn.obstacle.value());
        assert!(d.arrival_time >= ARRIVAL_MIN && d.arrival_time <= ARRIVAL_MAX);
        assert!(d.priority >= 1 && d.priority <= 5);
        assert!(d.obstacle_distance >= OBSTACLE_DIST_MIN && d.obstacle_distance <= OBSTACLE_DIST_MAX);
        arrivals.push(d.arrival_time);
    }
    arrivals.sort();
    arrivals.dedup();
    assert!(arrivals.len() > 100);
}

#[test]
fn same_seed_same_draws() {
    let a = draw_tasks(&mut StdRng::seed_from_u64(11), 20);
    let b = draw_tasks(&mut StdRng::seed_from_u64(11), 20);
    assert_eq!(a.len(), 20);
    for (x, y) in a.iter().zip(b.iter()) {
        assert_eq!(x.arrival.value(), y.arrival.value());
        assert_eq!(x.priority.value(), y.priority.value());
        assert_eq!(x.obstacle.value(), y.obstacle.value());
    }
}

#[test]
fn build_task_derives_deadline_and_clamped_execution() {
    let d = TaskDraw { arrival_time: 0, priority: 3, obstacle_distance: 50 * FIXED_ONE };
    let tk = build_task(4, d, 500_000, Weather::Sunny, FIXED_ONE);
    assert_eq!(tk.id, 4);
    assert_eq!(tk.deadline, 2 * FIXED_ONE);
    assert_eq!(tk.execution_time, FIXED_ONE);
    assert_eq!(tk.remaining_time, FIXED_ONE);
    assert_eq!(tk.priority, 3);
    assert!(!tk.completed && !tk.dropped);
    assert_eq!(tk.start_time, None);
    // below the lower bound
    assert_eq!(build_task(0, d, 250_000, Weather::Sunny, FIXED_ONE).execution_time, EXEC_MIN);
    // above the upper bound
    assert_eq!(build_task(0, d, 10 * FIXED_ONE, Weather::Sunny, FIXED_ONE).execution_time, EXEC_MAX);
    // no collision solution: the fallback window
    let far = TaskDraw { arrival_time: 2 * FIXED_ONE, priority: 1, obstacle_distance: 100 * FIXED_ONE };
    let tk = build_task(1, far, 100_000, Weather::Sunny, FIXED_ONE);
    assert_eq!(tk.deadline, 2 * FIXED_ONE + FALLBACK_TTC);
    assert_eq!(tk.execution_time, 5 * FIXED_ONE);
}

#[test]
fn build_tasks_numbers_tasks_in_order() {
    let draws = vec![
        TaskDraw { arrival_time: 0, priority: 1, obstacle_distance: 50 * FIXED_ONE },
        TaskDraw { arrival_time: FIXED_ONE, priority: 5, obstacle_distance: 60 * FIXED_ONE },
    ];
    let tasks = build_tasks(&draws, &vec![FIXED_ONE, FIXED_ONE], Weather::Snowy, FIXED_ONE);
    assert_eq!(tasks.len(), 2);
    assert_eq!(tasks[0].id, 0);
    assert_eq!(tasks[1].id, 1);
    assert_eq!(tasks[1].arrival_time, FIXED_ONE);
    assert_eq!(tasks[1].priority, 5);
}

#[test]
fn tightness_points_span_the_range() {
    let pts = tightness_sweep_points();
    assert_eq!(pts.len(), TIGHTNESS_STEPS + 1);
    assert_eq!(pts[0], 500_000);
    assert_eq!(pts[5], 1_480_000);
    assert_eq!(pts[10], 2_460_000);
}

#[test]
fn sweep_plan_covers_cores_weather_and_tightness() {
    let plan = sweep_plan();
    assert_eq!(plan.len(), 66);
    assert_eq!(plan[0].num_cores, 2);
    assert_eq!(plan[0].weather, Weather::Sunny);
    assert_eq!(plan[0].tightness, 500_000);
    assert_eq!(plan[0].base_seed, 1000);
    assert_eq!(plan[12].weather, Weather::Rainy);
    assert_eq!(plan[12].tightness, 696_000);
    assert_eq!(plan[12].base_seed, 121_000);
    assert_eq!(plan[65].num_cores, 4);
    assert_eq!(plan[65].weather, Weather::Snowy);
    assert_eq!(plan[65].tightness, 2_460_000);
}
