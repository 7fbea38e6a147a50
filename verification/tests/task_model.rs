use adas_scheduler::task::{
    compute_deadline, effective_distance, floor_sqrt, normalize_laxities, relaxation, theta, time_to_collision,
    Task, Weather, FALLBACK_TTC, FIXED_ONE,
};

fn task(deadline: i64, remaining: i64) -> Task {
    Task {
        id: 0,
        arrival_time: 0,
        execution_time: remaining,
        remaining_time: remaining,
        priority: 3,
        obstacle_distance: 80 * FIXED_ONE,
        deadline,
        start_time: None,
        finish_time: None,
        dropped: false,
        dropped_at: None,
        context_switches_incurred: 0,
        completed: false,
    }
}

#[test]
fn weather_lambdas_and_names() {
    assert_eq!(Weather::Sunny.lambda(), 0);
    assert_eq!(Weather::Rainy.lambda(), 300_000);
    assert_eq!(Weather::Snowy.lambda(), 600_000);
    assert_eq!(Weather::Sunny.as_str(), "sunny");
    assert_eq!(Weather::Rainy.as_str(), "rainy");
    assert_eq!(Weather::Snowy.as_str(), "snowy");
    assert_eq!(Weather::all(), [Weather::Sunny, Weather::Rainy, Weather::Snowy]);
}

#[test]
fn laxity_is_deadline_minus_now_minus_remaining() {
    let tk = task(10 * FIXED_ONE, 3 * FIXED_ONE);
    assert_eq!(tk.laxity(2 * FIXED_ONE), 5 * FIXED_ONE as i128);
    assert_eq!(tk.laxity(9 * FIXED_ONE), -2 * FIXED_ONE as i128);
}

#[test]
fn effective_distance_divides_by_tightness() {
    assert_eq!(effective_distance(100 * FIXED_ONE, 2 * FIXED_ONE), 50 * FIXED_ONE as i128);
    assert_eq!(effective_distance(50 * FIXED_ONE, 500_000), 100 * FIXED_ONE as i128);
    assert_eq!(effective_distance(0, 3 * FIXED_ONE), 0);
}

#[test]
fn floor_sqrt_exact_values() {
    assert_eq!(floor_sqrt(0), 0);
    assert_eq!(floor_sqrt(1), 1);
    assert_eq!(floor_sqrt(15), 3);
    assert_eq!(floor_sqrt(16), 4);
    assert_eq!(floor_sqrt(400_000_000_000_000), 20_000_000);
}

#[test]
fn time_to_collision_values() {
    // 50 m in sunny weather: (30 - sqrt(900 - 500)) / 5 = 2 s
    assert_eq!(time_to_collision(50 * FIXED_ONE as i128, 0), Some(2 * FIXED_ONE));
    assert_eq!(time_to_collision(50 * FIXED_ONE as i128, 300_000), Some(1_870_834));
    assert_eq!(time_to_collision(50 * FIXED_ONE as i128, 600_000), Some(1_771_243));
    // 100 m sunny: no real solution
    assert_eq!(time_to_collision(100 * FIXED_ONE as i128, 0), None);
    // no braking model at lambda >= 1
    assert_eq!(time_to_collision(10 * FIXED_ONE as i128, FIXED_ONE), None);
    assert_eq!(time_to_collision(0, 0), Some(0));
    // at 90 m the vehicle just stops at the obstacle: the vertex v0 / a = 6 s
    assert_eq!(time_to_collision(90 * FIXED_ONE as i128, 0), Some(6 * FIXED_ONE));
    for d in [1i128, 10, 45, 89] {
        assert!(time_to_collision(d * FIXED_ONE as i128, 0).unwrap() <= 6 * FIXED_ONE);
    }
    // a negative lambda brakes harder
    assert_eq!(time_to_collision(40 * FIXED_ONE as i128, -FIXED_ONE), Some(2 * FIXED_ONE));
}

#[test]
fn compute_deadline_values() {
    assert_eq!(compute_deadline(0, 50 * FIXED_ONE, Weather::Sunny, FIXED_ONE), 2 * FIXED_ONE);
    assert_eq!(compute_deadline(3 * FIXED_ONE, 50 * FIXED_ONE, Weather::Sunny, FIXED_ONE), 5 * FIXED_ONE);
    // the fallback when no collision solution exists
    assert_eq!(compute_deadline(FIXED_ONE, 100 * FIXED_ONE, Weather::Sunny, FIXED_ONE), FIXED_ONE + FALLBACK_TTC);
    // tightness 2 halves the distance
    assert_eq!(compute_deadline(0, 100 * FIXED_ONE, Weather::Sunny, 2 * FIXED_ONE), 2 * FIXED_ONE);
    // tightness 0.5 doubles it
    assert_eq!(compute_deadline(0, 50 * FIXED_ONE, Weather::Sunny, 500_000), FALLBACK_TTC);
    assert_eq!(compute_deadline(0, 50 * FIXED_ONE, Weather::Rainy, FIXED_ONE), 1_870_834);
}

#[test]
fn deadline_never_later_with_higher_tightness() {
    for w in Weather::all() {
        for d in [50, 60, 75, 90, 120, 150] {
            let mut last = i64::MAX;
            for i in 0..=10 {
                let t = 500_000 + 196_000 * i;
                let dl = compute_deadline(0, d * FIXED_ONE, w, t);
                assert!(dl <= last);
                assert!(dl >= 0 && dl <= FALLBACK_TTC);
                last = dl;
            }
        }
    }
}

#[test]
fn deadline_never_earlier_with_farther_obstacle() {
    for w in Weather::all() {
        let mut last = 0;
        for d in 0..200 {
            let dl = compute_deadline(0, d * FIXED_ONE, w, FIXED_ONE);
            assert!(dl >= last);
            last = dl;
        }
    }
}

#[test]
fn theta_is_one_and_a_half_plus_lambda() {
    assert_eq!(theta(0), 1_500_000);
    assert_eq!(theta(300_000), 1_800_000);
    assert_eq!(theta(600_000), 2_100_000);
}

#[test]
fn normalize_laxities_spreads_to_priority_scale() {
    let l = [0i128, 5 * FIXED_ONE as i128, 10 * FIXED_ONE as i128];
    assert_eq!(normalize_laxities(&l), vec![0, 2_500_000, 5_000_000]);
    let same = [7i128, 7, 7];
    assert_eq!(normalize_laxities(&same), vec![2_500_000, 2_500_000, 2_500_000]);
    assert_eq!(normalize_laxities(&[]), Vec::<i64>::new());
    let neg = [-4i128, 0, 4];
    assert_eq!(normalize_laxities(&neg), vec![0, 2_500_000, 5_000_000]);
}

#[test]
fn relaxation_is_theta_times_norm_plus_priority() {
    assert_eq!(relaxation(1_500_000, 2_000_000, 3_000_000), 6_000_000);
    assert_eq!(relaxation(2_100_000, 0, 1_000_000), 1_000_000);
    // rounded down
    assert_eq!(relaxation(1_500_000, -1, 0), -2);
}

#[test]
fn worse_weather_never_delays_a_deadline_beyond_rounding() {
    // the rounding of the square root can cost one unit
    assert_eq!(compute_deadline(0, 23_331, Weather::Sunny, FIXED_ONE), 777);
    assert_eq!(compute_deadline(0, 23_331, Weather::Rainy, FIXED_ONE), 778);
    for d in (0..200_000_000).step_by(777_777) {
        let sunny = compute_deadline(0, d, Weather::Sunny, FIXED_ONE);
        let rainy = compute_deadline(0, d, Weather::Rainy, FIXED_ONE);
        let snowy = compute_deadline(0, d, Weather::Snowy, FIXED_ONE);
        assert!(rainy <= sunny + 1);
        assert!(snowy <= rainy + 1);
    }
}
