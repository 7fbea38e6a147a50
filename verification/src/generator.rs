//! Building aperiodic task sets: random draws of the task parameters and
//! the construction of tasks from them.

use vstd::prelude::*;
use rand::rngs::StdRng;
use crate::sampling::{Sample, random_in_range};
use crate::task::{Task, Weather, FIXED_ONE, FALLBACK_TTC, compute_deadline, spec_deadline};

verus! {

pub const DEFAULT_TASKS_PER_ROUND: usize = 30;

/// Arrival times are drawn from [0, 30] ticks.
pub const ARRIVAL_MIN: i64 = 0;
pub const ARRIVAL_MAX: i64 = 30_000_000;
/// Execution times are clamped to [1, 13] ticks.
pub const EXEC_MIN: i64 = 1_000_000;
pub const EXEC_MAX: i64 = 13_000_000;
/// Obstacle distances are drawn from [50, 150] metres.
pub const OBSTACLE_DIST_MIN: i64 = 50_000_000;
pub const OBSTACLE_DIST_MAX: i64 = 150_000_000;

/// The independent random parameters of one task.
#[derive(Debug, Clone, Copy)]
pub struct TaskDraw {
    pub arrival_time: i64,
    pub priority: u8,
    pub obstacle_distance: i64,
}

/// The draw lies in the generator's ranges.
pub open spec fn draw_in_bounds(d: TaskDraw) -> bool {
    &&& ARRIVAL_MIN <= d.arrival_time <= ARRIVAL_MAX
    &&& 1 <= d.priority <= 5
    &&& OBSTACLE_DIST_MIN <= d.obstacle_distance <= OBSTACLE_DIST_MAX
}

/// The three samples behind one task's baseline parameters.
#[derive(Debug, Clone, Copy)]
pub struct DrawnTask {
    pub arrival: Sample,
    pub priority: Sample,
    pub obstacle: Sample,
}

/// Each sample was drawn from the generator's range for its parameter, and
/// lies in it.
pub open spec fn drawn_in_ranges(d: DrawnTask) -> bool {
    &&& d.arrival.lo() == ARRIVAL_MIN && d.arrival.hi() == ARRIVAL_MAX
    &&& d.priority.lo() == 1 && d.priority.hi() == 5
    &&& d.obstacle.lo() == OBSTACLE_DIST_MIN && d.obstacle.hi() == OBSTACLE_DIST_MAX
    &&& d.arrival.within()
    &&& d.priority.within()
    &&& d.obstacle.within()
}

impl DrawnTask {
    /// The parameters the samples give.
    pub open spec fn spec_draw(self) -> TaskDraw {
        TaskDraw {
            arrival_time: self.arrival.value(),
            priority: self.priority.value() as u8,
            obstacle_distance: self.obstacle.value(),
        }
    }

    /// The parameters the samples give.
    #[verifier::when_used_as_spec(spec_draw)]
    pub fn draw(self) -> (d: TaskDraw)
        requires
            0 <= self.priority.value() <= u8::MAX,
        ensures
            d == self.spec_draw(),
            drawn_in_ranges(self) ==> draw_in_bounds(d),
    {
        TaskDraw {
            arrival_time: self.arrival.value(),
            priority: self.priority.value() as u8,
            obstacle_distance: self.obstacle.value(),
        }
    }
}

/// Draws the baseline parameters of one task, in this order: arrival time
/// from [0, 30] ticks, priority from 1..=5, obstacle distance from
/// [50, 150] metres.
pub fn draw_task(rng: &mut StdRng) -> (d: DrawnTask)
    ensures
        drawn_in_ranges(d),
{
    let arrival = random_in_range(rng, ARRIVAL_MIN, ARRIVAL_MAX);
    let priority = random_in_range(rng, 1, 5);
    let obstacle = random_in_range(rng, OBSTACLE_DIST_MIN, OBSTACLE_DIST_MAX);
    DrawnTask { arrival, priority, obstacle }
}

/// Draws the baseline parameters of `n` tasks, in order.
pub fn draw_tasks(rng: &mut StdRng, n: usize) -> (draws: Vec<DrawnTask>)
    ensures
        draws@.len() == n,
        forall|i: int| 0 <= i < n ==> drawn_in_ranges(#[trigger] draws@[i]),
{
    let mut draws: Vec<DrawnTask> = Vec::new();
    let mut i: usize = 0;
    while i < n
        invariant
            i <= n,
            draws@.len() == i,
            forall|q: int| 0 <= q < i ==> drawn_in_ranges(#[trigger] draws@[q]),
        decreases n - i,
    {
        let d = draw_task(rng);
        draws.push(d);
        i = i + 1;
    }
    draws
}

/// The scheduling window of a task: from arrival to deadline, at least one tick.
pub open spec fn window_of(arrival_time: int, deadline: int) -> int {
    if deadline - arrival_time > FIXED_ONE { deadline - arrival_time } else { FIXED_ONE as int }
}

/// Execution time `C = utilization * window`, clamped to [1, 13] ticks.
pub open spec fn execution_of(utilization: int, window: int) -> int {
    let c = utilization * window / (FIXED_ONE as int);
    if c < EXEC_MIN { EXEC_MIN as int } else if c > EXEC_MAX { EXEC_MAX as int } else { c }
}

/// The deadline a draw gets under the weather and tightness: arrival plus
/// the time to collision (see `compute_deadline`).
pub open spec fn draw_deadline(d: TaskDraw, weather: Weather, tightness: int, deadline: int) -> bool {
    deadline == spec_deadline(d.arrival_time as int, d.obstacle_distance as int, weather, tightness)
}

/// The task built from a draw and a utilization share.
pub open spec fn task_from_draw(id: usize, d: TaskDraw, utilization: int, weather: Weather, tightness: int, tk: Task) -> bool {
    &&& draw_deadline(d, weather, tightness, tk.deadline as int)
    &&& tk.id == id
    &&& tk.arrival_time == d.arrival_time
    &&& tk.priority == d.priority
    &&& tk.obstacle_distance == d.obstacle_distance
    &&& tk.execution_time == execution_of(utilization, window_of(d.arrival_time as int, tk.deadline as int))
    &&& tk.remaining_time == tk.execution_time
    &&& tk.start_time is None
    &&& tk.finish_time is None
    &&& !tk.dropped
    &&& tk.dropped_at is None
    &&& tk.context_switches_incurred == 0
    &&& !tk.completed
}

/// Builds a task from its draw and utilization share: the deadline from the
/// time to collision, and `C = u * window` clamped to the execution bounds.
pub fn build_task(id: usize, d: TaskDraw, utilization: i64, weather: Weather, tightness: i64) -> (tk: Task)
    requires
        d.obstacle_distance >= 0,
        tightness > 0,
        d.arrival_time <= i64::MAX - FALLBACK_TTC,
    ensures
        task_from_draw(id, d, utilization as int, weather, tightness as int, tk),
        tk.arrival_time <= tk.deadline,
        EXEC_MIN <= tk.execution_time <= EXEC_MAX,
{
    let deadline = compute_deadline(d.arrival_time, d.obstacle_distance, weather, tightness);
    // the window is positive
    let span: i64 = deadline - d.arrival_time;
    let window: i64 = if span > FIXED_ONE { span } else { FIXED_ONE };
    proof {
        assert(-0x8000_0000_0000_0000int * 0x8000_0000_0000_0000int <= utilization * window
            <= 0x8000_0000_0000_0000int * 0x8000_0000_0000_0000int) by (nonlinear_arith)
            requires
                i64::MIN <= utilization <= i64::MAX,
                0 < window <= i64::MAX;
    }
    let product: i128 = utilization as i128 * window as i128;
    let execution_time: i64 = if product < EXEC_MIN as i128 * FIXED_ONE as i128 {
        proof {
            vstd::arithmetic::div_mod::lemma_div_is_ordered(product as int, EXEC_MIN * FIXED_ONE - 1, FIXED_ONE as int);
            assert((EXEC_MIN * FIXED_ONE - 1) / (FIXED_ONE as int) == EXEC_MIN - 1);
        }
        EXEC_MIN
    } else if product > EXEC_MAX as i128 * FIXED_ONE as i128 + (FIXED_ONE as i128 - 1) {
        proof {
            vstd::arithmetic::div_mod::lemma_div_is_ordered(EXEC_MAX * FIXED_ONE + FIXED_ONE, product as int, FIXED_ONE as int);
            assert((EXEC_MAX * FIXED_ONE + FIXED_ONE) / (FIXED_ONE as int) == EXEC_MAX + 1);
        }
        EXEC_MAX
    } else {
        proof {
            vstd::arithmetic::div_mod::lemma_div_is_ordered(EXEC_MIN * FIXED_ONE, product as int, FIXED_ONE as int);
            vstd::arithmetic::div_mod::lemma_div_is_ordered(product as int, EXEC_MAX * FIXED_ONE + FIXED_ONE - 1, FIXED_ONE as int);
            assert((EXEC_MIN * FIXED_ONE) / (FIXED_ONE as int) == EXEC_MIN);
            assert((EXEC_MAX * FIXED_ONE + FIXED_ONE - 1) / (FIXED_ONE as int) == EXEC_MAX);
        }
        (product / FIXED_ONE as i128) as i64
    };
    Task {
        id,
        arrival_time: d.arrival_time,
        execution_time,
        remaining_time: execution_time,
        priority: d.priority,
        obstacle_distance: d.obstacle_distance,
        deadline,
        start_time: None,
        finish_time: None,
        dropped: false,
        dropped_at: None,
        context_switches_incurred: 0,
        completed: false,
    }
}

/// Builds one task per draw, task `i` from draw `i` and utilization `i`.
pub fn build_tasks(draws: &Vec<TaskDraw>, utilizations: &Vec<i64>, weather: Weather, tightness: i64) -> (tasks: Vec<Task>)
    requires
        draws@.len() == utilizations@.len(),
        forall|i: int| 0 <= i < draws@.len() ==> draw_in_bounds(#[trigger] draws@[i]),
        tightness > 0,
    ensures
        tasks@.len() == draws@.len(),
        forall|i: int| 0 <= i < tasks@.len() ==> task_from_draw(i as usize, draws@[i], utilizations@[i] as int,
            weather, tightness as int, #[trigger] tasks@[i]),
{
    let mut tasks: Vec<Task> = Vec::new();
    let mut i: usize = 0;
    while i < draws.len()
        invariant
            i <= draws@.len() == utilizations@.len(),
            forall|q: int| 0 <= q < draws@.len() ==> draw_in_bounds(#[trigger] draws@[q]),
            tightness > 0,
            tasks@.len() == i,
            forall|q: int| 0 <= q < i ==> task_from_draw(q as usize, draws@[q], utilizations@[q] as int,
                weather, tightness as int, #[trigger] tasks@[q]),
        decreases draws@.len() - i,
    {
        assert(draw_in_bounds(draws@[i as int]));
        let tk = build_task(i, draws[i], utilizations[i], weather, tightness);
        tasks.push(tk);
        i = i + 1;
    }
    tasks
}

} // verus!
